//! Character-level helpers shared by the line grammars and the output parsers.
//!
//! Text is handled as `Vec<char>`, whose view is the `Seq<char>` that the
//! contracts speak of.
use vstd::prelude::*;
use vstd::std_specs::iter::IteratorSpec;

verus! {

/// Unicode `White_Space`, the class that `char::is_whitespace`, `str::trim`
/// and the regex class `\s` use.
pub open spec fn is_space(c: char) -> bool {
    c == ' ' || ('\t' <= c && c <= '\r') || c == '\u{85}' || c == '\u{a0}' || c == '\u{1680}' || (
    '\u{2000}' <= c && c <= '\u{200a}') || c == '\u{2028}' || c == '\u{2029}' || c == '\u{202f}'
        || c == '\u{205f}' || c == '\u{3000}'
}

pub open spec fn is_digit(c: char) -> bool {
    '0' <= c && c <= '9'
}

/// End of the run of white space that starts at `i`.
pub open spec fn space_end(s: Seq<char>, i: int) -> int
    decreases s.len() - i,
{
    if 0 <= i < s.len() && is_space(s[i]) {
        space_end(s, i + 1)
    } else {
        i
    }
}

/// End of the run of ASCII digits that starts at `i`.
pub open spec fn digit_end(s: Seq<char>, i: int) -> int
    decreases s.len() - i,
{
    if 0 <= i < s.len() && is_digit(s[i]) {
        digit_end(s, i + 1)
    } else {
        i
    }
}

/// Start of the run of white space that ends at `j`.
pub open spec fn space_start(s: Seq<char>, j: int) -> int
    decreases j,
{
    if 0 < j <= s.len() && is_space(s[j - 1]) {
        space_start(s, j - 1)
    } else {
        j
    }
}

/// Index of the first `c` at or after `i`, or the length when there is none.
pub open spec fn find_from(s: Seq<char>, i: int, c: char) -> int
    decreases s.len() - i,
{
    if i < 0 || i >= s.len() {
        s.len() as int
    } else if s[i] == c {
        i
    } else {
        find_from(s, i + 1, c)
    }
}

/// `s` without leading and trailing white space.
pub open spec fn trim(s: Seq<char>) -> Seq<char> {
    let lo = space_end(s, 0);
    if lo >= s.len() {
        Seq::empty()
    } else {
        s.subrange(lo, space_start(s, s.len() as int))
    }
}

/// `needle` occurs in `hay` as a contiguous run.
pub open spec fn occurs_in(needle: Seq<char>, hay: Seq<char>) -> bool {
    exists|i: int| 0 <= i <= hay.len() - needle.len() && #[trigger] hay.subrange(i, i + needle.len()) == needle
}

/// Decimal value of a run of ASCII digits.
pub open spec fn digits_value(s: Seq<char>) -> nat
    decreases s.len(),
{
    if s.len() == 0 {
        0
    } else {
        digits_value(s.drop_last()) * 10 + (s.last() as nat - '0' as nat) as nat
    }
}

pub proof fn lemma_space_end_bounds(s: Seq<char>, i: int)
    requires
        0 <= i <= s.len(),
    ensures
        i <= space_end(s, i) <= s.len(),
        forall|k: int| i <= k < space_end(s, i) ==> is_space(#[trigger] s[k]),
        space_end(s, i) < s.len() ==> !is_space(s[space_end(s, i)]),
    decreases s.len() - i,
{
    if i < s.len() && is_space(s[i]) {
        lemma_space_end_bounds(s, i + 1);
    }
}

pub proof fn lemma_digit_end_bounds(s: Seq<char>, i: int)
    requires
        0 <= i <= s.len(),
    ensures
        i <= digit_end(s, i) <= s.len(),
        forall|k: int| i <= k < digit_end(s, i) ==> is_digit(#[trigger] s[k]),
        digit_end(s, i) < s.len() ==> !is_digit(s[digit_end(s, i)]),
    decreases s.len() - i,
{
    if i < s.len() && is_digit(s[i]) {
        lemma_digit_end_bounds(s, i + 1);
    }
}

pub proof fn lemma_space_start_bounds(s: Seq<char>, j: int)
    requires
        0 <= j <= s.len(),
    ensures
        0 <= space_start(s, j) <= j,
        forall|k: int| space_start(s, j) <= k < j ==> is_space(#[trigger] s[k]),
        space_start(s, j) > 0 ==> !is_space(s[space_start(s, j) - 1]),
    decreases j,
{
    if j > 0 && is_space(s[j - 1]) {
        lemma_space_start_bounds(s, j - 1);
    }
}

pub proof fn lemma_find_from_bounds(s: Seq<char>, i: int, c: char)
    requires
        0 <= i <= s.len(),
    ensures
        i <= find_from(s, i, c) <= s.len(),
        forall|k: int| i <= k < find_from(s, i, c) ==> #[trigger] s[k] != c,
        find_from(s, i, c) < s.len() ==> s[find_from(s, i, c)] == c,
    decreases s.len() - i,
{
    if i < s.len() && s[i] != c {
        lemma_find_from_bounds(s, i + 1, c);
    }
}

/// A run that is white space up to `j`, with no white space at `j`, ends at `j`.
pub proof fn lemma_space_end_at(s: Seq<char>, i: int, j: int)
    requires
        0 <= i <= j <= s.len(),
        forall|k: int| i <= k < j ==> is_space(#[trigger] s[k]),
        j < s.len() ==> !is_space(s[j]),
    ensures
        space_end(s, i) == j,
    decreases j - i,
{
    if i < j {
        lemma_space_end_at(s, i + 1, j);
    }
}

pub proof fn lemma_digit_end_at(s: Seq<char>, i: int, j: int)
    requires
        0 <= i <= j <= s.len(),
        forall|k: int| i <= k < j ==> is_digit(#[trigger] s[k]),
        j < s.len() ==> !is_digit(s[j]),
    ensures
        digit_end(s, i) == j,
    decreases j - i,
{
    if i < j {
        lemma_digit_end_at(s, i + 1, j);
    }
}

pub proof fn lemma_find_from_at(s: Seq<char>, i: int, j: int, c: char)
    requires
        0 <= i <= j <= s.len(),
        forall|k: int| i <= k < j ==> #[trigger] s[k] != c,
        j < s.len() ==> s[j] == c,
    ensures
        find_from(s, i, c) == j,
    decreases j - i,
{
    if i < j {
        lemma_find_from_at(s, i + 1, j, c);
    }
}

pub proof fn lemma_space_start_at(s: Seq<char>, i: int, j: int)
    requires
        0 <= i <= j <= s.len(),
        forall|k: int| i <= k < j ==> is_space(#[trigger] s[k]),
        i > 0 ==> !is_space(s[i - 1]),
    ensures
        space_start(s, j) == i,
    decreases j - i,
{
    if i < j {
        lemma_space_start_at(s, i, j - 1);
    }
}

/// White space in front of a text does not change its trimmed form.
pub proof fn lemma_trim_after_spaces(a: Seq<char>, b: Seq<char>)
    requires
        forall|k: int| 0 <= k < a.len() ==> is_space(#[trigger] a[k]),
        trim(b).len() > 0,
    ensures
        trim(a + b) == trim(b),
{
    let x = a + b;
    let n = a.len() as int;
    lemma_space_end_bounds(b, 0);
    lemma_space_start_bounds(b, b.len() as int);
    let j0 = space_end(b, 0);
    let t0 = space_start(b, b.len() as int);
    assert(j0 < b.len());
    assert forall|k: int| 0 <= k < n + j0 implies is_space(#[trigger] x[k]) by {
        if k < n {
            assert(x[k] == a[k]);
        } else {
            assert(x[k] == b[k - n]);
        }
    }
    assert(x[n + j0] == b[j0]);
    lemma_space_end_at(x, 0, n + j0);
    if t0 <= j0 {
        assert(is_space(b[j0]));
    }
    assert forall|k: int| n + t0 <= k < x.len() implies is_space(#[trigger] x[k]) by {
        assert(x[k] == b[k - n]);
    }
    assert(x[n + t0 - 1] == b[t0 - 1]);
    lemma_space_start_at(x, n + t0, x.len() as int);
    assert(x.subrange(n + j0, n + t0) =~= b.subrange(j0, t0));
}

/// The characters of `s`, in order.
pub(crate) fn chars_of(s: &str) -> (r: Vec<char>)
    ensures
        r@ == s@,
{
    broadcast use vstd::string::group_string_axioms;

    let mut it = s.chars();
    let mut r: Vec<char> = Vec::new();
    loop
        invariant
            r@ + it.remaining() == s@,
            it.obeys_prophetic_iter_laws(),
        decreases s@.len() - r@.len(),
    {
        let ghost before = it.remaining();
        match it.next() {
            Some(c) => {
                r.push(c);
                assert(before == seq![c] + it.remaining());
                assert(r@ + it.remaining() =~= s@);
            },
            None => {
                assert(r@ =~= s@);
                return r;
            },
        }
    }
}

/// Relies on `FromIterator<char>` for `String`: the characters of `v`, in order.
#[verifier::external_body]
pub(crate) fn string_of(v: &[char]) -> (r: String)
    ensures
        r@ == v@,
{
    v.iter().collect()
}

pub fn is_space_char(c: char) -> (r: bool)
    ensures
        r == is_space(c),
{
    c == ' ' || ('\t' <= c && c <= '\r') || c == '\u{85}' || c == '\u{a0}' || c == '\u{1680}' || (
    '\u{2000}' <= c && c <= '\u{200a}') || c == '\u{2028}' || c == '\u{2029}' || c == '\u{202f}'
        || c == '\u{205f}' || c == '\u{3000}'
}

pub fn is_digit_char(c: char) -> (r: bool)
    ensures
        r == is_digit(c),
{
    '0' <= c && c <= '9'
}

pub fn skip_space(s: &Vec<char>, i: usize) -> (r: usize)
    requires
        i <= s@.len(),
    ensures
        r == space_end(s@, i as int),
        i <= r <= s@.len(),
{
    let mut j: usize = i;
    while j < s.len() && is_space_char(s[j])
        invariant
            i <= j <= s@.len(),
            space_end(s@, j as int) == space_end(s@, i as int),
        decreases s@.len() - j,
    {
        j = j + 1;
    }
    proof {
        lemma_space_end_bounds(s@, i as int);
    }
    j
}

pub fn skip_digits(s: &Vec<char>, i: usize) -> (r: usize)
    requires
        i <= s@.len(),
    ensures
        r == digit_end(s@, i as int),
        i <= r <= s@.len(),
{
    let mut j: usize = i;
    while j < s.len() && is_digit_char(s[j])
        invariant
            i <= j <= s@.len(),
            digit_end(s@, j as int) == digit_end(s@, i as int),
        decreases s@.len() - j,
    {
        j = j + 1;
    }
    proof {
        lemma_digit_end_bounds(s@, i as int);
    }
    j
}

pub fn back_over_space(s: &Vec<char>, j: usize) -> (r: usize)
    requires
        j <= s@.len(),
    ensures
        r == space_start(s@, j as int),
        r <= j,
{
    let mut k: usize = j;
    while k > 0 && is_space_char(s[k - 1])
        invariant
            k <= j <= s@.len(),
            space_start(s@, k as int) == space_start(s@, j as int),
        decreases k,
    {
        k = k - 1;
    }
    proof {
        lemma_space_start_bounds(s@, j as int);
    }
    k
}

pub fn find_char(s: &Vec<char>, i: usize, c: char) -> (r: usize)
    requires
        i <= s@.len(),
    ensures
        r == find_from(s@, i as int, c),
        i <= r <= s@.len(),
{
    let mut j: usize = i;
    while j < s.len() && s[j] != c
        invariant
            i <= j <= s@.len(),
            find_from(s@, j as int, c) == find_from(s@, i as int, c),
        decreases s@.len() - j,
    {
        j = j + 1;
    }
    proof {
        lemma_find_from_bounds(s@, i as int, c);
    }
    j
}

/// The characters of `s` from `i` to `j`.
pub fn slice_of(s: &Vec<char>, i: usize, j: usize) -> (r: Vec<char>)
    requires
        i <= j <= s@.len(),
    ensures
        r@ == s@.subrange(i as int, j as int),
{
    let mut r: Vec<char> = Vec::new();
    let mut k: usize = i;
    while k < j
        invariant
            i <= k <= j <= s@.len(),
            r@ == s@.subrange(i as int, k as int),
        decreases j - k,
    {
        r.push(s[k]);
        k = k + 1;
        assert(r@ =~= s@.subrange(i as int, k as int));
    }
    r
}

/// `s` from `i` to `j`, without leading and trailing white space.
pub fn trimmed_slice(s: &Vec<char>, i: usize, j: usize) -> (r: Vec<char>)
    requires
        i <= j <= s@.len(),
    ensures
        r@ == trim(s@.subrange(i as int, j as int)),
{
    let part = slice_of(s, i, j);
    let lo = skip_space(&part, 0);
    if lo >= part.len() {
        assert(trim(part@) =~= Seq::<char>::empty());
        return Vec::new();
    }
    let hi = back_over_space(&part, part.len());
    proof {
        lemma_space_end_bounds(part@, 0);
        lemma_space_start_bounds(part@, part@.len() as int);
        if hi < lo {
            assert(is_space(part@[lo as int]));
        }
    }
    slice_of(&part, lo, hi)
}

/// Whether `c` occurs in `s` at or after `i`.
pub fn has_char_from(s: &Vec<char>, i: usize, c: char) -> (r: bool)
    requires
        i <= s@.len(),
    ensures
        r == (exists|k: int| i <= k < s@.len() && s@[k] == c),
{
    let j = find_char(s, i, c);
    proof {
        lemma_find_from_bounds(s@, i as int, c);
    }
    j < s.len()
}

/// Whether `needle` occurs in `hay` as a contiguous run.
pub fn contains_run(hay: &Vec<char>, needle: &Vec<char>) -> (r: bool)
    ensures
        r == occurs_in(needle@, hay@),
{
    if needle.len() > hay.len() {
        return false;
    }
    let last: usize = hay.len() - needle.len();
    let mut i: usize = 0;
    loop
        invariant
            last == hay@.len() - needle@.len(),
            hay@.len() <= usize::MAX,
            i <= last,
            forall|p: int| 0 <= p < i ==> #[trigger] hay@.subrange(p, p + needle@.len()) != needle@,
        decreases last + 1 - i,
    {
        let mut k: usize = 0;
        let mut same = true;
        while same && k < needle.len()
            invariant
                i <= last,
                needle@.len() <= hay@.len(),
                hay@.len() <= usize::MAX,
                last == hay@.len() - needle@.len(),
                k <= needle@.len(),
                forall|q: int| 0 <= q < k ==> hay@[i + q] == needle@[q],
                !same ==> k < needle@.len() && hay@[i + k] != needle@[k as int],
            decreases needle@.len() - k + (if same { 1int } else { 0int }),
        {
            let pos: usize = i + k;
            if hay[pos] != needle[k] {
                same = false;
            } else {
                k = k + 1;
            }
        }
        if same {
            assert(hay@.subrange(i as int, i + needle@.len()) =~= needle@);
            return true;
        }
        assert(hay@.subrange(i as int, i + needle@.len())[k as int] == hay@[i + k]);
        if i == last {
            return false;
        }
        i = i + 1;
    }
}

/// Whether `s` begins with `prefix`.
pub fn starts_with_run(s: &Vec<char>, prefix: &Vec<char>) -> (r: bool)
    ensures
        r == prefix@.is_prefix_of(s@),
{
    if prefix.len() > s.len() {
        return false;
    }
    let mut k: usize = 0;
    while k < prefix.len()
        invariant
            prefix@.len() <= s@.len(),
            k <= prefix@.len(),
            forall|q: int| 0 <= q < k ==> s@[q] == prefix@[q],
        decreases prefix@.len() - k,
    {
        if s[k] != prefix[k] {
            return false;
        }
        k = k + 1;
    }
    true
}

/// End of the run of characters other than white space that starts at `i`.
pub open spec fn word_end(s: Seq<char>, i: int) -> int
    decreases s.len() - i,
{
    if 0 <= i < s.len() && !is_space(s[i]) {
        word_end(s, i + 1)
    } else {
        i
    }
}

/// The lines of `s` from index `i` on: each ends at a line feed, and a line
/// feed at the very end opens no further line.
pub open spec fn lines_from(s: Seq<char>, i: int) -> Seq<Seq<char>>
    decreases s.len() + 1 - i,
{
    if i < 0 || i >= s.len() {
        Seq::empty()
    } else {
        // `find_from` stays within `i..=s.len()`; the bounds only make that plain.
        let f = find_from(s, i, '\n');
        let j = if f < i {
            i
        } else if f > s.len() {
            s.len() as int
        } else {
            f
        };
        seq![s.subrange(i, j)] + lines_from(s, j + 1)
    }
}

/// The white-space separated words of `s` from index `i` on.
pub open spec fn words_from(s: Seq<char>, i: int) -> Seq<Seq<char>>
    decreases s.len() + 1 - i,
{
    let a = space_end(s, i);
    if i < 0 || a >= s.len() || a < i {
        Seq::empty()
    } else {
        let b = word_end(s, a);
        if b <= a || b > s.len() {
            Seq::empty()
        } else {
            seq![s.subrange(a, b)] + words_from(s, b)
        }
    }
}

pub open spec fn words(s: Seq<char>) -> Seq<Seq<char>> {
    words_from(s, 0)
}

/// The words of `ws` joined by single spaces.
pub open spec fn joined(ws: Seq<Seq<char>>) -> Seq<char>
    decreases ws.len(),
{
    if ws.len() == 0 {
        Seq::empty()
    } else if ws.len() == 1 {
        ws[0]
    } else {
        joined(ws.drop_last()) + seq![' '] + ws.last()
    }
}

pub proof fn lemma_word_end_bounds(s: Seq<char>, i: int)
    requires
        0 <= i <= s.len(),
    ensures
        i <= word_end(s, i) <= s.len(),
    decreases s.len() - i,
{
    if i < s.len() && !is_space(s[i]) {
        lemma_word_end_bounds(s, i + 1);
    }
}

pub fn skip_word(s: &Vec<char>, i: usize) -> (r: usize)
    requires
        i <= s@.len(),
    ensures
        r == word_end(s@, i as int),
        i <= r <= s@.len(),
{
    let mut j: usize = i;
    while j < s.len() && !is_space_char(s[j])
        invariant
            i <= j <= s@.len(),
            word_end(s@, j as int) == word_end(s@, i as int),
        decreases s@.len() - j,
    {
        j = j + 1;
    }
    proof {
        lemma_word_end_bounds(s@, i as int);
    }
    j
}

/// The lines of `s`, in order.
pub fn split_lines(s: &Vec<char>) -> (r: Vec<Vec<char>>)
    ensures
        r@.len() == lines_from(s@, 0).len(),
        forall|k: int| 0 <= k < r@.len() ==> #[trigger] r@[k]@ == lines_from(s@, 0)[k],
{
    let ghost all = lines_from(s@, 0);
    let mut r: Vec<Vec<char>> = Vec::new();
    let mut i: usize = 0;
    while i < s.len()
        invariant
            i <= s@.len(),
            all == lines_from(s@, 0),
            all == r@.map_values(|v: Vec<char>| v@) + lines_from(s@, i as int),
        decreases s@.len() - i,
    {
        let j = find_char(s, i, '\n');
        let piece = slice_of(s, i, j);
        proof {
            lemma_find_from_bounds(s@, i as int, '\n');
        }
        let ghost before = r@;
        r.push(piece);
        let next: usize = if j < s.len() { j + 1 } else { j };
        assert(lines_from(s@, next as int) == lines_from(s@, j + 1));
        assert(r@.map_values(|v: Vec<char>| v@) =~= before.map_values(|v: Vec<char>| v@).push(piece@));
        assert(all =~= r@.map_values(|v: Vec<char>| v@) + lines_from(s@, next as int));
        i = next;
    }
    assert(all =~= r@.map_values(|v: Vec<char>| v@));
    proof {
        assert forall|k: int| 0 <= k < r@.len() implies #[trigger] r@[k]@ == all[k] by {
            assert(r@.map_values(|v: Vec<char>| v@)[k] == r@[k]@);
        }
    }
    r
}

/// The words of `s`, in order.
pub fn split_words(s: &Vec<char>) -> (r: Vec<Vec<char>>)
    ensures
        r@.len() == words(s@).len(),
        forall|k: int| 0 <= k < r@.len() ==> #[trigger] r@[k]@ == words(s@)[k],
{
    let ghost all = words(s@);
    let mut r: Vec<Vec<char>> = Vec::new();
    let mut i: usize = 0;
    loop
        invariant
            i <= s@.len(),
            all == words(s@),
            all == r@.map_values(|v: Vec<char>| v@) + words_from(s@, i as int),
        decreases s@.len() - i,
    {
        let a = skip_space(s, i);
        if a >= s.len() {
            assert(words_from(s@, i as int) =~= Seq::<Seq<char>>::empty());
            assert(all =~= r@.map_values(|v: Vec<char>| v@));
            proof {
                assert forall|k: int| 0 <= k < r@.len() implies #[trigger] r@[k]@ == all[k] by {
                    assert(r@.map_values(|v: Vec<char>| v@)[k] == r@[k]@);
                }
            }
            return r;
        }
        let b = skip_word(s, a);
        proof {
            lemma_space_end_bounds(s@, i as int);
            lemma_word_end_bounds(s@, a + 1);
        }
        assert(b > a);
        let piece = slice_of(s, a, b);
        let ghost before = r@;
        r.push(piece);
        assert(r@.map_values(|v: Vec<char>| v@) =~= before.map_values(|v: Vec<char>| v@).push(piece@));
        assert(all =~= r@.map_values(|v: Vec<char>| v@) + words_from(s@, b as int));
        i = b;
    }
}

/// The words `ws[from..]` joined by single spaces.
pub fn join_words(ws: &Vec<Vec<char>>, from: usize) -> (r: Vec<char>)
    requires
        from < ws@.len(),
    ensures
        r@ == joined(ws@.map_values(|v: Vec<char>| v@).subrange(from as int, ws@.len() as int)),
{
    let ghost vs = ws@.map_values(|v: Vec<char>| v@);
    let mut r: Vec<char> = Vec::new();
    let mut k: usize = from;
    while k < ws.len()
        invariant
            from <= k <= ws@.len(),
            vs == ws@.map_values(|v: Vec<char>| v@),
            k > from ==> r@ == joined(vs.subrange(from as int, k as int)),
            k == from ==> r@.len() == 0,
        decreases ws@.len() - k,
    {
        let ghost before = r@;
        if k > from {
            r.push(' ');
        }
        let w = &ws[k];
        let mut q: usize = 0;
        while q < w.len()
            invariant
                q <= w@.len(),
                r@ == (if k > from { before + seq![' '] } else { before }) + w@.subrange(0, q as int),
            decreases w@.len() - q,
        {
            r.push(w[q]);
            q = q + 1;
            assert(r@ =~= (if k > from { before + seq![' '] } else { before }) + w@.subrange(0, q as int));
        }
        let ghost part = vs.subrange(from as int, k + 1);
        assert(part.drop_last() =~= vs.subrange(from as int, k as int));
        assert(part.last() == w@);
        assert(w@.subrange(0, w@.len() as int) =~= w@);
        if k == from {
            assert(r@ =~= w@);
        }
        k = k + 1;
    }
    r
}

} // verus!
