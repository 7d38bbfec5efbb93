//! The line parser: turns one raw capture line into a structured log entry.
//!
//! Three line grammars are recognised, in this order:
//! - dated:   `MM-DD HH:MM:SS.mmm PID TID LEVEL TAG: MESSAGE`
//! - undated: `HH:MM:SS.mmm PID TID LEVEL TAG: MESSAGE`
//! - brief:   `LEVEL/TAG(PID): MESSAGE`
//!
//! White space is Unicode `White_Space`; digits are ASCII. After the separator
//! colon, white space is skipped and the rest of the line is the message, which
//! holds no line feed.
use vstd::prelude::*;
use crate::text::{
    digits_value, find_char, has_char_from, is_digit, is_digit_char, is_space, is_space_char,
    lemma_digit_end_bounds, lemma_digit_end_at, lemma_find_from_at, lemma_space_end_at,
    lemma_space_start_bounds, lemma_trim_after_spaces, skip_digits, skip_space, slice_of, trim, trimmed_slice, digit_end,
    find_from, space_end, chars_of, string_of, starts_with_run, lemma_find_from_bounds,
};

verus! {

/// Severity of a log line. Fatal (`F`) is folded into `A`.
#[derive(Debug, Clone, Copy, PartialEq, Eq, Structural)]
pub enum LogLevel {
    V,
    D,
    I,
    W,
    E,
    A,
}

pub open spec fn level_of(c: char) -> Option<LogLevel> {
    if c == 'V' {
        Some(LogLevel::V)
    } else if c == 'D' {
        Some(LogLevel::D)
    } else if c == 'I' {
        Some(LogLevel::I)
    } else if c == 'W' {
        Some(LogLevel::W)
    } else if c == 'E' {
        Some(LogLevel::E)
    } else if c == 'A' || c == 'F' {
        Some(LogLevel::A)
    } else {
        None
    }
}

impl LogLevel {
    pub fn from_char(c: char) -> (r: Option<LogLevel>)
        ensures
            r == level_of(c),
    {
        match c {
            'V' => Some(LogLevel::V),
            'D' => Some(LogLevel::D),
            'I' => Some(LogLevel::I),
            'W' => Some(LogLevel::W),
            'E' => Some(LogLevel::E),
            'A' | 'F' => Some(LogLevel::A),
            _ => None,
        }
    }
}

/// One structured log event.
#[derive(Debug, Clone)]
pub struct LogEntry {
    /// Sequence number given by the parser instance.
    pub id: u64,
    pub device_id: Option<String>,
    /// Time of day as written in the line (or as captured, for brief lines).
    pub timestamp: String,
    /// Full date and time, with the year and, where the line lacks them, the
    /// date taken from the capture clock.
    pub date_time: Option<String>,
    /// Capture time, in milliseconds since the Unix epoch.
    pub epoch: Option<u64>,
    pub pid: u32,
    pub tid: u32,
    pub level: LogLevel,
    pub tag: String,
    pub message: String,
    pub package_name: Option<String>,
    pub process_name: Option<String>,
    pub raw: Option<String>,
}

/// The capture clock at the moment a line is parsed, already rendered.
#[derive(Debug, Clone)]
pub struct Clock {
    /// Year, four digits at least (`%Y`).
    pub year: String,
    /// Month and day (`%m-%d`).
    pub month_day: String,
    /// Time of day with milliseconds (`%H:%M:%S%.3f`).
    pub time_of_day: String,
    /// Milliseconds since the Unix epoch.
    pub epoch_millis: i64,
}

pub enum Grammar {
    Dated,
    Undated,
    Brief,
}

/// What a line holds, by grammar, before any conversion.
pub struct LineFields {
    pub grammar: Grammar,
    /// The whole leading timestamp (empty for brief lines).
    pub stamp: Seq<char>,
    /// Its time-of-day part (empty for brief lines).
    pub time: Seq<char>,
    pub pid: Seq<char>,
    /// Empty for brief lines.
    pub tid: Seq<char>,
    pub level: char,
    /// The tag as captured, before trimming.
    pub tag: Seq<char>,
    pub message: Seq<char>,
}

pub struct Tail {
    pub pid: Seq<char>,
    pub tid: Seq<char>,
    pub level: char,
    pub tag: Seq<char>,
    pub message: Seq<char>,
}

pub open spec fn is_level_char(c: char) -> bool {
    level_of(c) is Some
}

pub open spec fn no_line_feed(s: Seq<char>, i: int) -> bool {
    forall|k: int| i <= k < s.len() ==> s[k] != '\n'
}

/// `HH:MM:SS.mmm` at `j`.
pub open spec fn clock_at(s: Seq<char>, j: int) -> bool {
    &&& 0 <= j
    &&& j + 12 <= s.len()
    &&& is_digit(s[j]) && is_digit(s[j + 1]) && s[j + 2] == ':'
    &&& is_digit(s[j + 3]) && is_digit(s[j + 4]) && s[j + 5] == ':'
    &&& is_digit(s[j + 6]) && is_digit(s[j + 7]) && s[j + 8] == '.'
    &&& is_digit(s[j + 9]) && is_digit(s[j + 10]) && is_digit(s[j + 11])
}

/// `\s+PID\s+TID\s+LEVEL\s+TAG:\s*MESSAGE` from `k` to the end of `s`.
pub open spec fn tail_at(s: Seq<char>, k: int) -> Option<Tail> {
    let a = space_end(s, k);
    let b = digit_end(s, a);
    let c = space_end(s, b);
    let d = digit_end(s, c);
    let e = space_end(s, d);
    let colon = find_from(s, e + 2, ':');
    let m = space_end(s, colon + 1);
    if k < a && a < b && b < c && c < d && d < e && e + 1 < s.len() && is_level_char(s[e])
        && is_space(s[e + 1]) && e + 2 < colon && colon < s.len() && no_line_feed(s, m) {
        Some(
            Tail {
                pid: s.subrange(a, b),
                tid: s.subrange(c, d),
                level: s[e],
                tag: s.subrange(e + 2, colon),
                message: s.subrange(m, s.len() as int),
            },
        )
    } else {
        None
    }
}

pub open spec fn dated_fields(s: Seq<char>) -> Option<LineFields> {
    let j = space_end(s, 5);
    if s.len() > 5 && is_digit(s[0]) && is_digit(s[1]) && s[2] == '-' && is_digit(s[3])
        && is_digit(s[4]) && is_space(s[5]) && clock_at(s, j) && tail_at(s, j + 12) is Some {
        let t = tail_at(s, j + 12)->0;
        Some(
            LineFields {
                grammar: Grammar::Dated,
                stamp: s.subrange(0, j + 12),
                time: s.subrange(j, j + 12),
                pid: t.pid,
                tid: t.tid,
                level: t.level,
                tag: t.tag,
                message: t.message,
            },
        )
    } else {
        None
    }
}

pub open spec fn undated_fields(s: Seq<char>) -> Option<LineFields> {
    if clock_at(s, 0) && tail_at(s, 12) is Some {
        let t = tail_at(s, 12)->0;
        Some(
            LineFields {
                grammar: Grammar::Undated,
                stamp: s.subrange(0, 12),
                time: s.subrange(0, 12),
                pid: t.pid,
                tid: t.tid,
                level: t.level,
                tag: t.tag,
                message: t.message,
            },
        )
    } else {
        None
    }
}

/// `LEVEL/TAG(\s*PID):\s*MESSAGE`.
pub open spec fn brief_fields(s: Seq<char>) -> Option<LineFields> {
    let p = find_from(s, 2, '(');
    let a = space_end(s, p + 1);
    let b = digit_end(s, a);
    let m = space_end(s, b + 2);
    if s.len() > 2 && is_level_char(s[0]) && s[1] == '/' && 2 < p && p < s.len() && a < b && b
        + 1 < s.len() && s[b] == ')' && s[b + 1] == ':' && no_line_feed(s, m) {
        Some(
            LineFields {
                grammar: Grammar::Brief,
                stamp: Seq::empty(),
                time: Seq::empty(),
                pid: s.subrange(a, b),
                tid: Seq::empty(),
                level: s[0],
                tag: s.subrange(2, p),
                message: s.subrange(m, s.len() as int),
            },
        )
    } else {
        None
    }
}

/// The text that opens each buffer in a capture stream.
pub open spec fn buffer_marker() -> Seq<char> {
    "--------- beginning of"@
}

/// What a trimmed line holds by the first grammar that matches it, or `None`
/// for a blank line, a buffer marker, or a line that no grammar matches.
pub open spec fn grammar_fields(t: Seq<char>) -> Option<LineFields> {
    if t.len() == 0 || buffer_marker().is_prefix_of(t) {
        None
    } else if dated_fields(t) is Some {
        dated_fields(t)
    } else if undated_fields(t) is Some {
        undated_fields(t)
    } else {
        brief_fields(t)
    }
}

/// What a trimmed line holds, or `None` where it yields no event: where
/// `grammar_fields` finds nothing, or the tag (trimmed) or the message is
/// empty.
pub open spec fn line_fields(t: Seq<char>) -> Option<LineFields> {
    let g = grammar_fields(t);
    if g is Some && trim(g->0.tag).len() > 0 && g->0.message.len() > 0 {
        g
    } else {
        None
    }
}

/// A process or thread id: the decimal value, or 0 where it does not fit.
pub open spec fn id_value(ds: Seq<char>) -> u32 {
    if digits_value(ds) <= u32::MAX {
        digits_value(ds) as u32
    } else {
        0
    }
}

pub open spec fn date_text(f: LineFields, now: Clock) -> Seq<char> {
    match f.grammar {
        Grammar::Dated => now.year@ + "-"@ + f.stamp,
        Grammar::Undated => now.year@ + "-"@ + now.month_day@ + " "@ + f.stamp,
        Grammar::Brief => now.year@ + "-"@ + now.month_day@ + " "@ + now.time_of_day@,
    }
}

/// `e` is the entry with sequence number `id` for the trimmed line `t`, whose
/// fields are `f`, parsed at `now`.
pub open spec fn entry_of(e: LogEntry, f: LineFields, t: Seq<char>, id: u64, now: Clock) -> bool {
    &&& e.id == id
    &&& e.device_id is None
    &&& e.pid == id_value(f.pid)
    &&& e.tid == (if f.grammar is Brief {
        0
    } else {
        id_value(f.tid)
    })
    &&& level_of(f.level) == Some(e.level)
    &&& e.tag@ == trim(f.tag)
    &&& e.message@ == f.message
    &&& e.timestamp@ == (if f.grammar is Brief {
        now.time_of_day@
    } else {
        f.time
    })
    &&& e.date_time is Some && e.date_time->0@ == date_text(f, now)
    &&& e.epoch == Some(now.epoch_millis as u64)
    &&& e.package_name is None
    &&& e.process_name is None
    &&& e.raw is Some && e.raw->0@ == t
}

/// Captured parts of a line, as found by the exec grammar matchers.
struct Captures {
    stamp: Vec<char>,
    time: Vec<char>,
    pid: u32,
    tid: u32,
    level: char,
    tag: Vec<char>,
    message: Vec<char>,
}

struct TailCaptures {
    pid: u32,
    tid: u32,
    level: char,
    tag: Vec<char>,
    message: Vec<char>,
}

spec fn tail_agrees(c: TailCaptures, t: Tail) -> bool {
    &&& c.pid == id_value(t.pid)
    &&& c.tid == id_value(t.tid)
    &&& c.level == t.level
    &&& c.tag@ == trim(t.tag)
    &&& c.message@ == t.message
}

spec fn captures_agree(c: Captures, f: LineFields) -> bool {
    &&& c.stamp@ == f.stamp
    &&& c.time@ == f.time
    &&& c.pid == id_value(f.pid)
    &&& c.tid == (if f.grammar is Brief {
        0
    } else {
        id_value(f.tid)
    })
    &&& c.level == f.level
    &&& c.tag@ == trim(f.tag)
    &&& c.message@ == f.message
}

fn level_char(c: char) -> (r: bool)
    ensures
        r == is_level_char(c),
{
    LogLevel::from_char(c).is_some()
}

/// The value of the ASCII digits of `s` from `i` to `j`, or 0 where it does
/// not fit in `u32`.
fn id_number(s: &Vec<char>, i: usize, j: usize) -> (r: u32)
    requires
        i <= j <= s@.len(),
        forall|k: int| i <= k < j ==> is_digit(#[trigger] s@[k]),
    ensures
        r == id_value(s@.subrange(i as int, j as int)),
{
    let mut acc: u64 = 0;
    let mut over = false;
    let mut k: usize = i;
    while k < j
        invariant
            i <= k <= j <= s@.len(),
            forall|q: int| i <= q < j ==> is_digit(#[trigger] s@[q]),
            !over ==> acc == digits_value(s@.subrange(i as int, k as int)) && acc <= u32::MAX,
            over ==> digits_value(s@.subrange(i as int, k as int)) > u32::MAX,
        decreases j - k,
    {
        let ghost before = s@.subrange(i as int, k as int);
        assert(s@.subrange(i as int, k + 1).drop_last() =~= before);
        assert(s@.subrange(i as int, k + 1).last() == s@[k as int]);
        assert(is_digit(s@[k as int]));
        let d = (s[k] as u32 - '0' as u32) as u64;
        if !over {
            acc = acc * 10 + d;
            if acc > u32::MAX as u64 {
                over = true;
            }
        }
        k = k + 1;
    }
    if over {
        0
    } else {
        acc as u32
    }
}

/// Whether `s` holds no line feed from `i` on.
fn no_line_feed_from(s: &Vec<char>, i: usize) -> (r: bool)
    requires
        i <= s@.len(),
    ensures
        r == no_line_feed(s@, i as int),
{
    !has_char_from(s, i, '\n')
}

fn clock_text_at(s: &Vec<char>, j: usize) -> (r: bool)
    ensures
        r == clock_at(s@, j as int),
{
    if j > s.len() || s.len() - j < 12 {
        return false;
    }
    is_digit_char(s[j]) && is_digit_char(s[j + 1]) && s[j + 2] == ':' && is_digit_char(s[j + 3])
        && is_digit_char(s[j + 4]) && s[j + 5] == ':' && is_digit_char(s[j + 6])
        && is_digit_char(s[j + 7]) && s[j + 8] == '.' && is_digit_char(s[j + 9])
        && is_digit_char(s[j + 10]) && is_digit_char(s[j + 11])
}

fn match_tail(s: &Vec<char>, k: usize) -> (r: Option<TailCaptures>)
    requires
        k <= s@.len(),
    ensures
        r is Some == tail_at(s@, k as int) is Some,
        r is Some ==> tail_agrees(r->0, tail_at(s@, k as int)->0),
{
    let a = skip_space(s, k);
    let b = skip_digits(s, a);
    let c = skip_space(s, b);
    let d = skip_digits(s, c);
    let e = skip_space(s, d);
    proof {
        lemma_digit_end_bounds(s@, a as int);
        lemma_digit_end_bounds(s@, c as int);
    }
    if !(k < a && a < b && b < c && c < d && d < e && s.len() - e > 1) {
        return None;
    }
    if !(level_char(s[e]) && is_space_char(s[e + 1])) {
        return None;
    }
    let colon = find_char(s, e + 2, ':');
    if !(e + 2 < colon && colon < s.len()) {
        return None;
    }
    let m = skip_space(s, colon + 1);
    if !no_line_feed_from(s, m) {
        return None;
    }
    let pid = id_number(s, a, b);
    let tid = id_number(s, c, d);
    let tag = trimmed_slice(s, e + 2, colon);
    let message = slice_of(s, m, s.len());
    Some(TailCaptures { pid, tid, level: s[e], tag, message })
}

fn match_dated(s: &Vec<char>) -> (r: Option<Captures>)
    ensures
        r is Some == dated_fields(s@) is Some,
        r is Some ==> captures_agree(r->0, dated_fields(s@)->0),
{
    if !(s.len() > 5 && is_digit_char(s[0]) && is_digit_char(s[1]) && s[2] == '-' && is_digit_char(
        s[3],
    ) && is_digit_char(s[4]) && is_space_char(s[5])) {
        return None;
    }
    let j = skip_space(s, 5);
    if !clock_text_at(s, j) {
        return None;
    }
    match match_tail(s, j + 12) {
        None => None,
        Some(t) => Some(
            Captures {
                stamp: slice_of(s, 0, j + 12),
                time: slice_of(s, j, j + 12),
                pid: t.pid,
                tid: t.tid,
                level: t.level,
                tag: t.tag,
                message: t.message,
            },
        ),
    }
}

fn match_undated(s: &Vec<char>) -> (r: Option<Captures>)
    ensures
        r is Some == undated_fields(s@) is Some,
        r is Some ==> captures_agree(r->0, undated_fields(s@)->0),
{
    if !clock_text_at(s, 0) {
        return None;
    }
    match match_tail(s, 12) {
        None => None,
        Some(t) => Some(
            Captures {
                stamp: slice_of(s, 0, 12),
                time: slice_of(s, 0, 12),
                pid: t.pid,
                tid: t.tid,
                level: t.level,
                tag: t.tag,
                message: t.message,
            },
        ),
    }
}

fn match_brief(s: &Vec<char>) -> (r: Option<Captures>)
    ensures
        r is Some == brief_fields(s@) is Some,
        r is Some ==> captures_agree(r->0, brief_fields(s@)->0),
{
    if !(s.len() > 2 && level_char(s[0]) && s[1] == '/') {
        return None;
    }
    let p = find_char(s, 2, '(');
    if !(2 < p && p < s.len()) {
        return None;
    }
    let a = skip_space(s, p + 1);
    let b = skip_digits(s, a);
    proof {
        lemma_digit_end_bounds(s@, a as int);
    }
    if !(a < b && s.len() - b > 1) {
        return None;
    }
    if !(s[b] == ')' && s[b + 1] == ':') {
        return None;
    }
    let m = skip_space(s, b + 2);
    if !no_line_feed_from(s, m) {
        return None;
    }
    let pid = id_number(s, a, b);
    Some(
        Captures {
            stamp: Vec::new(),
            time: Vec::new(),
            pid,
            tid: 0,
            level: s[0],
            tag: trimmed_slice(s, 2, p),
            message: slice_of(s, m, s.len()),
        },
    )
}

/// The trimmed lines of `s`, from index `i` on, that yield an event. Lines end
/// at a line feed; a line feed at the very end opens no further line.
pub open spec fn event_lines_from(s: Seq<char>, i: int) -> Seq<Seq<char>>
    decreases s.len() + 1 - i,
{
    if i < 0 || i >= s.len() {
        Seq::empty()
    } else {
        // `find_from` stays within `i..=s.len()`; the bounds only make that plain.
        let f = find_from(s, i, '\n');
        let j = if f < i {
            i
        } else if f > s.len() {
            s.len() as int
        } else {
            f
        };
        let t = trim(s.subrange(i, j));
        if line_fields(t) is Some {
            seq![t] + event_lines_from(s, j + 1)
        } else {
            event_lines_from(s, j + 1)
        }
    }
}

/// Relies on `chrono::Local::now` and its `format`: the local date and time,
/// rendered. Nothing is known of the value.
#[verifier::external_body]
fn capture_clock() -> (r: Clock) {
    let now = chrono::Local::now();
    Clock {
        year: now.format("%Y").to_string(),
        month_day: now.format("%m-%d").to_string(),
        time_of_day: now.format("%H:%M:%S%.3f").to_string(),
        epoch_millis: now.timestamp_millis(),
    }
}

/// `e` is the entry with sequence number `id` for the trimmed line `t`, at
/// some capture time.
pub open spec fn entry_for_line(e: LogEntry, t: Seq<char>, id: u64) -> bool {
    exists|now: Clock| #[trigger] entry_of(e, line_fields(t)->0, t, id, now)
}

/// Converts capture lines into entries, numbering them from 0.
pub struct LogParser {
    next_id: u64,
}

impl LogParser {
    /// The sequence number that the next parsed line receives.
    pub closed spec fn next_seq(&self) -> u64 {
        self.next_id
    }

    pub fn new() -> (r: LogParser)
        ensures
            r.next_seq() == 0,
    {
        LogParser { next_id: 0 }
    }

    pub fn next_id(&self) -> (r: u64)
        ensures
            r == self.next_seq(),
    {
        self.next_id
    }

    /// Restarts the numbering at 0.
    pub fn reset(&mut self)
        ensures
            final(self).next_seq() == 0,
    {
        self.next_id = 0;
    }

    fn parse_chars(&mut self, line: &Vec<char>, now: &Clock) -> (r: Option<LogEntry>)
        requires
            old(self).next_seq() < u64::MAX,
        ensures
            r is Some == line_fields(trim(line@)) is Some,
            r is Some ==> final(self).next_seq() == old(self).next_seq() + 1 && entry_of(
                r->0,
                line_fields(trim(line@))->0,
                trim(line@),
                old(self).next_seq(),
                *now,
            ),
            r is None ==> final(self).next_seq() == old(self).next_seq(),
    {
        let t = trimmed_slice(line, 0, line.len());
        assert(line@.subrange(0, line@.len() as int) =~= line@);
        if t.len() == 0 {
            return None;
        }
        let marker = chars_of("--------- beginning of");
        if starts_with_run(&t, &marker) {
            return None;
        }
        let mut grammar = Grammar::Dated;
        let mut found = match_dated(&t);
        if found.is_none() {
            grammar = Grammar::Undated;
            found = match_undated(&t);
        }
        if found.is_none() {
            grammar = Grammar::Brief;
            found = match_brief(&t);
        }
        let c = match found {
            None => {
                return None;
            },
            Some(c) => c,
        };
        if c.tag.len() == 0 || c.message.len() == 0 {
            return None;
        }
        let stamp = string_of(c.stamp.as_slice());
        let date_time = match grammar {
            Grammar::Dated => now.year.clone().concat("-").concat(stamp.as_str()),
            Grammar::Undated => now.year.clone().concat("-").concat(now.month_day.as_str()).concat(
                " ",
            ).concat(stamp.as_str()),
            Grammar::Brief => now.year.clone().concat("-").concat(now.month_day.as_str()).concat(
                " ",
            ).concat(now.time_of_day.as_str()),
        };
        let timestamp = match grammar {
            Grammar::Brief => now.time_of_day.clone(),
            _ => string_of(c.time.as_slice()),
        };
        let level = match LogLevel::from_char(c.level) {
            Some(l) => l,
            None => LogLevel::D,
        };
        let entry = LogEntry {
            id: self.next_id,
            device_id: None,
            timestamp,
            date_time: Some(date_time),
            epoch: Some(now.epoch_millis as u64),
            pid: c.pid,
            tid: c.tid,
            level,
            tag: string_of(c.tag.as_slice()),
            message: string_of(c.message.as_slice()),
            package_name: None,
            process_name: None,
            raw: Some(string_of(t.as_slice())),
        };
        self.next_id = self.next_id + 1;
        Some(entry)
    }

    /// Parses one line as read at `now`.
    pub fn parse_line_at(&mut self, line: &str, now: &Clock) -> (r: Option<LogEntry>)
        requires
            old(self).next_seq() < u64::MAX,
        ensures
            r is Some == line_fields(trim(line@)) is Some,
            r is Some ==> final(self).next_seq() == old(self).next_seq() + 1 && entry_of(
                r->0,
                line_fields(trim(line@))->0,
                trim(line@),
                old(self).next_seq(),
                *now,
            ),
            r is None ==> final(self).next_seq() == old(self).next_seq(),
            r is Some ==> r->0.tag@.len() > 0 && r->0.message@.len() > 0,
    {
        let cs = chars_of(line);
        self.parse_chars(&cs, now)
    }

    /// Parses one line, stamping it with the local clock.
    pub fn parse_line(&mut self, line: &str) -> (r: Option<LogEntry>)
        requires
            old(self).next_seq() < u64::MAX,
        ensures
            r is Some == line_fields(trim(line@)) is Some,
            r is Some ==> final(self).next_seq() == old(self).next_seq() + 1 && entry_for_line(
                r->0,
                trim(line@),
                old(self).next_seq(),
            ),
            r is None ==> final(self).next_seq() == old(self).next_seq(),
            r is Some ==> r->0.tag@.len() > 0 && r->0.message@.len() > 0,
    {
        let now = capture_clock();
        self.parse_line_at(line, &now)
    }

    /// Parses every line of `text`, in order, keeping those that yield an entry.
    pub fn parse_lines(&mut self, text: &str) -> (r: Vec<LogEntry>)
        requires
            old(self).next_seq() + text@.len() < u64::MAX,
        ensures
            r@.len() == event_lines_from(text@, 0).len(),
            final(self).next_seq() == old(self).next_seq() + r@.len(),
            forall|i: int|
                0 <= i < r@.len() ==> entry_for_line(
                    #[trigger] r@[i],
                    event_lines_from(text@, 0)[i],
                    (old(self).next_seq() + i) as u64,
                ),
    {
        let s = chars_of(text);
        let ghost all = event_lines_from(s@, 0);
        let ghost start = self.next_id;
        let mut r: Vec<LogEntry> = Vec::new();
        let mut i: usize = 0;
        while i < s.len()
            invariant
                i <= s@.len(),
                s@ == text@,
                all == event_lines_from(s@, 0),
                r@.len() + event_lines_from(s@, i as int).len() == all.len(),
                r@.len() <= i,
                self.next_seq() == start + r@.len(),
                start + text@.len() < u64::MAX,
                event_lines_from(s@, i as int) == all.subrange(r@.len() as int, all.len() as int),
                forall|k: int|
                    0 <= k < r@.len() ==> entry_for_line(
                        #[trigger] r@[k],
                        all[k],
                        (start + k) as u64,
                    ),
            decreases s@.len() - i,
        {
            let j = find_char(&s, i, '\n');
            let piece = slice_of(&s, i, j);
            let now = capture_clock();
            proof {
                lemma_find_from_bounds(s@, i as int, '\n');
            }
            let ghost t = trim(piece@);
            let ghost before = r@;
            assert(event_lines_from(s@, i as int) == (if line_fields(t) is Some {
                seq![t] + event_lines_from(s@, j + 1)
            } else {
                event_lines_from(s@, j + 1)
            }));
            let ghost rest = event_lines_from(s@, j + 1);
            proof {
                let b = before.len() as int;
                if line_fields(t) is Some {
                    assert(all.subrange(b, all.len() as int)[0] == all[b]);
                    assert((seq![t] + rest)[0] == t);
                    assert(all[b] == t);
                    let x = all.subrange(b, all.len() as int);
                    assert(x == seq![t] + rest);
                    assert(x.len() == rest.len() + 1);
                    assert forall|k: int| 0 <= k < rest.len() implies all.subrange(
                        b + 1,
                        all.len() as int,
                    )[k] == rest[k] by {
                        assert(x[k + 1] == (seq![t] + rest)[k + 1]);
                        assert(x[k + 1] == all[b + 1 + k]);
                    }
                    assert(rest =~= all.subrange(b + 1, all.len() as int));
                } else {
                    assert(rest =~= all.subrange(b, all.len() as int));
                }
            }
            let parsed = self.parse_chars(&piece, &now);
            match parsed {
                Some(e) => {
                    r.push(e);
                    assert(entry_of(e, line_fields(t)->0, t, (start + before.len()) as u64, now));
                },
                None => {},
            }
            i = if j < s.len() { j + 1 } else { j };
            assert(event_lines_from(s@, i as int) == rest);
        }
        r
    }
}

impl Default for LogParser {
    fn default() -> (r: LogParser)
        ensures
            r.next_seq() == 0,
    {
        LogParser::new()
    }
}

/// Blank lines, and lines that open a buffer, yield no event.
pub proof fn lemma_blank_and_marker_lines_yield_nothing(line: Seq<char>)
    requires
        trim(line).len() == 0 || buffer_marker().is_prefix_of(trim(line)),
    ensures
        line_fields(trim(line)) is None,
{
}

/// A line that none of the three grammars matches yields no event.
pub proof fn lemma_unmatched_lines_yield_nothing(t: Seq<char>)
    requires
        dated_fields(t) is None,
        undated_fields(t) is None,
        brief_fields(t) is None,
    ensures
        line_fields(t) is None,
{
}

/// The parts of a dated line `MM-DD HH:MM:SS.mmm PID TID LEVEL TAG: MESSAGE`,
/// with the white space between them.
pub struct DatedParts {
    pub date: Seq<char>,
    /// Between the date and the time.
    pub w0: Seq<char>,
    pub time: Seq<char>,
    pub w1: Seq<char>,
    pub pid: Seq<char>,
    pub w2: Seq<char>,
    pub tid: Seq<char>,
    pub w3: Seq<char>,
    pub level: char,
    pub w4: Seq<char>,
    pub tag: Seq<char>,
    /// Between the colon and the message.
    pub w5: Seq<char>,
    pub message: Seq<char>,
}

/// The line that the parts spell out.
#[verifier::opaque]
pub open spec fn dated_line(p: DatedParts) -> Seq<char> {
    p.date + p.w0 + p.time + p.w1 + p.pid + p.w2 + p.tid + p.w3 + seq![p.level] + p.w4 + p.tag
        + seq![':'] + p.w5 + p.message
}

pub open spec fn all_digit_chars(s: Seq<char>) -> bool {
    forall|k: int| 0 <= k < s.len() ==> is_digit(#[trigger] s[k])
}

pub open spec fn all_space_chars(s: Seq<char>) -> bool {
    forall|k: int| 0 <= k < s.len() ==> is_space(#[trigger] s[k])
}

/// The parts make a well-formed dated line: a date `MM-DD` and a time
/// `HH:MM:SS.mmm`, pid and tid of ASCII digits, a level letter, runs of white
/// space between them (the one after the colon may be empty), a tag with no
/// colon that is not blank once trimmed and does not start with white space,
/// and a message that is not empty, holds no line feed and has no white space
/// at its ends.
pub open spec fn well_formed_dated(p: DatedParts) -> bool {
    &&& p.date.len() == 5
    &&& is_digit(p.date[0]) && is_digit(p.date[1]) && p.date[2] == '-'
    &&& is_digit(p.date[3]) && is_digit(p.date[4])
    &&& p.time.len() == 12 && clock_at(p.time, 0)
    &&& p.pid.len() > 0 && all_digit_chars(p.pid)
    &&& p.tid.len() > 0 && all_digit_chars(p.tid)
    &&& is_level_char(p.level)
    &&& p.w0.len() > 0 && p.w1.len() > 0 && p.w2.len() > 0 && p.w3.len() > 0 && p.w4.len() > 0
    &&& all_space_chars(p.w0) && all_space_chars(p.w1) && all_space_chars(p.w2)
    &&& all_space_chars(p.w3) && all_space_chars(p.w4) && all_space_chars(p.w5)
    &&& p.tag.len() > 0 && !p.tag.contains(':') && !is_space(p.tag[0]) && trim(p.tag).len() > 0
    &&& p.message.len() > 0 && !p.message.contains('\n')
    &&& !is_space(p.message[0]) && !is_space(p.message.last())
}

/// Where each part of a dated line stands.
#[verifier::rlimit(100)]
#[verifier::spinoff_prover]
proof fn lemma_dated_line_layout(p: DatedParts)
    ensures
        ({
            let s = dated_line(p);
            let o_w0 = p.date.len() as int;
            let o_time = o_w0 + p.w0.len();
            let o_w1 = o_time + p.time.len();
            let o_pid = o_w1 + p.w1.len();
            let o_w2 = o_pid + p.pid.len();
            let o_tid = o_w2 + p.w2.len();
            let o_w3 = o_tid + p.tid.len();
            let o_lv = o_w3 + p.w3.len();
            let o_w4 = o_lv + 1;
            let o_tag = o_w4 + p.w4.len();
            let o_col = o_tag + p.tag.len();
            let o_w5 = o_col + 1;
            let o_msg = o_w5 + p.w5.len();
            &&& s.len() == o_msg + p.message.len()
            &&& forall|k: int| 0 <= k < p.date.len() ==> s[k] == p.date[k]
            &&& forall|k: int| 0 <= k < p.w0.len() ==> s[o_w0 + k] == p.w0[k]
            &&& forall|k: int| 0 <= k < p.time.len() ==> s[o_time + k] == p.time[k]
            &&& forall|k: int| 0 <= k < p.w1.len() ==> s[o_w1 + k] == p.w1[k]
            &&& forall|k: int| 0 <= k < p.pid.len() ==> s[o_pid + k] == p.pid[k]
            &&& forall|k: int| 0 <= k < p.w2.len() ==> s[o_w2 + k] == p.w2[k]
            &&& forall|k: int| 0 <= k < p.tid.len() ==> s[o_tid + k] == p.tid[k]
            &&& forall|k: int| 0 <= k < p.w3.len() ==> s[o_w3 + k] == p.w3[k]
            &&& s[o_lv] == p.level
            &&& forall|k: int| 0 <= k < p.w4.len() ==> s[o_w4 + k] == p.w4[k]
            &&& forall|k: int| 0 <= k < p.tag.len() ==> s[o_tag + k] == p.tag[k]
            &&& s[o_col] == ':'
            &&& forall|k: int| 0 <= k < p.w5.len() ==> s[o_w5 + k] == p.w5[k]
            &&& forall|k: int| 0 <= k < p.message.len() ==> s[o_msg + k] == p.message[k]
        }),
{
    reveal(dated_line);
    let a1 = p.date + p.w0 + p.time + p.w1 + p.pid + p.w2 + p.tid;
    let a2 = a1 + p.w3 + seq![p.level] + p.w4 + p.tag;
    let s = dated_line(p);
    assert(s == a2 + seq![':'] + p.w5 + p.message);
    let o_w0 = p.date.len() as int;
    let o_time = o_w0 + p.w0.len();
    let o_w1 = o_time + p.time.len();
    let o_pid = o_w1 + p.w1.len();
    let o_w2 = o_pid + p.pid.len();
    let o_tid = o_w2 + p.w2.len();
    let o_w3 = o_tid + p.tid.len();
    let o_lv = o_w3 + p.w3.len();
    let o_w4 = o_lv + 1;
    let o_tag = o_w4 + p.w4.len();
    let o_col = o_tag + p.tag.len();
    let o_w5 = o_col + 1;
    let o_msg = o_w5 + p.w5.len();
    assert(a1.len() == o_w3);
    assert(a2.len() == o_col);
    assert forall|k: int| 0 <= k < a2.len() implies s[k] == a2[k] by {}
    assert forall|k: int| 0 <= k < a1.len() implies a2[k] == a1[k] by {}
    assert forall|k: int| 0 <= k < p.date.len() implies s[k] == p.date[k] by {
        assert(a1[k] == p.date[k]);
    }
    assert forall|k: int| 0 <= k < p.w0.len() implies s[o_w0 + k] == p.w0[k] by {
        assert(a1[o_w0 + k] == p.w0[k]);
    }
    assert forall|k: int| 0 <= k < p.time.len() implies s[o_time + k] == p.time[k] by {
        assert(a1[o_time + k] == p.time[k]);
    }
    assert forall|k: int| 0 <= k < p.w1.len() implies s[o_w1 + k] == p.w1[k] by {
        assert(a1[o_w1 + k] == p.w1[k]);
    }
    assert forall|k: int| 0 <= k < p.pid.len() implies s[o_pid + k] == p.pid[k] by {
        assert(a1[o_pid + k] == p.pid[k]);
    }
    assert forall|k: int| 0 <= k < p.w2.len() implies s[o_w2 + k] == p.w2[k] by {
        assert(a1[o_w2 + k] == p.w2[k]);
    }
    assert forall|k: int| 0 <= k < p.tid.len() implies s[o_tid + k] == p.tid[k] by {
        assert(a1[o_tid + k] == p.tid[k]);
    }
    assert forall|k: int| 0 <= k < p.w3.len() implies s[o_w3 + k] == p.w3[k] by {
        assert(a2[o_w3 + k] == p.w3[k]);
    }
    assert(a2[o_lv] == p.level);
    assert forall|k: int| 0 <= k < p.w4.len() implies s[o_w4 + k] == p.w4[k] by {
        assert(a2[o_w4 + k] == p.w4[k]);
    }
    assert forall|k: int| 0 <= k < p.tag.len() implies s[o_tag + k] == p.tag[k] by {
        assert(a2[o_tag + k] == p.tag[k]);
    }
    assert(s[o_col] == ':');
    assert forall|k: int| 0 <= k < p.w5.len() implies s[o_w5 + k] == p.w5[k] by {}
    assert forall|k: int| 0 <= k < p.message.len() implies s[o_msg + k] == p.message[k] by {}
}

/// A well-formed dated line keeps its pid, tid, level, tag (trimmed) and
/// message.
#[verifier::rlimit(100)]
#[verifier::spinoff_prover]
pub proof fn lemma_dated_line_keeps_fields(p: DatedParts)
    requires
        well_formed_dated(p),
    ensures
        ({
            let s = dated_line(p);
            &&& trim(s) == s
            &&& line_fields(s) is Some
            &&& line_fields(s)->0.grammar is Dated
            &&& line_fields(s)->0.pid == p.pid
            &&& line_fields(s)->0.tid == p.tid
            &&& line_fields(s)->0.level == p.level
            &&& trim(line_fields(s)->0.tag) == trim(p.tag)
            &&& line_fields(s)->0.message == p.message
        }),
{
    let s = dated_line(p);
    lemma_dated_line_layout(p);
    let o_w0 = p.date.len() as int;
    let o_time = o_w0 + p.w0.len();
    let o_w1 = o_time + p.time.len();
    let o_pid = o_w1 + p.w1.len();
    let o_w2 = o_pid + p.pid.len();
    let o_tid = o_w2 + p.w2.len();
    let o_w3 = o_tid + p.tid.len();
    let o_lv = o_w3 + p.w3.len();
    let o_w4 = o_lv + 1;
    let o_tag = o_w4 + p.w4.len();
    let o_col = o_tag + p.tag.len();
    let o_w5 = o_col + 1;
    let o_msg = o_w5 + p.w5.len();
    assert(!is_space(p.level) && !is_digit(p.level));
    // trimming changes nothing
    assert(s[0] == p.date[0]);
    lemma_space_end_at(s, 0, 0);
    lemma_space_start_bounds(s, s.len() as int);
    assert(s[s.len() - 1] == p.message.last());
    assert(s.subrange(0, s.len() as int) =~= s);
    // not a buffer marker
    reveal_strlit("--------- beginning of");
    assert(buffer_marker()[0] == '-');
    assert(!buffer_marker().is_prefix_of(s));
    // the date and the time
    assert(s[5] == p.w0[0]);
    assert forall|k: int| o_w0 <= k < o_time implies is_space(#[trigger] s[k]) by {
        assert(s[k] == p.w0[k - o_w0]);
    }
    assert(s[o_time] == p.time[0]);
    lemma_space_end_at(s, 5, o_time);
    assert forall|k: int| 0 <= k < 12 implies s[o_time + k] == p.time[k] by {}
    assert(clock_at(s, o_time));
    // pid and tid
    assert forall|k: int| o_w1 <= k < o_pid implies is_space(#[trigger] s[k]) by {
        assert(s[k] == p.w1[k - o_w1]);
    }
    assert(s[o_pid] == p.pid[0]);
    lemma_space_end_at(s, o_w1, o_pid);
    assert forall|k: int| o_pid <= k < o_w2 implies is_digit(#[trigger] s[k]) by {
        assert(s[k] == p.pid[k - o_pid]);
    }
    assert(s[o_w2] == p.w2[0]);
    lemma_digit_end_at(s, o_pid, o_w2);
    assert forall|k: int| o_w2 <= k < o_tid implies is_space(#[trigger] s[k]) by {
        assert(s[k] == p.w2[k - o_w2]);
    }
    assert(s[o_tid] == p.tid[0]);
    lemma_space_end_at(s, o_w2, o_tid);
    assert forall|k: int| o_tid <= k < o_w3 implies is_digit(#[trigger] s[k]) by {
        assert(s[k] == p.tid[k - o_tid]);
    }
    assert(s[o_w3] == p.w3[0]);
    lemma_digit_end_at(s, o_tid, o_w3);
    assert forall|k: int| o_w3 <= k < o_lv implies is_space(#[trigger] s[k]) by {
        assert(s[k] == p.w3[k - o_w3]);
    }
    lemma_space_end_at(s, o_w3, o_lv);
    assert(s[o_w4] == p.w4[0]);
    // the tag ends at the first colon
    assert forall|k: int| o_w4 + 1 <= k < o_col implies #[trigger] s[k] != ':' by {
        if k < o_tag {
            assert(s[k] == p.w4[k - o_w4]);
        } else {
            assert(s[k] == p.tag[k - o_tag]);
        }
    }
    lemma_find_from_at(s, o_w4 + 1, o_col, ':');
    // the message
    assert forall|k: int| o_w5 <= k < o_msg implies is_space(#[trigger] s[k]) by {
        assert(s[k] == p.w5[k - o_w5]);
    }
    assert(s[o_msg] == p.message[0]);
    lemma_space_end_at(s, o_w5, o_msg);
    assert forall|k: int| o_msg <= k < s.len() implies s[k] != '\n' by {
        assert(s[k] == p.message[k - o_msg]);
    }
    assert(s.subrange(o_pid, o_w2) =~= p.pid);
    assert(s.subrange(o_tid, o_w3) =~= p.tid);
    assert(s.subrange(o_msg, s.len() as int) =~= p.message);
    let lead = p.w4.subrange(1, p.w4.len() as int);
    assert(s.subrange(o_w4 + 1, o_col) =~= lead + p.tag);
    assert(tail_at(s, o_w1) is Some);
    assert(dated_fields(s) is Some);
    assert(grammar_fields(s) == dated_fields(s));
    lemma_trim_after_spaces(lead, p.tag);
}

} // verus!
