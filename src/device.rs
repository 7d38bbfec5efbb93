//! Devices and processes as the capture tool reports them, the process
//! directory, and the enrichment of entries with process identity.
use vstd::prelude::*;
use std::collections::HashMap;
use crate::filter::{lower_of, lowercase};
use crate::parser::LogEntry;
use crate::text::{
    chars_of, contains_run, digits_value, is_digit, is_digit_char, joined, join_words, lines_from,
    occurs_in, split_lines, split_words, starts_with_run, string_of, trim, trimmed_slice, words,
};

verus! {

broadcast use vstd::std_specs::hash::group_hash_axioms;

/// Connection state of a device.
#[derive(Debug, Clone, Copy, PartialEq, Eq, Structural)]
pub enum DeviceState {
    Device,
    Offline,
    Unauthorized,
    NoDevice,
}

pub open spec fn state_of(s: Seq<char>) -> DeviceState {
    let l = lower_of(trim(s));
    if l == "device"@ {
        DeviceState::Device
    } else if l == "offline"@ {
        DeviceState::Offline
    } else if l == "unauthorized"@ {
        DeviceState::Unauthorized
    } else {
        DeviceState::NoDevice
    }
}

impl DeviceState {
    /// Reads a state word; anything unknown is `NoDevice`.
    pub fn from_str(s: &str) -> (r: DeviceState)
        ensures
            r == state_of(s@),
    {
        let cs = chars_of(s);
        let t = trimmed_slice(&cs, 0, cs.len());
        assert(cs@.subrange(0, cs@.len() as int) =~= cs@);
        let l = lowercase(string_of(t.as_slice()).as_str());
        if l == String::from_str("device") {
            DeviceState::Device
        } else if l == String::from_str("offline") {
            DeviceState::Offline
        } else if l == String::from_str("unauthorized") {
            DeviceState::Unauthorized
        } else {
            DeviceState::NoDevice
        }
    }
}

/// A device as listed by the capture tool.
#[derive(Debug, Clone)]
pub struct Device {
    pub id: String,
    pub name: String,
    pub model: String,
    pub state: DeviceState,
    pub is_emulator: bool,
}

/// A process running on a device.
#[derive(Debug, Clone)]
pub struct ProcessInfo {
    pub pid: u32,
    pub name: String,
    pub package_name: Option<String>,
}

/// The value of a decimal `u32` as `str::parse` reads it: an optional `+`,
/// then ASCII digits.
pub open spec fn u32_text(s: Seq<char>) -> Option<u32> {
    let d = unsigned_digits(s);
    if d.len() > 0 && all_digits(d) && digits_value(d) <= u32::MAX {
        Some(digits_value(d) as u32)
    } else {
        None
    }
}

/// `s` without one leading `+`.
pub open spec fn unsigned_digits(s: Seq<char>) -> Seq<char> {
    if s.len() > 0 && s[0] == '+' {
        s.subrange(1, s.len() as int)
    } else {
        s
    }
}

pub open spec fn all_digits(d: Seq<char>) -> bool {
    forall|k: int| 0 <= k < d.len() ==> is_digit(#[trigger] d[k])
}

/// A process name that holds a dot is taken for a package identifier.
pub open spec fn package_of(name: Seq<char>) -> Option<Seq<char>> {
    if name.contains('.') {
        Some(name)
    } else {
        None
    }
}

/// The pid and name on one row of a process listing, if it has them.
pub open spec fn process_row(line: Seq<char>) -> Option<(u32, Seq<char>)> {
    let ws = words(line);
    if ws.len() >= 2 && u32_text(ws[0]) is Some {
        Some((u32_text(ws[0])->0, joined(ws.subrange(1, ws.len() as int))))
    } else {
        None
    }
}

/// The rows, from the `i`-th line on, that name a process.
pub open spec fn process_rows(ls: Seq<Seq<char>>, i: int) -> Seq<(u32, Seq<char>)>
    decreases ls.len() - i,
{
    if i < 0 || i >= ls.len() {
        Seq::empty()
    } else if process_row(ls[i]) is Some {
        seq![process_row(ls[i])->0] + process_rows(ls, i + 1)
    } else {
        process_rows(ls, i + 1)
    }
}

/// `p` is the process record of `row`.
pub open spec fn process_from_row(p: ProcessInfo, row: (u32, Seq<char>)) -> bool {
    &&& p.pid == row.0
    &&& p.name@ == row.1
    &&& p.package_name is Some == package_of(row.1) is Some
    &&& p.package_name is Some ==> p.package_name->0@ == row.1
}

fn parse_u32_text(s: &Vec<char>) -> (r: Option<u32>)
    ensures
        r == u32_text(s@),
{
    let start: usize = if s.len() > 0 && s[0] == '+' { 1 } else { 0 };
    let ghost d = unsigned_digits(s@);
    assert(d =~= s@.subrange(start as int, s@.len() as int));
    if start >= s.len() {
        return None;
    }
    let mut acc: u64 = 0;
    let mut k: usize = start;
    while k < s.len()
        invariant
            start <= k <= s@.len(),
            d =~= s@.subrange(start as int, s@.len() as int),
            d == unsigned_digits(s@),
            forall|q: int| start <= q < k ==> is_digit(#[trigger] s@[q]),
            acc == digits_value(s@.subrange(start as int, k as int)),
            acc <= u32::MAX,
        decreases s@.len() - k,
    {
        if !is_digit_char(s[k]) {
            assert(d[k - start] == s@[k as int]);
            assert(!is_digit(d[k - start]));
            return None;
        }
        let ghost prefix = s@.subrange(start as int, k + 1);
        assert(prefix.drop_last() =~= s@.subrange(start as int, k as int));
        assert(prefix.last() == s@[k as int]);
        acc = acc * 10 + (s[k] as u32 - '0' as u32) as u64;
        if acc > u32::MAX as u64 {
            proof {
                if all_digits(d) {
                    lemma_digits_value_grows(d, k + 1 - start);
                    assert(d.subrange(0, k + 1 - start) =~= s@.subrange(start as int, k + 1));
                }
            }
            return None;
        }
        k = k + 1;
    }
    assert forall|q: int| 0 <= q < d.len() implies is_digit(#[trigger] d[q]) by {
        assert(d[q] == s@[start + q]);
    }
    assert(s@.subrange(start as int, k as int) =~= d);
    Some(acc as u32)
}

/// A longer run of digits has a value no smaller than its prefixes.
proof fn lemma_digits_value_grows(d: Seq<char>, n: int)
    requires
        0 <= n <= d.len(),
        forall|k: int| 0 <= k < d.len() ==> is_digit(#[trigger] d[k]),
    ensures
        digits_value(d.subrange(0, n)) <= digits_value(d),
    decreases d.len() - n,
{
    if n < d.len() {
        lemma_digits_value_grows(d, n + 1);
        let p = d.subrange(0, n + 1);
        assert(p.drop_last() =~= d.subrange(0, n));
    } else {
        assert(d.subrange(0, n) =~= d);
    }
}

fn process_of_words(ws: &Vec<Vec<char>>) -> (r: Option<ProcessInfo>)
    ensures
        r is Some == process_row_words(ws@.map_values(|v: Vec<char>| v@)) is Some,
        r is Some ==> process_from_row(r->0, process_row_words(ws@.map_values(|v: Vec<char>| v@))->0),
{
    let ghost vs = ws@.map_values(|v: Vec<char>| v@);
    if ws.len() < 2 {
        return None;
    }
    assert(vs[0] == ws@[0]@);
    match parse_u32_text(&ws[0]) {
        None => None,
        Some(pid) => {
            let name_chars = join_words(ws, 1);
            let name = string_of(name_chars.as_slice());
            let package_name = if has_dot(&name_chars) {
                Some(name.clone())
            } else {
                None
            };
            Some(ProcessInfo { pid, name, package_name })
        },
    }
}

pub open spec fn process_row_words(ws: Seq<Seq<char>>) -> Option<(u32, Seq<char>)> {
    if ws.len() >= 2 && u32_text(ws[0]) is Some {
        Some((u32_text(ws[0])->0, joined(ws.subrange(1, ws.len() as int))))
    } else {
        None
    }
}

fn has_dot(s: &Vec<char>) -> (r: bool)
    ensures
        r == s@.contains('.'),
{
    let mut k: usize = 0;
    while k < s.len()
        invariant
            k <= s@.len(),
            forall|q: int| 0 <= q < k ==> s@[q] != '.',
        decreases s@.len() - k,
    {
        if s[k] == '.' {
            return true;
        }
        k = k + 1;
    }
    false
}

/// The rows of a process listing: every line after the header that names a
/// process.
pub open spec fn listing_rows(output: Seq<char>) -> Seq<(u32, Seq<char>)> {
    process_rows(lines_from(output, 0), 1)
}

/// The value of the last word of `ws` that begins with `prefix`, without it.
pub open spec fn last_value(ws: Seq<Seq<char>>, prefix: Seq<char>) -> Option<Seq<char>>
    decreases ws.len(),
{
    if ws.len() == 0 {
        None
    } else if prefix.is_prefix_of(ws.last()) {
        Some(ws.last().subrange(prefix.len() as int, ws.last().len() as int))
    } else {
        last_value(ws.drop_last(), prefix)
    }
}

/// `s` with each underscore turned into a space.
pub open spec fn spaced(s: Seq<char>) -> Seq<char> {
    s.map_values(|c: char| if c == '_' { ' ' } else { c })
}

pub open spec fn is_emulator_id(id: Seq<char>) -> bool {
    "emulator-"@.is_prefix_of(id) || occurs_in("localhost"@, id)
}

/// `d` is the device that the words `ws` of one listing row describe.
pub open spec fn device_from_words(d: Device, ws: Seq<Seq<char>>) -> bool {
    let id = ws[0];
    let opts = ws.subrange(2, ws.len() as int);
    let model0 = match last_value(opts, "model:"@) {
        Some(v) => spaced(v),
        None => Seq::empty(),
    };
    let name0 = match last_value(opts, "device:"@) {
        Some(v) => v,
        None => Seq::empty(),
    };
    let emulator = is_emulator_id(id);
    let name = if name0.len() == 0 {
        if emulator {
            "Emulator ("@ + id + ")"@
        } else {
            model0
        }
    } else {
        name0
    };
    let model = if model0.len() == 0 {
        name
    } else {
        model0
    };
    &&& d.id@ == id
    &&& d.state == state_of(ws[1])
    &&& d.is_emulator == emulator
    &&& d.name@ == name
    &&& d.model@ == model
}

/// The word lists of the lines, from the `i`-th on, with two words or more.
pub open spec fn device_rows(ls: Seq<Seq<char>>, i: int) -> Seq<Seq<Seq<char>>>
    decreases ls.len() - i,
{
    if i < 0 || i >= ls.len() {
        Seq::empty()
    } else if words(ls[i]).len() >= 2 {
        seq![words(ls[i])] + device_rows(ls, i + 1)
    } else {
        device_rows(ls, i + 1)
    }
}

/// The rows of a device listing, after its header.
pub open spec fn listing_devices(output: Seq<char>) -> Seq<Seq<Seq<char>>> {
    device_rows(lines_from(output, 0), 1)
}

fn words_of(line: &Vec<char>) -> (r: Vec<Vec<char>>)
    ensures
        r@.map_values(|v: Vec<char>| v@) == words(line@),
{
    let r = split_words(line);
    assert(r@.map_values(|v: Vec<char>| v@) =~= words(line@));
    r
}

fn spaced_chars(s: &Vec<char>) -> (r: Vec<char>)
    ensures
        r@ == spaced(s@),
{
    let mut r: Vec<char> = Vec::new();
    let mut k: usize = 0;
    while k < s.len()
        invariant
            k <= s@.len(),
            r@ =~= spaced(s@.subrange(0, k as int)),
        decreases s@.len() - k,
    {
        r.push(if s[k] == '_' { ' ' } else { s[k] });
        k = k + 1;
        assert(r@ =~= spaced(s@.subrange(0, k as int)));
    }
    assert(s@.subrange(0, s@.len() as int) =~= s@);
    r
}

/// The value after `prefix` on the last of `ws[2..]` that begins with it.
fn last_value_of(ws: &Vec<Vec<char>>, prefix: &Vec<char>) -> (r: Option<Vec<char>>)
    requires
        ws@.len() >= 2,
    ensures
        r is Some == last_value(ws@.map_values(|v: Vec<char>| v@).subrange(2, ws@.len() as int), prefix@) is Some,
        r is Some ==> r->0@ == last_value(
            ws@.map_values(|v: Vec<char>| v@).subrange(2, ws@.len() as int),
            prefix@,
        )->0,
{
    let ghost vs = ws@.map_values(|v: Vec<char>| v@);
    let mut found: Option<Vec<char>> = None;
    let mut k: usize = 2;
    while k < ws.len()
        invariant
            2 <= k <= ws@.len(),
            vs == ws@.map_values(|v: Vec<char>| v@),
            found is Some == last_value(vs.subrange(2, k as int), prefix@) is Some,
            found is Some ==> found->0@ == last_value(vs.subrange(2, k as int), prefix@)->0,
        decreases ws@.len() - k,
    {
        let ghost part = vs.subrange(2, k + 1);
        assert(part.drop_last() =~= vs.subrange(2, k as int));
        assert(part.last() == ws@[k as int]@);
        let w = &ws[k];
        if starts_with_run(w, prefix) {
            found = Some(crate::text::slice_of(w, prefix.len(), w.len()));
        }
        k = k + 1;
    }
    found
}

fn device_of_words(ws: &Vec<Vec<char>>) -> (r: Device)
    requires
        ws@.len() >= 2,
    ensures
        device_from_words(r, ws@.map_values(|v: Vec<char>| v@)),
{
    let ghost vs = ws@.map_values(|v: Vec<char>| v@);
    assert(vs[0] == ws@[0]@ && vs[1] == ws@[1]@);
    let id_chars = &ws[0];
    let id = string_of(id_chars.as_slice());
    let state = DeviceState::from_str(string_of(ws[1].as_slice()).as_str());
    let model_key = chars_of("model:");
    let device_key = chars_of("device:");
    let mut model = match last_value_of(ws, &model_key) {
        Some(v) => string_of(spaced_chars(&v).as_slice()),
        None => String::new(),
    };
    let mut name = match last_value_of(ws, &device_key) {
        Some(v) => string_of(v.as_slice()),
        None => String::new(),
    };
    let is_emulator = starts_with_run(id_chars, &chars_of("emulator-")) || contains_run(
        id_chars,
        &chars_of("localhost"),
    );
    if name.as_str().is_empty() {
        name = if is_emulator {
            String::from_str("Emulator (").concat(id.as_str()).concat(")")
        } else {
            model.clone()
        };
    }
    if model.as_str().is_empty() {
        model = name.clone();
    }
    Device { id, name, model, state, is_emulator }
}

/// The capture tool, reached through the executable at `adb_path`.
pub struct AdbManager {
    adb_path: String,
}

impl AdbManager {
    pub closed spec fn spec_path(&self) -> Seq<char> {
        self.adb_path@
    }

    pub fn new() -> (r: AdbManager)
        ensures
            r.spec_path() == "adb"@,
    {
        AdbManager { adb_path: String::from_str("adb") }
    }

    pub fn with_path(path: String) -> (r: AdbManager)
        ensures
            r.spec_path() == path@,
    {
        AdbManager { adb_path: path }
    }

    pub fn adb_path(&self) -> (r: &str)
        ensures
            r@ == self.spec_path(),
    {
        self.adb_path.as_str()
    }

    /// Reads a device listing (`ID STATE key:value...` rows after a header).
    pub fn parse_devices_output(&self, output: &str) -> (r: Vec<Device>)
        ensures
            r@.len() == listing_devices(output@).len(),
            forall|i: int|
                0 <= i < r@.len() ==> device_from_words(#[trigger] r@[i], listing_devices(output@)[i]),
    {
        let text = chars_of(output);
        let lines = split_lines(&text);
        let ghost ls = lines_from(text@, 0);
        let ghost all = device_rows(ls, 1);
        let mut r: Vec<Device> = Vec::new();
        let mut i: usize = 1;
        if lines.len() == 0 {
            return r;
        }
        while i < lines.len()
            invariant
                1 <= i <= lines@.len(),
                ls == lines_from(text@, 0),
                text@ == output@,
                lines@.len() == ls.len(),
                forall|k: int| 0 <= k < lines@.len() ==> #[trigger] lines@[k]@ == ls[k],
                all == device_rows(ls, 1),
                r@.len() + device_rows(ls, i as int).len() == all.len(),
                forall|k: int| 0 <= k < r@.len() ==> device_from_words(#[trigger] r@[k], all[k]),
                device_rows(ls, i as int) == all.subrange(r@.len() as int, all.len() as int),
            decreases lines@.len() - i,
        {
            let ws = words_of(&lines[i]);
            let ghost b = r@.len() as int;
            let ghost rest = device_rows(ls, i + 1);
            if ws.len() >= 2 {
                let d = device_of_words(&ws);
                proof {
                    let x = all.subrange(b, all.len() as int);
                    assert(x == seq![words(ls[i as int])] + rest);
                    assert(x[0] == all[b]);
                    assert forall|k: int| 0 <= k < rest.len() implies all.subrange(
                        b + 1,
                        all.len() as int,
                    )[k] == rest[k] by {
                        assert(x[k + 1] == all[b + 1 + k]);
                    }
                    assert(rest =~= all.subrange(b + 1, all.len() as int));
                }
                r.push(d);
            } else {
                assert(rest =~= all.subrange(b, all.len() as int));
            }
            i = i + 1;
        }
        proof {
            assert(device_rows(ls, i as int) =~= Seq::<Seq<Seq<char>>>::empty());
        }
        r
    }

    /// Reads a process listing (`PID NAME` rows after a header).
    pub fn parse_processes_output(&self, output: &str) -> (r: Vec<ProcessInfo>)
        ensures
            r@.len() == listing_rows(output@).len(),
            forall|i: int|
                0 <= i < r@.len() ==> process_from_row(#[trigger] r@[i], listing_rows(output@)[i]),
    {
        parse_process_listing(output)
    }
}

impl Default for AdbManager {
    fn default() -> (r: AdbManager)
        ensures
            r.spec_path() == "adb"@,
    {
        AdbManager::new()
    }
}

/// Reads a process listing (`PID NAME` rows after a header).
pub fn parse_process_listing(output: &str) -> (r: Vec<ProcessInfo>)
    ensures
        r@.len() == listing_rows(output@).len(),
        forall|i: int|
            0 <= i < r@.len() ==> process_from_row(#[trigger] r@[i], listing_rows(output@)[i]),
{
    let text = chars_of(output);
    let lines = split_lines(&text);
    let ghost ls = lines_from(text@, 0);
    let ghost all = process_rows(ls, 1);
    let mut r: Vec<ProcessInfo> = Vec::new();
    if lines.len() == 0 {
        return r;
    }
    let mut i: usize = 1;
    while i < lines.len()
        invariant
            1 <= i <= lines@.len(),
            ls == lines_from(text@, 0),
            text@ == output@,
            lines@.len() == ls.len(),
            forall|k: int| 0 <= k < lines@.len() ==> #[trigger] lines@[k]@ == ls[k],
            all == process_rows(ls, 1),
            r@.len() + process_rows(ls, i as int).len() == all.len(),
            forall|k: int| 0 <= k < r@.len() ==> process_from_row(#[trigger] r@[k], all[k]),
            process_rows(ls, i as int) == all.subrange(r@.len() as int, all.len() as int),
        decreases lines@.len() - i,
    {
        let ws = words_of(&lines[i]);
        let ghost b = r@.len() as int;
        let ghost rest = process_rows(ls, i + 1);
        assert(lines@[i as int]@ == ls[i as int]);
        match process_of_words(&ws) {
            Some(p) => {
                proof {
                    let x = all.subrange(b, all.len() as int);
                    assert(x == seq![process_row(ls[i as int])->0] + rest);
                    assert(x[0] == all[b]);
                    assert forall|k: int| 0 <= k < rest.len() implies all.subrange(
                        b + 1,
                        all.len() as int,
                    )[k] == rest[k] by {
                        assert(x[k + 1] == all[b + 1 + k]);
                    }
                    assert(rest =~= all.subrange(b + 1, all.len() as int));
                }
                r.push(p);
            },
            None => {
                assert(rest =~= all.subrange(b, all.len() as int));
            },
        }
        i = i + 1;
    }
    proof {
        assert(process_rows(ls, i as int) =~= Seq::<(u32, Seq<char>)>::empty());
    }
    r
}

/// `m` after recording each of `ps` in turn, later records overwriting
/// earlier ones with the same pid.
pub open spec fn merged(m: Map<u32, ProcessInfo>, ps: Seq<ProcessInfo>) -> Map<u32, ProcessInfo>
    decreases ps.len(),
{
    if ps.len() == 0 {
        m
    } else {
        merged(m, ps.drop_last()).insert(ps.last().pid, ps.last())
    }
}

fn copy_process(p: &ProcessInfo) -> (r: ProcessInfo)
    ensures
        r == *p,
{
    ProcessInfo {
        pid: p.pid,
        name: p.name.clone(),
        package_name: match &p.package_name {
            Some(n) => Some(n.clone()),
            None => None,
        },
    }
}

/// A pid-keyed cache of process identities. Refreshes overwrite the pids they
/// report and never drop the others.
pub struct ProcessDirectory {
    entries: HashMap<u32, ProcessInfo>,
}

impl View for ProcessDirectory {
    type V = Map<u32, ProcessInfo>;

    closed spec fn view(&self) -> Map<u32, ProcessInfo> {
        self.entries@
    }
}

impl ProcessDirectory {
    pub fn new() -> (r: ProcessDirectory)
        ensures
            r@ == Map::<u32, ProcessInfo>::empty(),
    {
        ProcessDirectory { entries: HashMap::new() }
    }

    /// Records each process, in order.
    pub fn merge(&mut self, processes: &Vec<ProcessInfo>)
        ensures
            final(self)@ == merged(old(self)@, processes@),
    {
        let mut k: usize = 0;
        while k < processes.len()
            invariant
                k <= processes@.len(),
                self@ == merged(old(self)@, processes@.subrange(0, k as int)),
            decreases processes@.len() - k,
        {
            let ghost part = processes@.subrange(0, k + 1);
            assert(part.drop_last() =~= processes@.subrange(0, k as int));
            assert(part.last() == processes@[k as int]);
            let p = copy_process(&processes[k]);
            self.entries.insert(p.pid, p);
            k = k + 1;
        }
        assert(processes@.subrange(0, processes@.len() as int) =~= processes@);
    }

    /// Merges the rows of a process listing.
    pub fn refresh_from_listing(&mut self, output: &str)
        ensures
            exists|ps: Seq<ProcessInfo>|
                {
                    &&& ps.len() == listing_rows(output@).len()
                    &&& forall|i: int|
                        0 <= i < ps.len() ==> process_from_row(#[trigger] ps[i], listing_rows(output@)[i])
                    &&& final(self)@ == merged(old(self)@, ps)
                },
    {
        let ps = parse_process_listing(output);
        self.merge(&ps);
    }

    /// A point-in-time copy of the mapping.
    pub fn snapshot(&self) -> (r: HashMap<u32, ProcessInfo>)
        ensures
            r@ == self@,
    {
        self.entries.clone()
    }

    /// The mapping itself, for a lookup while a read lock is held.
    pub fn entries(&self) -> (r: &HashMap<u32, ProcessInfo>)
        ensures
            r@ == self@,
    {
        &self.entries
    }

    pub fn len(&self) -> (r: usize)
        ensures
            r == self@.len(),
    {
        self.entries.len()
    }
}

/// `e` joined with what `snapshot` knows of its pid.
pub open spec fn enriched(e: LogEntry, snapshot: Map<u32, ProcessInfo>) -> LogEntry {
    if snapshot.contains_key(e.pid) {
        LogEntry {
            process_name: Some(snapshot[e.pid].name),
            package_name: snapshot[e.pid].package_name,
            ..e
        }
    } else {
        e
    }
}

/// Fills in the process name and package of `entry` from `snapshot`; an
/// unknown pid leaves the entry as it is.
pub fn enrich(entry: &mut LogEntry, snapshot: &HashMap<u32, ProcessInfo>)
    ensures
        *final(entry) == enriched(*old(entry), snapshot@),
{
    match snapshot.get(&entry.pid) {
        Some(p) => {
            entry.process_name = Some(p.name.clone());
            entry.package_name = match &p.package_name {
                Some(n) => Some(n.clone()),
                None => None,
            };
        },
        None => {},
    }
}

} // verus!
