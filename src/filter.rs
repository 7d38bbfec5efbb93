//! The filter engine: a filter configuration compiled once into a predicate
//! over log entries.
use vstd::prelude::*;
use crate::parser::{LogEntry, LogLevel};
use crate::text::{chars_of, contains_run, occurs_in};
use regex::Regex;

verus! {

#[verifier::external_type_specification]
#[verifier::external_body]
pub struct ExRegex(regex::Regex);

#[verifier::external_type_specification]
#[verifier::external_body]
pub struct ExRegexError(regex::Error);

/// Names the pattern text that a compiled regex was built from, which
/// `Regex::as_str` gives back.
pub uninterp spec fn regex_source(re: Regex) -> Seq<char>;

/// Names whether `Regex::new` accepts a pattern.
pub uninterp spec fn regex_accepts(pattern: Seq<char>) -> bool;

/// Names whether a regex with the given pattern finds a match in a text.
pub uninterp spec fn regex_finds(pattern: Seq<char>, hay: Seq<char>) -> bool;

/// Names the lower-case form of a text, as `str::to_lowercase` gives it.
pub uninterp spec fn lower_of(s: Seq<char>) -> Seq<char>;

/// The characters that a regex pattern gives a meaning to.
pub open spec fn is_meta(c: char) -> bool {
    c == '\\' || c == '.' || c == '+' || c == '*' || c == '?' || c == '(' || c == ')' || c == '|'
        || c == '[' || c == ']' || c == '{' || c == '}' || c == '^' || c == '$' || c == '#' || c
        == '&' || c == '-' || c == '~'
}

/// `s` with a backslash before each meta character: a pattern that matches
/// `s` literally.
pub open spec fn escaped(s: Seq<char>) -> Seq<char>
    decreases s.len(),
{
    if s.len() == 0 {
        Seq::empty()
    } else if is_meta(s.last()) {
        escaped(s.drop_last()) + seq!['\\', s.last()]
    } else {
        escaped(s.drop_last()) + seq![s.last()]
    }
}

/// Relies on `Regex::new`: it either accepts the pattern, keeping its text, or
/// refuses it.
#[verifier::external_body]
fn new_regex(pattern: &str) -> (r: Result<Regex, regex::Error>)
    ensures
        r is Ok == regex_accepts(pattern@),
        r is Ok ==> regex_source(r->Ok_0) == pattern@,
{
    Regex::new(pattern)
}

/// Relies on `Regex::is_match`: whether the regex matches somewhere in `hay`.
#[verifier::external_body]
fn regex_is_match(re: &Regex, hay: &str) -> (r: bool)
    ensures
        r == regex_finds(regex_source(*re), hay@),
{
    re.is_match(hay)
}

/// Relies on `regex::escape`: a backslash before each meta character.
#[verifier::external_body]
fn escape_pattern(s: &str) -> (r: String)
    ensures
        r@ == escaped(s@),
{
    regex::escape(s)
}

/// Relies on `str::to_lowercase`: the result depends on the characters alone.
#[verifier::external_body]
pub(crate) fn lowercase(s: &str) -> (r: String)
    ensures
        r@ == lower_of(s@),
{
    s.to_lowercase()
}

/// What a client wants to see.
#[derive(Debug, Clone)]
pub struct FilterConfig {
    pub levels: Vec<LogLevel>,
    /// Tag substrings, compared without regard to case; empty means any tag.
    pub tags: Vec<String>,
    /// Compared, without regard to case, against the entry's tag.
    pub package_name: Option<String>,
    pub pid: Option<u32>,
    /// Empty means no search.
    pub search_text: String,
    pub is_regex: bool,
    pub is_case_sensitive: bool,
}

impl Default for FilterConfig {
    fn default() -> (r: FilterConfig)
        ensures
            r.levels@ == seq![LogLevel::V, LogLevel::D, LogLevel::I, LogLevel::W, LogLevel::E, LogLevel::A],
            r.tags@.len() == 0,
            r.package_name is None,
            r.pid is None,
            r.search_text@.len() == 0,
            !r.is_regex,
            !r.is_case_sensitive,
    {
        FilterConfig {
            levels: vec![LogLevel::V, LogLevel::D, LogLevel::I, LogLevel::W, LogLevel::E, LogLevel::A],
            tags: Vec::new(),
            package_name: None,
            pid: None,
            search_text: String::new(),
            is_regex: false,
            is_case_sensitive: false,
        }
    }
}

/// The search text as a pattern: as written in regex mode, else escaped so
/// that it matches literally.
pub open spec fn base_pattern(c: FilterConfig) -> Seq<char> {
    if c.is_regex {
        c.search_text@
    } else {
        escaped(c.search_text@)
    }
}

/// The pattern that the search text compiles to.
pub open spec fn search_pattern(c: FilterConfig) -> Seq<char> {
    let p = base_pattern(c);
    if c.is_case_sensitive {
        p
    } else {
        "(?i)"@ + p
    }
}

/// A search is set and its pattern compiles.
pub open spec fn search_active(c: FilterConfig) -> bool {
    c.search_text@.len() > 0 && regex_accepts(search_pattern(c))
}

pub open spec fn level_ok(c: FilterConfig, e: LogEntry) -> bool {
    c.levels@.contains(e.level)
}

pub open spec fn tags_ok(c: FilterConfig, e: LogEntry) -> bool {
    c.tags@.len() == 0 || exists|i: int|
        0 <= i < c.tags@.len() && occurs_in(lower_of(#[trigger] c.tags@[i]@), lower_of(e.tag@))
}

pub open spec fn package_ok(c: FilterConfig, e: LogEntry) -> bool {
    c.package_name is None || occurs_in(lower_of(c.package_name->0@), lower_of(e.tag@))
}

pub open spec fn pid_ok(c: FilterConfig, e: LogEntry) -> bool {
    c.pid is None || c.pid->0 == e.pid
}

/// The text that a search runs over: tag and message, one space between.
pub open spec fn search_target(e: LogEntry) -> Seq<char> {
    e.tag@ + " "@ + e.message@
}

/// A search whose pattern does not compile lets every entry through.
pub open spec fn search_ok(c: FilterConfig, e: LogEntry) -> bool {
    !search_active(c) || regex_finds(search_pattern(c), search_target(e))
}

/// `c` lets `e` through.
pub open spec fn accepts(c: FilterConfig, e: LogEntry) -> bool {
    &&& level_ok(c, e)
    &&& tags_ok(c, e)
    &&& package_ok(c, e)
    &&& pid_ok(c, e)
    &&& search_ok(c, e)
}

/// The entries of `s` that `c` lets through, in order.
pub open spec fn kept(c: FilterConfig, s: Seq<LogEntry>) -> Seq<LogEntry>
    decreases s.len(),
{
    if s.len() == 0 {
        Seq::empty()
    } else if accepts(c, s.last()) {
        kept(c, s.drop_last()).push(s.last())
    } else {
        kept(c, s.drop_last())
    }
}

/// A filter configuration together with its compiled search.
pub struct LogFilter {
    config: FilterConfig,
    compiled_regex: Option<Regex>,
}

impl LogFilter {
    pub closed spec fn spec_config(&self) -> FilterConfig {
        self.config
    }

    #[verifier::type_invariant]
    spec fn compiled_matches_config(&self) -> bool {
        &&& self.compiled_regex is Some == search_active(self.config)
        &&& self.compiled_regex is Some ==> regex_source(self.compiled_regex->0) == search_pattern(
            self.config,
        )
    }

    fn compile_search_regex(config: &FilterConfig) -> (r: Option<Regex>)
        ensures
            r is Some == search_active(*config),
            r is Some ==> regex_source(r->0) == search_pattern(*config),
    {
        if config.search_text.as_str().is_empty() {
            return None;
        }
        let pattern = if config.is_regex {
            config.search_text.clone()
        } else {
            escape_pattern(config.search_text.as_str())
        };
        let full = if config.is_case_sensitive {
            pattern
        } else {
            String::from_str("(?i)").concat(pattern.as_str())
        };
        match new_regex(full.as_str()) {
            Ok(re) => Some(re),
            Err(_) => None,
        }
    }

    pub fn new(config: FilterConfig) -> (r: LogFilter)
        ensures
            r.spec_config() == config,
    {
        let compiled_regex = Self::compile_search_regex(&config);
        LogFilter { config, compiled_regex }
    }

    pub fn update_config(&mut self, config: FilterConfig)
        ensures
            final(self).spec_config() == config,
    {
        let compiled_regex = Self::compile_search_regex(&config);
        *self = LogFilter { config, compiled_regex };
    }

    pub fn config(&self) -> (r: &FilterConfig)
        ensures
            *r == self.spec_config(),
    {
        &self.config
    }

    /// Whether `entry` passes every criterion of the configuration.
    pub fn matches(&self, entry: &LogEntry) -> (r: bool)
        ensures
            r == accepts(self.spec_config(), *entry),
    {
        proof {
            use_type_invariant(self);
        }
        let c = &self.config;
        let mut i: usize = 0;
        let mut level_found = false;
        while i < c.levels.len()
            invariant
                i <= c.levels@.len(),
                level_found == (exists|k: int| 0 <= k < i && c.levels@[k] == entry.level),
            decreases c.levels@.len() - i,
        {
            if c.levels[i] == entry.level {
                level_found = true;
            }
            i = i + 1;
        }
        if !level_found {
            return false;
        }
        let tag_lower = chars_of(lowercase(entry.tag.as_str()).as_str());
        if c.tags.len() > 0 {
            let mut j: usize = 0;
            let mut tag_found = false;
            while j < c.tags.len()
                invariant
                    j <= c.tags@.len(),
                    tag_lower@ == lower_of(entry.tag@),
                    tag_found == (exists|k: int|
                        0 <= k < j && occurs_in(lower_of(#[trigger] c.tags@[k]@), lower_of(entry.tag@))),
                decreases c.tags@.len() - j,
            {
                let wanted = chars_of(lowercase(c.tags[j].as_str()).as_str());
                if contains_run(&tag_lower, &wanted) {
                    tag_found = true;
                }
                j = j + 1;
            }
            if !tag_found {
                return false;
            }
        }
        match &c.package_name {
            Some(pkg) => {
                let wanted = chars_of(lowercase(pkg.as_str()).as_str());
                if !contains_run(&tag_lower, &wanted) {
                    return false;
                }
            },
            None => {},
        }
        match c.pid {
            Some(pid) => {
                if entry.pid != pid {
                    return false;
                }
            },
            None => {},
        }
        match &self.compiled_regex {
            Some(re) => {
                let target = entry.tag.clone().concat(" ").concat(entry.message.as_str());
                if !regex_is_match(re, target.as_str()) {
                    return false;
                }
            },
            None => {},
        }
        true
    }

    /// The entries of `logs` that pass, in their order.
    pub fn filter_logs(&self, logs: &[LogEntry]) -> (r: Vec<LogEntry>)
        ensures
            r@ == kept(self.spec_config(), logs@),
    {
        let mut r: Vec<LogEntry> = Vec::new();
        let mut i: usize = 0;
        while i < logs.len()
            invariant
                i <= logs@.len(),
                r@ == kept(self.spec_config(), logs@.subrange(0, i as int)),
            decreases logs@.len() - i,
        {
            let ghost prefix = logs@.subrange(0, i as int + 1);
            assert(prefix.drop_last() =~= logs@.subrange(0, i as int));
            assert(prefix.last() == logs@[i as int]);
            if self.matches(&logs[i]) {
                r.push(copy_entry(&logs[i]));
            }
            i = i + 1;
        }
        assert(logs@.subrange(0, logs@.len() as int) =~= logs@);
        r
    }
}

impl Default for LogFilter {
    /// A filter that lets every entry through.
    fn default() -> (r: LogFilter)
        ensures
            r.spec_config().levels@ == seq![LogLevel::V, LogLevel::D, LogLevel::I, LogLevel::W, LogLevel::E, LogLevel::A],
            r.spec_config().tags@.len() == 0,
            r.spec_config().package_name is None,
            r.spec_config().pid is None,
            r.spec_config().search_text@.len() == 0,
            !r.spec_config().is_regex,
            !r.spec_config().is_case_sensitive,
    {
        LogFilter::new(FilterConfig::default())
    }
}

fn copy_text(s: &Option<String>) -> (r: Option<String>)
    ensures
        r == *s,
{
    match s {
        Some(t) => Some(t.clone()),
        None => None,
    }
}

/// A field-by-field copy of `e`.
pub fn copy_entry(e: &LogEntry) -> (r: LogEntry)
    ensures
        r == *e,
{
    LogEntry {
        id: e.id,
        device_id: copy_text(&e.device_id),
        timestamp: e.timestamp.clone(),
        date_time: copy_text(&e.date_time),
        epoch: e.epoch,
        pid: e.pid,
        tid: e.tid,
        level: e.level,
        tag: e.tag.clone(),
        message: e.message.clone(),
        package_name: copy_text(&e.package_name),
        process_name: copy_text(&e.process_name),
        raw: copy_text(&e.raw),
    }
}

/// One criterion of a filter configuration.
pub enum Criterion {
    Level,
    Tag,
    Package,
    Pid,
    Search,
}

/// `r` leaves criterion `k` unset: every level, no tag, no package, no pid,
/// no search text.
pub open spec fn unset(r: FilterConfig, k: Criterion) -> bool {
    match k {
        Criterion::Level => forall|l: LogLevel| r.levels@.contains(l),
        Criterion::Tag => r.tags@.len() == 0,
        Criterion::Package => r.package_name is None,
        Criterion::Pid => r.pid is None,
        Criterion::Search => r.search_text@.len() == 0,
    }
}

/// `r` agrees with `c` on every criterion but `k`.
pub open spec fn same_except(c: FilterConfig, r: FilterConfig, k: Criterion) -> bool {
    &&& (k is Level || r.levels@ == c.levels@)
    &&& (k is Tag || r.tags@ == c.tags@)
    &&& (k is Package || r.package_name == c.package_name)
    &&& (k is Pid || r.pid == c.pid)
    &&& (k is Search || (r.search_text@ == c.search_text@ && r.is_regex == c.is_regex
        && r.is_case_sensitive == c.is_case_sensitive))
}

/// Filtering is a plain conjunction of its criteria: unsetting any one of
/// them never turns away an entry that the configuration let through.
pub proof fn lemma_unsetting_a_criterion_keeps_entries(
    c: FilterConfig,
    r: FilterConfig,
    k: Criterion,
    e: LogEntry,
)
    requires
        accepts(c, e),
        unset(r, k),
        same_except(c, r, k),
    ensures
        accepts(r, e),
{
    match k {
        Criterion::Tag => {
            assert(tags_ok(r, e));
        },
        Criterion::Search => {
            assert(!search_active(r));
        },
        _ => {
            if !(k is Search) {
                assert(search_pattern(r) == search_pattern(c));
            }
        },
    }
    if !(k is Tag) {
        assert(r.tags@ == c.tags@);
        assert(tags_ok(r, e));
    }
}

/// Unless the search is case sensitive, its pattern carries the
/// case-insensitive flag before the search text; when it is, the pattern is
/// the search text alone. A search whose pattern does not compile lets every
/// entry through.
pub proof fn lemma_search_case_and_fallback(c: FilterConfig, e: LogEntry)
    ensures
        !c.is_case_sensitive ==> search_pattern(c) == "(?i)"@ + base_pattern(c),
        c.is_case_sensitive ==> search_pattern(c) == base_pattern(c),
        !regex_accepts(search_pattern(c)) ==> search_ok(c, e),
{
}

} // verus!
