//! How one search is set up, and the decisions of the loop that oversees it.
use vstd::prelude::*;
use crate::pattern::{has_wildcard, Pattern};
use crate::scan::SearchMode;

verus! {

/// Everything one search needs; shared, unchanged, by all its workers.
pub struct SearchConfig {
    pub query: String,
    pub start_dir: String,
    pub mode: SearchMode,
    pub max_threads: usize,
    pub use_wildcards: bool,
    pub case_sensitive: bool,
    pub log_path: Option<String>,
    pub max_depth: Option<usize>,
    pub breadth_first: bool,
}

impl SearchConfig {
    /// A configuration with the defaults: wildcards on, case counts, no log, no depth
    /// limit, breadth-first order, and `max_threads` workers at most.
    pub fn new(query: String, start_dir: String, mode: SearchMode, max_threads: usize) -> (r:
        SearchConfig)
        ensures
            r.query == query,
            r.start_dir == start_dir,
            r.mode == mode,
            r.max_threads == max_threads,
            r.use_wildcards,
            r.case_sensitive,
            r.log_path is None,
            r.max_depth is None,
            r.breadth_first,
    {
        SearchConfig {
            query,
            start_dir,
            mode,
            max_threads,
            use_wildcards: true,
            case_sensitive: true,
            log_path: None,
            max_depth: None,
            breadth_first: true,
        }
    }

    /// The pattern this search matches names with: a glob when wildcards are on and the
    /// query holds one, else the query taken literally.
    pub fn pattern(&self) -> (r: Pattern)
        ensures
            r.query() == self.query@,
            r.wildcard() == (self.use_wildcards && has_wildcard(self.query@)),
            r.cased() == self.case_sensitive,
    {
        if self.use_wildcards {
            Pattern::new(self.query.as_str(), self.case_sensitive)
        } else {
            Pattern::literal(self.query.as_str(), self.case_sensitive)
        }
    }
}

/// How many workers run: the configured number, but no more than the machine runs in
/// parallel, and at least one.
pub fn effective_workers(configured: usize, available: usize) -> (r: usize)
    ensures
        r >= 1,
        configured >= 1 && available >= 1 ==> r == if configured <= available {
            configured
        } else {
            available
        },
        configured == 0 || available == 0 ==> r == 1,
{
    let n = if configured <= available {
        configured
    } else {
        available
    };
    if n == 0 {
        1
    } else {
        n
    }
}

/// How often, in milliseconds, the overseeing loop looks at the shared state.
pub const POLL_INTERVAL_MS: u64 = 100;

/// How long, in milliseconds, the overseeing loop waits between two progress lines.
pub const REPORT_INTERVAL_MS: u64 = 2000;

/// What the overseeing loop does after one look at the shared state.
#[derive(Clone, Copy, PartialEq, Eq, Structural, Debug)]
pub enum ProgressAction {
    /// Nothing is pending: the search is over.
    Finish,
    /// Print a progress line.
    Report,
    /// Sleep until the next look.
    Wait,
}

/// The overseeing loop's decision, from the number of pending directories and the time
/// since the last progress line.
pub fn progress_step(pending_len: usize, since_report_ms: u64) -> (r: ProgressAction)
    ensures
        pending_len == 0 ==> r == ProgressAction::Finish,
        pending_len > 0 && since_report_ms > REPORT_INTERVAL_MS ==> r == ProgressAction::Report,
        pending_len > 0 && since_report_ms <= REPORT_INTERVAL_MS ==> r == ProgressAction::Wait,
{
    if pending_len == 0 {
        ProgressAction::Finish
    } else if since_report_ms > REPORT_INTERVAL_MS {
        ProgressAction::Report
    } else {
        ProgressAction::Wait
    }
}

/// The hour, minute and second of the day, in UTC, of a time given in seconds since
/// the Unix epoch.
pub fn clock_of_day(secs: u64) -> (r: (u64, u64, u64))
    ensures
        r == ((secs / 3600) % 24, (secs / 60) % 60, secs % 60),
        r.0 < 24 && r.1 < 60 && r.2 < 60,
{
    ((secs / 3600) % 24, (secs / 60) % 60, secs % 60)
}

} // verus!
