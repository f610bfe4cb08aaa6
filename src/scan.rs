//! What a worker does with one directory's listing: which entries are matches, which
//! subdirectories go on to the frontier, and the local buffer of matches not yet merged.
use vstd::prelude::*;
use crate::pattern::{adjusted_chars, Pattern};

verus! {

/// Which kinds of entries a search reports.
#[derive(Clone, Copy, PartialEq, Eq, Structural, Debug)]
pub enum SearchMode {
    File,
    Directory,
    Both,
}

impl SearchMode {
    pub open spec fn takes_files(self) -> bool {
        !(self is Directory)
    }

    pub open spec fn takes_dirs(self) -> bool {
        !(self is File)
    }

    /// Whether files are reported.
    pub fn includes_files(&self) -> (r: bool)
        ensures
            r == self.takes_files(),
    {
        !matches!(self, SearchMode::Directory)
    }

    /// Whether directories are reported.
    pub fn includes_dirs(&self) -> (r: bool)
        ensures
            r == self.takes_dirs(),
    {
        !matches!(self, SearchMode::File)
    }
}

/// A directory waiting to be read, with its depth below the start directory
/// (the start directory itself has depth 0).
pub struct PendingDir {
    pub path: String,
    pub depth: usize,
}

/// One entry of a directory listing: its name, its full path, and whether it is a directory.
pub struct Entry {
    pub name: String,
    pub path: String,
    pub is_dir: bool,
}

/// A path found to match, and whether it is a directory.
pub struct MatchRecord {
    pub path: String,
    pub is_dir: bool,
}

/// The names `.` and `..`, which stand for the directory itself and its parent.
pub open spec fn is_dot_name(n: Seq<char>) -> bool {
    n == seq!['.'] || n == seq!['.', '.']
}

/// The depth of a subdirectory of a directory at depth `d` (held at the largest `usize`).
pub open spec fn child_depth(d: usize) -> usize {
    if d < usize::MAX {
        (d + 1) as usize
    } else {
        d
    }
}

/// Whether a directory at depth `d` is read, given the depth limit.
pub open spec fn within_depth(d: usize, max_depth: Option<usize>) -> bool {
    match max_depth {
        None => true,
        Some(m) => d <= m,
    }
}

/// The match that entry `e` gives, if any.
pub open spec fn entry_record(e: Entry, pattern: Pattern, mode: SearchMode) -> Option<MatchRecord> {
    if is_dot_name(e.name@) || !pattern.accepts(e.name@) {
        None
    } else if e.is_dir && mode.takes_dirs() {
        Some(MatchRecord { path: e.path, is_dir: true })
    } else if !e.is_dir && mode.takes_files() {
        Some(MatchRecord { path: e.path, is_dir: false })
    } else {
        None
    }
}

/// The directory that entry `e`, listed in a directory at depth `depth`, adds to the frontier.
pub open spec fn entry_subdir(e: Entry, depth: usize, max_depth: Option<usize>) -> Option<PendingDir> {
    if !is_dot_name(e.name@) && e.is_dir && within_depth(child_depth(depth), max_depth) {
        Some(PendingDir { path: e.path, depth: child_depth(depth) })
    } else {
        None
    }
}

/// The matches among `entries`, in listing order.
pub open spec fn records_of(entries: Seq<Entry>, pattern: Pattern, mode: SearchMode) -> Seq<
    MatchRecord,
>
    decreases entries.len(),
{
    if entries.len() == 0 {
        seq![]
    } else {
        let before = records_of(entries.drop_last(), pattern, mode);
        match entry_record(entries.last(), pattern, mode) {
            Some(r) => before.push(r),
            None => before,
        }
    }
}

/// The subdirectories among `entries` that are within the depth limit, in listing order.
pub open spec fn subdirs_of(entries: Seq<Entry>, depth: usize, max_depth: Option<usize>) -> Seq<
    PendingDir,
>
    decreases entries.len(),
{
    if entries.len() == 0 {
        seq![]
    } else {
        let before = subdirs_of(entries.drop_last(), depth, max_depth);
        match entry_subdir(entries.last(), depth, max_depth) {
            Some(d) => before.push(d),
            None => before,
        }
    }
}

/// How many of `entries` are scanned: all but `.` and `..`.
pub open spec fn scanned_count(entries: Seq<Entry>) -> nat
    decreases entries.len(),
{
    if entries.len() == 0 {
        0
    } else {
        scanned_count(entries.drop_last()) + if is_dot_name(entries.last().name@) {
            0nat
        } else {
            1nat
        }
    }
}

/// Whether `name` is `.` or `..`.
pub fn is_dot_entry(name: &str) -> (r: bool)
    ensures
        r == is_dot_name(name@),
{
    let c = adjusted_chars(name, true);
    proof {
        if c@.len() == 1 && c@[0] == '.' {
            assert(c@ =~= seq!['.']);
        }
        if c@.len() == 2 && c@[0] == '.' && c@[1] == '.' {
            assert(c@ =~= seq!['.', '.']);
        }
    }
    if c.len() == 1 {
        c[0] == '.'
    } else if c.len() == 2 {
        c[0] == '.' && c[1] == '.'
    } else {
        false
    }
}

/// The number of matches a worker holds before it merges them into the shared state.
pub const FLUSH_THRESHOLD: usize = 100;

/// What one directory's listing gave: the subdirectories to enqueue and the number of
/// entries scanned.
pub struct ScanOutcome {
    pub subdirs: Vec<PendingDir>,
    pub scanned: usize,
}

/// A worker's own state: the matches it found and has not yet merged.
pub struct Worker {
    buffer: Vec<MatchRecord>,
}

impl Worker {
    /// The matches held back, in the order they were found.
    pub closed spec fn held(self) -> Seq<MatchRecord> {
        self.buffer@
    }

    /// A worker with nothing held.
    pub fn new() -> (r: Worker)
        ensures
            r.held() == Seq::<MatchRecord>::empty(),
    {
        Worker { buffer: Vec::new() }
    }

    /// Scans the listing of `dir`: each entry but `.` and `..` counts as scanned, each
    /// matching one of a kind the mode takes is held as a match, and each subdirectory
    /// within the depth limit is returned for the frontier, all in listing order.
    /// Whether a directory matched has no bearing on whether it is descended into.
    pub fn scan(
        &mut self,
        pattern: &Pattern,
        mode: SearchMode,
        max_depth: Option<usize>,
        dir: &PendingDir,
        entries: &Vec<Entry>,
    ) -> (r: ScanOutcome)
        ensures
            final(self).held() == old(self).held() + records_of(entries@, *pattern, mode),
            r.subdirs@ == subdirs_of(entries@, dir.depth, max_depth),
            r.scanned == scanned_count(entries@),
    {
        let ghost start = self.buffer@;
        let mut subdirs: Vec<PendingDir> = Vec::new();
        let mut scanned: usize = 0;
        let depth: usize = if dir.depth < usize::MAX {
            dir.depth + 1
        } else {
            dir.depth
        };
        let mut i: usize = 0;
        while i < entries.len()
            invariant
                i <= entries.len(),
                depth == child_depth(dir.depth),
                self.buffer@ == start + records_of(entries@.take(i as int), *pattern, mode),
                start == old(self).buffer@,
                subdirs@ == subdirs_of(entries@.take(i as int), dir.depth, max_depth),
                scanned == scanned_count(entries@.take(i as int)),
                scanned <= i,
            decreases entries.len() - i,
        {
            let e = &entries[i];
            proof {
                assert(entries@.take(i + 1).drop_last() == entries@.take(i as int));
                assert(entries@.take(i + 1).last() == entries@[i as int]);
            }
            if !is_dot_entry(e.name.as_str()) {
                scanned += 1;
                if pattern.matches(e.name.as_str()) {
                    if e.is_dir && mode.includes_dirs() {
                        self.buffer.push(MatchRecord { path: e.path.clone(), is_dir: true });
                    } else if !e.is_dir && mode.includes_files() {
                        self.buffer.push(MatchRecord { path: e.path.clone(), is_dir: false });
                    }
                }
                if e.is_dir && within(depth, max_depth) {
                    subdirs.push(PendingDir { path: e.path.clone(), depth });
                }
            }
            proof {
                assert(self.buffer@ == start + records_of(entries@.take(i + 1), *pattern, mode));
            }
            i += 1;
        }
        proof {
            assert(entries@.take(entries@.len() as int) == entries@);
        }
        ScanOutcome { subdirs, scanned }
    }

    /// Whether enough matches are held to merge them now.
    pub fn flush_due(&self) -> (r: bool)
        ensures
            r == (self.held().len() >= FLUSH_THRESHOLD),
    {
        self.buffer.len() >= FLUSH_THRESHOLD
    }

    /// Hands over the held matches, leaving none.
    pub fn take_batch(&mut self) -> (r: Vec<MatchRecord>)
        ensures
            r@ == old(self).held(),
            final(self).held() == Seq::<MatchRecord>::empty(),
    {
        let mut batch: Vec<MatchRecord> = Vec::new();
        std::mem::swap(&mut batch, &mut self.buffer);
        batch
    }
}

/// Whether depth `d` is within the limit.
fn within(d: usize, max_depth: Option<usize>) -> (r: bool)
    ensures
        r == within_depth(d, max_depth),
{
    match max_depth {
        None => true,
        Some(m) => d <= m,
    }
}

} // verus!
