//! The state that all workers of one search share: the directories still to read, the
//! directories already claimed, the matches found so far, and the running counters.
//! Whoever shares it holds it under one lock; each method here is one critical section.
use vstd::prelude::*;
use vstd::hash_set::StringHashSet;
use std::collections::VecDeque;
use crate::pattern::Pattern;
use crate::scan::{
    records_of, scanned_count, subdirs_of, Entry, MatchRecord, PendingDir, ScanOutcome, SearchMode,
    Worker,
};
use crate::traversal::SearchState;

verus! {

/// The paths that the records of `rs` name.
pub open spec fn paths_of(rs: Seq<MatchRecord>) -> Set<Seq<char>> {
    Set::new(|p: Seq<char>| exists|i: int| 0 <= i < rs.len() && rs[i].path@ == p)
}

/// The records of `batch` whose path is neither in `seen` nor named earlier in `batch`,
/// in batch order: what merging `batch` into a result set holding `seen` adds.
pub open spec fn fresh_records(seen: Set<Seq<char>>, batch: Seq<MatchRecord>) -> Seq<MatchRecord>
    decreases batch.len(),
{
    if batch.len() == 0 {
        seq![]
    } else {
        let before = fresh_records(seen, batch.drop_last());
        let r = batch.last();
        if seen.contains(r.path@) || paths_of(batch.drop_last()).contains(r.path@) {
            before
        } else {
            before.push(r)
        }
    }
}

/// No two records of `rs` name the same path.
pub open spec fn distinct_paths(rs: Seq<MatchRecord>) -> bool {
    forall|i: int, j: int| 0 <= i < j < rs.len() ==> rs[i].path@ != rs[j].path@
}

/// The frontier after `subdirs` are enqueued: at the back for breadth-first order; at the
/// front for depth-first order, where they keep the order in which they were listed.
pub open spec fn enqueued(pending: Seq<PendingDir>, subdirs: Seq<PendingDir>, breadth_first: bool) -> Seq<
    PendingDir,
> {
    if breadth_first {
        pending + subdirs
    } else {
        subdirs + pending
    }
}

proof fn lemma_paths_of_push(rs: Seq<MatchRecord>, r: MatchRecord)
    ensures
        paths_of(rs.push(r)) == paths_of(rs).insert(r.path@),
{
    let a = paths_of(rs.push(r));
    let b = paths_of(rs).insert(r.path@);
    assert forall|p: Seq<char>| a.contains(p) implies b.contains(p) by {
        let i = choose|i: int| 0 <= i < rs.len() + 1 && rs.push(r)[i].path@ == p;
        if i < rs.len() {
            assert(rs[i].path@ == p);
        }
    }
    assert forall|p: Seq<char>| b.contains(p) implies a.contains(p) by {
        if p == r.path@ {
            assert(rs.push(r)[rs.len() as int].path@ == p);
        } else {
            let i = choose|i: int| 0 <= i < rs.len() && rs[i].path@ == p;
            assert(rs.push(r)[i].path@ == p);
        }
    }
    assert(a =~= b);
}

/// Every path of the fresh records is new, and they are distinct.
pub(crate) proof fn lemma_fresh_records_new(seen: Set<Seq<char>>, batch: Seq<MatchRecord>)
    ensures
        distinct_paths(fresh_records(seen, batch)),
        forall|i: int|
            0 <= i < fresh_records(seen, batch).len() ==> !seen.contains(
                #[trigger] fresh_records(seen, batch)[i].path@,
            ) && paths_of(batch).contains(fresh_records(seen, batch)[i].path@),
    decreases batch.len(),
{
    if batch.len() > 0 {
        let pre = batch.drop_last();
        lemma_fresh_records_new(seen, pre);
        assert(batch == pre.push(batch.last()));
        lemma_paths_of_push(pre, batch.last());
    }
}

/// Merging a batch into a set that already holds its paths adds nothing.
pub(crate) proof fn lemma_fresh_records_none(seen: Set<Seq<char>>, batch: Seq<MatchRecord>)
    requires
        paths_of(batch).subset_of(seen),
    ensures
        fresh_records(seen, batch) == Seq::<MatchRecord>::empty(),
    decreases batch.len(),
{
    if batch.len() > 0 {
        let pre = batch.drop_last();
        assert(batch == pre.push(batch.last()));
        lemma_paths_of_push(pre, batch.last());
        lemma_fresh_records_none(seen, pre);
    }
}

/// Whether `a` sorts no later than `b`: character by character, by code point, a
/// proper prefix first. For UTF-8 text this is the order of `str`, byte by byte.
pub open spec fn path_le(a: Seq<char>, b: Seq<char>) -> bool
    decreases a.len(),
{
    if a.len() == 0 {
        true
    } else if b.len() == 0 {
        false
    } else if a[0] != b[0] {
        (a[0] as u32) < (b[0] as u32)
    } else {
        path_le(a.drop_first(), b.drop_first())
    }
}

/// Each record's path sorts no later than that of any record after it.
pub open spec fn sorted_by_path(rs: Seq<MatchRecord>) -> bool {
    forall|i: int, j: int| 0 <= i < j < rs.len() ==> path_le(rs[i].path@, rs[j].path@)
}

/// Relies on `slice::sort_by`, comparing paths with `str`'s `Ord`: the records come back
/// rearranged, none lost or added, ordered lexicographically by path.
#[verifier::external_body]
fn sort_records_by_path(v: &mut Vec<MatchRecord>)
    ensures
        final(v)@.to_multiset() == old(v)@.to_multiset(),
        sorted_by_path(final(v)@),
{
    v.sort_by(|a, b| a.path.cmp(&b.path));
}

/// A rearrangement of records with distinct paths has distinct paths.
proof fn lemma_permutation_keeps_distinct_paths(s: Seq<MatchRecord>, t: Seq<MatchRecord>)
    requires
        s.to_multiset() == t.to_multiset(),
        distinct_paths(t),
    ensures
        distinct_paths(s),
{
    broadcast use vstd::multiset::group_multiset_axioms;

    assert forall|i: int, j: int| 0 <= i < j < s.len() implies s[i].path@ != s[j].path@ by {
        if s[i].path@ == s[j].path@ {
            s.to_multiset_ensures();
            t.to_multiset_ensures();
            assert(s.contains(s[i]));
            assert(s.contains(s[j]));
            assert(s.to_multiset().count(s[i]) > 0);
            assert(s.to_multiset().count(s[j]) > 0);
            assert(t.contains(s[i]));
            assert(t.contains(s[j]));
            let a = choose|a: int| 0 <= a < t.len() && t[a] == s[i];
            let b = choose|b: int| 0 <= b < t.len() && t[b] == s[j];
            assert(t[a].path@ == t[b].path@);
            assert(a == b);
            let x = s[i];
            // x occurs at i and j in s, so at least twice.
            let si = s.remove(i);
            si.to_multiset_ensures();
            assert(si[j - 1] == x);
            assert(si.contains(x));
            // x occurs once in t.
            let ta = t.remove(a);
            ta.to_multiset_ensures();
            assert(!ta.contains(x)) by {
                if ta.contains(x) {
                    let k = choose|k: int| 0 <= k < ta.len() && ta[k] == x;
                    if k < a {
                        assert(ta[k] == t[k]);
                    } else {
                        assert(ta[k] == t[k + 1]);
                    }
                }
            }
            s.to_multiset_ensures();
            assert(si.to_multiset().count(x) > 0);
            assert(si.to_multiset() =~= s.to_multiset().remove(x));
            assert(s.to_multiset().remove(x).count(x) > 0);
            assert(s.to_multiset().count(x) >= 2);
            assert(ta.to_multiset().count(x) == 0);
            assert(ta.to_multiset() =~= t.to_multiset().remove(x));
            assert(t.to_multiset().count(x) <= 1);
            assert(s.to_multiset().count(x) == t.to_multiset().count(x));
        }
    }
}

/// What one attempt to claim the next pending directory gave.
pub enum Claim {
    /// Nothing was pending.
    Exhausted,
    /// The next pending directory had been claimed already; it was dropped.
    AlreadyClaimed,
    /// The next pending directory is now claimed by the caller.
    Claimed(PendingDir),
}

/// The count `total + n`, held at the largest `usize`.
pub open spec fn saturating_total(total: nat, n: nat) -> nat {
    if total + n <= usize::MAX {
        total + n
    } else {
        usize::MAX as nat
    }
}

/// The shared state of one search.
pub struct Frontier {
    pending: VecDeque<PendingDir>,
    visited: StringHashSet,
    found_paths: StringHashSet,
    found: Vec<MatchRecord>,
    dirs_searched: usize,
    files_scanned: usize,
}

impl Frontier {
    /// The result set holds each path once, and the claimed-directory count is the size of
    /// the (finite) visited set.
    pub closed spec fn wf(self) -> bool {
        &&& self.found_paths@ == paths_of(self.found@)
        &&& distinct_paths(self.found@)
        &&& self.visited@.finite()
        &&& self.dirs_searched == self.visited@.len()
    }

    /// The claimed and pending directories, as the traversal model sees them.
    pub open spec fn state(self) -> SearchState {
        SearchState { pending: self.pending_dirs(), visited: self.visited_set() }
    }

    /// What a well-formed frontier guarantees: each found path once, and as many claimed
    /// directories counted as the visited set holds.
    pub proof fn lemma_wf_facts(self)
        requires
            self.wf(),
        ensures
            distinct_paths(self.found_records()),
            self.visited_set().finite(),
            self.searched_count() == self.visited_set().len(),
    {
    }

    /// The directories waiting to be read, the next one first.
    pub closed spec fn pending_dirs(self) -> Seq<PendingDir> {
        self.pending@
    }

    /// The directories claimed so far.
    pub closed spec fn visited_set(self) -> Set<Seq<char>> {
        self.visited@
    }

    /// The matches merged so far, each path once, in the order they were merged.
    pub closed spec fn found_records(self) -> Seq<MatchRecord> {
        self.found@
    }

    /// The number of directories claimed.
    pub closed spec fn searched_count(self) -> nat {
        self.dirs_searched as nat
    }

    /// The number of entries scanned (held at the largest `usize`).
    pub closed spec fn scanned_total(self) -> nat {
        self.files_scanned as nat
    }

    /// The paths of the matches merged so far.
    pub open spec fn found_set(self) -> Set<Seq<char>> {
        paths_of(self.found_records())
    }

    /// The state of a search that starts at `start_dir`: it alone is pending, at depth 0.
    pub fn new(start_dir: String) -> (r: Frontier)
        ensures
            r.wf(),
            r.pending_dirs() == seq![PendingDir { path: start_dir, depth: 0 }],
            r.visited_set() == Set::<Seq<char>>::empty(),
            r.found_records() == Seq::<MatchRecord>::empty(),
            r.searched_count() == 0,
            r.scanned_total() == 0,
    {
        let mut pending: VecDeque<PendingDir> = VecDeque::new();
        pending.push_back(PendingDir { path: start_dir, depth: 0 });
        let found: Vec<MatchRecord> = Vec::new();
        proof {
            assert(paths_of(found@) =~= Set::<Seq<char>>::empty());
        }
        Frontier {
            pending,
            visited: StringHashSet::new(),
            found_paths: StringHashSet::new(),
            found,
            dirs_searched: 0,
            files_scanned: 0,
        }
    }

    /// Takes the next pending directory, or `None` when none is pending. The caller still
    /// has to claim it with `try_claim_visited`.
    pub fn claim_next(&mut self) -> (r: Option<PendingDir>)
        requires
            old(self).wf(),
        ensures
            final(self).wf(),
            old(self).pending_dirs().len() == 0 ==> r is None && final(self).pending_dirs() == old(self).pending_dirs(),
            old(self).pending_dirs().len() > 0 ==> r == Some(old(self).pending_dirs()[0])
                && final(self).pending_dirs() == old(self).pending_dirs().drop_first(),
            final(self).visited_set() == old(self).visited_set(),
            final(self).found_records() == old(self).found_records(),
            final(self).searched_count() == old(self).searched_count(),
            final(self).scanned_total() == old(self).scanned_total(),
    {
        let r = self.pending.pop_front();
        proof {
            if r is Some {
                assert(self.pending@ =~= old(self).pending@.drop_first());
            }
        }
        r
    }

    /// Marks `path` as claimed. True exactly when no one had claimed it before: then the
    /// caller, and no one else, reads that directory.
    pub fn try_claim_visited(&mut self, path: &str) -> (r: bool)
        requires
            old(self).wf(),
        ensures
            final(self).wf(),
            r == !old(self).visited_set().contains(path@),
            final(self).visited_set() == old(self).visited_set().insert(path@),
            old(self).searched_count() == old(self).visited_set().len(),
            final(self).searched_count() == final(self).visited_set().len(),
            final(self).searched_count() == old(self).searched_count() + if r {
                1int
            } else {
                0int
            },
            final(self).pending_dirs() == old(self).pending_dirs(),
            final(self).found_records() == old(self).found_records(),
            final(self).scanned_total() == old(self).scanned_total(),
    {
        if self.visited.contains(path) {
            proof {
                assert(self.visited@.insert(path@) =~= self.visited@);
            }
            false
        } else {
            self.visited.insert(path.to_string());
            self.dirs_searched = self.visited.len();
            true
        }
    }

    /// One claim: takes the next pending directory and marks it claimed, or reports that
    /// nothing was pending or that it had been claimed already.
    pub fn claim(&mut self) -> (r: Claim)
        requires
            old(self).wf(),
        ensures
            final(self).wf(),
            final(self).found_records() == old(self).found_records(),
            final(self).scanned_total() == old(self).scanned_total(),
            match r {
                Claim::Exhausted => old(self).pending_dirs().len() == 0 && final(self).state()
                    == old(self).state() && final(self).searched_count()
                    == old(self).searched_count(),
                Claim::AlreadyClaimed => {
                    &&& old(self).pending_dirs().len() > 0
                    &&& old(self).visited_set().contains(old(self).pending_dirs()[0].path@)
                    &&& final(self).pending_dirs() == old(self).pending_dirs().drop_first()
                    &&& final(self).visited_set() == old(self).visited_set()
                    &&& final(self).searched_count() == old(self).searched_count()
                },
                Claim::Claimed(d) => {
                    &&& old(self).pending_dirs().len() > 0
                    &&& d == old(self).pending_dirs()[0]
                    &&& !old(self).visited_set().contains(d.path@)
                    &&& final(self).pending_dirs() == old(self).pending_dirs().drop_first()
                    &&& final(self).visited_set() == old(self).visited_set().insert(d.path@)
                    &&& final(self).searched_count() == old(self).searched_count() + 1
                },
            },
    {
        match self.claim_next() {
            None => Claim::Exhausted,
            Some(d) => {
                if self.try_claim_visited(d.path.as_str()) {
                    Claim::Claimed(d)
                } else {
                    Claim::AlreadyClaimed
                }
            },
        }
    }

    /// Takes in the listing of a directory the caller claimed: a listing that could not
    /// be read (`None`) adds nothing; otherwise the worker scans it, holding its matches,
    /// and its subdirectories and scanned entries join the shared state.
    pub fn process_directory(
        &mut self,
        worker: &mut Worker,
        pattern: &Pattern,
        mode: SearchMode,
        max_depth: Option<usize>,
        breadth_first: bool,
        dir: &PendingDir,
        listing: Option<Vec<Entry>>,
    )
        requires
            old(self).wf(),
        ensures
            final(self).wf(),
            final(self).visited_set() == old(self).visited_set(),
            final(self).searched_count() == old(self).searched_count(),
            final(self).found_records() == old(self).found_records(),
            match listing {
                None => {
                    &&& final(self).pending_dirs() == old(self).pending_dirs()
                    &&& final(self).scanned_total() == old(self).scanned_total()
                    &&& final(worker).held() == old(worker).held()
                },
                Some(es) => {
                    &&& final(self).pending_dirs() == enqueued(
                        old(self).pending_dirs(),
                        subdirs_of(es@, dir.depth, max_depth),
                        breadth_first,
                    )
                    &&& final(self).scanned_total() == saturating_total(
                        old(self).scanned_total(),
                        scanned_count(es@),
                    )
                    &&& final(worker).held() == old(worker).held() + records_of(
                        es@,
                        *pattern,
                        mode,
                    )
                },
            },
    {
        match listing {
            None => {},
            Some(entries) => {
                let outcome = worker.scan(pattern, mode, max_depth, dir, &entries);
                self.finish_directory(outcome, breadth_first);
            },
        }
    }

    /// Merges all the matches a worker holds, leaving it none.
    pub fn flush_worker(&mut self, worker: &mut Worker)
        requires
            old(self).wf(),
        ensures
            final(self).wf(),
            final(self).found_records() == old(self).found_records() + fresh_records(
                old(self).found_set(),
                old(worker).held(),
            ),
            final(worker).held() == Seq::<MatchRecord>::empty(),
            final(self).state() == old(self).state(),
            final(self).searched_count() == old(self).searched_count(),
            final(self).scanned_total() == old(self).scanned_total(),
    {
        let batch = worker.take_batch();
        self.record_matches(batch);
    }

    /// Adds the subdirectories of one directory to the frontier, in breadth-first or
    /// depth-first order.
    pub fn enqueue(&mut self, subdirs: Vec<PendingDir>, breadth_first: bool)
        requires
            old(self).wf(),
        ensures
            final(self).wf(),
            final(self).pending_dirs() == enqueued(old(self).pending_dirs(), subdirs@, breadth_first),
            final(self).visited_set() == old(self).visited_set(),
            final(self).found_records() == old(self).found_records(),
            final(self).searched_count() == old(self).searched_count(),
            final(self).scanned_total() == old(self).scanned_total(),
    {
        let ghost start = self.pending@;
        let n = subdirs.len();
        if breadth_first {
            let mut i: usize = 0;
            while i < n
                invariant
                    n == subdirs.len(),
                    i <= n,
                    self.pending@ == start + subdirs@.take(i as int),
                    self.visited@ == old(self).visited@,
                    self.found@ == old(self).found@,
                    self.found_paths@ == old(self).found_paths@,
                    self.dirs_searched == old(self).dirs_searched,
                    self.files_scanned == old(self).files_scanned,
                decreases n - i,
            {
                let d = PendingDir { path: subdirs[i].path.clone(), depth: subdirs[i].depth };
                self.pending.push_back(d);
                proof {
                    assert(subdirs@.take(i + 1) =~= subdirs@.take(i as int).push(subdirs@[i as int]));
                }
                i += 1;
            }
            proof {
                assert(subdirs@.take(n as int) =~= subdirs@);
            }
        } else {
            let mut i: usize = n;
            while i > 0
                invariant
                    n == subdirs.len(),
                    i <= n,
                    self.pending@ == subdirs@.subrange(i as int, n as int) + start,
                    self.visited@ == old(self).visited@,
                    self.found@ == old(self).found@,
                    self.found_paths@ == old(self).found_paths@,
                    self.dirs_searched == old(self).dirs_searched,
                    self.files_scanned == old(self).files_scanned,
                decreases i,
            {
                i -= 1;
                let d = PendingDir { path: subdirs[i].path.clone(), depth: subdirs[i].depth };
                self.pending.push_front(d);
                proof {
                    assert(subdirs@.subrange(i as int, n as int) =~= seq![subdirs@[i as int]]
                        + subdirs@.subrange(i + 1, n as int));
                }
            }
            proof {
                assert(subdirs@.subrange(0, n as int) =~= subdirs@);
            }
        }
    }

    /// Counts `n` more scanned entries (held at the largest `usize`).
    pub fn add_scanned(&mut self, n: usize)
        requires
            old(self).wf(),
        ensures
            final(self).wf(),
            final(self).scanned_total() == if old(self).scanned_total() + n <= usize::MAX {
                old(self).scanned_total() + n
            } else {
                usize::MAX as int
            },
            final(self).pending_dirs() == old(self).pending_dirs(),
            final(self).visited_set() == old(self).visited_set(),
            final(self).found_records() == old(self).found_records(),
            final(self).searched_count() == old(self).searched_count(),
    {
        self.files_scanned = if self.files_scanned <= usize::MAX - n {
            self.files_scanned + n
        } else {
            usize::MAX
        };
    }

    /// Merges a batch of matches into the result set: each path not yet found is added
    /// once, in batch order; a path already found is not added or counted again.
    pub fn record_matches(&mut self, batch: Vec<MatchRecord>)
        requires
            old(self).wf(),
        ensures
            final(self).wf(),
            final(self).found_records() == old(self).found_records() + fresh_records(
                old(self).found_set(),
                batch@,
            ),
            final(self).found_set() == old(self).found_set().union(paths_of(batch@)),
            distinct_paths(final(self).found_records()),
            final(self).pending_dirs() == old(self).pending_dirs(),
            final(self).visited_set() == old(self).visited_set(),
            final(self).searched_count() == old(self).searched_count(),
            final(self).scanned_total() == old(self).scanned_total(),
    {
        let ghost seen = paths_of(self.found@);
        let ghost start = self.found@;
        let mut i: usize = 0;
        while i < batch.len()
            invariant
                i <= batch.len(),
                seen == paths_of(start),
                start == old(self).found@,
                self.found@ == start + fresh_records(seen, batch@.take(i as int)),
                self.found_paths@ == paths_of(self.found@),
                self.found_paths@ == seen.union(paths_of(batch@.take(i as int))),
                distinct_paths(self.found@),
                self.pending@ == old(self).pending@,
                self.visited@ == old(self).visited@,
                self.dirs_searched == old(self).dirs_searched,
                self.files_scanned == old(self).files_scanned,
            decreases batch.len() - i,
        {
            let ghost pre = batch@.take(i as int);
            let ghost next = batch@.take(i + 1);
            proof {
                assert(next.drop_last() == pre);
                assert(next.last() == batch@[i as int]);
                assert(next == pre.push(batch@[i as int]));
                lemma_paths_of_push(pre, batch@[i as int]);
            }
            let r = MatchRecord { path: batch[i].path.clone(), is_dir: batch[i].is_dir };
            if self.found_paths.insert(batch[i].path.clone()) {
                proof {
                    lemma_paths_of_push(self.found@, r);
                }
                self.found.push(r);
            }
            proof {
                assert(seen.union(paths_of(next)) =~= seen.union(paths_of(pre)).insert(
                    batch@[i as int].path@,
                ));
            }
            i += 1;
        }
        proof {
            assert(batch@.take(batch@.len() as int) =~= batch@);
        }
    }

    /// Takes in what the scan of one directory gave: its subdirectories join the frontier
    /// and its scanned entries are counted, in one critical section.
    pub fn finish_directory(&mut self, outcome: ScanOutcome, breadth_first: bool)
        requires
            old(self).wf(),
        ensures
            final(self).wf(),
            final(self).pending_dirs() == enqueued(
                old(self).pending_dirs(),
                outcome.subdirs@,
                breadth_first,
            ),
            final(self).scanned_total() == if old(self).scanned_total() + outcome.scanned
                <= usize::MAX {
                old(self).scanned_total() + outcome.scanned
            } else {
                usize::MAX as int
            },
            final(self).visited_set() == old(self).visited_set(),
            final(self).found_records() == old(self).found_records(),
            final(self).searched_count() == old(self).searched_count(),
    {
        let ScanOutcome { subdirs, scanned } = outcome;
        self.enqueue(subdirs, breadth_first);
        self.add_scanned(scanned);
    }

    /// The running counters and the frontier's size: directories claimed, entries
    /// scanned, matches found, directories pending.
    pub fn snapshot_counts(&self) -> (r: (usize, usize, usize, usize))
        requires
            self.wf(),
        ensures
            r.0 == self.searched_count(),
            r.1 == self.scanned_total(),
            r.2 == self.found_records().len(),
            r.3 == self.pending_dirs().len(),
    {
        (self.dirs_searched, self.files_scanned, self.found.len(), self.pending.len())
    }

    /// Hands over the matches found, each path once, sorted by path.
    pub fn into_sorted_results(self) -> (r: Vec<MatchRecord>)
        requires
            self.wf(),
        ensures
            r@.to_multiset() == self.found_records().to_multiset(),
            sorted_by_path(r@),
            distinct_paths(r@),
    {
        let mut found = self.found;
        let ghost before = found@;
        sort_records_by_path(&mut found);
        proof {
            lemma_permutation_keeps_distinct_paths(found@, before);
        }
        found
    }

    /// Hands over the matches found, each path once, in the order they were merged.
    pub fn into_results(self) -> (r: Vec<MatchRecord>)
        requires
            self.wf(),
        ensures
            r@ == self.found_records(),
            distinct_paths(r@),
    {
        self.found
    }
}

} // verus!
