//! A model of one worker draining the frontier, step by step, built from the same spec
//! functions that the frontier's and the scan's contracts use; and what a finished
//! search has claimed.
use vstd::prelude::*;
use crate::frontier::enqueued;
use crate::scan::{entry_subdir, subdirs_of, within_depth, Entry, PendingDir};

verus! {

/// The frontier and the claimed directories, as a worker sees them between two steps.
pub struct SearchState {
    pub pending: Seq<PendingDir>,
    pub visited: Set<Seq<char>>,
}

/// The state in which a search from `root` starts.
pub open spec fn start_state(root: String) -> SearchState {
    SearchState { pending: seq![PendingDir { path: root, depth: 0 }], visited: Set::empty() }
}

/// One step: take the next pending directory; if no one claimed it yet, claim it and,
/// when it can be read (`tree` gives its listing), enqueue its subdirectories.
pub open spec fn search_step(
    s: SearchState,
    tree: spec_fn(Seq<char>) -> Option<Seq<Entry>>,
    max_depth: Option<usize>,
    breadth_first: bool,
) -> SearchState {
    if s.pending.len() == 0 {
        s
    } else {
        let d = s.pending[0];
        let rest = s.pending.drop_first();
        if s.visited.contains(d.path@) {
            SearchState { pending: rest, visited: s.visited }
        } else {
            match tree(d.path@) {
                None => SearchState { pending: rest, visited: s.visited.insert(d.path@) },
                Some(es) => SearchState {
                    pending: enqueued(rest, subdirs_of(es, d.depth, max_depth), breadth_first),
                    visited: s.visited.insert(d.path@),
                },
            }
        }
    }
}

/// The state after `n` steps from `s`.
pub open spec fn search_run(
    s: SearchState,
    tree: spec_fn(Seq<char>) -> Option<Seq<Entry>>,
    max_depth: Option<usize>,
    breadth_first: bool,
    n: nat,
) -> SearchState
    decreases n,
{
    if n == 0 {
        s
    } else {
        search_step(search_run(s, tree, max_depth, breadth_first, (n - 1) as nat), tree, max_depth, breadth_first)
    }
}

/// Entry `e` of a directory at depth `dq` is the subdirectory `p`, at depth `d`, within
/// the depth limit.
pub open spec fn gives(e: Entry, dq: usize, max_depth: Option<usize>, p: Seq<char>, d: usize) -> bool {
    match entry_subdir(e, dq, max_depth) {
        Some(x) => x.path@ == p && x.depth == d,
        None => false,
    }
}

/// `p` at depth `d` is a subdirectory, within the limit, of the readable directory `q`
/// at depth `dq`.
pub open spec fn child_of(
    tree: spec_fn(Seq<char>) -> Option<Seq<Entry>>,
    max_depth: Option<usize>,
    q: Seq<char>,
    dq: usize,
    p: Seq<char>,
    d: usize,
) -> bool {
    match tree(q) {
        Some(es) => exists|j: int| 0 <= j < es.len() && #[trigger] gives(es[j], dq, max_depth, p, d),
        None => false,
    }
}

/// `p` at depth `d` is reached from `root` in at most `n` moves from a directory to
/// one of its subdirectories within the depth limit.
pub open spec fn reach(
    tree: spec_fn(Seq<char>) -> Option<Seq<Entry>>,
    root: Seq<char>,
    max_depth: Option<usize>,
    n: nat,
    p: Seq<char>,
    d: usize,
) -> bool
    decreases n,
{
    if n == 0 {
        p == root && d == 0
    } else {
        reach(tree, root, max_depth, (n - 1) as nat, p, d) || exists|q: Seq<char>, dq: usize|
            reach(tree, root, max_depth, (n - 1) as nat, q, dq) && #[trigger] child_of(
                tree,
                max_depth,
                q,
                dq,
                p,
                d,
            )
    }
}

/// The directories reachable from `root` within the depth limit.
pub open spec fn reachable(
    tree: spec_fn(Seq<char>) -> Option<Seq<Entry>>,
    root: Seq<char>,
    max_depth: Option<usize>,
) -> Set<Seq<char>> {
    Set::new(|p: Seq<char>| exists|n: nat, d: usize| reach(tree, root, max_depth, n, p, d))
}

/// As in a tree of directories, each reachable path lies at one depth.
pub open spec fn one_depth_each(
    tree: spec_fn(Seq<char>) -> Option<Seq<Entry>>,
    root: Seq<char>,
    max_depth: Option<usize>,
) -> bool {
    forall|n1: nat, n2: nat, p: Seq<char>, d1: usize, d2: usize|
        #[trigger] reach(tree, root, max_depth, n1, p, d1) && #[trigger] reach(
            tree,
            root,
            max_depth,
            n2,
            p,
            d2,
        ) ==> d1 == d2
}

/// The pending directory `x` is reachable at its own depth.
pub open spec fn reached(
    tree: spec_fn(Seq<char>) -> Option<Seq<Entry>>,
    root: Seq<char>,
    max_depth: Option<usize>,
    x: PendingDir,
) -> bool {
    exists|n: nat| reach(tree, root, max_depth, n, x.path@, x.depth)
}

pub open spec fn in_pending(pending: Seq<PendingDir>, p: Seq<char>) -> bool {
    exists|i: int| 0 <= i < pending.len() && #[trigger] pending[i].path@ == p
}

/// What holds between two steps: everything claimed or pending is reachable, with its
/// own depth; the root is claimed or pending; and every subdirectory of a claimed,
/// readable directory is claimed or pending.
pub open spec fn frontier_inv(
    s: SearchState,
    tree: spec_fn(Seq<char>) -> Option<Seq<Entry>>,
    root: Seq<char>,
    max_depth: Option<usize>,
) -> bool {
    &&& forall|p: Seq<char>| #[trigger] s.visited.contains(p) ==> reachable(tree, root, max_depth).contains(p)
    &&& forall|i: int|
        0 <= i < s.pending.len() ==> #[trigger] reached(tree, root, max_depth, s.pending[i])
    &&& s.visited.contains(root) || in_pending(s.pending, root)
    &&& forall|q: Seq<char>, n: nat, dq: usize, p: Seq<char>, d: usize|
        #![trigger s.visited.contains(q), reach(tree, root, max_depth, n, q, dq), child_of(tree, max_depth, q, dq, p, d)]
        s.visited.contains(q) && reach(tree, root, max_depth, n, q, dq) && child_of(
            tree,
            max_depth,
            q,
            dq,
            p,
            d,
        ) ==> s.visited.contains(p) || in_pending(s.pending, p)
}

/// A subdirectory of a directory reached in `n` moves is reached in `n + 1`.
proof fn lemma_reach_child(
    tree: spec_fn(Seq<char>) -> Option<Seq<Entry>>,
    root: Seq<char>,
    max_depth: Option<usize>,
    n: nat,
    q: Seq<char>,
    dq: usize,
    p: Seq<char>,
    d: usize,
)
    requires
        reach(tree, root, max_depth, n, q, dq),
        child_of(tree, max_depth, q, dq, p, d),
    ensures
        reach(tree, root, max_depth, n + 1, p, d),
{
    let m: nat = n + 1;
    assert((m - 1) as nat == n);
    assert(reach(tree, root, max_depth, (m - 1) as nat, q, dq));
}

/// Every subdirectory that an entry of a listing gives is among those the listing gives.
proof fn lemma_subdirs_of_members(es: Seq<Entry>, dq: usize, max_depth: Option<usize>)
    ensures
        forall|j: int, p: Seq<char>, d: usize|
            0 <= j < es.len() && #[trigger] gives(es[j], dq, max_depth, p, d) ==> exists|k: int|
                0 <= k < subdirs_of(es, dq, max_depth).len() && subdirs_of(es, dq, max_depth)[k].path@
                    == p && subdirs_of(es, dq, max_depth)[k].depth == d,
    decreases es.len(),
{
    if es.len() > 0 {
        let pre = es.drop_last();
        lemma_subdirs_of_members(pre, dq, max_depth);
        let sp = subdirs_of(pre, dq, max_depth);
        let s = subdirs_of(es, dq, max_depth);
        assert forall|j: int, p: Seq<char>, d: usize|
            0 <= j < es.len() && #[trigger] gives(es[j], dq, max_depth, p, d) implies exists|k: int|
                0 <= k < s.len() && s[k].path@ == p && s[k].depth == d by {
            if j < es.len() - 1 {
                assert(pre[j] == es[j]);
                let k = choose|k: int| 0 <= k < sp.len() && sp[k].path@ == p && sp[k].depth == d;
                assert(s[k] == sp[k]);
            } else {
                assert(s[s.len() - 1] == entry_subdir(es.last(), dq, max_depth).unwrap());
            }
        }
    }
}

/// Each subdirectory that a listing gives comes from one of its entries.
proof fn lemma_subdir_source(es: Seq<Entry>, dq: usize, max_depth: Option<usize>, k: int)
    requires
        0 <= k < subdirs_of(es, dq, max_depth).len(),
    ensures
        exists|j: int|
            0 <= j < es.len() && #[trigger] gives(
                es[j],
                dq,
                max_depth,
                subdirs_of(es, dq, max_depth)[k].path@,
                subdirs_of(es, dq, max_depth)[k].depth,
            ),
    decreases es.len(),
{
    let pre = es.drop_last();
    let sp = subdirs_of(pre, dq, max_depth);
    let s = subdirs_of(es, dq, max_depth);
    if k < sp.len() {
        lemma_subdir_source(pre, dq, max_depth, k);
        assert(s[k] == sp[k]);
        let j = choose|j: int|
            0 <= j < pre.len() && #[trigger] gives(pre[j], dq, max_depth, sp[k].path@, sp[k].depth);
        assert(pre[j] == es[j]);
        assert(gives(es[j], dq, max_depth, s[k].path@, s[k].depth));
    } else {
        let e = es[es.len() - 1];
        assert(e == es.last());
        assert(s == sp.push(entry_subdir(e, dq, max_depth)->0));
        assert(gives(e, dq, max_depth, s[k].path@, s[k].depth));
    }
}

/// A step keeps the invariant.
proof fn lemma_step_keeps_inv(
    s: SearchState,
    tree: spec_fn(Seq<char>) -> Option<Seq<Entry>>,
    root: Seq<char>,
    max_depth: Option<usize>,
    breadth_first: bool,
)
    requires
        frontier_inv(s, tree, root, max_depth),
        one_depth_each(tree, root, max_depth),
    ensures
        frontier_inv(search_step(s, tree, max_depth, breadth_first), tree, root, max_depth),
{
    if s.pending.len() > 0 {
        let d = s.pending[0];
        let rest = s.pending.drop_first();
        let t = search_step(s, tree, max_depth, breadth_first);
        assert(reached(tree, root, max_depth, d));
        let nd = choose|n: nat| reach(tree, root, max_depth, n, d.path@, d.depth);
        // Whatever was pending is claimed or still pending.
        assert forall|p: Seq<char>| in_pending(s.pending, p) implies t.visited.contains(p)
            || in_pending(t.pending, p) by {
            let i = choose|i: int| 0 <= i < s.pending.len() && #[trigger] s.pending[i].path@ == p;
            if i == 0 {
            } else {
                let r = rest[i - 1];
                assert(r == s.pending[i]);
                if !s.visited.contains(d.path@) && tree(d.path@) is Some {
                    let es = tree(d.path@)->0;
                    let subs = subdirs_of(es, d.depth, max_depth);
                    let np = enqueued(rest, subs, breadth_first);
                    if breadth_first {
                        assert(np[i - 1] == r);
                    } else {
                        assert(np[subs.len() + i - 1] == r);
                    }
                } else {
                    assert(t.pending[i - 1] == r);
                }
            }
        }
        assert forall|i: int| 0 <= i < t.pending.len() implies #[trigger] reached(
            tree,
            root,
            max_depth,
            t.pending[i],
        ) by {
            if !s.visited.contains(d.path@) && tree(d.path@) is Some {
                let es = tree(d.path@)->0;
                let subs = subdirs_of(es, d.depth, max_depth);
                lemma_subdirs_of_members(es, d.depth, max_depth);
                let from_rest = if breadth_first {
                    i < rest.len()
                } else {
                    i >= subs.len()
                };
                if from_rest {
                    let k = if breadth_first {
                        i
                    } else {
                        i - subs.len()
                    };
                    assert(t.pending[i] == s.pending[k + 1]);
                } else {
                    let k = if breadth_first {
                        i - rest.len()
                    } else {
                        i
                    };
                    assert(t.pending[i] == subs[k]);
                    lemma_subdir_source(es, d.depth, max_depth, k);
                    let x = subs[k];
                    let j = choose|j: int|
                        0 <= j < es.len() && #[trigger] gives(es[j], d.depth, max_depth, x.path@, x.depth);
                    assert(child_of(tree, max_depth, d.path@, d.depth, x.path@, x.depth));
                    lemma_reach_child(tree, root, max_depth, nd, d.path@, d.depth, x.path@, x.depth);
                }
            } else {
                assert(t.pending[i] == s.pending[i + 1]);
            }
        }
        assert forall|p: Seq<char>| #[trigger] t.visited.contains(p) implies reachable(
            tree,
            root,
            max_depth,
        ).contains(p) by {
            if p == d.path@ {
                assert(reach(tree, root, max_depth, nd, p, d.depth));
            }
        }
        assert(t.visited.contains(root) || in_pending(t.pending, root)) by {
            if !s.visited.contains(root) {
                assert(in_pending(s.pending, root));
            }
        }
        assert forall|q: Seq<char>, n: nat, dq: usize, p: Seq<char>, dd: usize|
            t.visited.contains(q) && reach(tree, root, max_depth, n, q, dq) && child_of(
                tree,
                max_depth,
                q,
                dq,
                p,
                dd,
            ) implies t.visited.contains(p) || in_pending(t.pending, p) by {
            if s.visited.contains(q) {
                assert(s.visited.contains(p) || in_pending(s.pending, p));
            } else {
                // q is the directory this step claimed.
                assert(q == d.path@);
                assert(dq == d.depth);
                let es = tree(q)->0;
                let subs = subdirs_of(es, d.depth, max_depth);
                lemma_subdirs_of_members(es, d.depth, max_depth);
                let j = choose|j: int| 0 <= j < es.len() && #[trigger] gives(es[j], dq, max_depth, p, dd);
                let k = choose|k: int| 0 <= k < subs.len() && subs[k].path@ == p && subs[k].depth == dd;
                if breadth_first {
                    assert(t.pending[rest.len() + k] == subs[k]);
                } else {
                    assert(t.pending[k] == subs[k]);
                }
            }
        }
    }
}

/// The search starts in a state that meets the invariant.
proof fn lemma_start_inv(
    tree: spec_fn(Seq<char>) -> Option<Seq<Entry>>,
    root: String,
    max_depth: Option<usize>,
)
    ensures
        frontier_inv(start_state(root), tree, root@, max_depth),
{
    let s = start_state(root);
    assert(reach(tree, root@, max_depth, 0, s.pending[0].path@, s.pending[0].depth));
    assert(reached(tree, root@, max_depth, s.pending[0]));
    assert(s.pending[0].path@ == root@);
}

/// In a state that meets the invariant with nothing pending, every reachable directory
/// has been claimed.
proof fn lemma_done_claims_reachable(
    s: SearchState,
    tree: spec_fn(Seq<char>) -> Option<Seq<Entry>>,
    root: Seq<char>,
    max_depth: Option<usize>,
    n: nat,
    p: Seq<char>,
    d: usize,
)
    requires
        frontier_inv(s, tree, root, max_depth),
        s.pending.len() == 0,
        reach(tree, root, max_depth, n, p, d),
    ensures
        s.visited.contains(p),
    decreases n,
{
    if n > 0 {
        if reach(tree, root, max_depth, (n - 1) as nat, p, d) {
            lemma_done_claims_reachable(s, tree, root, max_depth, (n - 1) as nat, p, d);
        } else {
            assert(exists|q: Seq<char>, dq: usize|
                reach(tree, root, max_depth, (n - 1) as nat, q, dq) && #[trigger] child_of(
                    tree,
                    max_depth,
                    q,
                    dq,
                    p,
                    d,
                ));
            let (q, dq) = choose|q: Seq<char>, dq: usize|
                reach(tree, root, max_depth, (n - 1) as nat, q, dq) && #[trigger] child_of(
                    tree,
                    max_depth,
                    q,
                    dq,
                    p,
                    d,
                );
            lemma_done_claims_reachable(s, tree, root, max_depth, (n - 1) as nat, q, dq);
            assert(s.visited.contains(q) && reach(tree, root, max_depth, (n - 1) as nat, q, dq)
                && child_of(tree, max_depth, q, dq, p, d));
        }
    }
}

/// Every run of steps from the start meets the invariant.
proof fn lemma_run_inv(
    tree: spec_fn(Seq<char>) -> Option<Seq<Entry>>,
    root: String,
    max_depth: Option<usize>,
    breadth_first: bool,
    n: nat,
)
    requires
        one_depth_each(tree, root@, max_depth),
    ensures
        frontier_inv(search_run(start_state(root), tree, max_depth, breadth_first, n), tree, root@, max_depth),
    decreases n,
{
    if n == 0 {
        lemma_start_inv(tree, root, max_depth);
    } else {
        lemma_run_inv(tree, root, max_depth, breadth_first, (n - 1) as nat);
        lemma_step_keeps_inv(
            search_run(start_state(root), tree, max_depth, breadth_first, (n - 1) as nat),
            tree,
            root@,
            max_depth,
            breadth_first,
        );
    }
}

/// When a search over a tree (each reachable path at one depth) has nothing left
/// pending, the directories it claimed are exactly those reachable from the root within
/// the depth limit: none is left out, and, the claimed ones forming a set, none is
/// counted twice.
pub proof fn lemma_finished_search_claims_reachable(
    tree: spec_fn(Seq<char>) -> Option<Seq<Entry>>,
    root: String,
    max_depth: Option<usize>,
    breadth_first: bool,
    n: nat,
)
    requires
        one_depth_each(tree, root@, max_depth),
    ensures
        search_run(start_state(root), tree, max_depth, breadth_first, n).pending.len() == 0
            ==> search_run(start_state(root), tree, max_depth, breadth_first, n).visited
            == reachable(tree, root@, max_depth),
{
    let s = search_run(start_state(root), tree, max_depth, breadth_first, n);
    lemma_run_inv(tree, root, max_depth, breadth_first, n);
    if s.pending.len() == 0 {
        assert forall|p: Seq<char>| reachable(tree, root@, max_depth).contains(p) implies s.visited.contains(p) by {
            let (m, d) = choose|m: nat, d: usize| reach(tree, root@, max_depth, m, p, d);
            lemma_done_claims_reachable(s, tree, root@, max_depth, m, p, d);
        }
        assert(s.visited =~= reachable(tree, root@, max_depth));
    }
}

/// A worker's step in the library is `Frontier::claim` followed, for a claimed
/// directory, by `Frontier::process_directory` with its listing. Together their
/// contracts give exactly one `search_step`: a directory claimed before is dropped; a
/// new one is marked claimed and, when it can be read, its subdirectories within the
/// limit are enqueued.
pub proof fn lemma_claim_and_process_make_a_step(
    s: SearchState,
    tree: spec_fn(Seq<char>) -> Option<Seq<Entry>>,
    max_depth: Option<usize>,
    breadth_first: bool,
)
    requires
        s.pending.len() > 0,
    ensures
        s.visited.contains(s.pending[0].path@) ==> search_step(s, tree, max_depth, breadth_first)
            == (SearchState { pending: s.pending.drop_first(), visited: s.visited }),
        !s.visited.contains(s.pending[0].path@) ==> search_step(s, tree, max_depth, breadth_first)
            == (SearchState {
            pending: match tree(s.pending[0].path@) {
                None => s.pending.drop_first(),
                Some(es) => enqueued(
                    s.pending.drop_first(),
                    subdirs_of(es, s.pending[0].depth, max_depth),
                    breadth_first,
                ),
            },
            visited: s.visited.insert(s.pending[0].path@),
        }),
{
}

/// Every directory pending in a state is within the depth limit.
pub open spec fn pending_within(s: SearchState, max_depth: Option<usize>) -> bool {
    forall|i: int| 0 <= i < s.pending.len() ==> within_depth(#[trigger] s.pending[i].depth, max_depth)
}

/// At every point of a search, every pending directory, and so every directory read,
/// lies within the depth limit: a directory one level deeper than the limit is never
/// read, while one at the limit is (see `lemma_finished_search_claims_reachable`).
pub proof fn lemma_run_stays_within_depth(
    root: String,
    tree: spec_fn(Seq<char>) -> Option<Seq<Entry>>,
    max_depth: Option<usize>,
    breadth_first: bool,
    n: nat,
)
    ensures
        pending_within(search_run(start_state(root), tree, max_depth, breadth_first, n), max_depth),
    decreases n,
{
    if n > 0 {
        lemma_run_stays_within_depth(root, tree, max_depth, breadth_first, (n - 1) as nat);
        let s = search_run(start_state(root), tree, max_depth, breadth_first, (n - 1) as nat);
        let t = search_step(s, tree, max_depth, breadth_first);
        if s.pending.len() > 0 {
            let d = s.pending[0];
            let rest = s.pending.drop_first();
            assert forall|i: int| 0 <= i < t.pending.len() implies within_depth(
                #[trigger] t.pending[i].depth,
                max_depth,
            ) by {
                if !s.visited.contains(d.path@) && tree(d.path@) is Some {
                    let es = tree(d.path@)->0;
                    let subs = subdirs_of(es, d.depth, max_depth);
                    let from_rest = if breadth_first {
                        i < rest.len()
                    } else {
                        i >= subs.len()
                    };
                    if from_rest {
                        let k = if breadth_first {
                            i
                        } else {
                            i - subs.len()
                        };
                        assert(t.pending[i] == s.pending[k + 1]);
                    } else {
                        let k = if breadth_first {
                            i - rest.len()
                        } else {
                            i
                        };
                        assert(t.pending[i] == subs[k]);
                        lemma_subdir_source(es, d.depth, max_depth, k);
                        let j = choose|j: int|
                            0 <= j < es.len() && #[trigger] gives(
                                es[j],
                                d.depth,
                                max_depth,
                                subs[k].path@,
                                subs[k].depth,
                            );
                        assert(entry_subdir(es[j], d.depth, max_depth) is Some);
                    }
                } else {
                    assert(t.pending[i] == s.pending[i + 1]);
                }
            }
        }
    } else {
        let s = start_state(root);
        assert(s.pending[0].depth == 0);
    }
}

} // verus!
