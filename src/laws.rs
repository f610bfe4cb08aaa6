//! Laws that relate the library's functions to each other and to the plain meaning of
//! a query.
use vstd::prelude::*;
use crate::frontier::{
    enqueued, distinct_paths, fresh_records, lemma_fresh_records_new, lemma_fresh_records_none, paths_of,
};
use crate::pattern::{adjust, fold, has_wildcard, name_matches, Pattern};
use crate::scan::{MatchRecord, PendingDir};

verus! {

/// A query without `*` or `?` matches a name exactly when the two are equal: as they
/// are when case counts, and with ASCII letters folded to lower case when it does not.
pub proof fn lemma_literal_query_is_equality(query: Seq<char>, case_sensitive: bool, name: Seq<char>)
    requires
        !has_wildcard(query),
    ensures
        name_matches(query, has_wildcard(query), case_sensitive, name) <==> if case_sensitive {
            name == query
        } else {
            fold(name) == fold(query)
        },
{
}

/// A pattern that reads no wildcards accepts exactly the names equal to its query, in
/// the case-adjusted sense.
pub proof fn lemma_literal_pattern_is_equality(p: Pattern, name: Seq<char>)
    requires
        !p.wildcard(),
    ensures
        p.accepts(name) <==> adjust(name, p.cased()) == adjust(p.query(), p.cased()),
{
}

/// A directory is read at most once: after one claim of a path succeeds, every later
/// claim of it fails, and the count of claimed directories stays the size of the set.
pub proof fn lemma_claim_twice(visited: Set<Seq<char>>, path: Seq<char>)
    requires
        visited.finite(),
    ensures
        visited.insert(path).contains(path),
        visited.insert(path).insert(path) == visited.insert(path),
        visited.insert(path).len() == if visited.contains(path) {
            visited.len()
        } else {
            visited.len() + 1
        },
{
    assert(visited.insert(path).insert(path) =~= visited.insert(path));
    if visited.contains(path) {
        assert(visited.insert(path) =~= visited);
    }
}

/// Merging the same batch twice counts each new path once: the second merge adds no
/// record, so it leaves the match count as the first one left it.
pub proof fn lemma_record_twice_adds_once(seen: Set<Seq<char>>, batch: Seq<MatchRecord>)
    ensures
        fresh_records(seen.union(paths_of(batch)), batch) == Seq::<MatchRecord>::empty(),
{
    lemma_fresh_records_none(seen.union(paths_of(batch)), batch);
}

/// One record merged twice raises the match count by exactly one in all when its path
/// was new, and by nothing when it was already found.
pub proof fn lemma_record_one_twice(seen: Set<Seq<char>>, r: MatchRecord)
    ensures
        fresh_records(seen, seq![r]).len() + fresh_records(
            seen.union(paths_of(seq![r])),
            seq![r],
        ).len() == if seen.contains(r.path@) {
            0int
        } else {
            1int
        },
{
    lemma_record_twice_adds_once(seen, seq![r]);
    let b = seq![r];
    assert(b.drop_last() =~= Seq::<MatchRecord>::empty());
    assert(b.last() == r);
    assert(!paths_of(Seq::<MatchRecord>::empty()).contains(r.path@));
    assert(fresh_records(seen, b.drop_last()) == Seq::<MatchRecord>::empty());
}

/// Each merge adds only paths not found before, each once, all taken from the batch.
pub proof fn lemma_merge_adds_new_paths_once(seen: Set<Seq<char>>, batch: Seq<MatchRecord>)
    ensures
        distinct_paths(fresh_records(seen, batch)),
        forall|i: int|
            0 <= i < fresh_records(seen, batch).len() ==> !seen.contains(
                #[trigger] fresh_records(seen, batch)[i].path@,
            ) && paths_of(batch).contains(fresh_records(seen, batch)[i].path@),
{
    lemma_fresh_records_new(seen, batch);
}

/// The result set does not depend on the order in which workers merge their batches:
/// merging `a` then `b` leaves the same set of paths as merging `b` then `a`.
pub proof fn lemma_merge_order_irrelevant(
    seen: Set<Seq<char>>,
    a: Seq<MatchRecord>,
    b: Seq<MatchRecord>,
)
    ensures
        seen.union(paths_of(a)).union(paths_of(b)) == seen.union(paths_of(b)).union(paths_of(a)),
{
    assert(seen.union(paths_of(a)).union(paths_of(b)) =~= seen.union(paths_of(b)).union(
        paths_of(a),
    ));
}

/// Depth-first order reads a directory's subdirectories next, in the order they were
/// listed, before anything that was already pending; breadth-first order reads them, in
/// the same order, after everything that was already pending.
pub proof fn lemma_enqueue_keeps_listing_order(
    pending: Seq<PendingDir>,
    subdirs: Seq<PendingDir>,
)
    ensures
        enqueued(pending, subdirs, false).take(subdirs.len() as int) == subdirs,
        enqueued(pending, subdirs, false).skip(subdirs.len() as int) == pending,
        enqueued(pending, subdirs, true).take(pending.len() as int) == pending,
        enqueued(pending, subdirs, true).skip(pending.len() as int) == subdirs,
{
    assert(enqueued(pending, subdirs, false).take(subdirs.len() as int) =~= subdirs);
    assert(enqueued(pending, subdirs, false).skip(subdirs.len() as int) =~= pending);
    assert(enqueued(pending, subdirs, true).take(pending.len() as int) =~= pending);
    assert(enqueued(pending, subdirs, true).skip(pending.len() as int) =~= subdirs);
}

} // verus!
