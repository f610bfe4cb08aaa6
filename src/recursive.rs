//! The single-threaded, recursive searcher: exact names, and a memory of what it has
//! reported so that a repeated search reports only what is new.
use vstd::prelude::*;
use vstd::hash_set::StringHashSet;
use crate::pattern::same_text;

verus! {

/// What the recursive searcher has reported so far.
pub struct FileSearch {
    found_items: StringHashSet,
}

impl FileSearch {
    /// The paths reported so far.
    pub closed spec fn reported(self) -> Set<Seq<char>> {
        self.found_items@
    }

    /// A searcher that has reported nothing.
    pub fn new() -> (r: FileSearch)
        ensures
            r.reported() == Set::<Seq<char>>::empty(),
    {
        FileSearch { found_items: StringHashSet::new() }
    }

    /// Notes `path` as found; true exactly when it had not been reported before.
    pub fn note_found(&mut self, path: &str) -> (r: bool)
        ensures
            r == !old(self).reported().contains(path@),
            final(self).reported() == old(self).reported().insert(path@),
    {
        if self.found_items.contains(path) {
            proof {
                assert(self.found_items@.insert(path@) =~= self.found_items@);
            }
            false
        } else {
            self.found_items.insert(path.to_string());
            true
        }
    }

    /// Whether an entry named `name` is what the query asks for: the same name, case
    /// included.
    pub fn name_is(name: &str, query: &str) -> (r: bool)
        ensures
            r == (name@ == query@),
    {
        same_text(name, query)
    }
}

} // verus!
