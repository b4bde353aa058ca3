//! The per-collection change-stream fan-out table: one publisher per
//! collection, shared by every cursor that watches it. The table decides
//! when a new publisher task must start; the stream itself runs outside
//! the library.

use vstd::prelude::*;
use crate::value::str_eq;

verus! {

/// The collections with a live publisher.
pub struct Watcher {
    pub collections: Vec<String>,
}

/// Whether a collection is already published.
pub open spec fn spec_watched(collections: Seq<String>, c: Seq<char>) -> bool
    decreases collections.len(),
{
    if collections.len() == 0 {
        false
    } else {
        collections[0]@ == c || spec_watched(collections.skip(1), c)
    }
}

impl Watcher {
    /// An empty table.
    pub fn new() -> (r: Watcher)
        ensures
            r.collections@.len() == 0,
    {
        Watcher { collections: Vec::new() }
    }

    /// Registers interest in a collection; the result says whether a new
    /// publisher must start (an existing one is shared otherwise).
    #[verifier::loop_isolation(false)]
    pub fn watch(&mut self, collection: String) -> (r: bool)
        ensures
            r == !spec_watched(old(self).collections@, collection@),
            r ==> final(self).collections@ == old(self).collections@.push(collection),
            !r ==> final(self).collections@ == old(self).collections@,
    {
        let ghost g = self.collections@;
        let mut i: usize = 0;
        proof {
            assert(g.skip(0) =~= g);
        }
        while i < self.collections.len()
            invariant
                i <= self.collections@.len(),
                self.collections@ == g,
                spec_watched(g, collection@) == spec_watched(g.skip(i as int), collection@),
            decreases self.collections@.len() - i,
        {
            proof {
                assert(g.skip(i as int)[0] == g[i as int]);
                assert(g.skip(i as int).skip(1) =~= g.skip(i as int + 1));
            }
            if str_eq(self.collections[i].as_str(), collection.as_str()) {
                return false;
            }
            i = i + 1;
        }
        proof {
            assert(g.skip(self.collections@.len() as int).len() == 0);
        }
        self.collections.push(collection);
        true
    }
}

} // verus!
