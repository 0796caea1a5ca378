//! Finding the unit generators that a graph uses more than once.
//!
//! The graph is walked from its root; each unit generator that the walk
//! meets is handed to `SharedSearch::meet`, which says whether the walk goes
//! on below it. A unit generator is walked below once, the first time it is
//! met; one that is met again is shared, and is listed once, in the order in
//! which the walk met it the second time.

use vstd::prelude::*;

verus! {

/// No item occurs twice.
pub open spec fn distinct(s: Seq<u64>) -> bool {
    forall|i: int, j: int| 0 <= i < j < s.len() ==> #[trigger] s[i] != #[trigger] s[j]
}

/// The state of the search: the unit generators met so far, in the order
/// in which they were first met, and those met more than once.
pub struct SharedSearch {
    pub searched: Vec<u64>,
    pub shared: Vec<u64>,
}

impl SharedSearch {
    /// Each list holds an item once, and each shared unit generator was met.
    pub open spec fn wf(&self) -> bool {
        &&& distinct(self.searched@)
        &&& distinct(self.shared@)
        &&& forall|k: int| 0 <= k < self.shared@.len() ==> self.searched@.contains(#[trigger] self.shared@[k])
    }

    /// A search that has met nothing.
    pub fn new() -> (s: SharedSearch)
        ensures
            s.searched@ == Seq::<u64>::empty(),
            s.shared@ == Seq::<u64>::empty(),
            s.wf(),
    {
        SharedSearch { searched: Vec::new(), shared: Vec::new() }
    }

    /// Meets the unit generator `u`: the first time, it is recorded and the
    /// walk goes on below it (`true`); after that it is shared, listed if it
    /// was not yet, and the walk does not go below it again (`false`).
    pub fn meet(&mut self, u: u64) -> (below: bool)
        requires
            old(self).wf(),
        ensures
            final(self).wf(),
            below == !old(self).searched@.contains(u),
            below ==> final(self).searched@ == old(self).searched@.push(u) && final(self).shared@
                == old(self).shared@,
            !below ==> final(self).searched@ == old(self).searched@ && final(self).shared@ == (if old(
                self,
            ).shared@.contains(u) {
                old(self).shared@
            } else {
                old(self).shared@.push(u)
            }),
    {
        if contains_u64(&self.searched, u) {
            if !contains_u64(&self.shared, u) {
                self.shared.push(u);
            }
            false
        } else {
            self.searched.push(u);
            proof {
                assert forall|k: int| 0 <= k < self.shared@.len() implies self.searched@.contains(
                    #[trigger] self.shared@[k],
                ) by {
                    let j = choose|j: int|
                        0 <= j < old(self).searched@.len() && old(self).searched@[j] == self.shared@[k];
                    assert(self.searched@[j] == self.shared@[k]);
                }
            }
            true
        }
    }
}

/// Whether `v` holds `u`.
pub fn contains_u64(v: &Vec<u64>, u: u64) -> (r: bool)
    ensures
        r == v@.contains(u),
{
    let mut i: usize = 0;
    while i < v.len()
        invariant
            i <= v.len(),
            forall|k: int| 0 <= k < i ==> v@[k] != u,
        decreases v.len() - i,
    {
        if v[i] == u {
            return true;
        }
        i = i + 1;
    }
    false
}

} // verus!
