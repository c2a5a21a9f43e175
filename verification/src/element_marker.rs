use vstd::prelude::*;
use crate::id::Index;
use crate::vec::{clone_index_set, shrink_index_set};
use std::collections::HashSet;

verus! {

/// Used to test whether a specific element is deleted or used: the pluggable
/// occupancy-tracking policy. A marker records the set of indices currently
/// marked unused; an index it has never seen counts as used, consistent with
/// newly grown slots starting alive. The two strategies - a set of unused
/// indices and a bitmap - implement the same contract with different
/// performance profiles, so the same algorithms run unmodified over either.
pub trait ElementMarker: Sized {
    /// Iterates over all unused indices of the marker it was taken from.
    type UnusedElementIter;

    /// The set of indices currently marked unused.
    spec fn unused_set(&self) -> Set<Index>;

    /// The marker's internal invariant.
    spec fn inv(&self) -> bool;

    /// The indices the given unused-element iterator will yield, in order.
    spec fn iter_ids(it: &Self::UnusedElementIter) -> Seq<Index>;

    /// A marker sized for this many elements' worth of tracked state, with
    /// everything marked used.
    fn with_element_capacity(size: usize) -> (r: Self)
        ensures
            r.inv(),
            r.unused_set() == Set::<Index>::empty(),
    ;

    /// Set the liveness of an index. Returns whether the element was used
    /// prior to calling this fn; marking twice with the same value is a
    /// no-op on the state but still reports the (now equal) previous value.
    /// The index must leave room for one more slot, so that a bitmap-backed
    /// marker can always allocate a bit for it.
    fn mark_element_used(&mut self, index: Index, used: bool) -> (was_used: bool)
        requires
            old(self).inv(),
            index < usize::MAX,
        ensures
            final(self).inv(),
            was_used == !old(self).unused_set().contains(index),
            final(self).unused_set() == if used {
                old(self).unused_set().remove(index)
            } else {
                old(self).unused_set().insert(index)
            },
    ;

    /// Return true if the element is alive, false if it was deleted.
    fn element_is_used(&self, index: Index) -> (r: bool)
        requires
            self.inv(),
        ensures
            r == !self.unused_set().contains(index),
    ;

    /// Iterate over all unused indices: each exactly once, in an order the
    /// strategy chooses.
    fn unused_elements(&self) -> (r: Self::UnusedElementIter)
        requires
            self.inv(),
        ensures
            Self::iter_ids(&r).to_set() == self.unused_set(),
            Self::iter_ids(&r).no_duplicates(),
            Self::iter_ids(&r).len() == self.unused_set().len(),
    ;

    /// How many indices are currently marked unused.
    fn unused_element_count(&self) -> (r: usize)
        requires
            self.inv(),
        ensures
            r == self.unused_set().len(),
    ;

    /// Reserve space for _used_ elements in the arena. A capacity hint only:
    /// the tracked state is unchanged.
    fn reserve_elements(&mut self, new_element_count: usize)
        requires
            old(self).inv(),
        ensures
            final(self).inv(),
            final(self).unused_set() == old(self).unused_set(),
    ;

    /// Release excess backing capacity. The tracked state is unchanged.
    fn shrink_to_fit(&mut self)
        requires
            old(self).inv(),
        ensures
            final(self).inv(),
            final(self).unused_set() == old(self).unused_set(),
    ;

    /// Reset to empty: everything marked used again.
    fn clear(&mut self)
        requires
            old(self).inv(),
        ensures
            final(self).inv(),
            final(self).unused_set() == Set::<Index>::empty(),
    ;
}

/// Relies on std's `HashSet::iter` and `Iterator::collect`: the iterator
/// yields every member of the set exactly once, in no guaranteed order.
#[verifier::external_body]
fn set_to_vec(s: &HashSet<Index>) -> (r: Vec<Index>)
    ensures
        r@.to_set() == s@,
        r@.no_duplicates(),
        r@.len() == s@.len(),
{
    s.iter().copied().collect()
}

/// Keeps an internal set of all unused indices, which is optimized for rather
/// full arenas with not too many deleted elements at the same time: its
/// enumeration cost scales with the number of deleted elements, not with the
/// total size.
#[derive(Default, Debug)]
pub struct HashSetElementMarker {
    unused_indices: HashSet<Index>,
}

impl ElementMarker for HashSetElementMarker {
    type UnusedElementIter = ClonedHashSetMarkerIter;

    closed spec fn unused_set(&self) -> Set<Index> {
        self.unused_indices@
    }

    closed spec fn inv(&self) -> bool {
        self.unused_indices@.finite()
    }

    open spec fn iter_ids(it: &ClonedHashSetMarkerIter) -> Seq<Index> {
        it.remaining()
    }

    fn with_element_capacity(_size: usize) -> (r: Self) {
        // The footprint depends on the unused-element count, not on the
        // element count, so nothing is preallocated.
        HashSetElementMarker { unused_indices: HashSet::new() }
    }

    fn mark_element_used(&mut self, index: Index, used: bool) -> (was_used: bool) {
        if used {
            let was_unused = self.unused_indices.remove(&index);
            !was_unused
        } else {
            let newly_unused = self.unused_indices.insert(index);
            proof {
                if !newly_unused {
                    assert(final(self).unused_set() =~= old(self).unused_set().insert(index));
                }
            }
            newly_unused
        }
    }

    fn element_is_used(&self, index: Index) -> (r: bool) {
        !self.unused_indices.contains(&index)
    }

    fn unused_elements(&self) -> (r: ClonedHashSetMarkerIter) {
        let ids = set_to_vec(&self.unused_indices);
        let ghost v = ids@;
        proof {
            let rv = v.reverse();
            assert forall|x: Index| rv.contains(x) implies v.contains(x) by {
                let i = choose|i: int| 0 <= i < rv.len() && rv[i] == x;
                assert(v[v.len() - 1 - i] == x);
            }
            assert forall|x: Index| v.contains(x) implies rv.contains(x) by {
                let i = choose|i: int| 0 <= i < v.len() && v[i] == x;
                assert(rv[v.len() - 1 - i] == x);
            }
            assert(rv.to_set() =~= v.to_set());
            assert forall|i: int, j: int|
                0 <= i < j < rv.len() implies rv[i] != rv[j] by {
                assert(rv[i] == v[v.len() - 1 - i]);
                assert(rv[j] == v[v.len() - 1 - j]);
            }
        }
        ClonedHashSetMarkerIter { remaining_ids: ids }
    }

    fn unused_element_count(&self) -> (r: usize) {
        self.unused_indices.len()
    }

    fn reserve_elements(&mut self, _element_count: usize) {
        // The footprint depends on the unused-element count, not on the
        // element count.
    }

    fn shrink_to_fit(&mut self) {
        shrink_index_set(&mut self.unused_indices);
    }

    fn clear(&mut self) {
        self.unused_indices.clear();
    }
}

impl Clone for HashSetElementMarker {
    /// The clone tracks exactly the same unused indices.
    fn clone(&self) -> (r: Self)
        ensures
            r.unused_set() == self.unused_set(),
            self.inv() ==> r.inv(),
    {
        HashSetElementMarker { unused_indices: clone_index_set(&self.unused_indices) }
    }
}

/// Iterator over a snapshot of a `HashSetElementMarker`'s unused indices, in
/// no guaranteed order.
pub struct ClonedHashSetMarkerIter {
    remaining_ids: Vec<Index>,
}

impl ClonedHashSetMarkerIter {
    /// The unused indices not yielded yet, in the order they will come out.
    pub closed spec fn remaining(&self) -> Seq<Index> {
        self.remaining_ids@.reverse()
    }

    pub fn next(&mut self) -> (r: Option<Index>)
        ensures
            old(self).remaining().len() == 0 ==> r is None && final(self).remaining() == old(
                self,
            ).remaining(),
            old(self).remaining().len() > 0 ==> {
                &&& r == Some(old(self).remaining()[0])
                &&& final(self).remaining() == old(self).remaining().drop_first()
            },
    {
        let r = self.remaining_ids.pop();
        proof {
            if old(self).remaining_ids@.len() > 0 {
                assert(old(self).remaining()[0] == old(self).remaining_ids@.last());
                assert(final(self).remaining() =~= old(self).remaining().drop_first());
            } else {
                assert(final(self).remaining() =~= old(self).remaining());
            }
        }
        r
    }

    /// Both bounds are exact: the number of indices left to yield.
    pub fn size_hint(&self) -> (r: (usize, Option<usize>))
        ensures
            r.0 == self.remaining().len(),
            r.1 == Some((self.remaining().len() as usize)),
    {
        let n = self.remaining_ids.len();
        (n, Some(n))
    }
}

} // verus!
