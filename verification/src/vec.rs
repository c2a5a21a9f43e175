use vstd::prelude::*;
use vstd::assert_seqs_equal;
use vstd::set_lib::lemma_len_subset;
use vstd::std_specs::cmp::PartialEqSpec;
use crate::id::{Id, Index};
use std::collections::HashSet;

verus! {

broadcast use crate::id::lemma_id_determined_by_index;

/// Relies on std's `HashSet::clone`: cloning a set of `usize` keys yields a
/// set holding exactly the same keys.
#[verifier::external_body]
pub(crate) fn clone_index_set(s: &HashSet<Index>) -> (r: HashSet<Index>)
    ensures
        r@ == s@,
{
    s.clone()
}

/// The number of slots left once every dead slot at the tail of a sequence of
/// `n` slots has been trimmed away: the largest prefix whose last slot is
/// alive (or zero).
pub open spec fn trimmed_len(n: int, dead: Set<Index>) -> int
    decreases n,
{
    if n <= 0 {
        0
    } else if dead.contains((n - 1) as Index) {
        trimmed_len(n - 1, dead)
    } else {
        n
    }
}

/// The dead set restricted to indices below `m`.
pub open spec fn restrict_below(dead: Set<Index>, m: int) -> Set<Index> {
    Set::new(|i: Index| dead.contains(i) && (i as int) < m)
}

/// `trimmed_len` only looks at membership below `n`.
proof fn lemma_trimmed_congruent(n: int, d1: Set<Index>, d2: Set<Index>)
    requires
        forall|i: Index| (i as int) < n ==> (d1.contains(i) <==> d2.contains(i)),
    ensures
        trimmed_len(n, d1) == trimmed_len(n, d2),
    decreases n,
{
    if n > 0 {
        if d1.contains((n - 1) as Index) {
            lemma_trimmed_congruent(n - 1, d1, d2);
        }
    }
}

proof fn lemma_trimmed_len_bounds(n: int, dead: Set<Index>)
    ensures
        0 <= trimmed_len(n, dead) <= n || n < 0,
        trimmed_len(n, dead) > 0 ==> !dead.contains((trimmed_len(n, dead) - 1) as Index),
        forall|k: int| trimmed_len(n, dead) <= k < n ==> dead.contains(#[trigger] (k as Index)),
    decreases n,
{
    if n > 0 && dead.contains((n - 1) as Index) {
        lemma_trimmed_len_bounds(n - 1, dead);
    }
}

/// A finite set of machine indices all below `n` has at most `n` members.
proof fn lemma_card_below(d: Set<Index>, n: nat)
    requires
        d.finite(),
        n <= usize::MAX as nat + 1,
        forall|i: Index| #[trigger] d.contains(i) ==> (i as nat) < n,
    ensures
        d.len() <= n,
    decreases n,
{
    if n == 0 {
        assert(d =~= Set::empty());
    } else {
        let top = (n - 1) as Index;
        let d2 = d.remove(top);
        lemma_card_below(d2, (n - 1) as nat);
    }
}

/// The alive indices in `[lo, hi)` with respect to a dead set, in ascending
/// order.
pub open spec fn live_ids_between(dead: Set<Index>, lo: int, hi: int) -> Seq<Index>
    decreases hi - lo,
{
    if hi <= lo {
        Seq::empty()
    } else if dead.contains((hi - 1) as Index) {
        live_ids_between(dead, lo, hi - 1)
    } else {
        live_ids_between(dead, lo, hi - 1).push((hi - 1) as Index)
    }
}

/// `live_ids_between` only looks at membership inside the range.
proof fn lemma_between_congruent(d1: Set<Index>, d2: Set<Index>, lo: int, hi: int)
    requires
        0 <= lo,
        hi <= usize::MAX as int + 1,
        forall|i: Index| lo <= (i as int) < hi ==> (d1.contains(i) <==> d2.contains(i)),
    ensures
        live_ids_between(d1, lo, hi) == live_ids_between(d2, lo, hi),
    decreases hi - lo,
{
    if hi > lo {
        lemma_between_congruent(d1, d2, lo, hi - 1);
    }
}

/// A dead index at the front of the range does not show up: the range can be
/// narrowed past it.
proof fn lemma_between_skip_dead(d: Set<Index>, lo: int, hi: int)
    requires
        0 <= lo,
        hi <= usize::MAX as int + 1,
        d.contains(lo as Index),
    ensures
        live_ids_between(d, lo, hi) == live_ids_between(d, lo + 1, hi),
    decreases hi - lo,
{
    if hi <= lo {
        assert(live_ids_between(d, lo, hi) =~= live_ids_between(d, lo + 1, hi));
    } else if hi == lo + 1 {
        assert((hi - 1) as Index == lo as Index);
        assert(live_ids_between(d, lo, hi) == live_ids_between(d, lo, hi - 1));
        assert(live_ids_between(d, lo, hi) =~= live_ids_between(d, lo + 1, hi));
    } else {
        lemma_between_skip_dead(d, lo, hi - 1);
        assert(live_ids_between(d, lo, hi) =~= live_ids_between(d, lo + 1, hi));
    }
}

/// An alive index at the front of the range is the first id the range yields.
proof fn lemma_between_alive_front(d: Set<Index>, lo: int, hi: int)
    requires
        0 <= lo < hi,
        hi <= usize::MAX as int + 1,
        !d.contains(lo as Index),
    ensures
        live_ids_between(d, lo, hi).len() > 0,
        live_ids_between(d, lo, hi)[0] == lo as Index,
        live_ids_between(d, lo, hi).drop_first() == live_ids_between(d, lo + 1, hi),
    decreases hi - lo,
{
    if hi == lo + 1 {
        assert(live_ids_between(d, lo, hi) =~= Seq::empty().push(lo as Index));
        assert(live_ids_between(d, lo, hi).drop_first() =~= live_ids_between(d, lo + 1, hi));
    } else {
        lemma_between_alive_front(d, lo, hi - 1);
        if !d.contains((hi - 1) as Index) {
            assert(live_ids_between(d, lo, hi).drop_first() =~= live_ids_between(
                d,
                lo,
                hi - 1,
            ).drop_first().push((hi - 1) as Index));
        }
    }
}

/// Every id the range yields is an alive index inside the range; they come in
/// strictly ascending order; and every alive index inside the range shows up.
proof fn lemma_between_members(d: Set<Index>, lo: int, hi: int)
    requires
        0 <= lo,
        hi <= usize::MAX as int + 1,
    ensures
        forall|k: int|
            0 <= k < live_ids_between(d, lo, hi).len() ==> {
                &&& lo <= #[trigger] live_ids_between(d, lo, hi)[k] < hi
                &&& !d.contains(live_ids_between(d, lo, hi)[k])
            },
        forall|k1: int, k2: int|
            0 <= k1 < k2 < live_ids_between(d, lo, hi).len() ==> #[trigger] live_ids_between(
                d,
                lo,
                hi,
            )[k1] < #[trigger] live_ids_between(d, lo, hi)[k2],
        forall|i: Index|
            lo <= (i as int) < hi && !d.contains(i) ==> live_ids_between(d, lo, hi).contains(i),
    decreases hi - lo,
{
    if hi > lo {
        lemma_between_members(d, lo, hi - 1);
        let s = live_ids_between(d, lo, hi);
        let prev = live_ids_between(d, lo, hi - 1);
        assert forall|k: int|
            0 <= k < s.len() implies lo <= #[trigger] s[k] < hi && !d.contains(s[k]) by {
            if k < prev.len() {
                assert(s[k] == prev[k]);
            }
        }
        assert forall|k1: int, k2: int|
            0 <= k1 < k2 < s.len() implies #[trigger] s[k1] < #[trigger] s[k2] by {
            if k2 < prev.len() {
                assert(s[k1] == prev[k1]);
                assert(s[k2] == prev[k2]);
            } else if k2 == prev.len() && s.len() == prev.len() + 1 {
                assert(s[k1] == prev[k1]);
                assert(prev[k1] < hi - 1);
            }
        }
        if !d.contains((hi - 1) as Index) {
            assert forall|i: Index|
                lo <= (i as int) < hi && !d.contains(i) implies live_ids_between(
                d,
                lo,
                hi,
            ).contains(i) by {
                if (i as int) < hi - 1 {
                    let k = choose|k: int| 0 <= k < prev.len() && prev[k] == i;
                    assert(live_ids_between(d, lo, hi)[k] == i);
                } else {
                    assert(live_ids_between(d, lo, hi)[prev.len() as int] == i);
                }
            }
        }
    }
}

/// The range yields exactly the range's width minus the dead indices inside
/// it.
proof fn lemma_between_count(d: Set<Index>, lo: int, hi: int)
    requires
        d.finite(),
        0 <= lo <= hi <= usize::MAX as int + 1,
    ensures
        Set::new(|i: Index| d.contains(i) && lo <= (i as int) < hi).finite(),
        live_ids_between(d, lo, hi).len() + Set::new(
            |i: Index| d.contains(i) && lo <= (i as int) < hi,
        ).len() == hi - lo,
    decreases hi - lo,
{
    let inside = Set::new(|i: Index| d.contains(i) && lo <= (i as int) < hi);
    if lo == hi {
        assert(inside =~= Set::empty());
    } else {
        lemma_between_count(d, lo, hi - 1);
        let prev = Set::new(|i: Index| d.contains(i) && lo <= (i as int) < hi - 1);
        if d.contains((hi - 1) as Index) {
            assert(inside =~= prev.insert((hi - 1) as Index));
        } else {
            assert(inside =~= prev);
        }
    }
}

/// When everything from `m` up to `hi` is dead, the range stops at `m`.
proof fn lemma_between_truncate(d: Set<Index>, lo: int, m: int, hi: int)
    requires
        0 <= m <= hi,
        hi <= usize::MAX as int + 1,
        forall|k: int| m <= k < hi ==> d.contains(#[trigger] (k as Index)),
    ensures
        live_ids_between(d, lo, hi) == live_ids_between(d, lo, m),
    decreases hi - m,
{
    if m < hi {
        lemma_between_truncate(d, lo, m, hi - 1);
    }
}

/// Inserting elements into this container yields a persistent, type-safe id
/// for the new element. It does not try to preserve the order of the inserted
/// items, but a packed `IdVec` will append elements to the end of the internal
/// vector.
#[derive(Debug)]
pub struct IdVec<T> {
    /// Packed dense vector, containing alive and dead elements.
    /// Because removing the last element directly can be done efficiently,
    /// it is guaranteed that the last element is never unused.
    elements: Vec<T>,

    /// Contains all unused ids which are allowed to be overwritten;
    /// will never contain the last id, because the last id is removed directly.
    unused_indices: HashSet<Index>,
}

impl<T> IdVec<T> {
    /// The full backing sequence of slots, dead ones included.
    pub closed spec fn slots(&self) -> Seq<T> {
        self.elements@
    }

    /// The set of indices whose slots are dead.
    pub closed spec fn dead(&self) -> Set<Index> {
        self.unused_indices@
    }

    /// Slot `i` exists and currently holds an element.
    pub open spec fn is_alive(&self, i: Index) -> bool {
        (i as int) < self.slots().len() && !self.dead().contains(i)
    }

    /// The number of alive elements.
    pub open spec fn spec_len(&self) -> int {
        self.slots().len() - self.dead().len()
    }

    /// The internal invariant: the dead set is finite and only names slots
    /// that exist, and the last slot is never dead (dead tails are trimmed
    /// eagerly).
    pub open spec fn wf(&self) -> bool {
        &&& self.dead().finite()
        &&& (forall|i: Index| #[trigger] self.dead().contains(i) ==> (i as int) < self.slots().len())
        &&& (self.slots().len() > 0 ==> !self.dead().contains((self.slots().len() - 1) as Index))
    }

    /// Does not allocate heap memory.
    pub fn new() -> (r: Self)
        ensures
            r.wf(),
            r.slots() == Seq::<T>::empty(),
            r.dead() == Set::<Index>::empty(),
    {
        Self::with_capacity(0)
    }

    pub fn with_capacity(capacity: usize) -> (r: Self)
        ensures
            r.wf(),
            r.slots() == Seq::<T>::empty(),
            r.dead() == Set::<Index>::empty(),
    {
        Self::from_vec(Vec::with_capacity(capacity))
    }

    /// Create a container holding exactly these elements, every slot alive.
    /// Directly uses the specified vector, so no allocation is made calling
    /// this function.
    pub fn from_vec(elements: Vec<T>) -> (r: Self)
        ensures
            r.wf(),
            r.slots() == elements@,
            r.dead() == Set::<Index>::empty(),
    {
        IdVec { unused_indices: HashSet::new(), elements }
    }

    /// Returns whether this index is not deleted (does not check whether the
    /// index is inside the vector's range).
    fn index_is_currently_used(&self, index: Index) -> (r: bool)
        requires
            self.wf(),
        ensures
            r == !self.dead().contains(index),
    {
        let len = self.elements.len();
        (index < len && index == len - 1) || !self.unused_indices.contains(&index)
    }

    fn index_is_in_range(&self, index: Index) -> (r: bool)
        ensures
            r == ((index as int) < self.slots().len()),
    {
        index < self.elements.len()
    }

    /// How many slots the backing vector holds, dead ones included. Because
    /// the last slot is never dead, this is one more than the highest id ever
    /// alive since the last trim.
    pub fn slot_count(&self) -> (r: usize)
        ensures
            r == self.slots().len(),
    {
        self.elements.len()
    }

    /// How many alive elements this container holds.
    pub fn len(&self) -> (r: usize)
        requires
            self.wf(),
        ensures
            r == self.spec_len(),
    {
        let n = self.elements.len();
        proof {
            lemma_card_below(self.dead(), self.slots().len());
        }
        n - self.unused_indices.len()
    }

    pub fn is_empty(&self) -> (r: bool)
        requires
            self.wf(),
        ensures
            r == (self.spec_len() == 0),
    {
        self.len() == 0
    }

    /// Whether this id addresses an alive element: excludes deleted elements
    /// and indices out of range.
    pub fn contains_id(&self, element: Id<T>) -> (r: bool)
        requires
            self.wf(),
        ensures
            r == self.is_alive(element@),
    {
        self.index_is_in_range(element.index_value())
            && self.index_is_currently_used(element.index_value())
    }

    /// Returns whether the internal vector does not contain any deleted
    /// elements.
    pub fn is_packed(&self) -> (r: bool)
        requires
            self.wf(),
        ensures
            r == self.dead().is_empty(),
            r ==> self.spec_len() == self.slots().len(),
    {
        proof {
            if self.dead().is_empty() {
                assert(self.dead() =~= Set::empty());
            }
        }
        self.unused_indices.is_empty()
    }

    /// Return a reference to the element that this id points to, or `None`
    /// for a dead or out-of-range id.
    pub fn get(&self, element: Id<T>) -> (r: Option<&T>)
        requires
            self.wf(),
        ensures
            match r {
                Some(v) => self.is_alive(element@) && *v == self.slots()[element@ as int],
                None => !self.is_alive(element@),
            },
    {
        if self.index_is_in_range(element.index_value())
            && self.index_is_currently_used(element.index_value()) {
            Some(&self.elements[element.index_value()])
        } else {
            None
        }
    }

    /// Return a mutable reference to the element that this id points to, or
    /// `None` for a dead or out-of-range id.
    pub fn get_mut(&mut self, element: Id<T>) -> (r: Option<&mut T>)
        requires
            old(self).wf(),
        ensures
            old(self).is_alive(element@) ==> {
                &&& r is Some
                &&& *r.unwrap() == old(self).slots()[element@ as int]
                &&& final(self).slots() == old(self).slots().update(
                    element@ as int,
                    *final(r.unwrap()),
                )
                &&& final(self).dead() == old(self).dead()
                &&& final(self).wf()
            },
            !old(self).is_alive(element@) ==> r is None && *final(self) == *old(self),
    {
        if self.index_is_in_range(element.index_value())
            && self.index_is_currently_used(element.index_value()) {
            Some(&mut self.elements[element.index_value()])
        } else {
            None
        }
    }

    /// Reserve space for additional elements, avoiding frequent reallocation.
    /// Contents are unchanged.
    pub fn reserve(&mut self, additional: usize)
        requires
            old(self).wf(),
        ensures
            final(self).slots() == old(self).slots(),
            final(self).dead() == old(self).dead(),
            final(self).wf(),
    {
        self.elements.reserve(additional)
    }

    /// Removes all elements, instantly deallocating.
    pub fn clear(&mut self)
        ensures
            final(self).wf(),
            final(self).slots() == Seq::<T>::empty(),
            final(self).dead() == Set::<Index>::empty(),
    {
        self.elements.clear();
        self.unused_indices.clear();
    }
}

/// Restricting a dead set that covers all of `[m, n)` (and nothing at or
/// beyond `n`) to the indices below `m` removes exactly `n - m` members.
proof fn lemma_restrict_card(dead: Set<Index>, m: int, n: int)
    requires
        dead.finite(),
        0 <= m <= n <= usize::MAX as int + 1,
        forall|k: int| m <= k < n ==> dead.contains(#[trigger] (k as Index)),
        forall|i: Index| #[trigger] dead.contains(i) ==> (i as int) < n,
    ensures
        restrict_below(dead, m).finite(),
        restrict_below(dead, m).len() == dead.len() - (n - m),
    decreases n - m,
{
    if m == n {
        assert(restrict_below(dead, m) =~= dead);
    } else {
        let top = (n - 1) as Index;
        let d2 = dead.remove(top);
        assert(restrict_below(d2, m) =~= restrict_below(dead, m));
        lemma_restrict_card(d2, m, n - 1);
    }
}

impl<T> IdVec<T> {
    /// Recover the invariant after removals at the tail, by trimming any dead
    /// slots now exposed at the back of the vector.
    fn pop_back_unused(&mut self)
        requires
            old(self).dead().finite(),
            forall|i: Index| #[trigger]
                old(self).dead().contains(i) ==> (i as int) < old(self).slots().len(),
        ensures
            final(self).wf(),
            final(self).slots() == old(self).slots().take(
                trimmed_len(old(self).slots().len() as int, old(self).dead()),
            ),
            final(self).dead() == restrict_below(
                old(self).dead(),
                trimmed_len(old(self).slots().len() as int, old(self).dead()),
            ),
    {
        let ghost s0 = old(self).slots();
        let ghost n0 = old(self).slots().len() as int;
        let ghost d0 = old(self).dead();
        proof {
            assert(self.slots() =~= s0.take(self.slots().len() as int));
            assert(self.dead() =~= restrict_below(d0, self.slots().len() as int));
        }
        loop
            invariant
                self.dead().finite(),
                forall|i: Index| #[trigger]
                    self.dead().contains(i) ==> (i as int) < self.slots().len(),
                self.slots().len() <= n0,
                n0 == s0.len(),
                self.slots() == s0.take(self.slots().len() as int),
                self.dead() == restrict_below(d0, self.slots().len() as int),
                trimmed_len(self.slots().len() as int, self.dead()) == trimmed_len(n0, d0),
            ensures
                self.slots().len() == 0 || !self.dead().contains(
                    (self.slots().len() - 1) as Index,
                ),
                self.dead().finite(),
                forall|i: Index| #[trigger]
                    self.dead().contains(i) ==> (i as int) < self.slots().len(),
                self.slots() == s0.take(self.slots().len() as int),
                self.dead() == restrict_below(d0, self.slots().len() as int),
                trimmed_len(self.slots().len() as int, self.dead()) == trimmed_len(n0, d0),
            decreases self.slots().len(),
        {
            let n = self.elements.len();
            if n == 0 {
                break;
            }
            if !self.unused_indices.contains(&(n - 1)) {
                break;
            }
            let ghost d_pre = self.dead();
            self.unused_indices.remove(&(n - 1));
            self.elements.pop();
            proof {
                let prev = s0.take(n as int);
                assert(self.slots().len() == n - 1);
                assert_seqs_equal!(self.slots() == s0.take(n as int - 1), i => {
                    assert(self.slots()[i] == prev[i]);
                    assert(prev[i] == s0[i]);
                    assert(s0.take(n as int - 1)[i] == s0[i]);
                });
                assert(self.dead() =~= restrict_below(d0, self.slots().len() as int));
                lemma_trimmed_congruent(n as int - 1, d_pre, self.dead());
            }
        }
        proof {
            let m = self.slots().len() as int;
            if m == 0 {
                assert(trimmed_len(m, self.dead()) == 0);
            }
            assert(trimmed_len(m, self.dead()) == m);
            lemma_trimmed_congruent(m, self.dead(), d0);
            assert(trimmed_len(n0, d0) == m);
            assert(final(self).slots() =~= s0.take(trimmed_len(n0, d0)));
        }
    }

    /// Mark the slot this id addresses as reusable. The element is not
    /// returned; a later `insert` may overwrite (and thus drop) it. When the
    /// id addresses the last slot, that slot and any dead slots it guarded are
    /// trimmed away directly instead. Ignores invalid and deleted ids; make
    /// sure no ids pointing to the element are kept after this call, since a
    /// later `insert` may silently reuse the same index for an unrelated new
    /// element.
    pub fn remove(&mut self, element: Id<T>)
        requires
            old(self).wf(),
        ensures
            final(self).wf(),
            !final(self).is_alive(element@),
            final(self).spec_get(element@) is None,
            ({
                let idx = element@ as int;
                let n = old(self).slots().len() as int;
                if idx >= n {
                    &&& final(self).slots() == old(self).slots()
                    &&& final(self).dead() == old(self).dead()
                } else if idx == n - 1 {
                    &&& final(self).slots() == old(self).slots().take(
                        trimmed_len(n - 1, old(self).dead()),
                    )
                    &&& final(self).dead() == restrict_below(
                        old(self).dead(),
                        trimmed_len(n - 1, old(self).dead()),
                    )
                } else {
                    &&& final(self).slots() == old(self).slots()
                    &&& final(self).dead() == old(self).dead().insert(element@)
                }
            }),
            old(self).is_alive(element@) ==> final(self).spec_len() == old(self).spec_len() - 1,
            !old(self).is_alive(element@) ==> final(self).spec_len() == old(self).spec_len(),
    {
        let index = element.index_value();
        let n = self.elements.len();
        if index < n {
            if index == n - 1 {
                self.elements.pop();
                self.pop_back_unused();
                proof {
                    lemma_trimmed_len_bounds(n as int - 1, old(self).dead());
                    assert(final(self).slots() =~= old(self).slots().take(
                        trimmed_len(n as int - 1, old(self).dead()),
                    ));
                    lemma_restrict_card(
                        old(self).dead(),
                        trimmed_len(n as int - 1, old(self).dead()),
                        n as int - 1,
                    );
                }
            } else {
                self.unused_indices.insert(index);
                proof {
                    if old(self).dead().contains(index) {
                        assert(final(self).dead() =~= old(self).dead());
                    }
                }
            }
        }
    }

    /// Remove and return the element in the highest slot together with its
    /// id, trimming any dead slots this exposes at the tail. Returns `None`
    /// on an empty container.
    pub fn pop(&mut self) -> (r: Option<(Id<T>, T)>)
        requires
            old(self).wf(),
        ensures
            final(self).wf(),
            old(self).slots().len() == 0 ==> {
                &&& r is None
                &&& final(self).slots() == old(self).slots()
                &&& final(self).dead() == old(self).dead()
            },
            old(self).slots().len() > 0 ==> {
                let n = old(self).slots().len() as int;
                &&& r is Some
                &&& r.unwrap().0@ as int == n - 1
                &&& r.unwrap().1 == old(self).slots().last()
                &&& final(self).slots() == old(self).slots().take(
                    trimmed_len(n - 1, old(self).dead()),
                )
                &&& final(self).dead() == restrict_below(
                    old(self).dead(),
                    trimmed_len(n - 1, old(self).dead()),
                )
                &&& final(self).spec_len() == old(self).spec_len() - 1
                &&& final(self).slots().len() < old(self).slots().len()
            },
    {
        let ghost n = old(self).slots().len() as int;
        match self.elements.pop() {
            None => None,
            Some(element) => {
                let id = Id::from_index(self.elements.len());
                self.pop_back_unused();
                proof {
                    lemma_trimmed_len_bounds(n - 1, old(self).dead());
                    assert(final(self).slots() =~= old(self).slots().take(
                        trimmed_len(n - 1, old(self).dead()),
                    ));
                    lemma_restrict_card(
                        old(self).dead(),
                        trimmed_len(n - 1, old(self).dead()),
                        n - 1,
                    );
                }
                Some((id, element))
            },
        }
    }

    /// Remove the element which is the least work to remove - the one with
    /// the highest id - and return it. Returns `None` on an empty container.
    pub fn pop_element(&mut self) -> (r: Option<T>)
        requires
            old(self).wf(),
        ensures
            final(self).wf(),
            old(self).slots().len() == 0 ==> r is None && final(self).slots() == old(
                self,
            ).slots() && final(self).dead() == old(self).dead(),
            old(self).slots().len() > 0 ==> {
                let n = old(self).slots().len() as int;
                &&& r == Some(old(self).slots().last())
                &&& final(self).slots() == old(self).slots().take(
                    trimmed_len(n - 1, old(self).dead()),
                )
                &&& final(self).dead() == restrict_below(
                    old(self).dead(),
                    trimmed_len(n - 1, old(self).dead()),
                )
                &&& final(self).spec_len() == old(self).spec_len() - 1
            },
    {
        match self.pop() {
            Some((_, element)) => Some(element),
            None => None,
        }
    }
}

/// Relies on std's `Vec::shrink_to_fit`: it only releases excess capacity and
/// never changes the contents.
#[verifier::external_body]
fn shrink_vec<T>(v: &mut Vec<T>)
    ensures
        final(v)@ == old(v)@,
{
    v.shrink_to_fit()
}

/// Relies on std's `HashSet::shrink_to_fit`: it only releases excess capacity
/// and never changes the contents.
#[verifier::external_body]
pub(crate) fn shrink_index_set(s: &mut HashSet<Index>)
    ensures
        final(s)@ == old(s)@,
{
    s.shrink_to_fit()
}

/// Relies on std's `HashSet::iter` and `Iterator::next`: the iterator yields
/// exactly the members of the set, in no guaranteed order, so the first item
/// is a member, and there is one if and only if the set is non-empty.
#[verifier::external_body]
fn pick_index(s: &HashSet<Index>) -> (r: Option<Index>)
    ensures
        match r {
            Some(i) => s@.contains(i),
            None => s@.is_empty(),
        },
{
    s.iter().next().copied()
}

/// Relies on std's slice `swap`: for in-range positions it exchanges the two
/// elements and leaves every other element unchanged.
#[verifier::external_body]
fn swap_in_vec<T>(v: &mut Vec<T>, a: usize, b: usize)
    requires
        (a as int) < old(v)@.len(),
        (b as int) < old(v)@.len(),
    ensures
        final(v)@ == old(v)@.update(a as int, old(v)@[b as int]).update(
            b as int,
            old(v)@[a as int],
        ),
{
    v.swap(a, b);
}

impl<T> IdVec<T> {
    /// The alive indices of this container, in ascending order.
    pub open spec fn live_ids(&self) -> Seq<Index> {
        live_ids_between(self.dead(), 0, self.slots().len() as int)
    }

    /// The alive elements of this container, in ascending index order.
    pub open spec fn live_elems(&self) -> Seq<T> {
        Seq::new(self.live_ids().len(), |k: int| self.slots()[self.live_ids()[k] as int])
    }

    /// What a lookup of index `i` observes: the element when the slot is
    /// alive, nothing otherwise.
    pub open spec fn spec_get(&self, i: Index) -> Option<T> {
        if self.is_alive(i) {
            Some(self.slots()[i as int])
        } else {
            None
        }
    }

    /// How one `insert` of `v` returning `h` changes the container: either a
    /// dead slot is revived and overwritten, or - when no dead slot exists -
    /// the element is appended at the end.
    pub open spec fn inserted(pre: Self, post: Self, h: Id<T>, v: T) -> bool {
        if pre.dead().is_empty() {
            &&& h@ as int == pre.slots().len()
            &&& post.slots() == pre.slots().push(v)
            &&& post.dead() == pre.dead()
        } else {
            &&& pre.dead().contains(h@)
            &&& post.slots() == pre.slots().update(h@ as int, v)
            &&& post.dead() == pre.dead().remove(h@)
        }
    }

    /// Associate the specified element with a currently unused id: if any dead
    /// slot exists, one of them (in no guaranteed order) is revived and
    /// overwritten - dropping the unused element it held - and otherwise the
    /// element is appended as a new slot at the end. The returned id is
    /// immediately valid.
    pub fn insert(&mut self, element: T) -> (r: Id<T>)
        requires
            old(self).wf(),
        ensures
            final(self).wf(),
            final(self).is_alive(r@),
            final(self).slots()[r@ as int] == element,
            final(self).spec_len() == old(self).spec_len() + 1,
            Self::inserted(*old(self), *final(self), r, element),
    {
        let reused: Option<Index> = pick_index(&self.unused_indices);
        match reused {
            Some(previously_unused_index) => {
                proof {
                    assert(self.dead().contains(previously_unused_index));
                }
                self.unused_indices.remove(&previously_unused_index);
                self.elements[previously_unused_index] = element;
                Id::from_index(previously_unused_index)
            },
            None => {
                proof {
                    assert(self.dead() =~= Set::empty());
                }
                self.elements.push(element);
                Id::from_index(self.elements.len() - 1)
            },
        }
    }

    /// Exchange the elements that the two ids point to, in place. Both ids
    /// must be valid.
    pub fn swap_elements(&mut self, id1: Id<T>, id2: Id<T>)
        requires
            old(self).wf(),
            old(self).is_alive(id1@),
            old(self).is_alive(id2@),
        ensures
            final(self).wf(),
            final(self).dead() == old(self).dead(),
            final(self).slots() == old(self).slots().update(
                id1@ as int,
                old(self).slots()[id2@ as int],
            ).update(id2@ as int, old(self).slots()[id1@ as int]),
    {
        swap_in_vec(&mut self.elements, id1.index_value(), id2.index_value());
    }

    /// Release excess backing capacity in both the element vector and the
    /// dead-index set. Contents and id validity are unchanged.
    pub fn shrink_to_fit(&mut self)
        requires
            old(self).wf(),
        ensures
            final(self).wf(),
            final(self).slots() == old(self).slots(),
            final(self).dead() == old(self).dead(),
    {
        shrink_vec(&mut self.elements);
        shrink_index_set(&mut self.unused_indices);
    }
}

/// How one `pop` (or a removal of the last slot) changes the alive ids and
/// elements: the highest alive id disappears and everything else is kept, in
/// order, even though dead slots at the tail are trimmed away.
proof fn lemma_pop_live<T>(pre: IdVec<T>, post: IdVec<T>)
    requires
        pre.wf(),
        0 < pre.slots().len() <= usize::MAX as nat,
        post.slots() == pre.slots().take(trimmed_len(pre.slots().len() - 1, pre.dead())),
        post.dead() == restrict_below(
            pre.dead(),
            trimmed_len(pre.slots().len() - 1, pre.dead()),
        ),
    ensures
        pre.live_ids() == post.live_ids().push((pre.slots().len() - 1) as Index),
        pre.live_elems() == post.live_elems().push(pre.slots().last()),
{
    let n = pre.slots().len() as int;
    let d = pre.dead();
    let t = trimmed_len(n - 1, d);
    lemma_trimmed_len_bounds(n - 1, d);
    lemma_between_truncate(d, 0, t, n - 1);
    lemma_between_congruent(post.dead(), d, 0, t);
    assert(pre.live_ids() == live_ids_between(d, 0, n - 1).push((n - 1) as Index));
    assert(post.live_ids() == live_ids_between(d, 0, n - 1));
    lemma_between_members(d, 0, n - 1);
    let ids = live_ids_between(d, 0, n - 1);
    assert forall|k: int| 0 <= k < ids.len() implies post.live_elems()[k] == pre.live_elems()[k] by {
        let i = ids[k];
        assert(!d.contains(i) && (i as int) < n - 1);
        if (i as int) >= t {
            assert(d.contains((i as int) as Index));
            assert((i as int) as Index == i);
            assert(false);
        }
        assert(post.slots()[i as int] == pre.slots()[i as int]);
    }
    assert(pre.live_elems() =~= post.live_elems().push(pre.slots().last()));
}

/// The elements a sequence of slots holds at the given indices.
spec fn elems_of<T>(s: Seq<T>, ids: Seq<Index>) -> Seq<T> {
    Seq::new(ids.len(), |k: int| s[ids[k] as int])
}

/// Reviving one dead index adds exactly the element it holds to the alive
/// elements, as a multiset.
proof fn lemma_unmark_multiset<T>(s: Seq<T>, d: Set<Index>, u: Index, hi: int)
    requires
        0 <= (u as int) && (u as int) < hi,
        hi <= s.len() <= usize::MAX as nat,
        d.contains(u),
    ensures
        elems_of(s, live_ids_between(d.remove(u), 0, hi)).to_multiset() == elems_of(
            s,
            live_ids_between(d, 0, hi),
        ).to_multiset().insert(s[u as int]),
    decreases hi,
{
    broadcast use vstd::seq_lib::group_to_multiset_ensures;

    let d2 = d.remove(u);
    if hi == u as int + 1 {
        lemma_between_congruent(d2, d, 0, u as int);
        assert(live_ids_between(d2, 0, hi) == live_ids_between(d, 0, u as int).push(u));
        assert(live_ids_between(d, 0, hi) == live_ids_between(d, 0, u as int));
        let base = live_ids_between(d, 0, u as int);
        assert(elems_of(s, base.push(u)) =~= elems_of(s, base).push(s[u as int]));
    } else {
        lemma_unmark_multiset(s, d, u, hi - 1);
        if !d.contains((hi - 1) as Index) {
            let p2 = live_ids_between(d2, 0, hi - 1);
            let p = live_ids_between(d, 0, hi - 1);
            assert(elems_of(s, p2.push((hi - 1) as Index)) =~= elems_of(s, p2).push(
                s[hi - 1],
            ));
            assert(elems_of(s, p.push((hi - 1) as Index)) =~= elems_of(s, p).push(s[hi - 1]));
            assert(elems_of(s, live_ids_between(d2, 0, hi)).to_multiset() =~= elems_of(
                s,
                live_ids_between(d, 0, hi),
            ).to_multiset().insert(s[u as int]));
        }
    }
}

/// Trimming the dead tail changes neither the alive ids nor the alive
/// elements.
proof fn lemma_trim_live<T>(pre: IdVec<T>, post: IdVec<T>)
    requires
        forall|i: Index| #[trigger]
            pre.dead().contains(i) ==> (i as int) < pre.slots().len(),
        pre.slots().len() <= usize::MAX as nat,
        post.slots() == pre.slots().take(trimmed_len(pre.slots().len() as int, pre.dead())),
        post.dead() == restrict_below(
            pre.dead(),
            trimmed_len(pre.slots().len() as int, pre.dead()),
        ),
    ensures
        post.live_ids() == pre.live_ids(),
        post.live_elems() == pre.live_elems(),
{
    let n = pre.slots().len() as int;
    let d = pre.dead();
    let t = trimmed_len(n, d);
    lemma_trimmed_len_bounds(n, d);
    lemma_between_truncate(d, 0, t, n);
    lemma_between_congruent(post.dead(), d, 0, t);
    assert(post.live_ids() == pre.live_ids());
    lemma_between_members(d, 0, t);
    let ids = live_ids_between(d, 0, t);
    assert forall|k: int| 0 <= k < ids.len() implies post.live_elems()[k]
        == pre.live_elems()[k] by {
        let i = ids[k];
        assert(0 <= (i as int) < t && !d.contains(i));
        assert(post.slots()[i as int] == pre.slots()[i as int]);
    }
    assert(post.live_elems() =~= pre.live_elems());
}

/// A range with no dead index inside yields every index of the range.
proof fn lemma_between_all_alive(d: Set<Index>, hi: int)
    requires
        0 <= hi <= usize::MAX as int + 1,
        forall|i: Index| (i as int) < hi ==> !d.contains(i),
    ensures
        live_ids_between(d, 0, hi).len() == hi,
        forall|k: int| 0 <= k < hi ==> (#[trigger] live_ids_between(d, 0, hi)[k]) as int == k,
    decreases hi,
{
    if hi > 0 {
        lemma_between_all_alive(d, hi - 1);
    }
}

/// Law: in a packed container - one with no dead slot at all, as `pack`
/// leaves it - the alive elements are exactly the backing slots, in order.
pub proof fn lemma_packed_live<T>(v: IdVec<T>)
    requires
        v.dead().is_empty(),
        v.slots().len() <= usize::MAX as nat,
    ensures
        v.live_elems() == v.slots(),
{
    lemma_between_all_alive(v.dead(), v.slots().len() as int);
    assert(v.live_elems() =~= v.slots());
}

/// Law: the count of alive elements always equals the number of alive slots.
/// `len` reports `slots - dead entries`; this shows that the same number is
/// the length of the ascending list of alive ids (and of alive elements).
pub proof fn lemma_len_is_alive_count<T>(v: IdVec<T>)
    requires
        v.wf(),
        v.slots().len() <= usize::MAX as nat,
    ensures
        v.spec_len() == v.live_ids().len(),
        v.spec_len() == v.live_elems().len(),
{
    let n = v.slots().len() as int;
    lemma_between_count(v.dead(), 0, n);
    assert(Set::new(|i: Index| v.dead().contains(i) && 0 <= (i as int) < n) =~= v.dead());
}

/// Law: insert-then-get round trip. The id that an insert returns addresses
/// the inserted value: looking it up observes exactly that value.
pub proof fn lemma_insert_then_get<T>(pre: IdVec<T>, post: IdVec<T>, h: Id<T>, v: T)
    requires
        pre.wf(),
        IdVec::inserted(pre, post, h, v),
    ensures
        post.spec_get(h@) == Some(v),
{
}

impl<T> IdVec<T> {
    /// Retain only the elements the predicate approves: every alive slot
    /// whose (id, element) pair the predicate rejects is tombstoned, in
    /// ascending index order, each alive element seen exactly once; then any
    /// dead slots exposed at the tail are trimmed away. Relative order of the
    /// kept elements is unchanged.
    pub fn retain<F: Fn(Id<T>, &T) -> bool>(&mut self, predicate: F)
        requires
            old(self).wf(),
            forall|id: Id<T>|
                old(self).is_alive(id@) ==> call_requires(
                    predicate,
                    (id, &old(self).slots()[id@ as int]),
                ),
        ensures
            final(self).wf(),
            final(self).slots().len() <= old(self).slots().len(),
            forall|i: int|
                0 <= i < final(self).slots().len() ==> final(self).slots()[i] == old(
                    self,
                ).slots()[i],
            forall|i: Index| #[trigger] final(self).is_alive(i) ==> old(self).is_alive(i),
            forall|id: Id<T>|
                final(self).is_alive(id@) ==> call_ensures(
                    predicate,
                    (id, &old(self).slots()[id@ as int]),
                    true,
                ),
            forall|id: Id<T>|
                old(self).is_alive(id@) && !final(self).is_alive(id@) ==> call_ensures(
                    predicate,
                    (id, &old(self).slots()[id@ as int]),
                    false,
                ),
    {
        let ghost s0 = old(self).slots();
        let ghost d0 = old(self).dead();
        let n = self.elements.len();
        let mut index: usize = 0;
        while index < n
            invariant
                self.slots() == s0,
                n == s0.len(),
                index <= n,
                self.dead().finite(),
                forall|i: Index| #[trigger] self.dead().contains(i) ==> (i as int) < n,
                forall|i: Index| d0.contains(i) ==> #[trigger] self.dead().contains(i),
                forall|i: Index| #[trigger]
                    self.dead().contains(i) ==> d0.contains(i) || (i as int) < index,
                forall|id: Id<T>|
                    old(self).is_alive(id@) ==> call_requires(
                        predicate,
                        (id, &s0[id@ as int]),
                    ),
                forall|id: Id<T>|
                    (id@ as int) < index && !d0.contains(id@) && !self.dead().contains(id@)
                        ==> call_ensures(predicate, (id, &s0[id@ as int]), true),
                forall|id: Id<T>|
                    (id@ as int) < index && !d0.contains(id@) && self.dead().contains(id@)
                        ==> call_ensures(predicate, (id, &s0[id@ as int]), false),
                old(self).slots() == s0,
                old(self).dead() == d0,
            decreases n - index,
        {
            let id = Id::from_index(index);
            if !self.unused_indices.contains(&index) {
                let keep = predicate(id, &self.elements[index]);
                if !keep {
                    self.unused_indices.insert(index);
                }
            }
            index += 1;
        }
        let ghost d_mid = self.dead();
        self.pop_back_unused();
        proof {
            let t = trimmed_len(n as int, d_mid);
            lemma_trimmed_len_bounds(n as int, d_mid);
            assert forall|id: Id<T>|
                old(self).is_alive(id@) && !final(self).is_alive(id@) implies call_ensures(
                predicate,
                (id, &s0[id@ as int]),
                false,
            ) by {
                let i = id@ as int;
                if i < t {
                    assert(final(self).dead().contains(id@));
                    assert(d_mid.contains(id@));
                } else {
                    assert(d_mid.contains((i as Index)));
                }
            }
        }
    }

    /// Eliminate every dead slot by moving the current last element into an
    /// arbitrary dead slot, trimming the tail, and telling the caller about
    /// each relocation through `remap(old_id, new_id)` - where `new_id` was a
    /// known dead slot and `old_id` a higher slot - until none is left. The
    /// count of elements is unchanged and the surviving elements are exactly
    /// the previously alive ones, but their relative order is not preserved.
    pub fn pack<F: Fn(Id<T>, Id<T>)>(&mut self, remap: F)
        requires
            old(self).wf(),
            forall|o: Id<T>, nw: Id<T>|
                old(self).dead().contains(nw@) && (nw@ as int) < (o@ as int) && (o@ as int)
                    < old(self).slots().len() ==> call_requires(remap, (o, nw)),
        ensures
            final(self).wf(),
            final(self).dead().is_empty(),
            final(self).spec_len() == old(self).spec_len(),
            final(self).slots().len() == old(self).spec_len(),
            final(self).slots().to_multiset() == old(self).live_elems().to_multiset(),
    {
        let ghost d_orig = old(self).dead();
        let ghost n_orig = old(self).slots().len() as int;
        let ghost m0 = old(self).live_elems().to_multiset();
        let ghost len0 = old(self).spec_len();
        loop
            invariant
                self.wf(),
                self.slots().len() <= n_orig,
                self.live_elems().to_multiset() == m0,
                self.spec_len() == len0,
                forall|i: Index| #[trigger] self.dead().contains(i) ==> d_orig.contains(i),
                forall|o: Id<T>, nw: Id<T>|
                    d_orig.contains(nw@) && (nw@ as int) < (o@ as int) && (o@ as int) < n_orig
                        ==> call_requires(remap, (o, nw)),
            ensures
                self.wf(),
                self.dead().is_empty(),
                self.live_elems().to_multiset() == m0,
                self.spec_len() == len0,
            decreases self.dead().len(),
        {
            broadcast use vstd::seq_lib::group_to_multiset_ensures;

            let u = match pick_index(&self.unused_indices) {
                Some(u) => u,
                None => {
                    break;
                },
            };
            let ghost pre = *self;
            proof {
                assert(pre.dead().contains(u));
                assert((u as int) < pre.slots().len());
            }
            let last = self.elements.len() - 1;
            let moved = self.elements.pop().unwrap();
            self.elements[u] = moved;
            self.unused_indices.remove(&u);
            remap(Id::from_index(last), Id::from_index(u));
            let ghost mid = *self;
            proof {
                let n = pre.slots().len() as int;
                let d = pre.dead();
                let ids = live_ids_between(d, 0, n - 1);
                assert(pre.live_ids() == ids.push((n - 1) as Index));
                lemma_between_members(d, 0, n - 1);
                assert(mid.dead() == d.remove(u));
                assert(mid.slots() == pre.slots().take(n - 1).update(u as int, moved));
                // The elements at the still-alive ids are unchanged by popping
                // the last slot and overwriting the dead slot `u`.
                assert forall|k: int| 0 <= k < ids.len() implies elems_of(mid.slots(), ids)[k]
                    == pre.live_elems()[k] by {
                    let i = ids[k];
                    assert(0 <= (i as int) < n - 1 && !d.contains(i));
                    assert(i != u);
                    assert(mid.slots()[i as int] == pre.slots()[i as int]);
                }
                // The moved element was the last alive element.
                assert(pre.live_elems() =~= elems_of(mid.slots(), ids).push(moved));
                assert(pre.live_elems().to_multiset() == elems_of(
                    mid.slots(),
                    ids,
                ).to_multiset().insert(moved));
                // Reviving `u` adds the moved element back.
                lemma_unmark_multiset(mid.slots(), d, u, n - 1);
                assert(mid.live_ids() == live_ids_between(d.remove(u), 0, n - 1));
                assert(mid.live_elems() =~= elems_of(
                    mid.slots(),
                    live_ids_between(d.remove(u), 0, n - 1),
                ));
                assert(mid.slots()[u as int] == moved);
                assert(mid.live_elems().to_multiset() == pre.live_elems().to_multiset());
                // The invariant's weak shape of well-formedness holds of `mid`.
                assert forall|i: Index| #[trigger]
                    mid.dead().contains(i) implies (i as int) < mid.slots().len() by {
                    assert(d.contains(i) && i != u);
                    assert((i as int) != n - 1);
                }
            }
            self.pop_back_unused();
            proof {
                let t = trimmed_len(mid.slots().len() as int, mid.dead());
                lemma_trim_live(mid, *self);
                lemma_trimmed_len_bounds(mid.slots().len() as int, mid.dead());
                lemma_restrict_card(mid.dead(), t, mid.slots().len() as int);
                assert(restrict_below(mid.dead(), t) <= mid.dead());
                lemma_len_subset(self.dead(), mid.dead());
            }
        }
        proof {
            assert(self.dead() =~= Set::empty());
        }
        self.shrink_to_fit();
        let packed_len = self.elements.len();
        proof {
            assert(final(self).slots().len() == packed_len);
            lemma_packed_live(*final(self));
        }
    }
}

/// Used for immutable access to ids and elements: a double-ended cursor over
/// the slots that yields only the alive ones.
pub struct Iter<'s, T> {
    inclusive_front_index: Index,
    exclusive_back_index: Index,
    storage: &'s IdVec<T>,
}

impl<'s, T> Iter<'s, T> {
    pub closed spec fn wf(&self) -> bool {
        &&& self.storage.wf()
        &&& self.inclusive_front_index <= self.exclusive_back_index
        &&& self.exclusive_back_index as int <= self.storage.slots().len()
    }

    /// The container this cursor walks.
    pub closed spec fn storage_spec(&self) -> IdVec<T> {
        *self.storage
    }

    /// The alive ids this cursor has not yielded yet, in ascending order.
    pub closed spec fn remaining(&self) -> Seq<Index> {
        live_ids_between(
            self.storage.dead(),
            self.inclusive_front_index as int,
            self.exclusive_back_index as int,
        )
    }

    /// The raw width of the cursor, dead slots included.
    pub closed spec fn span(&self) -> int {
        self.exclusive_back_index - self.inclusive_front_index
    }

    /// Yield the next alive (id, element) pair from the front.
    pub fn next(&mut self) -> (r: Option<(Id<T>, &'s T)>)
        requires
            old(self).wf(),
        ensures
            final(self).wf(),
            final(self).storage_spec() == old(self).storage_spec(),
            old(self).remaining().len() == 0 ==> r is None && final(self).remaining() == old(
                self,
            ).remaining(),
            old(self).remaining().len() > 0 ==> {
                &&& r is Some
                &&& r.unwrap().0@ == old(self).remaining()[0]
                &&& *r.unwrap().1 == old(self).storage_spec().slots()[old(
                    self,
                ).remaining()[0] as int]
                &&& final(self).remaining() == old(self).remaining().drop_first()
            },
    {
        let ghost st0 = *self.storage;
        let ghost r0 = self.remaining();
        let back = self.exclusive_back_index;
        loop
            invariant
                self.wf(),
                *self.storage == st0,
                self.exclusive_back_index == back,
                self.remaining() == r0,
            ensures
                self.wf(),
                *self.storage == st0,
                self.exclusive_back_index == back,
                self.remaining() == r0,
                self.inclusive_front_index == back || !st0.dead().contains(
                    self.inclusive_front_index,
                ),
            decreases back - self.inclusive_front_index,
        {
            let f = self.inclusive_front_index;
            if f == back {
                break;
            }
            if !self.storage.unused_indices.contains(&f) {
                break;
            }
            proof {
                lemma_between_skip_dead(st0.dead(), f as int, back as int);
            }
            self.inclusive_front_index = f + 1;
        }
        let f = self.inclusive_front_index;
        if f < back {
            proof {
                lemma_between_alive_front(st0.dead(), f as int, back as int);
            }
            self.inclusive_front_index = f + 1;
            let element = &self.storage.elements[f];
            Some((Id::from_index(f), element))
        } else {
            None
        }
    }

    /// Yield the next alive (id, element) pair from the back.
    pub fn next_back(&mut self) -> (r: Option<(Id<T>, &'s T)>)
        requires
            old(self).wf(),
        ensures
            final(self).wf(),
            final(self).storage_spec() == old(self).storage_spec(),
            old(self).remaining().len() == 0 ==> r is None && final(self).remaining() == old(
                self,
            ).remaining(),
            old(self).remaining().len() > 0 ==> {
                &&& r is Some
                &&& r.unwrap().0@ == old(self).remaining().last()
                &&& *r.unwrap().1 == old(self).storage_spec().slots()[old(
                    self,
                ).remaining().last() as int]
                &&& final(self).remaining() == old(self).remaining().drop_last()
            },
    {
        let ghost st0 = *self.storage;
        let ghost r0 = self.remaining();
        let front = self.inclusive_front_index;
        loop
            invariant
                self.wf(),
                *self.storage == st0,
                self.inclusive_front_index == front,
                self.remaining() == r0,
            ensures
                self.wf(),
                *self.storage == st0,
                self.inclusive_front_index == front,
                self.remaining() == r0,
                self.exclusive_back_index == front || !st0.dead().contains(
                    (self.exclusive_back_index - 1) as Index,
                ),
            decreases self.exclusive_back_index - front,
        {
            let b = self.exclusive_back_index;
            if b == front {
                break;
            }
            if !self.storage.unused_indices.contains(&(b - 1)) {
                break;
            }
            self.exclusive_back_index = b - 1;
        }
        let b = self.exclusive_back_index;
        if b > front {
            self.exclusive_back_index = b - 1;
            let element = &self.storage.elements[b - 1];
            Some((Id::from_index(b - 1), element))
        } else {
            None
        }
    }

    /// The lower bound is the raw span minus all dead slots (a safe
    /// underestimate); the upper bound is the raw span of the cursor.
    pub fn size_hint(&self) -> (r: (usize, Option<usize>))
        requires
            self.wf(),
        ensures
            r.1 == Some(self.span() as usize),
            r.0 == if self.storage_spec().dead().len() <= self.span() {
                self.span() - self.storage_spec().dead().len()
            } else {
                0
            },
            r.0 <= self.remaining().len() <= self.span(),
    {
        let max_remaining = self.exclusive_back_index - self.inclusive_front_index;
        let unused_elements = self.storage.unused_indices.len();
        let min_remaining = if unused_elements <= max_remaining {
            max_remaining - unused_elements
        } else {
            0
        };
        proof {
            let lo = self.inclusive_front_index as int;
            let hi = self.exclusive_back_index as int;
            let d = self.storage.dead();
            lemma_between_count(d, lo, hi);
            let inside = Set::new(|i: Index| d.contains(i) && lo <= (i as int) < hi);
            lemma_len_subset(inside, d);
        }
        (min_remaining, Some(max_remaining))
    }
}

/// Used for immutable direct access to all alive elements.
pub struct ElementIter<'s, T> {
    iter: Iter<'s, T>,
}

impl<'s, T> ElementIter<'s, T> {
    pub closed spec fn wf(&self) -> bool {
        self.iter.wf()
    }

    pub closed spec fn storage_spec(&self) -> IdVec<T> {
        self.iter.storage_spec()
    }

    /// The alive ids whose elements this cursor has not yielded yet.
    pub closed spec fn remaining(&self) -> Seq<Index> {
        self.iter.remaining()
    }

    /// The raw width of the underlying cursor, dead slots included.
    pub closed spec fn span(&self) -> int {
        self.iter.span()
    }

    pub fn next(&mut self) -> (r: Option<&'s T>)
        requires
            old(self).wf(),
        ensures
            final(self).wf(),
            final(self).storage_spec() == old(self).storage_spec(),
            old(self).remaining().len() == 0 ==> r is None && final(self).remaining() == old(
                self,
            ).remaining(),
            old(self).remaining().len() > 0 ==> {
                &&& r is Some
                &&& *r.unwrap() == old(self).storage_spec().slots()[old(
                    self,
                ).remaining()[0] as int]
                &&& final(self).remaining() == old(self).remaining().drop_first()
            },
    {
        match self.iter.next() {
            Some((_, element)) => Some(element),
            None => None,
        }
    }

    pub fn next_back(&mut self) -> (r: Option<&'s T>)
        requires
            old(self).wf(),
        ensures
            final(self).wf(),
            final(self).storage_spec() == old(self).storage_spec(),
            old(self).remaining().len() == 0 ==> r is None && final(self).remaining() == old(
                self,
            ).remaining(),
            old(self).remaining().len() > 0 ==> {
                &&& r is Some
                &&& *r.unwrap() == old(self).storage_spec().slots()[old(
                    self,
                ).remaining().last() as int]
                &&& final(self).remaining() == old(self).remaining().drop_last()
            },
    {
        match self.iter.next_back() {
            Some((_, element)) => Some(element),
            None => None,
        }
    }

    pub fn size_hint(&self) -> (r: (usize, Option<usize>))
        requires
            self.wf(),
        ensures
            r.1 == Some(self.span() as usize),
            r.0 == if self.storage_spec().dead().len() <= self.span() {
                self.span() - self.storage_spec().dead().len()
            } else {
                0
            },
            r.0 <= self.remaining().len() <= self.span(),
    {
        self.iter.size_hint()
    }
}

/// Used for immutable indirect access: yields only the alive ids.
pub struct IdIter<'s, T> {
    iter: Iter<'s, T>,
}

impl<'s, T> IdIter<'s, T> {
    pub closed spec fn wf(&self) -> bool {
        self.iter.wf()
    }

    pub closed spec fn storage_spec(&self) -> IdVec<T> {
        self.iter.storage_spec()
    }

    /// The alive ids this cursor has not yielded yet, in ascending order.
    pub closed spec fn remaining(&self) -> Seq<Index> {
        self.iter.remaining()
    }

    /// The raw width of the underlying cursor, dead slots included.
    pub closed spec fn span(&self) -> int {
        self.iter.span()
    }

    pub fn next(&mut self) -> (r: Option<Id<T>>)
        requires
            old(self).wf(),
        ensures
            final(self).wf(),
            final(self).storage_spec() == old(self).storage_spec(),
            old(self).remaining().len() == 0 ==> r is None && final(self).remaining() == old(
                self,
            ).remaining(),
            old(self).remaining().len() > 0 ==> {
                &&& r is Some
                &&& r.unwrap()@ == old(self).remaining()[0]
                &&& final(self).remaining() == old(self).remaining().drop_first()
            },
    {
        match self.iter.next() {
            Some((id, _)) => Some(id),
            None => None,
        }
    }

    pub fn next_back(&mut self) -> (r: Option<Id<T>>)
        requires
            old(self).wf(),
        ensures
            final(self).wf(),
            final(self).storage_spec() == old(self).storage_spec(),
            old(self).remaining().len() == 0 ==> r is None && final(self).remaining() == old(
                self,
            ).remaining(),
            old(self).remaining().len() > 0 ==> {
                &&& r is Some
                &&& r.unwrap()@ == old(self).remaining().last()
                &&& final(self).remaining() == old(self).remaining().drop_last()
            },
    {
        match self.iter.next_back() {
            Some((id, _)) => Some(id),
            None => None,
        }
    }

    pub fn size_hint(&self) -> (r: (usize, Option<usize>))
        requires
            self.wf(),
        ensures
            r.1 == Some(self.span() as usize),
            r.0 == if self.storage_spec().dead().len() <= self.span() {
                self.span() - self.storage_spec().dead().len()
            } else {
                0
            },
            r.0 <= self.remaining().len() <= self.span(),
    {
        self.iter.size_hint()
    }
}

/// Used for full mutable access while still inserting and deleting: the
/// iterator keeps an independent snapshot of the dead-index set, in order to
/// un-borrow the underlying container. This may be more expensive than
/// `iter`, because it needs to clone the internal set of unused ids.
pub struct OwnedIdIter<T> {
    inclusive_front_index: Index,
    exclusive_back_index: Index,
    unused_ids: HashSet<Index>,
    marker: core::marker::PhantomData<T>,
}

impl<T> OwnedIdIter<T> {
    pub closed spec fn wf(&self) -> bool {
        &&& self.unused_ids@.finite()
        &&& self.inclusive_front_index <= self.exclusive_back_index
    }

    /// The snapshot of the dead-index set taken at creation time.
    pub closed spec fn dead_snapshot(&self) -> Set<Index> {
        self.unused_ids@
    }

    /// The ids this cursor has not yielded yet: all indices inside the cursor
    /// that were alive when the snapshot was taken, in ascending order.
    pub closed spec fn remaining(&self) -> Seq<Index> {
        live_ids_between(
            self.unused_ids@,
            self.inclusive_front_index as int,
            self.exclusive_back_index as int,
        )
    }

    /// The raw width of the cursor, dead slots included.
    pub closed spec fn span(&self) -> int {
        self.exclusive_back_index - self.inclusive_front_index
    }

    /// Yield the next snapshot-alive id from the front.
    pub fn next(&mut self) -> (r: Option<Id<T>>)
        requires
            old(self).wf(),
        ensures
            final(self).wf(),
            final(self).dead_snapshot() == old(self).dead_snapshot(),
            old(self).remaining().len() == 0 ==> r is None && final(self).remaining() == old(
                self,
            ).remaining(),
            old(self).remaining().len() > 0 ==> {
                &&& r is Some
                &&& r.unwrap()@ == old(self).remaining()[0]
                &&& final(self).remaining() == old(self).remaining().drop_first()
            },
    {
        let ghost d0 = self.unused_ids@;
        let ghost r0 = self.remaining();
        let back = self.exclusive_back_index;
        loop
            invariant
                self.wf(),
                self.unused_ids@ == d0,
                self.exclusive_back_index == back,
                self.remaining() == r0,
            ensures
                self.wf(),
                self.unused_ids@ == d0,
                self.exclusive_back_index == back,
                self.remaining() == r0,
                self.inclusive_front_index == back || !d0.contains(self.inclusive_front_index),
            decreases back - self.inclusive_front_index,
        {
            let f = self.inclusive_front_index;
            if f == back {
                break;
            }
            if !self.unused_ids.contains(&f) {
                break;
            }
            proof {
                lemma_between_skip_dead(d0, f as int, back as int);
            }
            self.inclusive_front_index = f + 1;
        }
        let f = self.inclusive_front_index;
        if f < back {
            proof {
                lemma_between_alive_front(d0, f as int, back as int);
            }
            self.inclusive_front_index = f + 1;
            Some(Id::from_index(f))
        } else {
            None
        }
    }

    /// Yield the next snapshot-alive id from the back.
    pub fn next_back(&mut self) -> (r: Option<Id<T>>)
        requires
            old(self).wf(),
        ensures
            final(self).wf(),
            final(self).dead_snapshot() == old(self).dead_snapshot(),
            old(self).remaining().len() == 0 ==> r is None && final(self).remaining() == old(
                self,
            ).remaining(),
            old(self).remaining().len() > 0 ==> {
                &&& r is Some
                &&& r.unwrap()@ == old(self).remaining().last()
                &&& final(self).remaining() == old(self).remaining().drop_last()
            },
    {
        let ghost d0 = self.unused_ids@;
        let ghost r0 = self.remaining();
        let front = self.inclusive_front_index;
        loop
            invariant
                self.wf(),
                self.unused_ids@ == d0,
                self.inclusive_front_index == front,
                self.remaining() == r0,
            ensures
                self.wf(),
                self.unused_ids@ == d0,
                self.inclusive_front_index == front,
                self.remaining() == r0,
                self.exclusive_back_index == front || !d0.contains(
                    (self.exclusive_back_index - 1) as Index,
                ),
            decreases self.exclusive_back_index - front,
        {
            let b = self.exclusive_back_index;
            if b == front {
                break;
            }
            if !self.unused_ids.contains(&(b - 1)) {
                break;
            }
            self.exclusive_back_index = b - 1;
        }
        let b = self.exclusive_back_index;
        if b > front {
            self.exclusive_back_index = b - 1;
            Some(Id::from_index(b - 1))
        } else {
            None
        }
    }

    /// The lower bound is the raw span minus all snapshot-dead slots (a safe
    /// underestimate); the upper bound is the raw span of the cursor.
    pub fn size_hint(&self) -> (r: (usize, Option<usize>))
        requires
            self.wf(),
        ensures
            r.1 == Some(self.span() as usize),
            r.0 == if self.dead_snapshot().len() <= self.span() {
                self.span() - self.dead_snapshot().len()
            } else {
                0
            },
            r.0 <= self.remaining().len() <= self.span(),
    {
        let max_remaining = self.exclusive_back_index - self.inclusive_front_index;
        let unused_elements = self.unused_ids.len();
        let min_remaining = if unused_elements <= max_remaining {
            max_remaining - unused_elements
        } else {
            0
        };
        proof {
            let lo = self.inclusive_front_index as int;
            let hi = self.exclusive_back_index as int;
            let d = self.unused_ids@;
            lemma_between_count(d, lo, hi);
            let inside = Set::new(|i: Index| d.contains(i) && lo <= (i as int) < hi);
            lemma_len_subset(inside, d);
        }
        (min_remaining, Some(max_remaining))
    }
}

/// Consuming iterator over the alive elements, in ascending index order. The
/// container is taken apart when the iterator is built.
pub struct IntoElements<T> {
    /// The alive elements still to be yielded, in reverse order, so that the
    /// next one can be popped off cheaply.
    remaining_rev: Vec<T>,
}

impl<T> IntoElements<T> {
    /// The alive elements this iterator has not yielded yet, in ascending
    /// original index order.
    pub closed spec fn remaining(&self) -> Seq<T> {
        self.remaining_rev@.reverse()
    }

    pub fn next(&mut self) -> (r: Option<T>)
        requires
        ensures
            old(self).remaining().len() == 0 ==> r is None && final(self).remaining() == old(
                self,
            ).remaining(),
            old(self).remaining().len() > 0 ==> {
                &&& r == Some(old(self).remaining()[0])
                &&& final(self).remaining() == old(self).remaining().drop_first()
            },
    {
        let r = self.remaining_rev.pop();
        proof {
            if old(self).remaining_rev@.len() > 0 {
                assert(old(self).remaining().len() > 0);
                assert(old(self).remaining()[0] == old(self).remaining_rev@.last());
                assert(final(self).remaining() =~= old(self).remaining().drop_first());
            } else {
                assert(final(self).remaining() =~= old(self).remaining());
            }
        }
        r
    }

    /// Both bounds are exact: the number of elements left to yield.
    pub fn size_hint(&self) -> (r: (usize, Option<usize>))
        ensures
            r.0 == self.remaining().len(),
            r.1 == Some((self.remaining().len() as usize)),
    {
        let n = self.remaining_rev.len();
        (n, Some(n))
    }
}

/// Draining iterator over the alive elements, in ascending index order. The
/// container is emptied when the iterator is built, so abandoning the
/// iterator early still leaves the container empty.
pub struct DrainElements<T> {
    /// The alive elements still to be yielded, in reverse order.
    remaining_rev: Vec<T>,
}

impl<T> DrainElements<T> {
    /// The alive elements this iterator has not yielded yet, in ascending
    /// original index order.
    pub closed spec fn remaining(&self) -> Seq<T> {
        self.remaining_rev@.reverse()
    }

    pub fn next(&mut self) -> (r: Option<T>)
        requires
        ensures
            old(self).remaining().len() == 0 ==> r is None && final(self).remaining() == old(
                self,
            ).remaining(),
            old(self).remaining().len() > 0 ==> {
                &&& r == Some(old(self).remaining()[0])
                &&& final(self).remaining() == old(self).remaining().drop_first()
            },
    {
        let r = self.remaining_rev.pop();
        proof {
            if old(self).remaining_rev@.len() > 0 {
                assert(old(self).remaining().len() > 0);
                assert(old(self).remaining()[0] == old(self).remaining_rev@.last());
                assert(final(self).remaining() =~= old(self).remaining().drop_first());
            } else {
                assert(final(self).remaining() =~= old(self).remaining());
            }
        }
        r
    }

    /// Both bounds are exact: the number of elements left to yield.
    pub fn size_hint(&self) -> (r: (usize, Option<usize>))
        ensures
            r.0 == self.remaining().len(),
            r.1 == Some((self.remaining().len() as usize)),
    {
        let n = self.remaining_rev.len();
        (n, Some(n))
    }
}

impl<T> IdVec<T> {
    /// Used for immutable access to ids and elements.
    pub fn iter<'s>(&'s self) -> (r: Iter<'s, T>)
        requires
            self.wf(),
        ensures
            r.wf(),
            r.storage_spec() == *self,
            r.remaining() == self.live_ids(),
            r.span() == self.slots().len(),
    {
        Iter { inclusive_front_index: 0, exclusive_back_index: self.elements.len(), storage: self }
    }

    /// Used for immutable direct access to all alive elements.
    pub fn elements<'s>(&'s self) -> (r: ElementIter<'s, T>)
        requires
            self.wf(),
        ensures
            r.wf(),
            r.storage_spec() == *self,
            r.remaining() == self.live_ids(),
            r.span() == self.slots().len(),
    {
        ElementIter { iter: self.iter() }
    }

    /// Used for immutable indirect access: yields the alive ids.
    pub fn ids<'s>(&'s self) -> (r: IdIter<'s, T>)
        requires
            self.wf(),
        ensures
            r.wf(),
            r.storage_spec() == *self,
            r.remaining() == self.live_ids(),
            r.span() == self.slots().len(),
    {
        IdIter { iter: self.iter() }
    }

    /// Used for full mutable access while allowing inserting and deleting
    /// during iteration: the iterator keeps an independent snapshot of the
    /// dead-index set, so the container is not borrowed while it is consumed.
    pub fn get_ids(&self) -> (r: OwnedIdIter<T>)
        requires
            self.wf(),
        ensures
            r.wf(),
            r.remaining() == self.live_ids(),
            r.span() == self.slots().len(),
            r.dead_snapshot() == self.dead(),
    {
        OwnedIdIter {
            inclusive_front_index: 0,
            exclusive_back_index: self.elements.len(),
            unused_ids: clone_index_set(&self.unused_indices),
            marker: core::marker::PhantomData,
        }
    }

    /// Turn the container into a consuming iterator over its alive elements,
    /// in ascending index order.
    pub fn into_elements(self) -> (r: IntoElements<T>)
        requires
            self.wf(),
        ensures
            r.remaining() == self.live_elems(),
    {
        let mut v = self;
        let ghost orig = v;
        let mut rev: Vec<T> = Vec::new();
        loop
            invariant
                v.wf(),
                orig.live_elems() == v.live_elems() + rev@.reverse(),
            ensures
                v.wf(),
                v.slots().len() == 0,
                orig.live_elems() == v.live_elems() + rev@.reverse(),
            decreases v.slots().len(),
        {
            let n = v.elements.len();
            if n == 0 {
                break;
            }
            let ghost pre = v;
            match v.pop() {
                Some((_, element)) => {
                    proof {
                        lemma_pop_live(pre, v);
                        assert(pre.live_elems().drop_last() == v.live_elems());
                        assert(orig.live_elems() =~= v.live_elems() + rev@.push(
                            element,
                        ).reverse());
                    }
                    rev.push(element);
                },
                None => {
                    break;
                },
            }
        }
        proof {
            assert(v.live_ids() =~= Seq::empty());
            assert(v.live_elems() =~= Seq::empty());
            assert(orig.live_elems() =~= rev@.reverse());
        }
        IntoElements { remaining_rev: rev }
    }

    /// Empty the container and hand back an iterator over the elements that
    /// were alive, in ascending index order. The container is empty as soon as
    /// this returns, so abandoning the iterator early leaves it empty too.
    pub fn drain_elements(&mut self) -> (r: DrainElements<T>)
        requires
            old(self).wf(),
        ensures
            final(self).wf(),
            final(self).slots() == Seq::<T>::empty(),
            final(self).dead() == Set::<Index>::empty(),
            final(self).spec_len() == 0,
            r.remaining() == old(self).live_elems(),
    {
        let ghost orig = *self;
        let mut rev: Vec<T> = Vec::new();
        loop
            invariant
                self.wf(),
                orig.live_elems() == self.live_elems() + rev@.reverse(),
            ensures
                self.wf(),
                self.slots().len() == 0,
                orig.live_elems() == self.live_elems() + rev@.reverse(),
            decreases self.slots().len(),
        {
            let n = self.elements.len();
            if n == 0 {
                break;
            }
            let ghost pre = *self;
            match self.pop() {
                Some((_, element)) => {
                    proof {
                        lemma_pop_live(pre, *self);
                        assert(pre.live_elems().drop_last() == self.live_elems());
                        assert(orig.live_elems() =~= self.live_elems() + rev@.push(
                            element,
                        ).reverse());
                    }
                    rev.push(element);
                },
                None => {
                    break;
                },
            }
        }
        proof {
            assert(self.live_ids() =~= Seq::empty());
            assert(self.live_elems() =~= Seq::empty());
            assert(orig.live_elems() =~= rev@.reverse());
            assert(self.dead() =~= Set::empty());
        }
        self.unused_indices.clear();
        DrainElements { remaining_rev: rev }
    }
}

impl<T: PartialEq> IdVec<T> {
    /// Find the id of the first (lowest-indexed) alive element that compares
    /// equal to the given one. Worst case complexity of O(n).
    pub fn find_id_of_element(&self, element: &T) -> (r: Option<Id<T>>)
        requires
            self.wf(),
        ensures
            T::obeys_eq_spec() ==> match r {
                Some(id) => {
                    &&& self.is_alive(id@)
                    &&& element.eq_spec(&self.slots()[id@ as int])
                    &&& forall|j: Index|
                        (j as int) < (id@ as int) && self.is_alive(j) ==> !element.eq_spec(
                            &self.slots()[j as int],
                        )
                },
                None => forall|j: Index|
                    self.is_alive(j) ==> !element.eq_spec(&self.slots()[j as int]),
            },
    {
        let n = self.elements.len();
        let mut index: usize = 0;
        while index < n
            invariant
                index <= n,
                n == self.slots().len(),
                self.wf(),
                T::obeys_eq_spec() ==> forall|j: Index|
                    (j as int) < index && self.is_alive(j) ==> !element.eq_spec(
                        &self.slots()[j as int],
                    ),
            decreases n - index,
        {
            if !self.unused_indices.contains(&index) {
                if element.eq(&self.elements[index]) {
                    return Some(Id::from_index(index));
                }
            }
            index += 1;
        }
        None
    }

    /// Whether some alive element compares equal to the given one. Worst case
    /// complexity of O(n).
    pub fn contains_element(&self, element: &T) -> (r: bool)
        requires
            self.wf(),
        ensures
            T::obeys_eq_spec() ==> (r <==> exists|j: Index|
                #[trigger] self.is_alive(j) && element.eq_spec(&self.slots()[j as int])),
    {
        let found = self.find_id_of_element(element);
        proof {
            if T::obeys_eq_spec() {
                if let Some(id) = found {
                    assert(self.is_alive(id@) && element.eq_spec(&self.slots()[id@ as int]));
                }
            }
        }
        found.is_some()
    }

    /// Compares whether the two containers hold, element for element, equal
    /// values at the same alive ids. Worst case complexity of O(n^2).
    pub fn elements_eq(&self, other: &Self) -> (r: bool)
        requires
            self.wf(),
            other.wf(),
        ensures
            T::obeys_eq_spec() ==> (r <==> {
                &&& self.spec_len() == other.spec_len()
                &&& forall|i: Index|
                    #[trigger] self.is_alive(i) ==> exists|j: Index|
                        #[trigger] other.is_alive(j) && self.slots()[i as int].eq_spec(
                            &other.slots()[j as int],
                        )
            }),
    {
        if self.len() != other.len() {
            return false;
        }
        let n = self.elements.len();
        let mut index: usize = 0;
        while index < n
            invariant
                index <= n,
                n == self.slots().len(),
                self.wf(),
                other.wf(),
                self.spec_len() == other.spec_len(),
                T::obeys_eq_spec() ==> forall|i: Index|
                    (i as int) < index && #[trigger] self.is_alive(i) ==> exists|j: Index|
                        #[trigger] other.is_alive(j) && self.slots()[i as int].eq_spec(
                            &other.slots()[j as int],
                        ),
            decreases n - index,
        {
            if !self.unused_indices.contains(&index) {
                if !other.contains_element(&self.elements[index]) {
                    proof {
                        if T::obeys_eq_spec() {
                            assert(self.is_alive(index));
                            assert(!exists|j: Index|
                                #[trigger] other.is_alive(j) && self.slots()[
                                    index as int
                                ].eq_spec(&other.slots()[j as int]));
                        }
                    }
                    return false;
                }
            }
            index += 1;
        }
        true
    }
}

impl<T> IdVec<T> {
    /// Compares whether the two containers have the same alive ids, ignoring
    /// the elements. Complexity of O(n).
    pub fn ids_eq(&self, other: &Self) -> (r: bool)
        requires
            self.wf(),
            other.wf(),
        ensures
            r <==> self.live_ids() == other.live_ids(),
    {
        let n1 = self.elements.len();
        let n2 = other.elements.len();
        let n = if n1 < n2 {
            n2
        } else {
            n1
        };
        let mut index: usize = 0;
        while index < n
            invariant
                index <= n,
                n1 == self.slots().len(),
                n2 == other.slots().len(),
                n == vstd::math::max(n1 as int, n2 as int),
                self.wf(),
                other.wf(),
                forall|i: Index|
                    (i as int) < index ==> (#[trigger] self.is_alive(i) <==> other.is_alive(i)),
            decreases n - index,
        {
            let id = Id::from_index(index);
            if self.contains_id(id) != other.contains_id(id) {
                proof {
                    lemma_between_members(self.dead(), 0, n1 as int);
                    lemma_between_members(other.dead(), 0, n2 as int);
                }
                return false;
            }
            index += 1;
        }
        proof {
            if n1 != n2 {
                if n1 < n2 {
                    assert(other.is_alive((n2 - 1) as Index));
                    assert(!self.is_alive((n2 - 1) as Index));
                } else {
                    assert(self.is_alive((n1 - 1) as Index));
                    assert(!other.is_alive((n1 - 1) as Index));
                }
                assert(false);
            }
            assert forall|i: Index|
                0 <= (i as int) < n1 implies (self.dead().contains(i) <==> other.dead().contains(
                i,
            )) by {
                assert(self.is_alive(i) <==> other.is_alive(i));
            }
            lemma_between_congruent(self.dead(), other.dead(), 0, n1 as int);
        }
        true
    }
}

/// What repeatedly taking the last item of a sequence yields, in the order
/// taken: the model of walking an iterator from the back.
pub open spec fn pulled_from_back<A>(s: Seq<A>) -> Seq<A>
    decreases s.len(),
{
    if s.len() == 0 {
        Seq::empty()
    } else {
        seq![s.last()] + pulled_from_back(s.drop_last())
    }
}

/// Law: bidirectional iteration symmetry. Consuming a cursor from the back,
/// one item at a time, yields exactly the reverse of consuming it from the
/// front; so for any container, the forward walk of the alive ids reversed
/// equals the backward walk.
pub proof fn lemma_bidirectional_symmetry<A>(s: Seq<A>)
    ensures
        pulled_from_back(s) == s.reverse(),
    decreases s.len(),
{
    if s.len() > 0 {
        lemma_bidirectional_symmetry(s.drop_last());
        assert(pulled_from_back(s) =~= s.reverse());
    }
}

impl<T> Default for IdVec<T> {
    fn default() -> (r: Self)
        ensures
            r.wf(),
            r.slots() == Seq::<T>::empty(),
            r.dead() == Set::<Index>::empty(),
    {
        Self::new()
    }
}

impl<T: PartialEq> vstd::std_specs::cmp::PartialEqSpecImpl for IdVec<T> {
    /// The contract below holds whenever the element type's own `==` agrees
    /// with mathematical equality.
    open spec fn obeys_eq_spec() -> bool {
        T::obeys_eq_spec() && forall|x: T, y: T| #[trigger] x.eq_spec(&y) <==> x == y
    }

    /// Equality means: the same alive ids pointing to the same elements,
    /// slot for slot; dead slots are invisible to the comparison.
    open spec fn eq_spec(&self, other: &Self) -> bool {
        forall|i: Index|
            (#[trigger] self.is_alive(i) <==> other.is_alive(i)) && (self.is_alive(i)
                ==> self.slots()[i as int] == other.slots()[i as int])
    }
}

/// Equality means: the same ids pointing to equal elements, ignoring deleted
/// elements. Complexity of O(n).
impl<T: PartialEq> PartialEq for IdVec<T> {
    fn eq(&self, other: &Self) -> (r: bool) {
        let n1 = self.elements.len();
        let n2 = other.elements.len();
        let n = if n1 < n2 {
            n2
        } else {
            n1
        };
        let mut index: usize = 0;
        while index < n
            invariant
                index <= n,
                n1 == self.slots().len(),
                n2 == other.slots().len(),
                n == vstd::math::max(n1 as int, n2 as int),
                forall|i: Index|
                    (i as int) < index ==> (#[trigger] self.is_alive(i) <==> other.is_alive(i)),
                T::obeys_eq_spec() ==> forall|i: Index|
                    (i as int) < index && #[trigger] self.is_alive(i) ==> self.slots()[
                        i as int
                    ].eq_spec(&other.slots()[i as int]),
            decreases n - index,
        {
            let alive_here = index < n1 && !self.unused_indices.contains(&index);
            let alive_there = index < n2 && !other.unused_indices.contains(&index);
            if alive_here != alive_there {
                proof {
                    assert(self.is_alive(index) != other.is_alive(index));
                }
                return false;
            }
            if alive_here {
                if !self.elements[index].eq(&other.elements[index]) {
                    proof {
                        if T::obeys_eq_spec() && (forall|x: T, y: T|
                            #[trigger] x.eq_spec(&y) <==> x == y) {
                            assert(self.is_alive(index));
                            assert(self.slots()[index as int].eq_spec(
                                &other.slots()[index as int],
                            ) <==> self.slots()[index as int] == other.slots()[index as int]);
                            assert(self.slots()[index as int] != other.slots()[index as int]);
                        }
                    }
                    return false;
                }
            }
            index += 1;
        }
        proof {
            assert forall|i: Index|
                (i as int) >= n implies (#[trigger] self.is_alive(i) <==> other.is_alive(
                i,
            )) by {}
        }
        true
    }
}

impl<T: Eq> Eq for IdVec<T> {}

impl<T: Clone> Clone for IdVec<T> {
    /// The clone has the same dead set and slot count; each slot holds a
    /// clone of the original slot's element.
    fn clone(&self) -> (r: Self)
        ensures
            r.dead() == self.dead(),
            r.slots().len() == self.slots().len(),
            forall|i: int|
                #![all_triggers]
                0 <= i < self.slots().len() ==> vstd::pervasive::cloned::<T>(
                    self.slots()[i],
                    r.slots()[i],
                ),
            self.wf() ==> r.wf(),
    {
        IdVec {
            elements: self.elements.clone(),
            unused_indices: clone_index_set(&self.unused_indices),
        }
    }
}

} // verus!
