use vstd::prelude::*;
use crate::id::Index;
use crate::element_marker::ElementMarker;

verus! {

/// bit_vec's bit vector, declared so values of it can flow through verified
/// code. It is opaque here; what it holds is named by `stored_bits`.
#[verifier::external_type_specification]
#[verifier::external_body]
#[verifier::reject_recursive_types(B)]
pub struct ExBitVec<B>(bit_vec::BitVec<B>);

/// The bits a `bit_vec::BitVec` holds, in order.
pub uninterp spec fn stored_bits(v: &bit_vec::BitVec) -> Seq<bool>;

/// Relies on bit_vec's `BitVec::with_capacity`: it creates an empty bit
/// vector; the argument only reserves capacity.
#[verifier::external_body]
fn bits_with_capacity(capacity: usize) -> (r: bit_vec::BitVec)
    ensures
        stored_bits(&r) == Seq::<bool>::empty(),
{
    bit_vec::BitVec::with_capacity(capacity)
}

/// Relies on bit_vec's `BitVec::len`: the number of bits held.
#[verifier::external_body]
fn bits_len(v: &bit_vec::BitVec) -> (r: usize)
    ensures
        r == stored_bits(v).len(),
{
    v.len()
}

/// Relies on bit_vec's `BitVec::get`: the bit at an in-range index, nothing
/// past the end.
#[verifier::external_body]
fn bits_get(v: &bit_vec::BitVec, i: usize) -> (r: Option<bool>)
    ensures
        r == if (i as int) < stored_bits(v).len() {
            Some(stored_bits(v)[i as int])
        } else {
            None::<bool>
        },
{
    v.get(i)
}

/// Relies on bit_vec's `BitVec::set`: it overwrites the bit at an in-range
/// index and leaves every other bit alone. It panics out of range, which the
/// precondition rules out.
#[verifier::external_body]
fn bits_set(v: &mut bit_vec::BitVec, i: usize, x: bool)
    requires
        (i as int) < stored_bits(old(v)).len(),
    ensures
        stored_bits(final(v)) == stored_bits(old(v)).update(i as int, x),
{
    v.set(i, x)
}

/// Relies on bit_vec's `BitVec::grow`: it appends `n` copies of the given
/// bit. It panics when the new length overflows `usize`, which the
/// precondition rules out.
#[verifier::external_body]
fn bits_grow(v: &mut bit_vec::BitVec, n: usize, value: bool)
    requires
        stored_bits(old(v)).len() + n <= usize::MAX as int,
    ensures
        stored_bits(final(v)) == stored_bits(old(v)) + Seq::new(n as nat, |k: int| value),
{
    v.grow(n, value)
}

/// Relies on bit_vec's `BitVec::truncate`: it keeps the first `len` bits and
/// drops the rest, and does nothing when `len` is not below the current
/// length.
#[verifier::external_body]
fn bits_truncate(v: &mut bit_vec::BitVec, len: usize)
    ensures
        stored_bits(final(v)) == stored_bits(old(v)).take(
            vstd::math::min(len as int, stored_bits(old(v)).len() as int),
        ),
{
    v.truncate(len)
}

/// Relies on bit_vec's `BitVec::reserve`: it only reserves capacity and never
/// changes the bits. It panics when length plus `additional` overflows
/// `usize`, which the precondition rules out.
#[verifier::external_body]
fn bits_reserve(v: &mut bit_vec::BitVec, additional: usize)
    requires
        stored_bits(old(v)).len() + additional <= usize::MAX as int,
    ensures
        stored_bits(final(v)) == stored_bits(old(v)),
{
    v.reserve(additional)
}

/// Relies on bit_vec's `BitVec::shrink_to_fit`: it only releases capacity and
/// never changes the bits.
#[verifier::external_body]
fn bits_shrink(v: &mut bit_vec::BitVec)
    ensures
        stored_bits(final(v)) == stored_bits(old(v)),
{
    v.shrink_to_fit()
}

/// Relies on bit_vec's `Clone` impl for `BitVec`: the clone holds the same
/// bits.
#[verifier::external_body]
fn bits_clone(v: &bit_vec::BitVec) -> (r: bit_vec::BitVec)
    ensures
        stored_bits(&r) == stored_bits(v),
{
    v.clone()
}

/// The unused indices a bitmap encodes: the in-range indices whose bit is
/// clear. An index past the end counts as used.
pub open spec fn cleared_ids(bits: Seq<bool>) -> Set<Index> {
    Set::new(|i: Index| (i as int) < bits.len() && !bits[i as int])
}

/// The set of cleared indices is finite and no larger than the bit count.
proof fn lemma_cleared_ids_card(bits: Seq<bool>)
    requires
        bits.len() <= usize::MAX as nat,
    ensures
        cleared_ids(bits).finite(),
        cleared_ids(bits).len() <= bits.len(),
    decreases bits.len(),
{
    if bits.len() == 0 {
        assert(cleared_ids(bits) =~= Set::empty());
    } else {
        lemma_cleared_ids_card(bits.drop_last());
        let prev = cleared_ids(bits.drop_last());
        if bits.last() {
            assert(cleared_ids(bits) =~= prev);
        } else {
            assert(cleared_ids(bits) =~= prev.insert((bits.len() - 1) as Index));
        }
    }
}

/// Keeps an internal bitmap of all used indices, which is optimized for
/// rather empty arenas with many deleted elements at the same time:
/// enumeration must scan the full tracked range.
pub struct BitVecElementMarker {
    used_indices: bit_vec::BitVec,
    unused_elements_len: usize,
}

impl ElementMarker for BitVecElementMarker {
    type UnusedElementIter = ClonedBitVecMarkerIter;

    closed spec fn unused_set(&self) -> Set<Index> {
        cleared_ids(stored_bits(&self.used_indices))
    }

    closed spec fn inv(&self) -> bool {
        &&& self.unused_set().finite()
        &&& self.unused_elements_len == self.unused_set().len()
    }

    open spec fn iter_ids(it: &ClonedBitVecMarkerIter) -> Seq<Index> {
        it.remaining()
    }

    fn with_element_capacity(size: usize) -> (r: Self) {
        let r = BitVecElementMarker {
            used_indices: bits_with_capacity(size),
            unused_elements_len: 0,
        };
        proof {
            assert(r.unused_set() =~= Set::empty());
        }
        r
    }

    fn mark_element_used(&mut self, index: Index, used: bool) -> (was_used: bool) {
        let was_used = self.element_is_used(index);
        if used != was_used {
            let len = bits_len(&self.used_indices);
            let ghost bits0 = stored_bits(&self.used_indices);
            if index >= len {
                // A never-seen index reads as used, so only marking it unused
                // lands here; the bitmap grows with used (set) bits up to it.
                bits_grow(&mut self.used_indices, index - len + 1, true);
                proof {
                    let grown = stored_bits(&self.used_indices);
                    assert(grown[index as int]);
                    assert(cleared_ids(grown) =~= cleared_ids(bits0));
                }
            }
            let ghost before = stored_bits(&self.used_indices);
            bits_set(&mut self.used_indices, index, used);
            proof {
                let after = stored_bits(&self.used_indices);
                if used {
                    assert(cleared_ids(after) =~= cleared_ids(before).remove(index));
                } else {
                    assert(cleared_ids(after) =~= cleared_ids(before).insert(index));
                    lemma_cleared_ids_card(after);
                }
            }
            if used {
                self.unused_elements_len = self.unused_elements_len - 1;
            } else {
                self.unused_elements_len = self.unused_elements_len + 1;
            }
        } else {
            proof {
                if used {
                    assert(final(self).unused_set() =~= old(self).unused_set().remove(index));
                } else {
                    assert(final(self).unused_set() =~= old(self).unused_set().insert(index));
                }
            }
        }
        was_used
    }

    fn element_is_used(&self, index: Index) -> (r: bool) {
        match bits_get(&self.used_indices, index) {
            Some(bit) => bit,
            None => true,
        }
    }

    fn unused_elements(&self) -> (r: ClonedBitVecMarkerIter) {
        let len = bits_len(&self.used_indices);
        let ghost bits = stored_bits(&self.used_indices);
        let mut ids: Vec<Index> = Vec::new();
        let mut index: usize = 0;
        while index < len
            invariant
                index <= len,
                len == bits.len(),
                bits == stored_bits(&self.used_indices),
                forall|k: int|
                    0 <= k < ids@.len() ==> (#[trigger] ids@[k] as int) < index && !bits[
                        ids@[k] as int
                    ],
                forall|k1: int, k2: int|
                    0 <= k1 < k2 < ids@.len() ==> ids@[k1] < ids@[k2],
                forall|i: Index|
                    (i as int) < index && !bits[i as int] ==> ids@.contains(i),
            decreases len - index,
        {
            match bits_get(&self.used_indices, index) {
                Some(bit) => {
                    if !bit {
                        let ghost prev = ids@;
                        ids.push(index);
                        proof {
                            assert forall|i: Index|
                                (i as int) < index + 1 && !bits[i as int] implies ids@.contains(
                                i,
                            ) by {
                                if (i as int) < index {
                                    let k = choose|k: int|
                                        0 <= k < prev.len() && prev[k] == i;
                                    assert(ids@[k] == i);
                                } else {
                                    assert(ids@[prev.len() as int] == i);
                                }
                            }
                        }
                    }
                },
                None => {},
            }
            index += 1;
        }
        let r = ClonedBitVecMarkerIter { remaining_ids: ids, next: 0 };
        proof {
            assert(r.remaining() =~= ids@);
            assert(ids@.no_duplicates());
            assert forall|i: Index|
                self.unused_set().contains(i) implies ids@.contains(i) by {}
            assert forall|i: Index|
                ids@.contains(i) implies self.unused_set().contains(i) by {
                let k = choose|k: int| 0 <= k < ids@.len() && ids@[k] == i;
            }
            assert(ids@.to_set() =~= self.unused_set());
            ids@.unique_seq_to_set();
        }
        r
    }

    fn unused_element_count(&self) -> (r: usize) {
        self.unused_elements_len
    }

    fn reserve_elements(&mut self, new_element_count: usize) {
        let len = bits_len(&self.used_indices);
        if new_element_count <= usize::MAX - len {
            bits_reserve(&mut self.used_indices, new_element_count);
        }
    }

    fn shrink_to_fit(&mut self) {
        bits_shrink(&mut self.used_indices);
    }

    fn clear(&mut self) {
        bits_truncate(&mut self.used_indices, 0);
        self.unused_elements_len = 0;
        proof {
            assert(final(self).unused_set() =~= Set::empty());
        }
    }
}

impl Clone for BitVecElementMarker {
    /// The clone tracks exactly the same unused indices.
    fn clone(&self) -> (r: Self)
        ensures
            r.unused_set() == self.unused_set(),
            self.inv() ==> r.inv(),
    {
        BitVecElementMarker {
            used_indices: bits_clone(&self.used_indices),
            unused_elements_len: self.unused_elements_len,
        }
    }
}

impl Default for BitVecElementMarker {
    /// An empty bitmap: everything counts as used.
    fn default() -> (r: Self)
        ensures
            r.inv(),
            r.unused_set() == Set::<Index>::empty(),
    {
        Self::with_element_capacity(0)
    }
}

/// Iterator over a snapshot of a `BitVecElementMarker`'s unused indices, in
/// ascending order.
pub struct ClonedBitVecMarkerIter {
    remaining_ids: Vec<Index>,
    next: usize,
}

impl ClonedBitVecMarkerIter {
    /// The unused indices not yielded yet, in the order they will come out.
    pub closed spec fn remaining(&self) -> Seq<Index> {
        self.remaining_ids@.skip(self.next as int)
    }

    pub closed spec fn wf(&self) -> bool {
        self.next <= self.remaining_ids@.len()
    }

    pub fn next(&mut self) -> (r: Option<Index>)
        requires
            old(self).wf(),
        ensures
            final(self).wf(),
            old(self).remaining().len() == 0 ==> r is None && final(self).remaining() == old(
                self,
            ).remaining(),
            old(self).remaining().len() > 0 ==> {
                &&& r == Some(old(self).remaining()[0])
                &&& final(self).remaining() == old(self).remaining().drop_first()
            },
    {
        if self.next < self.remaining_ids.len() {
            let i = self.remaining_ids[self.next];
            self.next = self.next + 1;
            proof {
                assert(final(self).remaining() =~= old(self).remaining().drop_first());
            }
            Some(i)
        } else {
            None
        }
    }

    /// Both bounds are exact: the number of indices left to yield.
    pub fn size_hint(&self) -> (r: (usize, Option<usize>))
        requires
            self.wf(),
        ensures
            r.0 == self.remaining().len(),
            r.1 == Some((self.remaining().len() as usize)),
    {
        let n = self.remaining_ids.len() - self.next;
        (n, Some(n))
    }
}

} // verus!
