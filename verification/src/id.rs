use vstd::prelude::*;
use crate::vec::IdVec;

verus! {

/// The raw integer value wrapped by an `Id`.
pub type Index = usize;

/// Used as a key to access an instance inside an `IdVec<T>`.
/// Internally, this is only an integer index (but with greater type safety):
/// equality is defined purely on that integer, and the phantom type parameter
/// keeps ids of different arena kinds apart at compile time.
///
/// An `Id` built from an arbitrary integer is well formed but carries no
/// validity guarantee of its own; validity is always checked against a
/// concrete `IdVec` at the point of use.
#[derive(Debug, Hash)]
pub struct Id<T> {
    index: Index,
    _marker: core::marker::PhantomData<T>,
}

impl<T> View for Id<T> {
    type V = Index;

    closed spec fn view(&self) -> Index {
        self.index
    }
}

impl<T> Id<T> {
    /// The id addressing the given raw index.
    pub fn from_index(index: Index) -> (r: Self)
        ensures
            r@ == index,
    {
        Id { index, _marker: core::marker::PhantomData }
    }

    /// The actual integer value for this id.
    pub fn index_value(self) -> (r: Index)
        ensures
            r == self@,
    {
        self.index
    }

    /// Convenience function which allows writing the index first and the
    /// `IdVec` afterwards. The id must be valid for the given container.
    pub fn of<'s>(self, vec: &'s IdVec<T>) -> (r: &'s T)
        requires
            vec.wf(),
            vec.is_alive(self@),
        ensures
            *r == vec.slots()[self@ as int],
    {
        match vec.get(self) {
            Some(element) => element,
            None => vstd::pervasive::unreached(),
        }
    }

    /// Convenience function which allows writing the index first and the
    /// `IdVec` afterwards. The id must be valid for the given container.
    pub fn of_mut<'s>(self, vec: &'s mut IdVec<T>) -> (r: &'s mut T)
        requires
            old(vec).wf(),
            old(vec).is_alive(self@),
        ensures
            *r == old(vec).slots()[self@ as int],
            final(vec).slots() == old(vec).slots().update(self@ as int, *final(r)),
            final(vec).dead() == old(vec).dead(),
            final(vec).wf(),
    {
        match vec.get_mut(self) {
            Some(element) => element,
            None => vstd::pervasive::unreached(),
        }
    }

    /// Convenience function which allows writing the index first and the
    /// `IdVec` afterwards. Yields nothing for an invalid id.
    pub fn try_of<'s>(self, vec: &'s IdVec<T>) -> (r: Option<&'s T>)
        requires
            vec.wf(),
        ensures
            match r {
                Some(v) => vec.is_alive(self@) && *v == vec.slots()[self@ as int],
                None => !vec.is_alive(self@),
            },
    {
        vec.get(self)
    }

    /// Convenience function which allows writing the index first and the
    /// `IdVec` afterwards. Yields nothing for an invalid id.
    pub fn try_of_mut<'s>(self, vec: &'s mut IdVec<T>) -> (r: Option<&'s mut T>)
        requires
            old(vec).wf(),
        ensures
            old(vec).is_alive(self@) ==> {
                &&& r is Some
                &&& *r.unwrap() == old(vec).slots()[self@ as int]
                &&& final(vec).slots() == old(vec).slots().update(
                    self@ as int,
                    *final(r.unwrap()),
                )
                &&& final(vec).dead() == old(vec).dead()
                &&& final(vec).wf()
            },
            !old(vec).is_alive(self@) ==> r is None && *final(vec) == *old(vec),
    {
        vec.get_mut(self)
    }
}

/// Two ids of the same arena kind with the same raw index are the same id:
/// an `Id` carries nothing but its index.
pub broadcast proof fn lemma_id_determined_by_index<T>(a: Id<T>, b: Id<T>)
    requires
        #[trigger] a@ == #[trigger] b@,
    ensures
        a == b,
{
}

impl<T> Clone for Id<T> {
    fn clone(&self) -> (r: Self)
        ensures
            r == *self,
    {
        Id { index: self.index, _marker: core::marker::PhantomData }
    }
}

impl<T> Copy for Id<T> {}

impl<T> PartialEq for Id<T> {
    fn eq(&self, other: &Id<T>) -> (r: bool) {
        self.index == other.index
    }
}

impl<T> Eq for Id<T> {}

impl<T> vstd::std_specs::cmp::PartialEqSpecImpl for Id<T> {
    open spec fn obeys_eq_spec() -> bool {
        true
    }

    open spec fn eq_spec(&self, other: &Id<T>) -> bool {
        self@ == other@
    }
}

} // verus!
