//! The operations that every kind of set offers, stated over the mathematical
//! set of the elements held.

use vstd::prelude::*;

verus! {

/// A finite set of elements of type `T`.
///
/// Every operation is specified by its effect on `view()`, so two sets of
/// different kinds that hold the same elements cannot be told apart by their
/// answers.
pub trait ElementSet<T> {
    /// The elements held.
    spec fn view(&self) -> Set<T>;

    /// The representation invariant of the implementing type.
    spec fn wf(&self) -> bool;

    /// What the implementing type needs of the comparison operators of `T`:
    /// that they decide spec equality and, where the type orders its
    /// elements, that they form a strict total order.
    spec fn element_laws() -> bool;

    /// A well-formed set holds finitely many elements.
    proof fn lemma_finite(&self)
        requires
            self.wf(),
        ensures
            self@.finite(),
    ;

    /// Whether `item` is an element.
    fn contains(&self, item: &T) -> (found: bool)
        requires
            self.wf(),
            Self::element_laws(),
        ensures
            found == self@.contains(*item),
    ;

    /// The number of elements.
    fn len(&self) -> (n: usize)
        requires
            self.wf(),
            self@.len() <= usize::MAX,
        ensures
            n == self@.len(),
    ;

    /// Adds `item`; a set that already holds it is left as it was.
    fn insert(&mut self, item: T)
        requires
            old(self).wf(),
            Self::element_laws(),
        ensures
            final(self).wf(),
            final(self)@ == old(self)@.insert(item),
    ;
}

/// Uniqueness: a second insertion of the same element right after the first
/// changes neither the elements nor their number, and the element is held.
pub proof fn lemma_insert_twice<T>(held: Set<T>, item: T)
    ensures
        held.insert(item).insert(item) == held.insert(item),
        held.insert(item).insert(item).len() == held.insert(item).len(),
        held.insert(item).insert(item).contains(item),
{
    assert(held.insert(item).insert(item) =~= held.insert(item));
}

/// A set that can also give elements up.
pub trait RemovableSet<T>: ElementSet<T> {
    /// Takes `item` out; a set that does not hold it is left as it was.
    fn remove(&mut self, item: &T)
        requires
            old(self).wf(),
            Self::element_laws(),
        ensures
            final(self).wf(),
            final(self)@ == old(self)@.remove(*item),
    ;
}

} // verus!
