//! Handles to managed cells.

use std::marker::PhantomData;
use vstd::prelude::*;

verus! {

/// An unrooted handle: the slot of a cell in its context's arena.
///
/// It is freely copied and pins nothing. The cell it names stays alive only
/// while marking reaches it; once the cell is swept the handle names an
/// empty slot for good, since slots are never given out twice.
#[derive(Debug)]
pub struct Gc<T> {
    index: usize,
    marker: PhantomData<T>,
}

impl<T> PartialEq for Gc<T> {
    fn eq(&self, other: &Gc<T>) -> (same: bool) {
        self.index == other.index
    }
}

impl<T> Eq for Gc<T> {

}

impl<T> vstd::std_specs::cmp::PartialEqSpecImpl for Gc<T> {
    open spec fn obeys_eq_spec() -> bool {
        true
    }

    open spec fn eq_spec(&self, other: &Gc<T>) -> bool {
        self@ == other@
    }
}

impl<T> Clone for Gc<T> {
    fn clone(&self) -> (copy: Gc<T>)
        ensures
            copy == *self,
    {
        *self
    }
}

impl<T> Copy for Gc<T> {

}

impl<T> View for Gc<T> {
    type V = usize;

    /// The slot that the handle names.
    closed spec fn view(&self) -> usize {
        self.index
    }
}

impl<T> Gc<T> {
    /// The handle to a slot.
    pub(crate) fn from_index(index: usize) -> (gc: Gc<T>)
        ensures
            gc@ == index,
    {
        Gc { index, marker: PhantomData }
    }

    /// The slot that the handle names.
    pub fn index(&self) -> (index: usize)
        ensures
            index == self@,
    {
        self.index
    }

}

/// A rooted handle: it stands for one unit of its cell's root count.
///
/// It is made by rooting a cell and given back to the context, or to what is
/// left of it after teardown, to release that unit.
#[derive(Debug)]
pub struct Rgc<T>(Gc<T>);

impl<T> PartialEq for Rgc<T> {
    fn eq(&self, other: &Rgc<T>) -> (same: bool) {
        self.0.index == other.0.index
    }
}

impl<T> Eq for Rgc<T> {

}

impl<T> vstd::std_specs::cmp::PartialEqSpecImpl for Rgc<T> {
    open spec fn obeys_eq_spec() -> bool {
        true
    }

    open spec fn eq_spec(&self, other: &Rgc<T>) -> bool {
        self.spec_gc()@ == other.spec_gc()@
    }
}

impl<T> Rgc<T> {
    /// The rooted handle to the cell of `gc`.
    pub(crate) fn from_gc(gc: Gc<T>) -> (rgc: Rgc<T>)
        ensures
            rgc.spec_gc() == gc,
    {
        Rgc(gc)
    }

    /// The unrooted handle to the same cell.
    pub closed spec fn spec_gc(&self) -> Gc<T> {
        self.0
    }

    /// The unrooted handle to the same cell.
    pub fn gc(&self) -> (gc: Gc<T>)
        ensures
            gc == self.spec_gc(),
    {
        self.0
    }
}

/// The slots that a sequence of handles names, in order.
pub open spec fn indices_of<T>(handles: Seq<Gc<T>>) -> Seq<usize> {
    handles.map_values(|gc: Gc<T>| gc@)
}

} // verus!
