//! The managed cell: header and payload.

use crate::flags::{GcColor, GcFlags};
use crate::root_count::RootCount;
use crate::tracer::{traces_as, GcObject, GcTracer};
use vstd::prelude::*;

verus! {

/// What a managed cell holds, as plain values.
pub struct CellState<T> {
    /// The marking colour.
    pub color: GcColor,
    /// Whether the cell outlived its context.
    pub detached: bool,
    /// The number of rooted handles to the cell.
    pub root_count: usize,
    /// The slot of the next cell in the list of all cells.
    pub next: Option<usize>,
    /// The payload.
    pub value: T,
}

impl<T> CellState<T> {
    /// The same cell in another colour.
    pub open spec fn painted(self, color: GcColor) -> CellState<T> {
        CellState { color, ..self }
    }

    /// The same cell with another root count.
    pub open spec fn counted(self, root_count: usize) -> CellState<T> {
        CellState { root_count, ..self }
    }

    /// The same cell with another successor.
    pub open spec fn linked(self, next: Option<usize>) -> CellState<T> {
        CellState { next, ..self }
    }

    /// The same cell with another payload.
    pub open spec fn holding(self, value: T) -> CellState<T> {
        CellState { value, ..self }
    }

    /// The same cell, marked as detached.
    pub open spec fn cut_off(self) -> CellState<T> {
        CellState { detached: true, ..self }
    }

    /// A cell as allocation makes it: white, unrooted, not detached.
    pub open spec fn fresh(value: T, next: Option<usize>) -> CellState<T> {
        CellState { color: GcColor::White, detached: false, root_count: 0, next, value }
    }
}

/// A managed cell: flags, root count, link to the next cell, and payload.
pub struct GcBox<T> {
    flags: GcFlags,
    root_count: RootCount,
    next: Option<usize>,
    value: T,
}

impl<T> View for GcBox<T> {
    type V = CellState<T>;

    closed spec fn view(&self) -> CellState<T> {
        CellState {
            color: self.flags.spec_color(),
            detached: self.flags.spec_detached(),
            root_count: self.root_count.count(),
            next: self.next,
            value: self.value,
        }
    }
}

impl<T> GcBox<T> {
    /// A fresh cell around `value`, linked in front of `next`.
    pub fn new(value: T, next: Option<usize>) -> (cell: GcBox<T>)
        ensures
            cell@ == CellState::fresh(value, next),
    {
        GcBox { flags: GcFlags::new(), root_count: RootCount::new(), next, value }
    }

    /// The marking colour.
    pub fn color(&self) -> (color: GcColor)
        ensures
            color == self@.color,
    {
        self.flags.color()
    }

    /// Repaints the cell.
    pub fn set_color(&mut self, color: GcColor)
        ensures
            final(self)@ == old(self)@.painted(color),
    {
        self.flags.set_color(color);
    }

    /// Whether the cell outlived its context.
    pub fn is_detached(&self) -> (detached: bool)
        ensures
            detached == self@.detached,
    {
        self.flags.is_detached()
    }

    /// Marks the cell as having outlived its context.
    pub fn detach(&mut self)
        ensures
            final(self)@ == old(self)@.cut_off(),
    {
        self.flags.set_detached(true);
    }

    /// Whether a rooted handle to the cell exists.
    pub fn is_rooted(&self) -> (rooted: bool)
        ensures
            rooted == (self@.root_count != 0),
    {
        self.root_count.is_rooted()
    }

    /// The number of rooted handles to the cell.
    pub fn root_count(&self) -> (count: usize)
        ensures
            count == self@.root_count,
    {
        self.root_count.get()
    }

    /// Counts one more rooted handle.
    pub fn add_root(&mut self)
        requires
            old(self)@.root_count < usize::MAX,
        ensures
            final(self)@ == old(self)@.counted((old(self)@.root_count + 1) as usize),
    {
        self.root_count.increment();
    }

    /// Counts one rooted handle less, and says whether the cell is to be
    /// destroyed now: it is when no rooted handle is left and the cell is
    /// detached.
    pub fn release_root(&mut self) -> (destroy: bool)
        requires
            old(self)@.root_count > 0,
        ensures
            final(self)@ == old(self)@.counted((old(self)@.root_count - 1) as usize),
            destroy == (old(self)@.root_count == 1 && old(self)@.detached),
    {
        self.root_count.decrement();
        !self.root_count.is_rooted() && self.flags.is_detached()
    }

    /// The slot of the next cell in the list of all cells.
    pub fn next(&self) -> (next: Option<usize>)
        ensures
            next == self@.next,
    {
        self.next
    }

    /// Links the cell in front of `next`.
    pub fn set_next(&mut self, next: Option<usize>)
        ensures
            final(self)@ == old(self)@.linked(next),
    {
        self.next = next;
    }

    /// The payload.
    pub fn value(&self) -> (value: &T)
        ensures
            *value == self@.value,
    {
        &self.value
    }

    /// Puts `value` in the cell and returns the payload it held.
    pub fn replace_value(&mut self, value: T) -> (previous: T)
        ensures
            final(self)@ == old(self)@.holding(value),
            previous == old(self)@.value,
    {
        let mut held = value;
        std::mem::swap(&mut self.value, &mut held);
        held
    }
}

impl<T: GcObject> GcBox<T> {
    /// Has the payload report what it holds to an empty tracer.
    pub fn trace(&mut self, tracer: &mut GcTracer<T>) -> (traced: bool)
        requires
            old(tracer)@.len() == 0,
        ensures
            final(self)@ == old(self)@.holding(final(self)@.value),
            traces_as(old(self)@.value, final(self)@.value, final(tracer)@, traced),
    {
        let traced = self.value.trace(tracer);
        proof {
            if traced {
                assert(tracer@ =~= old(self)@.value.children());
            }
        }
        traced
    }
}

} // verus!
