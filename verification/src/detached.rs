//! Teardown: what is left of a context once it is destroyed.

use crate::cell::{CellState, GcBox};
use crate::context::{slot_state, GcContext};
use crate::handle::{Gc, Rgc};
use crate::tracer::GcObject;
use vstd::prelude::*;

verus! {

/// What teardown makes of a slot: a rooted cell stays and is marked as
/// detached, any other cell is destroyed.
pub open spec fn torn_down<T>(slot: Option<CellState<T>>) -> Option<CellState<T>> {
    match slot {
        Some(cell) => if cell.root_count != 0 {
            Some(cell.cut_off())
        } else {
            None
        },
        None => None,
    }
}

/// What releasing one rooted handle makes of a detached cell: the cell is
/// destroyed with its last handle.
pub open spec fn released<T>(cell: CellState<T>) -> Option<CellState<T>> {
    if cell.root_count == 1 && cell.detached {
        None
    } else {
        Some(cell.counted((cell.root_count - 1) as usize))
    }
}

/// The cells that outlived their context. Each belongs to the rooted
/// handles that pin it, and is destroyed when the last of them is released.
pub struct GcDetached<T> {
    cells: Vec<Option<Box<GcBox<T>>>>,
}

impl<T> View for GcDetached<T> {
    type V = Seq<Option<CellState<T>>>;

    closed spec fn view(&self) -> Seq<Option<CellState<T>>> {
        self.cells@.map_values(|slot: Option<Box<GcBox<T>>>| slot_state(slot))
    }
}

impl<T> GcDetached<T> {
    /// Whether slot `i` still holds a cell.
    pub open spec fn live(&self, i: int) -> bool {
        0 <= i < self@.len() && self@[i] is Some
    }

    /// Every cell that is left is detached and rooted.
    pub open spec fn wf(&self) -> bool {
        forall|i: int|
            #![trigger self@[i]]
            0 <= i < self@.len() && self@[i] is Some ==> self@[i]->0.detached
                && self@[i]->0.root_count > 0
    }

    /// Whether the handle names a cell that has not been destroyed.
    pub fn is_live(&self, gc: Gc<T>) -> (live: bool)
        ensures
            live == self.live(gc@ as int),
    {
        let i = gc.index();
        i < self.cells.len() && self.cells[i].is_some()
    }

    /// The payload of the cell of a rooted handle.
    pub fn get(&self, rgc: &Rgc<T>) -> (value: &T)
        requires
            self.live(rgc.spec_gc()@ as int),
        ensures
            *value == self@[rgc.spec_gc()@ as int]->0.value,
    {
        match &self.cells[rgc.gc().index()] {
            Some(cell) => cell.value(),
            None => vstd::pervasive::unreached(),
        }
    }

    /// The root count of the cell that the handle names, if it names one.
    pub fn root_count_of(&self, gc: Gc<T>) -> (count: Option<usize>)
        ensures
            count == if self.live(gc@ as int) {
                Some(self@[gc@ as int]->0.root_count)
            } else {
                None
            },
    {
        let i = gc.index();
        if i < self.cells.len() {
            match &self.cells[i] {
                Some(cell) => Some(cell.root_count()),
                None => None,
            }
        } else {
            None
        }
    }

    /// Makes a second rooted handle to the cell of `rgc`.
    pub fn clone_root(&mut self, rgc: &Rgc<T>) -> (copy: Rgc<T>)
        requires
            old(self).wf(),
            old(self).live(rgc.spec_gc()@ as int),
            old(self)@[rgc.spec_gc()@ as int]->0.root_count < usize::MAX,
        ensures
            final(self).wf(),
            copy.spec_gc() == rgc.spec_gc(),
            final(self)@ == old(self)@.update(
                rgc.spec_gc()@ as int,
                Some(
                    old(self)@[rgc.spec_gc()@ as int]->0.counted(
                        (old(self)@[rgc.spec_gc()@ as int]->0.root_count + 1) as usize,
                    ),
                ),
            ),
    {
        let i = rgc.gc().index();
        match &mut self.cells[i] {
            Some(cell) => {
                cell.add_root();
            },
            None => {},
        }
        proof {
            assert(self@ =~= old(self)@.update(
                i as int,
                Some(
                    old(self)@[i as int]->0.counted(
                        (old(self)@[i as int]->0.root_count + 1) as usize,
                    ),
                ),
            ));
        }
        Rgc::from_gc(rgc.gc())
    }

    /// Releases a rooted handle: the root count of its cell falls by one,
    /// and the cell is destroyed if that was its last handle.
    pub fn release(&mut self, rgc: Rgc<T>)
        requires
            old(self).wf(),
            old(self).live(rgc.spec_gc()@ as int),
        ensures
            final(self).wf(),
            final(self)@ == old(self)@.update(
                rgc.spec_gc()@ as int,
                released(old(self)@[rgc.spec_gc()@ as int]->0),
            ),
            final(self).live(rgc.spec_gc()@ as int) <==> old(self)@[rgc.spec_gc()@ as int]->0.root_count
                > 1,
    {
        let i = rgc.gc().index();
        let mut destroy = false;
        match &mut self.cells[i] {
            Some(cell) => {
                destroy = cell.release_root();
            },
            None => {},
        }
        if destroy {
            self.cells[i] = None;
        }
        proof {
            assert(self@ =~= old(self)@.update(i as int, released(old(self)@[i as int]->0)));
        }
    }
}

impl<T: GcObject> GcContext<T> {
    /// Destroys the context. It walks the list of all cells once: a cell
    /// without a rooted handle is destroyed, a rooted cell is marked as
    /// detached and handed over to its rooted handles.
    pub fn destroy(self) -> (rest: GcDetached<T>)
        requires
            self@.wf(),
        ensures
            rest.wf(),
            rest@.len() == self@.cells.len(),
            forall|i: int|
                0 <= i < rest@.len() ==> #[trigger] rest@[i] == torn_down(self@.cells[i]),
    {
        let ghost before = self@;
        let (mut cells, all) = self.into_cells();
        let mut cursor = all;
        proof {
            assert(before.list_wf());
            assert forall|j: int| #![trigger cells@[j]] 0 <= j < cells@.len() implies slot_state(
                cells@[j],
            ) == if cursor is Some && j <= cursor->0 {
                before.cells[j]
            } else {
                torn_down(before.cells[j])
            } by {
                assert(slot_state(cells@[j]) == before.cells[j]);
                if !(cursor is Some && j <= cursor->0) {
                    assert(!before.live(j));
                }
            }
        }
        loop
            invariant
                before.list_wf(),
                cells@.len() == before.cells.len(),
                cursor is Some ==> before.live(cursor->0 as int),
                forall|j: int|
                    #![trigger cells@[j]]
                    0 <= j < cells@.len() ==> slot_state(cells@[j]) == if cursor is Some && j
                        <= cursor->0 {
                        before.cells[j]
                    } else {
                        torn_down(before.cells[j])
                    },
            ensures
                cells@.len() == before.cells.len(),
                forall|j: int|
                    #![trigger cells@[j]]
                    0 <= j < cells@.len() ==> slot_state(cells@[j]) == torn_down(before.cells[j]),
            decreases
                    (match cursor {
                        Some(i) => i + 1,
                        None => 0,
                    }),
        {
            match cursor {
                None => {
                    break ;
                },
                Some(i) => {
                    proof {
                        assert(before.next_wf(i as int));
                        assert(forall|j: int| before.live(j) <==> 0 <= j < before.cells.len()
                            && before.cells[j] is Some);
                    }
                    let mut rooted = false;
                    let mut next = None;
                    match &mut cells[i] {
                        Some(cell) => {
                            next = cell.next();
                            rooted = cell.is_rooted();
                            if rooted {
                                cell.detach();
                            }
                        },
                        None => {},
                    }
                    if !rooted {
                        cells[i] = None;
                    }
                    proof {
                        assert forall|j: int| #![trigger cells@[j]] 0 <= j < cells@.len() implies slot_state(
                            cells@[j],
                        ) == if next is Some && j <= next->0 {
                            before.cells[j]
                        } else {
                            torn_down(before.cells[j])
                        } by {
                            if j < i && !(next is Some && j <= next->0) {
                                assert(!before.live(j));
                            }
                        }
                    }
                    cursor = next;
                },
            }
        }
        let rest = GcDetached { cells };
        proof {
            assert forall|i: int| 0 <= i < rest@.len() implies #[trigger] rest@[i] == torn_down(
                before.cells[i],
            ) by {
                assert(slot_state(cells@[i]) == torn_down(before.cells[i]));
            }
        }
        rest
    }
}

} // verus!
