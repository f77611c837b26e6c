//! Allocation: counting the allocation, paying off debt, and linking the
//! new cell.

use crate::context::GcContext;
use crate::handle::{Gc, Rgc};
use crate::state::GcState;
use crate::tracer::GcObject;
use crate::wellformed::{lemma_charge_wf, lemma_insert_wf};
use vstd::prelude::*;

verus! {

impl<T: GcObject> GcContext<T> {
    /// Counts one allocation and says whether a step of collection is due
    /// before the cell is made.
    pub fn charge_allocation(&mut self) -> (due: bool)
        requires
            old(self)@.wf(),
            old(self)@.total_allocated < usize::MAX,
        ensures
            final(self)@ == old(self)@.after_charge(),
            final(self)@.wf(),
            final(self)@.cells.len() < final(self)@.total_allocated,
            due == final(self)@.step_is_due(),
    {
        proof {
            lemma_charge_wf(old(self)@);
        }
        self.count_allocation()
    }

    /// Puts a fresh cell around `value` at the head of the list of all
    /// cells and returns the handle to it.
    pub fn insert(&mut self, value: T) -> (gc: Gc<T>)
        requires
            old(self)@.wf(),
            old(self)@.cells.len() < old(self)@.total_allocated,
            old(self)@.in_range(value),
        ensures
            final(self)@ == old(self)@.after_insert(value),
            final(self)@.wf(),
            gc@ == old(self)@.cells.len(),
    {
        proof {
            lemma_insert_wf(old(self)@, value);
        }
        let slot = self.link_fresh(value);
        Gc::from_index(slot)
    }

    /// Allocates a cell around `value` and returns the unrooted handle to
    /// it. The cell is white and unrooted, and stands at the head of the
    /// list of all cells.
    ///
    /// The allocation is counted first, which may wake a sleeping collector;
    /// a collector that is awake takes on debt, and once the debt has
    /// reached the granularity it does a step of that many units of work
    /// before the cell is made. Nothing protects the new cell from the next
    /// step of collection but a handle to it in a cell that marking
    /// reaches, or a root.
    pub fn allocate(&mut self, value: T) -> (gc: Gc<T>)
        requires
            old(self)@.wf(),
            old(self)@.total_allocated < usize::MAX,
            old(self)@.in_range(value),
        ensures
            final(self)@.wf(),
            gc@ == old(self)@.cells.len(),
            exists|mid: GcState<T>| #[trigger]
                old(self)@.allocation_leads_to(mid) && final(self)@ == mid.after_insert(value),
    {
        let due = self.charge_allocation();
        let ghost charged = self@;
        if due {
            let granularity = self.granularity();
            let left = self.do_collection(granularity);
            proof {
                assert(charged.runs_to(
                    Some(charged.parameters.step_work()),
                    false,
                    self@,
                    Some(left),
                ));
            }
        }
        let ghost mid = self@;
        let gc = self.insert(value);
        proof {
            assert(old(self)@.allocation_leads_to(mid));
        }
        gc
    }

    /// Allocates a cell around `value`, roots it, and returns the rooted
    /// handle to it.
    pub fn allocate_root(&mut self, value: T) -> (rgc: Rgc<T>)
        requires
            old(self)@.wf(),
            old(self)@.total_allocated < usize::MAX,
            old(self)@.in_range(value),
        ensures
            final(self)@.wf(),
            rgc.spec_gc()@ == old(self)@.cells.len(),
            exists|mid: GcState<T>| #[trigger]
                old(self)@.allocation_leads_to(mid) && final(self)@ == mid.after_insert(
                    value,
                ).after_root(rgc.spec_gc()@),
    {
        let gc = self.allocate(value);
        self.root(gc)
    }
}

} // verus!
