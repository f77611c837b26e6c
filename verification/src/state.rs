//! The mathematical model of a collector: its state as plain values, and
//! each transition as a function on that state.

use crate::cell::CellState;
use crate::flags::GcColor;
use crate::handle::Gc;
use crate::params::GcParameters;
use crate::tracer::GcObject;
use vstd::prelude::*;

verus! {

/// The top-level state of the collector.
#[derive(Clone, Copy, PartialEq, Eq, Debug, Structural)]
pub enum GcPhase {
    /// No cycle is running.
    Sleeping,
    /// The gray queue is being drained.
    Propagating,
    /// The list of all cells is being walked.
    Sweeping,
}

/// The state of a collector.
///
/// Slot `i` of `cells` is the cell of the `i`-th allocation, or `None` once
/// that cell is destroyed; a slot is never filled again.
pub struct GcState<T> {
    pub parameters: GcParameters,
    pub phase: GcPhase,
    /// The number of allocations so far.
    pub total_allocated: usize,
    /// The number of allocations beyond which a sleeping collector wakes.
    pub wakeup_total: usize,
    /// The debt that allocations have added, on the scale of
    /// [`GcParameters::debt_per_allocation`].
    pub allocation_debt: u64,
    pub cells: Seq<Option<CellState<T>>>,
    /// The head of the list of all cells.
    pub all: Option<usize>,
    /// The cell that the sweep visits next.
    pub sweep: Option<usize>,
    /// The last cell that the sweep kept, or the first one allocated since
    /// the sweep began if it has kept none.
    pub sweep_prev: Option<usize>,
    /// The gray queue, front first.
    pub gray: Seq<usize>,
}

impl<T> GcState<T> {
    /// The state of a new collector.
    pub open spec fn initial(parameters: GcParameters) -> GcState<T> {
        GcState {
            parameters,
            phase: GcPhase::Sleeping,
            total_allocated: 0,
            wakeup_total: parameters.min_wakeup,
            allocation_debt: 0,
            cells: Seq::empty(),
            all: None,
            sweep: None,
            sweep_prev: None,
            gray: Seq::empty(),
        }
    }

    /// Whether slot `i` holds a cell.
    pub open spec fn live(self, i: int) -> bool {
        0 <= i < self.cells.len() && self.cells[i] is Some
    }

    /// The cell in slot `i`.
    pub open spec fn cell(self, i: int) -> CellState<T> {
        self.cells[i]->0
    }

    /// Whether slot `i` holds a cell of the given colour.
    pub open spec fn colored(self, i: int, color: GcColor) -> bool {
        self.live(i) && self.cell(i).color == color
    }

    /// Whether slot `i` holds a dark-gray or black cell.
    pub open spec fn marked(self, i: int) -> bool {
        self.live(i) && (self.cell(i).color == GcColor::DarkGray || self.cell(i).color
            == GcColor::Black)
    }

    /// Whether slot `i` holds a cell with a rooted handle.
    pub open spec fn rooted(self, i: int) -> bool {
        self.live(i) && self.cell(i).root_count != 0
    }

    /// The slots below `bound` that hold a cell.
    pub open spec fn live_below(self, bound: int) -> Set<int> {
        Set::new(|i: int| i < bound && self.live(i))
    }

    /// The number of cells.
    pub open spec fn live_count(self) -> nat {
        self.live_below(self.cells.len() as int).len()
    }

    /// The state with `cell` in slot `i`.
    pub open spec fn with_cell(self, i: int, cell: CellState<T>) -> GcState<T> {
        GcState { cells: self.cells.update(i, Some(cell)), ..self }
    }

    /// The state with slot `i` emptied.
    pub open spec fn without_cell(self, i: int) -> GcState<T> {
        GcState { cells: self.cells.update(i, None), ..self }
    }

    /// The state with the cell in slot `i` repainted.
    pub open spec fn paint(self, i: int, color: GcColor) -> GcState<T> {
        self.with_cell(i, self.cell(i).painted(color))
    }

    /// The state with `i` at the back of the gray queue.
    pub open spec fn enqueue_back(self, i: usize) -> GcState<T> {
        GcState { gray: self.gray.push(i), ..self }
    }

    /// The state with `i` at the front of the gray queue.
    pub open spec fn enqueue_front(self, i: usize) -> GcState<T> {
        GcState { gray: seq![i] + self.gray, ..self }
    }

    /// The state without the front of the gray queue.
    pub open spec fn dequeue(self) -> GcState<T> {
        GcState { gray: self.gray.subrange(1, self.gray.len() as int), ..self }
    }

    /// Rooting the cell in slot `i`: its count grows by one, and a white
    /// cell turns light-gray and joins the back of the gray queue.
    pub open spec fn after_root(self, i: usize) -> GcState<T> {
        let cell = self.cell(i as int);
        let counted = self.with_cell(i as int, cell.counted((cell.root_count + 1) as usize));
        if cell.color == GcColor::White {
            counted.paint(i as int, GcColor::LightGray).enqueue_back(i)
        } else {
            counted
        }
    }

    /// Making a second rooted handle from a first: the count of the cell in
    /// slot `i` grows by one and nothing else changes.
    pub open spec fn after_share(self, i: usize) -> GcState<T> {
        let cell = self.cell(i as int);
        self.with_cell(i as int, cell.counted((cell.root_count + 1) as usize))
    }

    /// Giving up one rooted handle to the cell in slot `i`.
    pub open spec fn after_unroot(self, i: usize) -> GcState<T> {
        let cell = self.cell(i as int);
        self.with_cell(i as int, cell.counted((cell.root_count - 1) as usize))
    }

    /// The write barrier on the cell in slot `i`: while propagating, a black
    /// cell goes back to dark-gray and to the back of the gray queue.
    pub open spec fn after_barrier(self, i: usize) -> GcState<T> {
        if self.phase == GcPhase::Propagating && self.colored(i as int, GcColor::Black) {
            self.paint(i as int, GcColor::DarkGray).enqueue_back(i)
        } else {
            self
        }
    }

    /// Marking the target of one traced handle: a white cell turns dark-gray
    /// and joins the front of the gray queue, a light-gray cell turns
    /// dark-gray where it stands, any other cell and an empty slot are left
    /// alone.
    pub open spec fn after_mark(self, i: usize) -> GcState<T> {
        if !self.live(i as int) {
            self
        } else if self.cell(i as int).color == GcColor::White {
            self.paint(i as int, GcColor::DarkGray).enqueue_front(i)
        } else if self.cell(i as int).color == GcColor::LightGray {
            self.paint(i as int, GcColor::DarkGray)
        } else {
            self
        }
    }

    /// Marking the targets of traced handles, first to last.
    pub open spec fn after_marks(self, handles: Seq<usize>) -> GcState<T>
        decreases handles.len(),
    {
        if handles.len() == 0 {
            self
        } else {
            self.after_marks(handles.drop_last()).after_mark(handles.last())
        }
    }

    /// Counting one allocation: the total grows, a sleeping collector wakes
    /// once the total passes the wake-up threshold, and a collector that is
    /// awake takes on the debt of one allocation.
    pub open spec fn after_charge(self) -> GcState<T> {
        let total = (self.total_allocated + 1) as usize;
        let phase = if self.phase == GcPhase::Sleeping && total > self.wakeup_total {
            GcPhase::Propagating
        } else {
            self.phase
        };
        let debt = if phase != GcPhase::Sleeping {
            self.parameters.debt_after_allocation(self.allocation_debt)
        } else {
            self.allocation_debt
        };
        GcState { total_allocated: total, phase, allocation_debt: debt, ..self }
    }

    /// Whether the debt calls for a step of collection.
    pub open spec fn step_is_due(self) -> bool {
        self.phase != GcPhase::Sleeping && self.parameters.debt_is_due(self.allocation_debt)
    }

    /// Putting a fresh cell around `value` at the head of the list of all
    /// cells. A sweep that has kept no cell yet takes the new cell as the
    /// one before its cursor.
    pub open spec fn after_insert(self, value: T) -> GcState<T> {
        let slot = self.cells.len() as usize;
        GcState {
            cells: self.cells.push(Some(CellState::fresh(value, self.all))),
            all: Some(slot),
            sweep_prev: if self.phase == GcPhase::Sweeping && self.sweep_prev is None {
                Some(slot)
            } else {
                self.sweep_prev
            },
            ..self
        }
    }

    /// Putting `value` in the cell in slot `i`.
    pub open spec fn after_replace(self, i: usize, value: T) -> GcState<T> {
        self.with_cell(i as int, self.cell(i as int).holding(value))
    }

    /// Waking a sleeping collector.
    pub open spec fn after_wake(self) -> GcState<T> {
        GcState { phase: GcPhase::Propagating, ..self }
    }

    /// Passing from propagating to sweeping: the sweep starts at the head of
    /// the list of all cells.
    pub open spec fn after_begin_sweep(self) -> GcState<T> {
        GcState { phase: GcPhase::Sweeping, sweep: self.all, ..self }
    }

    /// Taking the front of the gray queue without tracing it, as is done
    /// with a cell that is neither dark-gray nor rooted: a light-gray cell
    /// goes back to white.
    pub open spec fn after_skip(self) -> GcState<T> {
        let i = self.gray[0] as int;
        if self.cell(i).color == GcColor::LightGray {
            self.dequeue().paint(i, GcColor::White)
        } else {
            self.dequeue()
        }
    }

    /// Settling the cell in slot `i` after its payload was traced and
    /// reported `reported`: the reported cells are marked; then the cell
    /// turns black if tracing went through, and goes to the back of the gray
    /// queue if it was blocked.
    pub open spec fn after_traced(self, i: usize, reported: Seq<usize>, traced: bool) -> GcState<
        T,
    > {
        let marked = self.after_marks(reported);
        if traced {
            marked.paint(i as int, GcColor::Black)
        } else {
            marked.enqueue_back(i)
        }
    }

    /// The sweep visiting the cell at its cursor: a white cell leaves the
    /// list of all cells and is destroyed, any other cell turns white and
    /// becomes the one before the cursor. The cursor moves on.
    pub open spec fn after_sweep_visit(self) -> GcState<T> {
        let i = self.sweep->0 as int;
        let next = self.cell(i).next;
        if self.cell(i).color == GcColor::White {
            let unlinked = match self.sweep_prev {
                Some(p) => self.with_cell(p as int, self.cell(p as int).linked(next)),
                None => GcState { all: next, ..self },
            };
            GcState { sweep: next, ..unlinked.without_cell(i) }
        } else {
            GcState { sweep: next, sweep_prev: self.sweep, ..self.paint(i, GcColor::White) }
        }
    }

    /// The sweep reaching the end of the list: the collector goes to sleep.
    pub open spec fn after_end_sweep(self) -> GcState<T> {
        GcState { phase: GcPhase::Sleeping, sweep_prev: None, ..self }
    }
}

impl<T: GcObject> GcState<T> {
    /// The slots that the payload of the cell in slot `i` holds handles to.
    pub open spec fn children(self, i: int) -> Seq<Gc<T>> {
        self.cell(i).value.children()
    }

    /// Whether the cell in slot `i` holds a handle to slot `j`.
    pub open spec fn points_to(self, i: int, j: int) -> bool {
        self.live(i) && exists|m: int|
            0 <= m < self.children(i).len() && (#[trigger] self.children(i)[m])@ == j
    }
}

/// The cells below a slot are those below the slot before it, and the cell
/// in that slot if there is one.
pub proof fn lemma_live_below_step<T>(s: GcState<T>, bound: int)
    requires
        0 <= bound < s.cells.len(),
    ensures
        s.live_below(0).len() == 0,
        s.live_below(bound).finite(),
        s.live_below(bound + 1).finite(),
        s.live_below(bound).len() <= bound,
        s.live_below(bound + 1).len() == s.live_below(bound).len() + if s.live(bound) {
            1int
        } else {
            0int
        },
    decreases bound,
{
    assert(s.live_below(0) =~= Set::empty());
    if bound > 0 {
        lemma_live_below_step(s, bound - 1);
    }
    if s.live(bound) {
        assert(s.live_below(bound + 1) =~= s.live_below(bound).insert(bound));
    } else {
        assert(s.live_below(bound + 1) =~= s.live_below(bound));
    }
}

} // verus!
