//! The collector context: the arena of cells and the operations on it.

use crate::cell::{CellState, GcBox};
use crate::flags::GcColor;
use crate::handle::{indices_of, Gc, Rgc};
use crate::params::GcParameters;
use crate::state::{lemma_live_below_step, GcPhase, GcState};
use crate::tracer::{traces_as, GcObject, GcTracer};
use crate::wellformed::{
    lemma_barrier_wf, lemma_count_wf, lemma_initial_wf, lemma_replace_wf, lemma_root_wf,
};
use std::collections::VecDeque;
use vstd::prelude::*;

verus! {

/// What a slot of the arena holds, as plain values.
pub open spec fn slot_state<T>(slot: Option<Box<GcBox<T>>>) -> Option<CellState<T>> {
    match slot {
        Some(cell) => Some(cell@),
        None => None,
    }
}

/// A heap of cells of one payload type, collected incrementally.
///
/// The operations keep the invariant [`GcState::wf`] of the state and ask
/// for it in turn. Besides the invariant they ask of a handle that it names
/// a cell of this context that has not been destroyed, which the holder of
/// an unrooted handle has to know: a cell is kept over a cycle only if
/// marking reaches it.
pub struct GcContext<T: GcObject> {
    parameters: GcParameters,
    phase: GcPhase,
    total_allocated: usize,
    wakeup_total: usize,
    allocation_debt: u64,
    cells: Vec<Option<Box<GcBox<T>>>>,
    all: Option<usize>,
    sweep: Option<usize>,
    sweep_prev: Option<usize>,
    gray: VecDeque<usize>,
}

impl<T: GcObject> View for GcContext<T> {
    type V = GcState<T>;

    closed spec fn view(&self) -> GcState<T> {
        GcState {
            parameters: self.parameters,
            phase: self.phase,
            total_allocated: self.total_allocated,
            wakeup_total: self.wakeup_total,
            allocation_debt: self.allocation_debt,
            cells: self.cells@.map_values(|slot: Option<Box<GcBox<T>>>| slot_state(slot)),
            all: self.all,
            sweep: self.sweep,
            sweep_prev: self.sweep_prev,
            gray: self.gray@,
        }
    }
}

impl<T: GcObject> GcContext<T> {
    /// A context without cells, asleep, that wakes after
    /// `parameters.min_wakeup` allocations.
    pub fn new(parameters: GcParameters) -> (context: GcContext<T>)
        ensures
            context@ == GcState::<T>::initial(parameters),
            context@.wf(),
    {
        let context = GcContext {
            parameters,
            phase: GcPhase::Sleeping,
            total_allocated: 0,
            wakeup_total: parameters.min_wakeup,
            allocation_debt: 0,
            cells: Vec::new(),
            all: None,
            sweep: None,
            sweep_prev: None,
            gray: VecDeque::new(),
        };
        proof {
            assert(context@.cells =~= Seq::empty());
            lemma_initial_wf::<T>(parameters);
        }
        context
    }

    /// The phase of the collector.
    pub fn phase(&self) -> (phase: GcPhase)
        ensures
            phase == self@.phase,
    {
        self.phase
    }

    /// The units of work of a step that an allocation runs.
    pub fn granularity(&self) -> (granularity: u64)
        ensures
            granularity == self@.parameters.step_work(),
    {
        self.parameters.units_of_step()
    }

    /// The number of allocations so far.
    pub fn total_allocated(&self) -> (total: usize)
        ensures
            total == self@.total_allocated,
    {
        self.total_allocated
    }

    /// The length of the gray queue.
    pub fn gray_len(&self) -> (len: usize)
        ensures
            len == self@.gray.len(),
    {
        self.gray.len()
    }

    /// The number of cells that have not been destroyed.
    pub fn live_count(&self) -> (count: usize)
        ensures
            count == self@.live_count(),
    {
        let mut count: usize = 0;
        let mut k: usize = 0;
        proof {
            assert(self@.live_below(0) =~= Set::empty());
        }
        while k < self.cells.len()
            invariant
                k <= self.cells.len(),
                self.cells.len() == self@.cells.len(),
                count == self@.live_below(k as int).len(),
                count <= k,
            decreases self.cells.len() - k,
        {
            proof {
                lemma_live_below_step(self@, k as int);
            }
            if self.cells[k].is_some() {
                count = count + 1;
            }
            k = k + 1;
        }
        count
    }

    /// The handles to all cells, in the order of the list of all cells: the
    /// youngest cell first.
    pub fn all_cells(&self) -> (cells: Vec<Gc<T>>)
        requires
            self@.wf(),
        ensures
            indices_of(cells@) == self@.all_list(),
    {
        let mut cells: Vec<Gc<T>> = Vec::new();
        let mut cursor = self.all;
        proof {
            assert(indices_of(cells@) =~= Seq::<usize>::empty());
            assert(indices_of(cells@) + self@.list_from(cursor) =~= self@.all_list());
        }
        loop
            invariant
                self@.wf(),
                cursor is Some ==> self@.live(cursor->0 as int),
                indices_of(cells@) + self@.list_from(cursor) == self@.all_list(),
            ensures
                indices_of(cells@) == self@.all_list(),
            decreases
                    (match cursor {
                        Some(i) => i + 1,
                        None => 0,
                    }),
        {
            match cursor {
                None => {
                    proof {
                        assert(indices_of(cells@) + Seq::<usize>::empty() =~= indices_of(cells@));
                    }
                    break ;
                },
                Some(i) => {
                    let next = self.cell(i).next();
                    let ghost before = cells@;
                    cells.push(Gc::from_index(i));
                    proof {
                        assert(self@.next_wf(i as int));
                        assert(indices_of(cells@) =~= indices_of(before).push(i));
                        assert(self@.list_from(cursor) == seq![i] + self@.list_from(next));
                        assert(indices_of(cells@) + self@.list_from(next) =~= indices_of(before)
                            + self@.list_from(cursor));
                    }
                    cursor = next;
                },
            }
        }
        cells
    }

    /// Whether the handle names a slot that this context has given out,
    /// whether or not its cell is still there.
    pub fn gave_out(&self, gc: Gc<T>) -> (given: bool)
        ensures
            given == (gc@ < self@.cells.len()),
    {
        gc.index() < self.cells.len()
    }

    /// Whether the handle names a cell that has not been destroyed.
    pub fn is_live(&self, gc: Gc<T>) -> (live: bool)
        ensures
            live == self@.live(gc@ as int),
    {
        let i = gc.index();
        i < self.cells.len() && self.cells[i].is_some()
    }

    /// The colour of the cell that the handle names, if it names one.
    pub fn color_of(&self, gc: Gc<T>) -> (color: Option<GcColor>)
        ensures
            color == if self@.live(gc@ as int) {
                Some(self@.cell(gc@ as int).color)
            } else {
                None
            },
    {
        if self.is_live(gc) {
            Some(self.cell(gc.index()).color())
        } else {
            None
        }
    }

    /// The root count of the cell that the handle names, if it names one.
    pub fn root_count_of(&self, gc: Gc<T>) -> (count: Option<usize>)
        ensures
            count == if self@.live(gc@ as int) {
                Some(self@.cell(gc@ as int).root_count)
            } else {
                None
            },
    {
        if self.is_live(gc) {
            Some(self.cell(gc.index()).root_count())
        } else {
            None
        }
    }

    /// The payload of the cell that the handle names, if it names one.
    pub fn get(&self, gc: Gc<T>) -> (value: Option<&T>)
        ensures
            match value {
                Some(value) => self@.live(gc@ as int) && *value == self@.cell(gc@ as int).value,
                None => !self@.live(gc@ as int),
            },
    {
        if self.is_live(gc) {
            Some(self.cell(gc.index()).value())
        } else {
            None
        }
    }

    /// Roots the cell of `gc` and returns the rooted handle that stands for
    /// it. A white cell turns light-gray and joins the back of the gray
    /// queue, so that it has the longest time to lose its root again before
    /// it is traced.
    pub fn root(&mut self, gc: Gc<T>) -> (rgc: Rgc<T>)
        requires
            old(self)@.wf(),
            old(self)@.live(gc@ as int),
            old(self)@.cell(gc@ as int).root_count < usize::MAX,
        ensures
            final(self)@ == old(self)@.after_root(gc@),
            final(self)@.wf(),
            rgc.spec_gc() == gc,
    {
        let i = gc.index();
        let white = self.cell(i).color() == GcColor::White;
        match &mut self.cells[i] {
            Some(cell) => {
                cell.add_root();
                if white {
                    cell.set_color(GcColor::LightGray);
                }
            },
            None => {},
        }
        if white {
            self.gray.push_back(i);
        }
        proof {
            assert(self@.cells =~= old(self)@.after_root(i).cells);
            lemma_root_wf(old(self)@, i);
        }
        Rgc::from_gc(gc)
    }

    /// Makes a second rooted handle to the cell of `rgc`.
    pub fn clone_root(&mut self, rgc: &Rgc<T>) -> (copy: Rgc<T>)
        requires
            old(self)@.wf(),
            old(self)@.live(rgc.spec_gc()@ as int),
            old(self)@.cell(rgc.spec_gc()@ as int).root_count < usize::MAX,
        ensures
            final(self)@ == old(self)@.after_share(rgc.spec_gc()@),
            final(self)@.wf(),
            copy.spec_gc() == rgc.spec_gc(),
    {
        let i = rgc.gc().index();
        match &mut self.cells[i] {
            Some(cell) => {
                cell.add_root();
            },
            None => {},
        }
        proof {
            assert(self@.cells =~= old(self)@.after_share(i).cells);
            lemma_count_wf(
                old(self)@,
                i,
                (old(self)@.cell(i as int).root_count + 1) as usize,
            );
        }
        Rgc::from_gc(rgc.gc())
    }

    /// Gives up a rooted handle. The cell stays where it is: it is freed by
    /// a later sweep if marking does not reach it.
    pub fn unroot(&mut self, rgc: Rgc<T>)
        requires
            old(self)@.wf(),
            old(self)@.live(rgc.spec_gc()@ as int),
            old(self)@.cell(rgc.spec_gc()@ as int).root_count > 0,
        ensures
            final(self)@ == old(self)@.after_unroot(rgc.spec_gc()@),
            final(self)@.wf(),
    {
        let i = rgc.gc().index();
        match &mut self.cells[i] {
            Some(cell) => {
                let destroy = cell.release_root();
                assert(!destroy);
            },
            None => {},
        }
        proof {
            assert(self@.cells =~= old(self)@.after_unroot(i).cells);
            lemma_count_wf(
                old(self)@,
                i,
                (old(self)@.cell(i as int).root_count - 1) as usize,
            );
        }
    }

    /// The write barrier, to be triggered on a cell whose payload is about
    /// to hold, or has just come to hold, a handle it did not hold before.
    /// While the collector propagates, a black cell goes back to dark-gray
    /// and to the back of the gray queue; otherwise nothing happens.
    pub fn write_barrier(&mut self, gc: Gc<T>)
        requires
            old(self)@.wf(),
            old(self)@.live(gc@ as int),
        ensures
            final(self)@ == old(self)@.after_barrier(gc@),
            final(self)@.wf(),
    {
        let i = gc.index();
        if self.phase == GcPhase::Propagating {
            if self.cell(i).color() == GcColor::Black {
                self.paint(i, GcColor::DarkGray);
                self.gray.push_back(i);
            }
        }
        proof {
            lemma_barrier_wf(old(self)@, i);
        }
    }

    /// Puts `value` in the cell of `gc` and returns the payload it held.
    ///
    /// The state must admit the payload: while the collector propagates, a
    /// black cell takes only a payload whose handles all lead to dark-gray
    /// or black cells. Triggering the write barrier on the cell first makes
    /// any payload admissible.
    pub fn replace(&mut self, gc: Gc<T>, value: T) -> (previous: T)
        requires
            old(self)@.wf(),
            old(self)@.live(gc@ as int),
            old(self)@.admits(gc@, value),
        ensures
            final(self)@ == old(self)@.after_replace(gc@, value),
            final(self)@.wf(),
            previous == old(self)@.cell(gc@ as int).value,
    {
        let i = gc.index();
        let mut held = value;
        match &mut self.cells[i] {
            Some(cell) => {
                held = cell.replace_value(held);
            },
            None => {},
        }
        proof {
            assert(self@.cells =~= old(self)@.after_replace(i, value).cells);
            lemma_replace_wf(old(self)@, i, value);
        }
        held
    }

}

/// The moves that the operations are made of.
impl<T: GcObject> GcContext<T> {
    /// The cell in slot `i`.
    pub(crate) fn cell(&self, i: usize) -> (cell: &GcBox<T>)
        requires
            self@.live(i as int),
        ensures
            cell@ == self@.cell(i as int),
    {
        match &self.cells[i] {
            Some(cell) => cell,
            None => vstd::pervasive::unreached(),
        }
    }

    /// Has the payload of the cell in slot `i` report what it holds to an
    /// empty tracer.
    pub(crate) fn trace_cell(&mut self, i: usize, tracer: &mut GcTracer<T>) -> (traced: bool)
        requires
            old(self)@.live(i as int),
            old(tracer)@.len() == 0,
        ensures
            final(self)@ == old(self)@.after_replace(i, final(self)@.cell(i as int).value),
            traces_as(
                old(self)@.cell(i as int).value,
                final(self)@.cell(i as int).value,
                final(tracer)@,
                traced,
            ),
    {
        let mut traced = false;
        match &mut self.cells[i] {
            Some(cell) => {
                traced = cell.trace(tracer);
            },
            None => {},
        }
        proof {
            assert(self@.cells =~= old(self)@.after_replace(
                i,
                self@.cell(i as int).value,
            ).cells);
        }
        traced
    }

    /// Puts `i` at the back of the gray queue.
    pub(crate) fn push_gray_back(&mut self, i: usize)
        ensures
            final(self)@ == old(self)@.enqueue_back(i),
    {
        self.gray.push_back(i);
    }

    /// Puts `i` at the front of the gray queue.
    pub(crate) fn push_gray_front(&mut self, i: usize)
        ensures
            final(self)@ == old(self)@.enqueue_front(i),
    {
        self.gray.push_front(i);
    }

    /// Takes the front off the gray queue.
    pub(crate) fn pop_gray(&mut self) -> (front: Option<usize>)
        ensures
            match front {
                Some(i) => old(self)@.gray.len() > 0 && i == old(self)@.gray[0] && final(self)@
                    == old(self)@.dequeue(),
                None => old(self)@.gray.len() == 0 && final(self)@ == old(self)@,
            },
    {
        self.gray.pop_front()
    }

    /// Wakes the collector.
    pub(crate) fn wake(&mut self)
        ensures
            final(self)@ == old(self)@.after_wake(),
    {
        self.phase = GcPhase::Propagating;
    }

    /// Passes from propagating to sweeping.
    pub(crate) fn begin_sweep(&mut self)
        ensures
            final(self)@ == old(self)@.after_begin_sweep(),
    {
        self.phase = GcPhase::Sweeping;
        self.sweep = self.all;
    }

    /// The cell that the sweep visits next.
    pub(crate) fn sweep_cursor(&self) -> (cursor: Option<usize>)
        ensures
            cursor == self@.sweep,
    {
        self.sweep
    }

    /// The sweep visits the cell in slot `i`, which is at its cursor: a
    /// white cell is unlinked and destroyed, which spends a unit of work;
    /// any other cell turns white and stays.
    pub(crate) fn sweep_visit(&mut self, i: usize) -> (step: crate::collect::GcStep)
        requires
            old(self)@.sweep == Some(i),
            old(self)@.live(i as int),
            old(self)@.sweep_prev is Some ==> old(self)@.live(old(self)@.sweep_prev->0 as int)
                && old(self)@.sweep_prev->0 != i,
        ensures
            final(self)@ == old(self)@.after_sweep_visit(),
            step == if old(self)@.cell(i as int).color == GcColor::White {
                crate::collect::GcStep::Worked
            } else {
                crate::collect::GcStep::Idle
            },
    {
        let next = self.cell(i).next();
        self.sweep = next;
        if self.cell(i).color() == GcColor::White {
            match self.sweep_prev {
                Some(p) => {
                    self.link(p, next);
                },
                None => {
                    self.all = next;
                },
            }
            self.clear(i);
            crate::collect::GcStep::Worked
        } else {
            self.paint(i, GcColor::White);
            self.sweep_prev = Some(i);
            crate::collect::GcStep::Idle
        }
    }

    /// Goes to sleep at the end of the sweep.
    pub(crate) fn end_sweep(&mut self)
        ensures
            final(self)@ == old(self)@.after_end_sweep(),
    {
        self.sweep_prev = None;
        self.phase = GcPhase::Sleeping;
    }

    /// Counts one allocation: the total grows, a sleeping collector wakes
    /// once the total passes the wake-up threshold, and a collector that is
    /// awake takes on debt. Says whether the debt calls for a step.
    pub(crate) fn count_allocation(&mut self) -> (due: bool)
        requires
            old(self)@.total_allocated < usize::MAX,
        ensures
            final(self)@ == old(self)@.after_charge(),
            due == final(self)@.step_is_due(),
    {
        self.total_allocated = self.total_allocated + 1;
        if self.phase == GcPhase::Sleeping {
            if self.total_allocated > self.wakeup_total {
                self.phase = GcPhase::Propagating;
            }
        }
        if self.phase != GcPhase::Sleeping {
            self.allocation_debt = self.parameters.charge(self.allocation_debt);
            self.parameters.is_due(self.allocation_debt)
        } else {
            false
        }
    }

    /// Puts a fresh cell around `value` in a new slot, at the head of the
    /// list of all cells, and returns the slot.
    pub(crate) fn link_fresh(&mut self, value: T) -> (slot: usize)
        ensures
            final(self)@ == old(self)@.after_insert(value),
            slot == old(self)@.cells.len(),
    {
        let slot = self.cells.len();
        self.cells.push(Some(Box::new(GcBox::new(value, self.all))));
        self.all = Some(slot);
        if self.phase == GcPhase::Sweeping {
            if self.sweep_prev.is_none() {
                self.sweep_prev = Some(slot);
            }
        }
        proof {
            assert(self@.cells =~= old(self)@.after_insert(value).cells);
        }
        slot
    }

    /// Gives up the context and hands out its arena and the head of the
    /// list of all cells.
    pub(crate) fn into_cells(self) -> (parts: (Vec<Option<Box<GcBox<T>>>>, Option<usize>))
        ensures
            parts.0@.map_values(|slot: Option<Box<GcBox<T>>>| slot_state(slot)) == self@.cells,
            parts.1 == self@.all,
    {
        (self.cells, self.all)
    }

    /// Repaints the cell in slot `i`.
    pub(crate) fn paint(&mut self, i: usize, color: GcColor)
        requires
            old(self)@.live(i as int),
        ensures
            final(self)@ == old(self)@.paint(i as int, color),
    {
        match &mut self.cells[i] {
            Some(cell) => {
                cell.set_color(color);
            },
            None => {},
        }
        proof {
            assert(self@.cells =~= old(self)@.paint(i as int, color).cells);
        }
    }

    /// Links the cell in slot `i` in front of `next`.
    pub(crate) fn link(&mut self, i: usize, next: Option<usize>)
        requires
            old(self)@.live(i as int),
        ensures
            final(self)@ == old(self)@.with_cell(
                i as int,
                old(self)@.cell(i as int).linked(next),
            ),
    {
        match &mut self.cells[i] {
            Some(cell) => {
                cell.set_next(next);
            },
            None => {},
        }
        proof {
            assert(self@.cells =~= old(self)@.with_cell(
                i as int,
                old(self)@.cell(i as int).linked(next),
            ).cells);
        }
    }

    /// Destroys the cell in slot `i`.
    pub(crate) fn clear(&mut self, i: usize)
        requires
            i < old(self)@.cells.len(),
        ensures
            final(self)@ == old(self)@.without_cell(i as int),
    {
        self.cells[i] = None;
        proof {
            assert(self@.cells =~= old(self)@.without_cell(i as int).cells);
        }
    }
}

impl<T: GcObject> Gc<T> {
    /// The payload of the cell that the handle names. The handle must name
    /// a cell of `context` that has not been destroyed.
    pub fn as_ref<'a>(&self, context: &'a GcContext<T>) -> (value: &'a T)
        requires
            context@.live(self@ as int),
        ensures
            *value == context@.cell(self@ as int).value,
    {
        context.cell(self.index()).value()
    }
}

impl<T: GcObject> Rgc<T> {
    /// The payload of the rooted cell. The handle must name a cell of
    /// `context` that has not been destroyed.
    pub fn as_ref<'a>(&self, context: &'a GcContext<T>) -> (value: &'a T)
        requires
            context@.live(self.spec_gc()@ as int),
        ensures
            *value == context@.cell(self.spec_gc()@ as int).value,
    {
        context.cell(self.gc().index()).value()
    }
}

} // verus!
