//! The incremental collection: marking, sweeping, and the full cycle.

use crate::context::GcContext;
use crate::cycle::{
    lemma_begin_sweep_collects, lemma_collects_reflexive, lemma_end_sweep_collects,
    lemma_skip_calm, lemma_skip_propagates, lemma_sweep_visit_calm, lemma_sweep_visit_collects,
    lemma_traced_propagates,
};
use crate::flags::GcColor;
use crate::handle::{indices_of, Gc};
use crate::laws::{lemma_reachable_survives, lemma_unreachable_freed};
use crate::marking::{lemma_marks_darken, lemma_marks_step, lemma_traced_wf};
use crate::progress::{lemma_skip_nearer, lemma_sweep_visit_nearer, lemma_traced_nearer};
use crate::run::{lemma_run_begins, lemma_run_done, lemma_run_goes_on, TraceOutcome};
use crate::state::{GcPhase, GcState};
use crate::tracer::{GcObject, GcTracer};
use crate::wellformed::{
    lemma_begin_sweep_wf, lemma_end_sweep_wf, lemma_skip_wf, lemma_sweep_visit_wf, lemma_wake_wf,
};
use vstd::prelude::*;

verus! {

/// How one step of collection ended.
#[derive(Clone, Copy, PartialEq, Eq, Debug, Structural)]
pub enum GcStep {
    /// A cell was painted black or freed: one unit of work is spent.
    Worked,
    /// The state moved on without spending work.
    Idle,
    /// Every cell of the gray queue is blocked: nothing can be done for now.
    Stalled,
}

impl<T: GcObject> GcContext<T> {
    /// Marks the target of one traced handle: a white cell turns dark-gray
    /// and joins the front of the gray queue, a light-gray cell turns
    /// dark-gray where it stands in the queue, a dark-gray or black cell and
    /// a destroyed one are left alone.
    pub fn mark(&mut self, gc: Gc<T>)
        ensures
            final(self)@ == old(self)@.after_mark(gc@),
    {
        if self.is_live(gc) {
            let i = gc.index();
            match self.cell(i).color() {
                GcColor::Black | GcColor::DarkGray => {},
                GcColor::LightGray => {
                    self.paint(i, GcColor::DarkGray);
                },
                GcColor::White => {
                    self.paint(i, GcColor::DarkGray);
                    self.push_gray_front(i);
                },
            }
        }
    }

    /// Settles the cell of `gc` after its payload was traced: marks what
    /// the payload reported to `tracer`; then paints the cell black if
    /// tracing went through, and else puts it at the back of the gray queue
    /// and counts it in `blocked`, the number of cells blocked in a row.
    /// With as many cells blocked in a row as the queue holds, the queue is
    /// stalled.
    pub fn settle_traced(
        &mut self,
        gc: Gc<T>,
        tracer: &GcTracer<T>,
        traced: bool,
        blocked: &mut usize,
    ) -> (step: GcStep)
        requires
            old(self)@.live(gc@ as int),
            *old(blocked) < usize::MAX,
        ensures
            final(self)@ == old(self)@.after_traced(gc@, indices_of(tracer@), traced),
            final(self)@.gray.len() <= usize::MAX,
            traced ==> step == GcStep::Worked && *final(blocked) == 0,
            !traced ==> *final(blocked) == *old(blocked) + 1 && step == if *final(blocked)
                >= final(self)@.gray.len() {
                GcStep::Stalled
            } else {
                GcStep::Idle
            },
    {
        let i = gc.index();
        let ghost reported = indices_of(tracer@);
        let n = tracer.len();
        let mut k: usize = 0;
        proof {
            assert(reported.take(0) =~= Seq::empty());
        }
        while k < n
            invariant
                n == tracer@.len(),
                reported == indices_of(tracer@),
                k <= n,
                self@ == old(self)@.after_marks(reported.take(k as int)),
            decreases n - k,
        {
            let held = tracer.get(k);
            self.mark(held);
            proof {
                assert(reported[k as int] == held@);
                lemma_marks_step(old(self)@, reported, k as int);
            }
            k = k + 1;
        }
        proof {
            assert(reported.take(n as int) =~= reported);
            lemma_marks_darken(old(self)@, reported);
            assert(self@.live(i as int) == old(self)@.live(i as int));
        }
        if traced {
            self.paint(i, GcColor::Black);
            *blocked = 0;
            let _ = self.gray_len();
            GcStep::Worked
        } else {
            self.push_gray_back(i);
            *blocked = *blocked + 1;
            if *blocked >= self.gray_len() {
                GcStep::Stalled
            } else {
                GcStep::Idle
            }
        }
    }

    /// One step of the collector: while propagating, it takes the front of
    /// the gray queue and traces it, drops it, or finds the queue empty and
    /// passes to the sweep; while sweeping, it visits the cell at the cursor
    /// or finds the list at its end and goes to sleep. `start` is the state
    /// in which the run began. Returns how the step ended and what tracing
    /// gave, if the step traced.
    fn step(&mut self, blocked: &mut usize, Ghost(start): Ghost<GcState<T>>) -> (result: (
        GcStep,
        Ghost<TraceOutcome<T>>,
    ))
        requires
            old(self)@.wf(),
            old(self)@.phase != GcPhase::Sleeping,
            *old(blocked) < usize::MAX,
            start.phase != GcPhase::Sleeping,
            start.phase == GcPhase::Sweeping ==> start.wf(),
            start.collects_to(old(self)@),
        ensures
            final(self)@.wf(),
            start.collects_to(final(self)@),
            final(self)@ == old(self)@.after_step(result.1@),
            old(self)@.step_traces() ==> old(self)@.admits_outcome(result.1@),
            *final(blocked) == old(self)@.blocked_after(*old(blocked), result.1@, false),
            result.0 == GcStep::Worked <==> old(self)@.step_works(result.1@),
            result.0 == GcStep::Stalled <==> old(self)@.step_stalls(*old(blocked), result.1@),
            result.0 != GcStep::Stalled ==> *final(blocked) < usize::MAX,
            old(self)@.nearer(*old(blocked), final(self)@, *final(blocked)),
            result.0 == GcStep::Stalled ==> old(self)@.nearer(*old(blocked), final(self)@, 0),
            result.0 == GcStep::Stalled ==> final(self)@.phase == GcPhase::Propagating
                && final(self)@.gray.len() > 0,
            old(self)@.calm() ==> final(self)@.calm() && !old(self)@.step_traces(),
    {
        let ghost idle: TraceOutcome<T> = arbitrary();
        proof {
            if old(self)@.calm() && old(self)@.gray.len() > 0 {
                assert(old(self)@.live(old(self)@.gray[0] as int));
                assert(!old(self)@.rooted(old(self)@.gray[0] as int));
            }
        }
        match self.phase() {
            GcPhase::Sleeping => (GcStep::Idle, Ghost(idle)),
            GcPhase::Propagating => {
                match self.pop_gray() {
                    Some(i) => {
                        let color = self.cell(i).color();
                        let rooted = self.cell(i).is_rooted();
                        if color == GcColor::DarkGray || rooted {
                            let mut tracer = GcTracer::new();
                            let traced = self.trace_cell(i, &mut tracer);
                            let ghost value = self@.cell(i as int).value;
                            let ghost reported = indices_of(tracer@);
                            proof {
                                let held = old(self)@.children(i as int);
                                assert(self@ == old(self)@.after_replace(i, value).dequeue());
                                assert forall|m: int|
                                    0 <= m < reported.len() implies old(self)@.points_to(
                                    i as int,
                                    #[trigger] reported[m] as int,
                                ) by {
                                    assert(held.contains(tracer@[m]));
                                    let c = choose|c: int|
                                        0 <= c < held.len() && held[c] == tracer@[m];
                                    assert(held[c]@ == reported[m]);
                                }
                                lemma_traced_wf(old(self)@, value, reported, traced);
                                lemma_traced_nearer(
                                    old(self)@,
                                    value,
                                    reported,
                                    traced,
                                    *blocked,
                                    0,
                                );
                                lemma_traced_nearer(
                                    old(self)@,
                                    value,
                                    reported,
                                    traced,
                                    *blocked,
                                    (*blocked + 1) as usize,
                                );
                                lemma_traced_propagates(
                                    start,
                                    old(self)@,
                                    value,
                                    reported,
                                    traced,
                                );
                            }
                            let step = self.settle_traced(
                                Gc::from_index(i),
                                &tracer,
                                traced,
                                blocked,
                            );
                            (step, Ghost(TraceOutcome { value, reported, traced }))
                        } else {
                            if color == GcColor::LightGray {
                                self.paint(i, GcColor::White);
                            }
                            proof {
                                lemma_skip_wf(old(self)@);
                                lemma_skip_nearer(old(self)@, *blocked);
                                lemma_skip_propagates(start, old(self)@);
                                if old(self)@.calm() {
                                    lemma_skip_calm(old(self)@);
                                }
                            }
                            (GcStep::Idle, Ghost(idle))
                        }
                    },
                    None => {
                        self.begin_sweep();
                        proof {
                            lemma_begin_sweep_wf(old(self)@);
                            lemma_begin_sweep_collects(start, old(self)@);
                        }
                        (GcStep::Idle, Ghost(idle))
                    },
                }
            },
            GcPhase::Sweeping => {
                match self.sweep_cursor() {
                    Some(i) => {
                        proof {
                            assert(old(self)@.sweeping_wf());
                            lemma_sweep_visit_wf(old(self)@);
                            lemma_sweep_visit_nearer(old(self)@, *blocked);
                            lemma_sweep_visit_collects(start, old(self)@);
                            if old(self)@.calm() {
                                lemma_sweep_visit_calm(old(self)@);
                            }
                        }
                        let step = self.sweep_visit(i);
                        (step, Ghost(idle))
                    },
                    None => {
                        self.end_sweep();
                        proof {
                            lemma_end_sweep_wf(old(self)@);
                            lemma_end_sweep_collects(start, old(self)@);
                        }
                        (GcStep::Idle, Ghost(idle))
                    },
                }
            },
        }
    }

    /// Does collection work until `work` units are spent, the collector is
    /// asleep, or the gray queue is stalled, and returns the units that are
    /// left. A unit is spent on each cell that is painted black or freed.
    ///
    /// The state it ends in is the one that the run leads to for what the
    /// traced payloads reported; from a calm state no payload is traced.
    pub fn do_collection(&mut self, work: u64) -> (left: u64)
        requires
            old(self)@.wf(),
        ensures
            final(self)@.wf(),
            old(self)@.collects_to(final(self)@),
            old(self)@.runs_to(Some(work), false, final(self)@, Some(left)),
            left <= work,
            left == 0 || final(self)@.phase == GcPhase::Sleeping || (final(self)@.phase
                == GcPhase::Propagating && final(self)@.gray.len() > 0),
            old(self)@.calm() ==> (final(self)@, Some(left)) == old(self)@.after_run(
                Some(work),
                0,
                Seq::empty(),
                false,
            ),
            old(self)@.calm() ==> left == 0 || final(self)@.phase == GcPhase::Sleeping,
    {
        let mut left = work;
        let mut blocked: usize = 0;
        let ghost start = self@;
        let ghost mut log: Seq<TraceOutcome<T>> = Seq::empty();
        proof {
            lemma_collects_reflexive(start);
            lemma_run_begins(start, Some(work), false);
        }
        loop
            invariant_except_break
                blocked < usize::MAX,
                start.calm() ==> self@.calm(),
                start.run_continues(Some(work), false, log, self@, Some(left), blocked),
            invariant
                self@.wf(),
                start.wf(),
                start.collects_to(self@),
                left <= work,
                start.calm() ==> log.len() == 0,
            ensures
                left == 0 || self@.phase == GcPhase::Sleeping || (self@.phase
                    == GcPhase::Propagating && self@.gray.len() > 0),
                start.calm() ==> left == 0 || self@.phase == GcPhase::Sleeping,
                start.after_run(Some(work), 0, log, false) == (self@, Some(left)),
                start.run_admits(Some(work), 0, log, false),
            decreases
                    self@.rank(),
                    self@.backlog(),
                    self@.queued(),
                    self@.refusals_left(),
                    self@.slack(blocked),
        {
            if left == 0 || self.phase() == GcPhase::Sleeping {
                proof {
                    lemma_run_done(start, Some(work), false, log, self@, Some(left), blocked);
                }
                break ;
            }
            let ghost before = self@;
            let ghost before_blocked = blocked;
            let ghost before_left = left;
            let ghost before_log = log;
            let (step, Ghost(outcome)) = self.step(&mut blocked, Ghost(start));
            proof {
                if before.step_traces() {
                    log = before_log.push(outcome);
                }
                lemma_run_goes_on(
                    start,
                    Some(work),
                    false,
                    before_log,
                    before,
                    Some(before_left),
                    before_blocked,
                    outcome,
                );
            }
            match step {
                GcStep::Worked => {
                    left = left - 1;
                },
                GcStep::Idle => {},
                GcStep::Stalled => {
                    break ;
                },
            }
        }
        proof {
            if start.calm() {
                assert(log =~= Seq::empty());
            }
        }
        left
    }

    /// Runs a full cycle if the collector is asleep: it wakes, marks from
    /// the gray queue, sweeps, and goes back to sleep. A collector that is
    /// not asleep is left alone.
    ///
    /// A cell whose payload refuses to be traced goes to the back of the
    /// gray queue and is tried again, also where every cell left in the
    /// queue has refused: each refusal brings a payload nearer to being
    /// traced, so the cycle comes to its end.
    pub fn collect_garbage(&mut self)
        requires
            old(self)@.wf(),
        ensures
            final(self)@.wf(),
            old(self)@.phase != GcPhase::Sleeping ==> final(self)@ == old(self)@,
            old(self)@.phase == GcPhase::Sleeping ==> {
                &&& final(self)@.phase == GcPhase::Sleeping
                &&& final(self)@.gray.len() == 0
                &&& final(self)@.sweep is None
                &&& final(self)@.sweep_prev is None
                &&& old(self)@.after_wake().is_cycle_result(final(self)@)
                &&& old(self)@.after_wake().runs_to(None, true, final(self)@, None)
            },
            old(self)@.phase == GcPhase::Sleeping ==> forall|root: int, cell: int|
                old(self)@.rooted(root) && old(self)@.gray.contains(root as usize)
                    && #[trigger] old(self)@.reaches(root, cell) ==> final(self)@.live(cell),
            old(self)@.phase == GcPhase::Sleeping ==> forall|cell: int|
                !old(self)@.reachable_from_root(cell) ==> !#[trigger] final(self)@.live(cell),
    {
        if self.phase() == GcPhase::Sleeping {
            self.wake();
            let ghost start = self@;
            let ghost mut log: Seq<TraceOutcome<T>> = Seq::empty();
            proof {
                lemma_wake_wf(old(self)@);
                lemma_collects_reflexive(start);
                lemma_run_begins(start, None, true);
            }
            let mut blocked: usize = 0;
            loop
                invariant_except_break
                    blocked < usize::MAX,
                    start.run_continues(None, true, log, self@, None, blocked),
                invariant
                    self@.wf(),
                    start.phase == GcPhase::Propagating,
                    start.collects_to(self@),
                ensures
                    self@.phase == GcPhase::Sleeping,
                    start.after_run(None, 0, log, true) == (self@, None::<u64>),
                    start.run_admits(None, 0, log, true),
                decreases
                        self@.rank(),
                        self@.backlog(),
                        self@.queued(),
                        self@.refusals_left(),
                        self@.slack(blocked),
            {
                if self.phase() == GcPhase::Sleeping {
                    proof {
                        lemma_run_done(start, None, true, log, self@, None, blocked);
                    }
                    break ;
                }
                let ghost before = self@;
                let ghost before_blocked = blocked;
                let ghost before_log = log;
                let (step, Ghost(outcome)) = self.step(&mut blocked, Ghost(start));
                if step == GcStep::Stalled {
                    blocked = 0;
                }
                proof {
                    if before.step_traces() {
                        log = before_log.push(outcome);
                    }
                    lemma_run_goes_on(
                        start,
                        None,
                        true,
                        before_log,
                        before,
                        None,
                        before_blocked,
                        outcome,
                    );
                }
            }
            proof {
                assert forall|root: int, cell: int|
                    old(self)@.rooted(root) && old(self)@.gray.contains(root as usize)
                        && #[trigger] old(self)@.reaches(root, cell) implies self@.live(cell) by {
                    let path = choose|path: Seq<int>| #[trigger]
                        old(self)@.joins(path, root, cell);
                    assert(old(self)@.live(path[path.len() - 1]));
                    lemma_reachable_survives(old(self)@, self@, root, cell);
                }
                assert forall|cell: int| !old(self)@.reachable_from_root(cell) implies !#[trigger]
                self@.live(cell) by {
                    lemma_unreachable_freed(old(self)@, self@, cell);
                }
            }
        }
    }
}

} // verus!
