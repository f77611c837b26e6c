//! What a run of the collector does to a state: which cells it keeps, and
//! how the state it has reached relates to the state it started from.

use crate::flags::GcColor;
use crate::marking::lemma_marks_darken;
use crate::reach::{
    lemma_black_closed, lemma_protected_step, lemma_same_cells_path, lemma_source_protected,
};
use crate::state::{GcPhase, GcState};
use crate::tracer::GcObject;
use crate::wellformed::lemma_retraced_wf;
use vstd::prelude::*;

verus! {

impl<T: GcObject> GcState<T> {
    /// Whether the cell in slot `j` is still there when the cycle that is
    /// running in this state has ended: while propagating, the cells that a
    /// source reaches; while sweeping, the cells that the sweep has passed
    /// and those that are not white.
    pub open spec fn survives(self, j: int) -> bool {
        self.live(j) && match self.phase {
            GcPhase::Sleeping => true,
            GcPhase::Propagating => self.protected(j),
            GcPhase::Sweeping => !self.unswept(j) || self.cell(j).color != GcColor::White,
        }
    }

    /// The colour in which the sweep of the running cycle finds the cell in
    /// slot `j`.
    pub open spec fn color_when_swept(self, j: int) -> GcColor {
        if self.phase == GcPhase::Propagating {
            if self.protected(j) {
                GcColor::Black
            } else {
                GcColor::White
            }
        } else {
            self.cell(j).color
        }
    }

    /// The colour of the cell in slot `j` when the running cycle has ended.
    pub open spec fn color_after_cycle(self, j: int) -> GcColor {
        match self.phase {
            GcPhase::Sleeping => self.cell(j).color,
            GcPhase::Propagating => GcColor::White,
            GcPhase::Sweeping => if self.unswept(j) {
                GcColor::White
            } else {
                self.cell(j).color
            },
        }
    }

    /// The gray queue when the running cycle has ended.
    pub open spec fn gray_after_cycle(self) -> Seq<usize> {
        if self.phase == GcPhase::Propagating {
            Seq::empty()
        } else {
            self.gray
        }
    }

    /// `other` is a state that propagation reaches from this state: the
    /// cells are the same but for their colours; whatever is marked by now,
    /// and every rooted cell in the queue, is protected in this state; and
    /// every source of this state is still a source.
    pub open spec fn propagates_to(self, other: GcState<T>) -> bool {
        &&& self.phase == GcPhase::Propagating
        &&& other == (GcState { cells: other.cells, gray: other.gray, ..self })
        &&& self.same_cells(other)
        &&& forall|j: int| #[trigger] other.marked(j) ==> self.protected(j)
        &&& forall|k: int|
            0 <= k < other.gray.len() && other.rooted(#[trigger] other.gray[k] as int)
                ==> self.protected(other.gray[k] as int)
        &&& forall|j: int| #[trigger] self.source(j) ==> other.source(j)
    }

    /// `other` is a state that the sweep of the running cycle reaches from
    /// this state: below the cursor the cells stand as the sweep will find
    /// them, above it stand the cells that the cycle keeps, as it leaves
    /// them.
    pub open spec fn sweeps_to(self, other: GcState<T>) -> bool {
        &&& self.phase != GcPhase::Sleeping
        &&& other == (GcState {
            phase: GcPhase::Sweeping,
            cells: other.cells,
            all: other.all,
            sweep: other.sweep,
            sweep_prev: other.sweep_prev,
            gray: self.gray_after_cycle(),
            ..self
        })
        &&& other.cells.len() == self.cells.len()
        &&& self.phase == GcPhase::Sweeping ==> forall|j: int|
            other.unswept(j) ==> #[trigger] self.unswept(j)
        &&& forall|j: int|
            #![trigger other.live(j)]
            #![trigger self.live(j)]
            0 <= j < self.cells.len() ==> if other.unswept(j) {
                &&& other.live(j) == self.live(j)
                &&& self.live(j) ==> self.found_as(j, other)
            } else {
                &&& other.live(j) == self.survives(j)
                &&& other.live(j) ==> self.kept_as(j, other)
            }
    }

    /// The cell in slot `j` stands in `other` as the sweep of the running
    /// cycle finds it: with its link, root count and detached mark, holding
    /// the same handles, and in the colour in which the sweep finds it.
    pub open spec fn found_as(self, j: int, other: GcState<T>) -> bool {
        &&& other.cell(j).next == self.cell(j).next
        &&& other.cell(j).value.children() == self.cell(j).value.children()
        &&& other.cell(j).root_count == self.cell(j).root_count
        &&& other.cell(j).detached == self.cell(j).detached
        &&& other.cell(j).color == self.color_when_swept(j)
    }

    /// The cell in slot `j` stands in `other` as the running cycle leaves
    /// it: with its root count and detached mark, holding the same handles,
    /// and in the colour it has after the cycle.
    pub open spec fn kept_as(self, j: int, other: GcState<T>) -> bool {
        &&& other.cell(j).value.children() == self.cell(j).value.children()
        &&& other.cell(j).root_count == self.cell(j).root_count
        &&& other.cell(j).detached == self.cell(j).detached
        &&& other.cell(j).color == self.color_after_cycle(j)
    }

    /// `other` is the state in which the running cycle ends: asleep, with
    /// exactly the cells that survive, each as the cycle leaves it. With
    /// the invariant, which fixes the links, this determines `other`.
    pub open spec fn is_cycle_result(self, other: GcState<T>) -> bool {
        &&& other == (GcState {
            phase: GcPhase::Sleeping,
            cells: other.cells,
            all: other.all,
            sweep: None,
            sweep_prev: None,
            gray: self.gray_after_cycle(),
            ..self
        })
        &&& other.cells.len() == self.cells.len()
        &&& forall|j: int|
            #![trigger other.live(j)]
            #![trigger self.live(j)]
            0 <= j < self.cells.len() ==> {
                &&& other.live(j) == self.survives(j)
                &&& other.live(j) ==> self.kept_as(j, other)
            }
    }

    /// `other` is a state in which an allocation may find the collector
    /// when it links its cell: the allocation is counted, and where the debt
    /// calls for it, a run of the collector has followed.
    pub open spec fn allocation_leads_to(self, other: GcState<T>) -> bool {
        let charged = self.after_charge();
        if charged.step_is_due() {
            &&& charged.collects_to(other)
            &&& exists|left: Option<u64>| #[trigger]
                charged.runs_to(
                    Some(charged.parameters.step_work()),
                    false,
                    other,
                    left,
                )
        } else {
            other == charged
        }
    }

    /// No entry of the gray queue is going to be traced: none is dark-gray
    /// or rooted. A run from such a state calls no payload and so cannot be
    /// blocked.
    pub open spec fn calm(self) -> bool {
        forall|k: int|
            0 <= k < self.gray.len() ==> !self.rooted(#[trigger] self.gray[k] as int)
                && self.cell(self.gray[k] as int).color != GcColor::DarkGray
    }

    /// `other` is a state that a run of the collector reaches from this
    /// state.
    pub open spec fn collects_to(self, other: GcState<T>) -> bool {
        if self.phase == GcPhase::Sleeping {
            other == self
        } else if other.phase == GcPhase::Sleeping {
            self.is_cycle_result(other)
        } else if other.phase == GcPhase::Sweeping {
            self.sweeps_to(other)
        } else {
            self.propagates_to(other)
        }
    }
}

/// A run that does nothing reaches the state it started from.
pub proof fn lemma_collects_reflexive<T: GcObject>(s: GcState<T>)
    requires
        s.wf(),
    ensures
        s.collects_to(s),
{
    if s.phase == GcPhase::Propagating {
        assert forall|j: int| #[trigger] s.marked(j) implies s.protected(j) by {
            lemma_source_protected(s, j);
        }
        assert forall|k: int|
            0 <= k < s.gray.len() && s.rooted(#[trigger] s.gray[k] as int) implies s.protected(
            s.gray[k] as int,
        ) by {
            lemma_source_protected(s, s.gray[k] as int);
        }
    } else if s.phase == GcPhase::Sweeping {
        assert(s.sweeping_wf());
        assert(s == (GcState {
            phase: GcPhase::Sweeping,
            cells: s.cells,
            all: s.all,
            sweep: s.sweep,
            sweep_prev: s.sweep_prev,
            gray: s.gray_after_cycle(),
            ..s
        }));
    }
}

/// Dropping the front of the gray queue untraced is a move of propagation.
pub proof fn lemma_skip_propagates<T: GcObject>(a: GcState<T>, s: GcState<T>)
    requires
        a.propagates_to(s),
        s.wf(),
        s.gray.len() > 0,
        s.cell(s.gray[0] as int).color != GcColor::DarkGray,
        !s.rooted(s.gray[0] as int),
    ensures
        a.propagates_to(s.after_skip()),
{
    let t = s.after_skip();
    let i = s.gray[0] as int;
    assert(s.live(i));
    assert(forall|j: int| t.live(j) == s.live(j));
    assert(forall|j: int| s.live(j) && j != i ==> t.cell(j) == s.cell(j));
    assert(forall|j: int| a.live(j) == s.live(j));
    assert(a.same_cells(t)) by {
        assert forall|j: int| #![trigger a.live(j)] a.live(j) implies {
            &&& t.cell(j).next == a.cell(j).next
            &&& t.cell(j).value.children() == a.cell(j).value.children()
            &&& t.cell(j).root_count == a.cell(j).root_count
            &&& t.cell(j).detached == a.cell(j).detached
        } by {
            assert(s.live(j));
        }
    }
    assert forall|j: int| #[trigger] t.marked(j) implies a.protected(j) by {
        assert(s.marked(j));
    }
    assert forall|k: int|
        0 <= k < t.gray.len() && t.rooted(#[trigger] t.gray[k] as int) implies a.protected(
        t.gray[k] as int,
    ) by {
        assert(t.gray[k] == s.gray[k + 1]);
        assert(s.rooted(s.gray[k + 1] as int));
    }
    assert forall|j: int| #[trigger] a.source(j) implies t.source(j) by {
        assert(s.source(j));
        if s.marked(j) {
            assert(t.marked(j));
        } else {
            assert(j != i);
            let k = choose|k: int| 0 <= k < s.gray.len() && s.gray[k] == j as usize;
            assert(k != 0);
            assert(t.gray[k - 1] == j as usize);
            assert(t.rooted(j));
        }
    }
}

/// The cell at the front of the gray queue is protected where it is about
/// to be traced, and so is every cell that its payload holds a handle to.
proof fn lemma_traced_protected<T: GcObject>(a: GcState<T>, s: GcState<T>, reported: Seq<usize>)
    requires
        a.propagates_to(s),
        s.wf(),
        s.gray.len() > 0,
        s.cell(s.gray[0] as int).color == GcColor::DarkGray || s.rooted(s.gray[0] as int),
        forall|m: int|
            0 <= m < reported.len() ==> s.points_to(
                s.gray[0] as int,
                #[trigger] reported[m] as int,
            ),
    ensures
        a.protected(s.gray[0] as int),
        forall|m: int|
            0 <= m < reported.len() && a.live(#[trigger] reported[m] as int) ==> a.protected(
                reported[m] as int,
            ),
{
    let i = s.gray[0];
    assert(s.live(i as int));
    assert(a.live(i as int) == s.live(i as int));
    assert(a.protected(i as int)) by {
        if s.marked(i as int) {
        } else {
            assert(s.rooted(s.gray[0] as int));
        }
    }
    assert forall|m: int| 0 <= m < reported.len() && a.live(
        #[trigger] reported[m] as int,
    ) implies a.protected(reported[m] as int) by {
        let j = reported[m] as int;
        assert(s.points_to(i as int, j));
        let c = choose|c: int|
            0 <= c < s.children(i as int).len() && (#[trigger] s.children(i as int)[c])@ == j;
        assert(a.children(i as int)[c]@ == j);
        assert(a.points_to(i as int, j));
        lemma_protected_step(a, i as int, j);
    }
}

/// Marking what a traced cell reported keeps what propagation has
/// established: whatever is marked, and every rooted cell in the queue, is
/// protected in the state where the run began.
proof fn lemma_marks_propagate<T: GcObject>(a: GcState<T>, s: GcState<T>, reported: Seq<usize>)
    requires
        a.propagates_to(s),
        s.wf(),
        s.gray.len() > 0,
        forall|m: int|
            0 <= m < reported.len() && a.live(#[trigger] reported[m] as int) ==> a.protected(
                reported[m] as int,
            ),
    ensures
        ({
            let s1 = s.dequeue().after_marks(reported);
            &&& a.same_cells(s1)
            &&& forall|j: int| #[trigger] s1.marked(j) ==> a.protected(j)
            &&& forall|k: int|
                0 <= k < s1.gray.len() && s1.rooted(#[trigger] s1.gray[k] as int)
                    ==> a.protected(s1.gray[k] as int)
            &&& forall|j: int| #[trigger] s.marked(j) ==> s1.marked(j)
            &&& forall|j: int|
                j != s.gray[0] && s.rooted(j) && #[trigger] s.gray.contains(j as usize)
                    ==> s1.rooted(j) && s1.gray.contains(j as usize)
        }),
{
    let i = s.gray[0];
    let s0 = s.dequeue();
    let s1 = s0.after_marks(reported);
    lemma_marks_darken(s0, reported);
    let added = s1.gray.len() - s0.gray.len();
    assert(forall|j: int| a.live(j) == s.live(j));
    assert(forall|j: int| s.live(j) == s0.live(j));
    assert(forall|j: int| s0.live(j) == s1.live(j));
    assert(a.same_cells(s1)) by {
        assert forall|j: int| #![trigger a.live(j)] a.live(j) implies {
            &&& s1.cell(j).next == a.cell(j).next
            &&& s1.cell(j).value.children() == a.cell(j).value.children()
            &&& s1.cell(j).root_count == a.cell(j).root_count
            &&& s1.cell(j).detached == a.cell(j).detached
        } by {
            assert(s.live(j));
            assert(s0.live(j));
        }
    }
    assert forall|j: int| #[trigger] s1.marked(j) implies a.protected(j) by {
        assert(s0.live(j));
        if s0.marked(j) {
            assert(s.marked(j));
        } else {
            assert(s1.cell(j) != s0.cell(j));
            assert(reported.contains(j as usize));
            let m = choose|m: int| 0 <= m < reported.len() && reported[m] == j as usize;
            assert(a.live(reported[m] as int));
        }
    }
    assert forall|k: int|
        0 <= k < s1.gray.len() && s1.rooted(#[trigger] s1.gray[k] as int) implies a.protected(
        s1.gray[k] as int,
    ) by {
        if k < added {
            assert(s1.colored(s1.gray[k] as int, GcColor::DarkGray));
            assert(s1.marked(s1.gray[k] as int));
        } else {
            assert(s1.gray[added + (k - added)] == s0.gray[k - added]);
            assert(s0.gray[k - added] == s.gray[k - added + 1]);
            assert(s.live(s.gray[k - added + 1] as int));
            assert(s.rooted(s.gray[k - added + 1] as int));
        }
    }
    assert forall|j: int| #[trigger] s.marked(j) implies s1.marked(j) by {
        assert(s0.live(j));
    }
    assert forall|j: int|
        j != s.gray[0] && s.rooted(j) && #[trigger] s.gray.contains(j as usize) implies s1.rooted(
        j,
    ) && s1.gray.contains(j as usize) by {
        assert(s0.live(j));
        let k = choose|k: int| 0 <= k < s.gray.len() && s.gray[k] == j as usize;
        assert(k != 0);
        assert(s0.gray[k - 1] == s.gray[k]);
        assert(s1.gray[added + (k - 1)] == s0.gray[k - 1]);
    }
}

/// Tracing the front of the gray queue and settling it is a move of
/// propagation, where the cell was dark-gray or rooted, what was reported
/// is held by its payload, and the payload holds after tracing what it held
/// before.
pub proof fn lemma_traced_propagates<T: GcObject>(
    a: GcState<T>,
    s: GcState<T>,
    value: T,
    reported: Seq<usize>,
    traced: bool,
)
    requires
        a.propagates_to(s),
        s.wf(),
        s.gray.len() > 0,
        s.cell(s.gray[0] as int).color == GcColor::DarkGray || s.rooted(s.gray[0] as int),
        value.children() == s.children(s.gray[0] as int),
        forall|m: int|
            0 <= m < reported.len() ==> s.points_to(
                s.gray[0] as int,
                #[trigger] reported[m] as int,
            ),
    ensures
        a.propagates_to(
            s.after_replace(s.gray[0], value).dequeue().after_traced(s.gray[0], reported, traced),
        ),
{
    let i = s.gray[0];
    let r = s.after_replace(i, value);
    assert(s.live(i as int));
    lemma_retraced_wf(s, i, value);
    assert(forall|j: int| r.live(j) == s.live(j));
    assert(forall|j: int| a.live(j) == s.live(j));
    assert(forall|j: int| s.live(j) && j != i ==> r.cell(j) == s.cell(j));
    assert(a.same_cells(r)) by {
        assert forall|j: int| #![trigger a.live(j)] a.live(j) implies {
            &&& r.cell(j).next == a.cell(j).next
            &&& r.cell(j).value.children() == a.cell(j).value.children()
            &&& r.cell(j).root_count == a.cell(j).root_count
            &&& r.cell(j).detached == a.cell(j).detached
        } by {
            assert(s.live(j));
        }
    }
    assert forall|j: int| #[trigger] r.marked(j) implies a.protected(j) by {
        assert(s.marked(j));
    }
    assert forall|k: int|
        0 <= k < r.gray.len() && r.rooted(#[trigger] r.gray[k] as int) implies a.protected(
        r.gray[k] as int,
    ) by {
        assert(s.live(s.gray[k] as int));
        assert(s.rooted(s.gray[k] as int));
    }
    assert forall|j: int| #[trigger] a.source(j) implies r.source(j) by {
        assert(s.source(j));
    }
    assert(a.propagates_to(r));
    assert forall|m: int| 0 <= m < reported.len() implies r.points_to(
        i as int,
        #[trigger] reported[m] as int,
    ) by {
        assert(s.points_to(i as int, reported[m] as int));
        let c = choose|c: int|
            0 <= c < s.children(i as int).len() && (#[trigger] s.children(i as int)[c])@
                == reported[m] as int;
        assert(r.children(i as int)[c]@ == reported[m] as int);
    }
    lemma_settled_propagates(a, r, reported, traced);
}

/// Settling a traced cell is a move of propagation, where the cell was
/// dark-gray or rooted and what was reported is held by its payload.
pub proof fn lemma_settled_propagates<T: GcObject>(
    a: GcState<T>,
    s: GcState<T>,
    reported: Seq<usize>,
    traced: bool,
)
    requires
        a.propagates_to(s),
        s.wf(),
        s.gray.len() > 0,
        s.cell(s.gray[0] as int).color == GcColor::DarkGray || s.rooted(s.gray[0] as int),
        forall|m: int|
            0 <= m < reported.len() ==> s.points_to(
                s.gray[0] as int,
                #[trigger] reported[m] as int,
            ),
    ensures
        a.propagates_to(s.dequeue().after_traced(s.gray[0], reported, traced)),
{
    let i = s.gray[0];
    let s1 = s.dequeue().after_marks(reported);
    let t = s.dequeue().after_traced(i, reported, traced);
    lemma_traced_protected(a, s, reported);
    lemma_marks_propagate(a, s, reported);
    lemma_marks_darken(s.dequeue(), reported);
    assert(s.live(i as int));
    assert(forall|j: int| a.live(j) == s1.live(j));
    assert(forall|j: int| s1.live(j) == t.live(j));
    assert(forall|j: int| s1.live(j) && j != i ==> t.cell(j) == s1.cell(j));
    assert(s1.live(i as int));
    assert(a.same_cells(t)) by {
        assert forall|j: int| #![trigger a.live(j)] a.live(j) implies {
            &&& t.cell(j).next == a.cell(j).next
            &&& t.cell(j).value.children() == a.cell(j).value.children()
            &&& t.cell(j).root_count == a.cell(j).root_count
            &&& t.cell(j).detached == a.cell(j).detached
        } by {
            assert(s1.live(j));
        }
    }
    assert forall|j: int| #[trigger] t.marked(j) implies a.protected(j) by {
        if j != i {
            assert(s1.marked(j));
        }
    }
    assert forall|k: int|
        0 <= k < t.gray.len() && t.rooted(#[trigger] t.gray[k] as int) implies a.protected(
        t.gray[k] as int,
    ) by {
        if traced {
            assert(t.gray == s1.gray);
            assert(s1.live(s1.gray[k] as int));
            assert(s1.rooted(s1.gray[k] as int));
        } else {
            assert(t.gray == s1.gray.push(i));
            if k < s1.gray.len() {
                assert(t.gray[k] == s1.gray[k]);
                assert(s1.live(s1.gray[k] as int));
                assert(s1.rooted(s1.gray[k] as int));
            }
        }
    }
    assert forall|j: int| #[trigger] a.source(j) implies t.source(j) by {
        assert(s.source(j));
        assert(s1.live(j));
        if s.marked(j) {
            assert(s1.marked(j));
            assert(t.marked(j));
        } else if j == i {
            if !traced {
                assert(t.gray == s1.gray.push(i));
                assert(t.gray[s1.gray.len() as int] == i);
                assert(t.rooted(j));
            }
        } else {
            assert(s.gray.contains(j as usize));
            assert(s1.rooted(j) && s1.gray.contains(j as usize));
            let k = choose|k: int| 0 <= k < s1.gray.len() && s1.gray[k] == j as usize;
            if traced {
                assert(t.gray == s1.gray);
            } else {
                assert(t.gray == s1.gray.push(i));
                assert(t.gray[k] == j as usize);
            }
            assert(t.gray.contains(j as usize));
            assert(t.rooted(j));
        }
    }
}

/// Where propagation has emptied the gray queue, exactly the protected
/// cells are black and all others are white.
pub proof fn lemma_marking_complete<T: GcObject>(a: GcState<T>, s: GcState<T>, j: int)
    requires
        a.propagates_to(s),
        s.wf(),
        s.gray.len() == 0,
        s.live(j),
    ensures
        s.cell(j).color == a.color_when_swept(j),
{
    assert(s.pending_queued());
    assert forall|c: int| #[trigger] s.live(c) implies s.cell(c).color == GcColor::White
        || s.cell(c).color == GcColor::Black by {
        if s.cell(c).color == GcColor::LightGray || s.cell(c).color == GcColor::DarkGray {
            assert(s.gray.contains(c as usize));
        }
    }
    if s.cell(j).color == GcColor::Black {
        assert(s.marked(j));
    } else {
        if a.protected(j) {
            let src = choose|src: int| #[trigger] a.source(src) && a.reaches(src, j);
            let path = choose|path: Seq<int>| #[trigger] a.joins(path, src, j);
            assert(s.source(src));
            assert(s.marked(src));
            lemma_same_cells_path(a, s, path);
            lemma_black_closed(s, path, path.len() - 1);
        }
    }
}

/// Passing to the sweep once the gray queue is empty is a move of the
/// running cycle.
pub proof fn lemma_begin_sweep_collects<T: GcObject>(a: GcState<T>, s: GcState<T>)
    requires
        a.propagates_to(s),
        s.wf(),
        s.gray.len() == 0,
    ensures
        a.sweeps_to(s.after_begin_sweep()),
{
    let t = s.after_begin_sweep();
    assert(s.gray =~= Seq::empty());
    assert forall|j: int|
        #![trigger t.live(j)]
        #![trigger a.live(j)]
        0 <= j < a.cells.len() implies if t.unswept(j) {
        &&& t.live(j) == a.live(j)
        &&& a.live(j) ==> a.found_as(j, t)
    } else {
        &&& t.live(j) == a.survives(j)
        &&& t.live(j) ==> a.kept_as(j, t)
    } by {
        assert(a.live(j) == s.live(j));
        assert(t.live(j) == s.live(j));
        if s.live(j) {
            assert(t.unswept(j));
            lemma_marking_complete(a, s, j);
        }
    }
}

/// The sweep visiting the cell at its cursor is a move of the running
/// cycle.
pub proof fn lemma_sweep_visit_collects<T: GcObject>(a: GcState<T>, s: GcState<T>)
    requires
        a.sweeps_to(s),
        a.phase == GcPhase::Sweeping ==> a.wf(),
        s.wf(),
        s.sweep is Some,
    ensures
        a.sweeps_to(s.after_sweep_visit()),
{
    let t = s.after_sweep_visit();
    let i = s.sweep->0 as int;
    let next = s.cell(i).next;
    assert(s.sweeping_wf());
    assert(s.live(i));
    assert(s.next_wf(i));
    assert(s.unswept(i));
    if s.sweep_prev is Some {
        assert(s.next_wf(s.sweep_prev->0 as int));
    }
    assert forall|j: int|
        #![trigger t.live(j)]
        #![trigger a.live(j)]
        0 <= j < a.cells.len() implies if t.unswept(j) {
        &&& t.live(j) == a.live(j)
        &&& a.live(j) ==> a.found_as(j, t)
    } else {
        &&& t.live(j) == a.survives(j)
        &&& t.live(j) ==> a.kept_as(j, t)
    } by {
        assert(s.live(j) || !s.live(j));
        if t.unswept(j) {
            assert(s.unswept(j));
            assert(j != i);
            if s.sweep_prev is Some {
                assert(j != s.sweep_prev->0);
            }
            assert(t.live(j) == s.live(j));
            if s.live(j) {
                assert(t.cell(j) == s.cell(j));
            }
        } else if j == i {
            if a.phase == GcPhase::Sweeping {
                assert(a.unswept(i));
            }
        } else if s.unswept(j) {
            assert(!s.live(j));
            assert(!t.live(j));
        } else {
            assert(t.live(j) == s.live(j));
            if s.live(j) {
                assert(t.cell(j).value == s.cell(j).value);
                assert(t.cell(j).color == s.cell(j).color);
            }
        }
    }
    if a.phase == GcPhase::Sweeping {
        assert forall|j: int| t.unswept(j) implies #[trigger] a.unswept(j) by {
            assert(s.unswept(j));
        }
    }
}

/// Going to sleep at the end of the list ends the running cycle.
pub proof fn lemma_end_sweep_collects<T: GcObject>(a: GcState<T>, s: GcState<T>)
    requires
        a.sweeps_to(s),
        s.sweep is None,
    ensures
        a.is_cycle_result(s.after_end_sweep()),
{
    let t = s.after_end_sweep();
    assert forall|j: int|
        #![trigger t.live(j)]
        #![trigger a.live(j)]
        0 <= j < a.cells.len() implies {
        &&& t.live(j) == a.survives(j)
        &&& t.live(j) ==> a.kept_as(j, t)
    } by {
        assert(!s.unswept(j));
        assert(t.live(j) == s.live(j));
    }
}

/// Dropping the front of the gray queue untraced leaves a calm state calm.
pub proof fn lemma_skip_calm<T: GcObject>(s: GcState<T>)
    requires
        s.gray_wf(),
        s.calm(),
        s.gray.len() > 0,
    ensures
        s.after_skip().calm(),
{
    let t = s.after_skip();
    let i = s.gray[0] as int;
    assert forall|k: int| 0 <= k < t.gray.len() implies !t.rooted(#[trigger] t.gray[k] as int)
        && t.cell(t.gray[k] as int).color != GcColor::DarkGray by {
        assert(t.gray[k] == s.gray[k + 1]);
        assert(s.live(s.gray[k + 1] as int));
        assert(!s.rooted(s.gray[k + 1] as int));
    }
}

/// The sweep visiting the cell at its cursor leaves a calm state calm.
pub proof fn lemma_sweep_visit_calm<T: GcObject>(s: GcState<T>)
    requires
        s.wf(),
        s.phase == GcPhase::Sweeping,
        s.sweep is Some,
        s.calm(),
    ensures
        s.after_sweep_visit().calm(),
{
    let t = s.after_sweep_visit();
    let i = s.sweep->0 as int;
    assert(s.sweeping_wf());
    assert(s.live(i));
    if s.sweep_prev is Some {
        assert(s.live(s.sweep_prev->0 as int));
    }
    assert forall|k: int| 0 <= k < t.gray.len() implies !t.rooted(#[trigger] t.gray[k] as int)
        && t.cell(t.gray[k] as int).color != GcColor::DarkGray by {
        let j = s.gray[k] as int;
        assert(s.live(j));
        assert(!s.rooted(j));
        if j == i {
            assert(s.unswept(s.gray[k] as int));
        }
    }
}

} // verus!
