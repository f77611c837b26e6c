//! The measure by which every step of collection comes nearer to sleep.

use crate::flags::GcColor;
use crate::state::{GcPhase, GcState};
use crate::marking::lemma_marks_darken;
use crate::tracer::GcObject;
use vstd::prelude::*;
use vstd::set_lib::{lemma_int_range, lemma_len_subset, set_int_range};

verus! {

impl<T> GcState<T> {
    /// The slots that hold a white or light-gray cell.
    pub open spec fn unmarked(self) -> Set<int> {
        Set::new(|j: int| self.live(j) && !self.marked(j))
    }

    /// How many phases lie between this state and sleep.
    pub open spec fn rank(self) -> nat {
        match self.phase {
            GcPhase::Propagating => 2,
            GcPhase::Sweeping => 1,
            GcPhase::Sleeping => 0,
        }
    }

    /// What is left to do in the phase: the cells yet to be marked while
    /// propagating, the slots yet to be visited while sweeping.
    pub open spec fn backlog(self) -> nat {
        match self.phase {
            GcPhase::Propagating => self.unmarked().len(),
            GcPhase::Sweeping => match self.sweep {
                Some(i) => (i + 1) as nat,
                None => 0,
            },
            GcPhase::Sleeping => 0,
        }
    }

    /// The length of the gray queue while propagating.
    pub open spec fn queued(self) -> nat {
        if self.phase == GcPhase::Propagating {
            self.gray.len()
        } else {
            0
        }
    }

    /// How many more cells in a row may be blocked before the queue counts
    /// as stalled.
    pub open spec fn slack(self, blocked: usize) -> nat {
        if self.phase == GcPhase::Propagating && blocked < self.gray.len() {
            (self.gray.len() - blocked) as nat
        } else {
            0
        }
    }

}

impl<T: GcObject> GcState<T> {
    /// How many refusals the payloads in the slots below `bound` have left,
    /// all told.
    pub open spec fn refusals_below(self, bound: int) -> nat
        decreases bound,
    {
        if bound <= 0 {
            0
        } else {
            self.refusals_below(bound - 1) + if self.live(bound - 1) {
                self.cell(bound - 1).value.refusals()
            } else {
                0
            }
        }
    }

    /// How many refusals the payloads have left, all told.
    pub open spec fn refusals_left(self) -> nat {
        self.refusals_below(self.cells.len() as int)
    }

    /// `other`, with `other_blocked` cells blocked in a row, is nearer to
    /// sleep than this state with `blocked`.
    pub open spec fn nearer(self, blocked: usize, other: GcState<T>, other_blocked: usize) -> bool {
        ||| other.rank() < self.rank()
        ||| other.rank() == self.rank() && other.backlog() < self.backlog()
        ||| other.rank() == self.rank() && other.backlog() == self.backlog() && other.queued()
            < self.queued()
        ||| other.rank() == self.rank() && other.backlog() == self.backlog() && other.queued()
            == self.queued() && other.refusals_left() < self.refusals_left()
        ||| other.rank() == self.rank() && other.backlog() == self.backlog() && other.queued()
            == self.queued() && other.refusals_left() == self.refusals_left() && other.slack(
            other_blocked,
        ) < self.slack(blocked)
    }
}

/// States whose cells have as many refusals left, slot by slot, have as
/// many left all told.
pub proof fn lemma_refusals_same<T: GcObject>(s: GcState<T>, t: GcState<T>, bound: int)
    requires
        forall|j: int|
            #![trigger s.live(j)]
            0 <= j < bound ==> t.live(j) == s.live(j) && (s.live(j) ==> t.cell(j).value.refusals()
                == s.cell(j).value.refusals()),
    ensures
        t.refusals_below(bound) == s.refusals_below(bound),
    decreases bound,
{
    if bound > 0 {
        lemma_refusals_same(s, t, bound - 1);
        assert(t.live(bound - 1) == s.live(bound - 1));
    }
}

/// A state in which one cell has fewer refusals left, and every other as
/// many, has fewer left all told.
pub proof fn lemma_refusals_less<T: GcObject>(s: GcState<T>, t: GcState<T>, i: int, bound: int)
    requires
        0 <= i < bound,
        s.live(i),
        t.live(i),
        t.cell(i).value.refusals() < s.cell(i).value.refusals(),
        forall|j: int|
            #![trigger s.live(j)]
            0 <= j < bound && j != i ==> t.live(j) == s.live(j) && (s.live(j) ==> t.cell(
                j,
            ).value.refusals() == s.cell(j).value.refusals()),
    ensures
        t.refusals_below(bound) < s.refusals_below(bound),
    decreases bound,
{
    if bound - 1 == i {
        lemma_refusals_same(s, t, bound - 1);
    } else {
        lemma_refusals_less(s, t, i, bound - 1);
        assert(t.live(bound - 1) == s.live(bound - 1));
    }
}

/// Only finitely many slots hold an unmarked cell.
pub proof fn lemma_unmarked_finite<T>(s: GcState<T>)
    ensures
        s.unmarked().finite(),
        s.unmarked().len() <= s.cells.len(),
{
    lemma_int_range(0, s.cells.len() as int);
    assert(s.unmarked().subset_of(set_int_range(0, s.cells.len() as int)));
    lemma_len_subset(s.unmarked(), set_int_range(0, s.cells.len() as int));
}

/// Marking leaves no more cells unmarked than before, and fewer where the
/// gray queue has grown.
pub proof fn lemma_darkens_unmarked<T: GcObject>(s: GcState<T>, t: GcState<T>)
    requires
        s.darkens_to(t),
    ensures
        t.unmarked().len() <= s.unmarked().len(),
        t.gray.len() > s.gray.len() ==> t.unmarked().len() < s.unmarked().len(),
{
    lemma_unmarked_finite(s);
    lemma_unmarked_finite(t);
    assert forall|j: int| t.unmarked().contains(j) implies s.unmarked().contains(j) by {
        assert(t.live(j) == s.live(j));
        assert(s.live(j));
    }
    assert(t.unmarked().subset_of(s.unmarked()));
    lemma_len_subset(t.unmarked(), s.unmarked());
    if t.gray.len() > s.gray.len() {
        let x = t.gray[0] as int;
        assert(s.colored(x, GcColor::White) && t.colored(x, GcColor::DarkGray));
        assert(s.unmarked().contains(x));
        assert(!t.unmarked().contains(x));
        assert(t.unmarked().subset_of(s.unmarked().remove(x)));
        lemma_len_subset(t.unmarked(), s.unmarked().remove(x));
    }
}

/// A state with the same cells in which no marked cell lost its mark has no
/// more unmarked cells.
pub proof fn lemma_marks_kept_unmarked<T: GcObject>(s: GcState<T>, t: GcState<T>)
    requires
        s.same_cells(t),
        forall|j: int| #[trigger] s.marked(j) ==> t.marked(j),
    ensures
        t.unmarked().len() <= s.unmarked().len(),
{
    lemma_unmarked_finite(s);
    assert forall|j: int| t.unmarked().contains(j) implies s.unmarked().contains(j) by {
        assert(t.live(j) == s.live(j));
        if s.marked(j) {
            assert(t.marked(j));
        }
    }
    assert(t.unmarked().subset_of(s.unmarked()));
    lemma_len_subset(t.unmarked(), s.unmarked());
}

/// Dropping the front of the gray queue untraced brings the state nearer to
/// sleep.
pub proof fn lemma_skip_nearer<T: GcObject>(s: GcState<T>, blocked: usize)
    requires
        s.phase == GcPhase::Propagating,
        s.gray.len() > 0,
        s.live(s.gray[0] as int),
    ensures
        s.nearer(blocked, s.after_skip(), blocked),
{
    let t = s.after_skip();
    let i = s.gray[0] as int;
    assert(forall|j: int| t.live(j) == s.live(j));
    assert(forall|j: int| s.live(j) && j != i ==> t.cell(j) == s.cell(j));
    assert(s.same_cells(t));
    lemma_marks_kept_unmarked(s, t);
}

/// Tracing the front of the gray queue and settling it brings the state
/// nearer to sleep, with whatever count of blocked cells: the cell has
/// turned black, or cells have been marked, or the payload has one refusal
/// less.
pub proof fn lemma_traced_nearer<T: GcObject>(
    s: GcState<T>,
    value: T,
    reported: Seq<usize>,
    traced: bool,
    blocked: usize,
    next_blocked: usize,
)
    requires
        s.phase == GcPhase::Propagating,
        s.gray.len() > 0,
        s.live(s.gray[0] as int),
        value.children() == s.cell(s.gray[0] as int).value.children(),
        !traced ==> value.refusals() < s.cell(s.gray[0] as int).value.refusals(),
    ensures
        ({
            let t = s.after_replace(s.gray[0], value).dequeue().after_traced(
                s.gray[0],
                reported,
                traced,
            );
            &&& t.phase == GcPhase::Propagating
            &&& !traced ==> t.gray.len() > 0
            &&& s.nearer(blocked, t, next_blocked)
        }),
{
    let i = s.gray[0];
    let r = s.after_replace(i, value);
    let s0 = r.dequeue();
    let s1 = s0.after_marks(reported);
    let t = s0.after_traced(i, reported, traced);
    lemma_marks_darken(s0, reported);
    assert(forall|j: int| r.live(j) == s.live(j));
    assert(forall|j: int| s.live(j) && j != i ==> r.cell(j) == s.cell(j));
    assert(s.same_cells(s0));
    lemma_marks_kept_unmarked(s, s0);
    lemma_darkens_unmarked(s0, s1);
    assert(forall|j: int| s1.live(j) == s0.live(j));
    if traced {
        assert(forall|j: int| t.live(j) == s1.live(j));
        assert(forall|j: int| s1.live(j) && j != i ==> t.cell(j) == s1.cell(j));
        assert(s1.same_cells(t));
        lemma_marks_kept_unmarked(s1, t);
    } else {
        assert(t.cells == s1.cells);
        assert(s1.same_cells(t));
        lemma_marks_kept_unmarked(s1, t);
        if t.gray.len() == s.gray.len() && t.unmarked().len() == s.unmarked().len() {
            assert forall|j: int|
                #![trigger s.live(j)]
                0 <= j < s.cells.len() && j != i implies t.live(j) == s.live(j) && (s.live(j)
                ==> t.cell(j).value.refusals() == s.cell(j).value.refusals()) by {
                assert(s0.live(j) == s.live(j));
                if s.live(j) {
                    assert(s0.live(j));
                    assert(s1.cell(j).value == s0.cell(j).value);
                }
            }
            assert(s0.live(i as int));
            assert(s1.cell(i as int).value == s0.cell(i as int).value);
            lemma_refusals_less(s, t, i as int, s.cells.len() as int);
        }
    }
}

/// The sweep visiting the cell at its cursor brings the state nearer to
/// sleep.
pub proof fn lemma_sweep_visit_nearer<T: GcObject>(s: GcState<T>, blocked: usize)
    requires
        s.phase == GcPhase::Sweeping,
        s.sweep is Some,
        s.live(s.sweep->0 as int),
        s.next_wf(s.sweep->0 as int),
    ensures
        s.nearer(blocked, s.after_sweep_visit(), blocked),
{
}

} // verus!
