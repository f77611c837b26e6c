//! What marking the targets of traced handles does to a state.

use crate::flags::GcColor;
use crate::handle::indices_of;
use crate::state::{GcPhase, GcState};
use crate::tracer::GcObject;
use crate::wellformed::{
    lemma_retraced_wf, lemma_same_cells_black, lemma_same_cells_list, lemma_same_cells_range,
};
use vstd::prelude::*;

verus! {

impl<T: GcObject> GcState<T> {
    /// `other` arises from this state by marking: some white and light-gray
    /// cells have turned dark-gray, and those that were white stand in front
    /// of the old gray queue. Nothing else differs.
    pub open spec fn darkens_to(self, other: GcState<T>) -> bool {
        let added = other.gray.len() - self.gray.len();
        &&& other == (GcState { cells: other.cells, gray: other.gray, ..self })
        &&& self.same_cells(other)
        &&& self.same_payloads(other)
        &&& forall|j: int|
            #![trigger self.live(j)]
            self.live(j) ==> other.cell(j).color == self.cell(j).color || (other.cell(j).color
                == GcColor::DarkGray && (self.cell(j).color == GcColor::White || self.cell(
                j,
            ).color == GcColor::LightGray))
        &&& added >= 0
        &&& forall|k: int|
            0 <= k < self.gray.len() ==> #[trigger] other.gray[added + k] == self.gray[k]
        &&& forall|k: int|
            0 <= k < added ==> self.colored(#[trigger] other.gray[k] as int, GcColor::White)
                && other.colored(other.gray[k] as int, GcColor::DarkGray)
        &&& forall|j: int|
            #![trigger self.live(j)]
            self.colored(j, GcColor::White) && other.colored(j, GcColor::DarkGray)
                ==> other.gray.contains(j as usize)
    }
}

/// Marking is transitive.
pub proof fn lemma_darkens_transitive<T: GcObject>(s: GcState<T>, t: GcState<T>, u: GcState<T>)
    requires
        s.darkens_to(t),
        t.darkens_to(u),
    ensures
        s.darkens_to(u),
{
    let a = t.gray.len() - s.gray.len();
    let b = u.gray.len() - t.gray.len();
    assert(forall|j: int| s.live(j) == t.live(j));
    assert(forall|j: int| t.live(j) == u.live(j));
    assert forall|j: int| #![trigger s.live(j)] s.live(j) implies u.cell(j).color == s.cell(
        j,
    ).color || (u.cell(j).color == GcColor::DarkGray && (s.cell(j).color == GcColor::White
        || s.cell(j).color == GcColor::LightGray)) by {
        assert(t.live(j));
    }
    assert forall|k: int| 0 <= k < s.gray.len() implies #[trigger] u.gray[a + b + k]
        == s.gray[k] by {
        assert(t.gray[a + k] == s.gray[k]);
        assert(u.gray[b + (a + k)] == t.gray[a + k]);
    }
    assert forall|k: int| 0 <= k < a + b implies s.colored(
        #[trigger] u.gray[k] as int,
        GcColor::White,
    ) && u.colored(u.gray[k] as int, GcColor::DarkGray) by {
        if k < b {
            let j = u.gray[k] as int;
            assert(t.colored(j, GcColor::White));
            assert(s.live(j));
        } else {
            assert(u.gray[b + (k - b)] == t.gray[k - b]);
            let j = t.gray[k - b] as int;
            assert(s.colored(j, GcColor::White));
            assert(t.live(j));
        }
    }
    assert forall|j: int|
        #![trigger s.live(j)]
        s.colored(j, GcColor::White) && u.colored(j, GcColor::DarkGray) implies u.gray.contains(
        j as usize,
    ) by {
        assert(t.live(j));
        if t.cell(j).color == GcColor::White {
            assert(u.gray.contains(j as usize));
        } else {
            assert(t.gray.contains(j as usize));
            let k = choose|k: int| 0 <= k < t.gray.len() && t.gray[k] == j as usize;
            assert(u.gray[b + k] == t.gray[k]);
        }
    }
    assert(s.same_cells(u)) by {
        assert forall|j: int| #![trigger s.live(j)] s.live(j) implies {
            &&& u.cell(j).next == s.cell(j).next
            &&& u.cell(j).value.children() == s.cell(j).value.children()
            &&& u.cell(j).root_count == s.cell(j).root_count
            &&& u.cell(j).detached == s.cell(j).detached
        } by {
            assert(t.live(j));
        }
    }
    assert(s.same_payloads(u)) by {
        assert forall|j: int| #[trigger] s.live(j) implies u.cell(j).value == s.cell(j).value by {
            assert(t.live(j));
        }
    }
}

/// Marking one target darkens the state and leaves the target dark-gray or
/// black, if it is a cell at all.
pub proof fn lemma_mark_darkens<T: GcObject>(s: GcState<T>, i: usize)
    ensures
        s.darkens_to(s.after_mark(i)),
        s.after_mark(i).marked_or_dead(i as int),
        forall|j: int| #[trigger] s.live(j) && j != i ==> s.after_mark(i).cell(j) == s.cell(j),
{
    let t = s.after_mark(i);
    if s.live(i as int) && s.cell(i as int).color == GcColor::White {
        assert(t.gray == seq![i] + s.gray);
        assert(t.gray[0] == i);
        assert forall|k: int| 0 <= k < s.gray.len() implies #[trigger] t.gray[1 + k]
            == s.gray[k] by {}
        assert(forall|j: int| s.live(j) == t.live(j));
        assert(forall|j: int| s.live(j) && j != i ==> t.cell(j) == s.cell(j));
    } else if s.live(i as int) && s.cell(i as int).color == GcColor::LightGray {
        assert(forall|j: int| s.live(j) == t.live(j));
        assert(forall|j: int| s.live(j) && j != i ==> t.cell(j) == s.cell(j));
        assert forall|k: int| 0 <= k < s.gray.len() implies #[trigger] t.gray[0 + k]
            == s.gray[k] by {}
    } else {
        assert forall|k: int| 0 <= k < s.gray.len() implies #[trigger] t.gray[0 + k]
            == s.gray[k] by {}
    }
}

/// Marking a sequence of targets darkens the state and leaves each target
/// dark-gray or black, if it is a cell at all.
pub proof fn lemma_marks_darken<T: GcObject>(s: GcState<T>, handles: Seq<usize>)
    ensures
        s.darkens_to(s.after_marks(handles)),
        forall|m: int|
            0 <= m < handles.len() ==> s.after_marks(handles).marked_or_dead(
                #[trigger] handles[m] as int,
            ),
        forall|j: int|
            #[trigger] s.live(j) && !handles.contains(j as usize) ==> s.after_marks(handles).cell(
                j,
            ) == s.cell(j),
    decreases handles.len(),
{
    if handles.len() == 0 {
        assert forall|k: int| 0 <= k < s.gray.len() implies #[trigger] s.gray[0 + k]
            == s.gray[k] by {}
    } else {
        let before = s.after_marks(handles.drop_last());
        let after = before.after_mark(handles.last());
        lemma_marks_darken(s, handles.drop_last());
        lemma_mark_darkens(before, handles.last());
        lemma_darkens_transitive(s, before, after);
        assert forall|j: int| #[trigger]
            s.live(j) && !handles.contains(j as usize) implies after.cell(j) == s.cell(j) by {
            assert(before.live(j));
            assert(handles[handles.len() - 1] == handles.last());
            if handles.drop_last().contains(j as usize) {
                let m = choose|m: int|
                    0 <= m < handles.drop_last().len() && handles.drop_last()[m] == j as usize;
                assert(handles[m] == j as usize);
            }
        }
        assert forall|m: int| 0 <= m < handles.len() implies after.marked_or_dead(
            #[trigger] handles[m] as int,
        ) by {
            if m < handles.len() - 1 {
                assert(handles.drop_last()[m] == handles[m]);
                assert(before.marked_or_dead(handles[m] as int));
                assert(before.live(handles[m] as int) == after.live(handles[m] as int));
            }
        }
    }
}

/// Marking the first `k + 1` targets is marking the first `k` and then the
/// next one.
pub proof fn lemma_marks_step<T>(s: GcState<T>, handles: Seq<usize>, k: int)
    requires
        0 <= k < handles.len(),
    ensures
        s.after_marks(handles.take(k + 1)) == s.after_marks(handles.take(k)).after_mark(
            handles[k],
        ),
{
    assert(handles.take(k + 1).drop_last() == handles.take(k));
    assert(handles.take(k + 1).last() == handles[k]);
}

/// Tracing the front of the gray queue and settling it keeps the invariant:
/// the payload holds after tracing what it held before, and where tracing
/// went through, what was reported is all that it holds.
pub proof fn lemma_traced_wf<T: GcObject>(
    s: GcState<T>,
    value: T,
    reported: Seq<usize>,
    traced: bool,
)
    requires
        s.wf(),
        s.phase == GcPhase::Propagating,
        s.gray.len() > 0,
        value.children() == s.children(s.gray[0] as int),
        traced ==> reported == indices_of(s.children(s.gray[0] as int)),
    ensures
        s.after_replace(s.gray[0], value).dequeue().after_traced(
            s.gray[0],
            reported,
            traced,
        ).wf(),
{
    assert(s.live(s.gray[0] as int));
    lemma_retraced_wf(s, s.gray[0], value);
    lemma_settled_wf(s.after_replace(s.gray[0], value), reported, traced);
}

/// Settling a traced cell keeps the invariant: the cell is the front of the
/// gray queue, taken off before, and where tracing went through, what was
/// reported is all that the payload holds.
pub proof fn lemma_settled_wf<T: GcObject>(s: GcState<T>, reported: Seq<usize>, traced: bool)
    requires
        s.wf(),
        s.phase == GcPhase::Propagating,
        s.gray.len() > 0,
        traced ==> reported == indices_of(s.children(s.gray[0] as int)),
    ensures
        s.dequeue().after_traced(s.gray[0], reported, traced).wf(),
{
    let i = s.gray[0];
    let s0 = s.dequeue();
    let s1 = s0.after_marks(reported);
    let t = s0.after_traced(i, reported, traced);
    assert(s.live(i as int));
    lemma_marks_darken(s0, reported);
    let added = s1.gray.len() - s0.gray.len();
    assert(s.same_cells(s0));
    assert(forall|j: int| s.live(j) == s1.live(j));
    assert(forall|j: int| s1.live(j) == t.live(j));
    assert(s.same_cells(t)) by {
        assert forall|j: int| #![trigger s.live(j)] s.live(j) implies {
            &&& t.cell(j).next == s.cell(j).next
            &&& t.cell(j).value.children() == s.cell(j).value.children()
            &&& t.cell(j).root_count == s.cell(j).root_count
            &&& t.cell(j).detached == s.cell(j).detached
        } by {
            assert(s0.live(j));
        }
    }
    lemma_same_cells_list(s, t);
    lemma_same_cells_range(s, t);
    // every entry of the new queue is a cell
    assert forall|k: int| 0 <= k < s1.gray.len() implies s1.live(#[trigger] s1.gray[k] as int) by {
        if k < added {
            assert(s0.colored(s1.gray[k] as int, GcColor::White));
        } else {
            assert(s1.gray[added + (k - added)] == s0.gray[k - added]);
            assert(s0.gray[k - added] == s.gray[k - added + 1]);
            assert(s.live(s.gray[k - added + 1] as int));
        }
    }
    // every pending cell but `i` is queued
    assert forall|j: int|
        #![trigger s1.live(j)]
        s1.live(j) && j != i && (s1.cell(j).color == GcColor::LightGray || s1.cell(j).color
            == GcColor::DarkGray) implies s1.gray.contains(j as usize) by {
        assert(s0.live(j));
        if s0.cell(j).color == GcColor::White {
            assert(s0.colored(j, GcColor::White) && s1.colored(j, GcColor::DarkGray));
        } else {
            assert(s.live(j));
            assert(s.cell(j).color == s0.cell(j).color);
            assert(s.gray.contains(j as usize));
            let k = choose|k: int| 0 <= k < s.gray.len() && s.gray[k] == j as usize;
            assert(k != 0);
            assert(s0.gray[k - 1] == s.gray[k]);
            assert(s1.gray[added + (k - 1)] == s0.gray[k - 1]);
        }
    }
    // black cells of `s1` were black in `s`, and marks are kept
    assert forall|j: int| #[trigger]
        s.live(j) && s1.cell(j).color == GcColor::Black implies s.cell(j).color
        == GcColor::Black by {
        assert(s0.live(j));
    }
    assert forall|j: int| #[trigger] s.marked(j) implies s1.marked(j) by {
        assert(s0.live(j));
    }
    assert(s.same_cells(s1));
    lemma_same_cells_black(s, s1);
    if traced {
        assert(forall|j: int| s1.live(j) && j != i ==> t.cell(j) == s1.cell(j));
        assert(t.gray == s1.gray);
        assert forall|j: int|
            #![trigger t.live(j)]
            t.live(j) && t.cell(j).color == GcColor::Black implies t.holds_marked_only(
            t.cell(j).value,
        ) by {
            let v = t.cell(j).value;
            assert(s1.live(j));
            if j == i {
                assert(v == s.cell(i as int).value);
                assert forall|m: int| 0 <= m < v.children().len() implies t.marked_or_dead(
                    (#[trigger] v.children()[m])@ as int,
                ) by {
                    assert(reported[m] == v.children()[m]@);
                    assert(s1.marked_or_dead(reported[m] as int));
                }
            } else {
                assert(s1.holds_marked_only(s1.cell(j).value));
                assert forall|m: int| 0 <= m < v.children().len() implies t.marked_or_dead(
                    (#[trigger] v.children()[m])@ as int,
                ) by {
                    assert(s1.marked_or_dead(v.children()[m]@ as int));
                }
            }
        }
        assert(t.pending_queued()) by {
            assert forall|j: int|
                #![trigger t.live(j)]
                t.live(j) && (t.cell(j).color == GcColor::LightGray || t.cell(j).color
                    == GcColor::DarkGray) implies t.gray.contains(j as usize) by {
                assert(s1.live(j));
            }
        }
    } else {
        assert(t.cells == s1.cells);
        assert(t.gray == s1.gray.push(i));
        assert forall|k: int| 0 <= k < t.gray.len() implies t.live(#[trigger] t.gray[k] as int) by {
            if k < s1.gray.len() {
                assert(s1.live(s1.gray[k] as int));
            }
        }
        assert(t.pending_queued()) by {
            assert forall|j: int|
                #![trigger t.live(j)]
                t.live(j) && (t.cell(j).color == GcColor::LightGray || t.cell(j).color
                    == GcColor::DarkGray) implies t.gray.contains(j as usize) by {
                assert(s1.live(j));
                if j == i {
                    assert(t.gray[s1.gray.len() as int] == i);
                } else {
                    assert(s1.gray.contains(j as usize));
                    let k = choose|k: int| 0 <= k < s1.gray.len() && s1.gray[k] == j as usize;
                    assert(t.gray[k] == j as usize);
                }
            }
        }
        assert(t.black_invariant()) by {
            assert forall|j: int|
                #![trigger t.live(j)]
                t.live(j) && t.cell(j).color == GcColor::Black implies t.holds_marked_only(
                t.cell(j).value,
            ) by {
                assert(s1.live(j));
                assert(s1.holds_marked_only(s1.cell(j).value));
                let v = t.cell(j).value;
                assert forall|m: int| 0 <= m < v.children().len() implies t.marked_or_dead(
                    (#[trigger] v.children()[m])@ as int,
                ) by {
                    assert(s1.marked_or_dead(v.children()[m]@ as int));
                }
            }
        }
    }
}

} // verus!
