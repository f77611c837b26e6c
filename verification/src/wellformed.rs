//! The invariant of a collector's state, and the proof that every
//! transition keeps it.

use crate::flags::GcColor;
use crate::state::{GcPhase, GcState};
use crate::tracer::GcObject;
use vstd::prelude::*;

verus! {

impl<T> GcState<T> {
    /// The link of the cell in slot `i` leads to the nearest cell below it.
    pub open spec fn next_wf(self, i: int) -> bool {
        match self.cell(i).next {
            Some(j) => j < i && self.live(j as int) && forall|k: int|
                j < k < i ==> !#[trigger] self.live(k),
            None => forall|k: int| 0 <= k < i ==> !#[trigger] self.live(k),
        }
    }

    /// The list of all cells threads every cell, from the youngest down to
    /// the oldest.
    pub open spec fn list_wf(self) -> bool {
        &&& forall|i: int| #[trigger] self.live(i) ==> self.next_wf(i)
        &&& match self.all {
            Some(h) => self.live(h as int) && forall|k: int| h < k ==> !#[trigger] self.live(k),
            None => forall|k: int| !#[trigger] self.live(k),
        }
    }

    /// Every entry of the gray queue is a cell.
    pub open spec fn gray_wf(self) -> bool {
        forall|k: int| 0 <= k < self.gray.len() ==> self.live(#[trigger] self.gray[k] as int)
    }

    /// Every light-gray and every dark-gray cell is in the gray queue.
    pub open spec fn pending_queued(self) -> bool {
        forall|i: int|
            #![trigger self.live(i)]
            self.live(i) && (self.cell(i).color == GcColor::LightGray || self.cell(i).color
                == GcColor::DarkGray) ==> self.gray.contains(i as usize)
    }

    /// Whether the sweep has yet to visit slot `i`.
    pub open spec fn unswept(self, i: int) -> bool {
        self.sweep is Some && i <= self.sweep->0
    }

    /// What holds of the cursors and colours while sweeping.
    pub open spec fn sweeping_wf(self) -> bool {
        &&& self.sweep is Some ==> self.live(self.sweep->0 as int)
        &&& match self.sweep_prev {
            Some(p) => self.live(p as int) && self.cell(p as int).next == self.sweep,
            None => self.all == self.sweep,
        }
        &&& forall|i: int|
            #![trigger self.live(i)]
            self.live(i) ==> if self.unswept(i) {
                self.cell(i).color != GcColor::DarkGray
            } else {
                self.cell(i).color == GcColor::White || self.cell(i).color == GcColor::LightGray
            }
        &&& forall|k: int|
            0 <= k < self.gray.len() && self.unswept(#[trigger] self.gray[k] as int)
                ==> self.cell(self.gray[k] as int).color != GcColor::White
    }

    /// No cell is dark-gray or black.
    pub open spec fn nothing_marked(self) -> bool {
        forall|i: int| #[trigger] self.live(i) ==> !self.marked(i)
    }

    /// What the invariant says of everything but payloads.
    pub open spec fn structure_wf(self) -> bool {
        &&& self.cells.len() <= self.total_allocated
        &&& self.wakeup_total == self.parameters.min_wakeup
        &&& self.list_wf()
        &&& self.gray_wf()
        &&& self.pending_queued()
        &&& forall|i: int| #[trigger] self.live(i) ==> !self.cell(i).detached
        &&& match self.phase {
            GcPhase::Sleeping => self.sweep is None && self.sweep_prev is None
                && self.nothing_marked(),
            GcPhase::Propagating => self.sweep is None && self.sweep_prev is None,
            GcPhase::Sweeping => self.sweeping_wf(),
        }
    }
}

impl<T: GcObject> GcState<T> {
    /// Slot `j` holds no cell, or a dark-gray or black one.
    pub open spec fn marked_or_dead(self, j: int) -> bool {
        !self.live(j) || self.marked(j)
    }

    /// Every handle that `value` holds names a slot that was given out.
    pub open spec fn in_range(self, value: T) -> bool {
        forall|m: int|
            0 <= m < value.children().len() ==> (#[trigger] value.children()[m])@
                < self.cells.len()
    }

    /// Every handle held by a cell names a slot that was given out.
    pub open spec fn handles_in_range(self) -> bool {
        forall|i: int| #[trigger] self.live(i) ==> self.in_range(self.cell(i).value)
    }

    /// Every cell that `value` holds a handle to is dark-gray or black.
    pub open spec fn holds_marked_only(self, value: T) -> bool {
        forall|m: int|
            0 <= m < value.children().len() ==> self.marked_or_dead(
                (#[trigger] value.children()[m])@ as int,
            )
    }

    /// The black invariant: no black cell holds a handle to a white or
    /// light-gray cell.
    pub open spec fn black_invariant(self) -> bool {
        forall|i: int|
            #![trigger self.live(i)]
            self.live(i) && self.cell(i).color == GcColor::Black ==> self.holds_marked_only(
                self.cell(i).value,
            )
    }

    /// The invariant of a collector's state.
    pub open spec fn wf(self) -> bool {
        &&& self.structure_wf()
        &&& self.handles_in_range()
        &&& self.phase != GcPhase::Sweeping ==> self.black_invariant()
    }

    /// Whether `value` may be put in the cell in slot `i` without a write
    /// barrier: it may unless the collector is propagating, the cell is
    /// black and the payload holds a handle to a white or light-gray cell.
    pub open spec fn admits(self, i: usize, value: T) -> bool {
        &&& self.in_range(value)
        &&& self.phase == GcPhase::Propagating && self.colored(i as int, GcColor::Black)
            ==> self.holds_marked_only(value)
    }
}

impl<T: GcObject> GcState<T> {
    /// `other` has the same slots filled, with the same links, root counts
    /// and detached marks, and with payloads that hold the same handles;
    /// colours, queue, cursors and phase may differ.
    pub open spec fn same_cells(self, other: GcState<T>) -> bool {
        &&& other.cells.len() == self.cells.len()
        &&& other.all == self.all
        &&& other.parameters == self.parameters
        &&& other.wakeup_total == self.wakeup_total
        &&& forall|j: int| #[trigger] other.live(j) == self.live(j)
        &&& forall|j: int|
            #![trigger self.live(j)]
            self.live(j) ==> {
                &&& other.cell(j).next == self.cell(j).next
                &&& other.cell(j).value.children() == self.cell(j).value.children()
                &&& other.cell(j).root_count == self.cell(j).root_count
                &&& other.cell(j).detached == self.cell(j).detached
            }
    }

    /// `other` has the same payload in every cell of this state.
    pub open spec fn same_payloads(self, other: GcState<T>) -> bool {
        forall|j: int| #[trigger] self.live(j) ==> other.cell(j).value == self.cell(j).value
    }
}

/// States with the same cells have the same list of all cells.
pub proof fn lemma_same_cells_list<T: GcObject>(s: GcState<T>, t: GcState<T>)
    requires
        s.same_cells(t),
        s.list_wf(),
    ensures
        t.list_wf(),
{
    assert forall|j: int| #[trigger] t.live(j) implies t.next_wf(j) by {
        assert(s.live(j));
        assert(s.next_wf(j));
    }
}

/// States with the same cells hold the same handles.
pub proof fn lemma_same_cells_range<T: GcObject>(s: GcState<T>, t: GcState<T>)
    requires
        s.same_cells(t),
        s.handles_in_range(),
    ensures
        t.handles_in_range(),
{
    assert forall|j: int| #[trigger] t.live(j) implies t.in_range(t.cell(j).value) by {
        assert(s.live(j));
        assert(s.in_range(s.cell(j).value));
    }
}

/// The black invariant passes to a state with the same cells in which
/// every black cell was black before and nothing marked lost its mark.
pub proof fn lemma_same_cells_black<T: GcObject>(s: GcState<T>, t: GcState<T>)
    requires
        s.same_cells(t),
        s.black_invariant(),
        forall|j: int| #[trigger] s.live(j) && t.cell(j).color == GcColor::Black ==> s.cell(j).color == GcColor::Black,
        forall|j: int| #[trigger] s.marked(j) ==> t.marked(j),
    ensures
        t.black_invariant(),
{
    assert forall|j: int|
        #![trigger t.live(j)]
        t.live(j) && t.cell(j).color == GcColor::Black implies t.holds_marked_only(
        t.cell(j).value,
    ) by {
        assert(s.live(j));
        assert(s.holds_marked_only(s.cell(j).value));
        let v = t.cell(j).value;
        assert forall|m: int| 0 <= m < v.children().len() implies t.marked_or_dead(
            (#[trigger] v.children()[m])@ as int,
        ) by {
            let c = v.children()[m]@ as int;
            assert(s.marked_or_dead(c));
            if s.live(c) {
                assert(s.marked(c));
            } else {
                assert(!t.live(c));
            }
        }
    }
}

/// A new collector's state meets the invariant.
pub proof fn lemma_initial_wf<T: GcObject>(parameters: crate::params::GcParameters)
    ensures
        GcState::<T>::initial(parameters).wf(),
{
}

/// Rooting keeps the invariant.
pub proof fn lemma_root_wf<T: GcObject>(s: GcState<T>, i: usize)
    requires
        s.wf(),
        s.live(i as int),
        s.cell(i as int).root_count < usize::MAX,
    ensures
        s.after_root(i).wf(),
{
    let t = s.after_root(i);
    assert(forall|j: int| t.live(j) == s.live(j));
    assert(forall|j: int| s.live(j) ==> t.cell(j).next == s.cell(j).next);
    assert(forall|j: int| s.live(j) ==> t.cell(j).value == s.cell(j).value);
    assert(forall|j: int| s.live(j) && j != i ==> t.cell(j) == s.cell(j));
    assert forall|j: int| #[trigger] t.live(j) implies t.next_wf(j) by {
        assert(s.next_wf(j));
    }
    if s.cell(i as int).color == GcColor::White {
        assert(t.gray == s.gray.push(i));
        assert forall|j: int|
            #![trigger t.live(j)]
            t.live(j) && (t.cell(j).color == GcColor::LightGray || t.cell(j).color
                == GcColor::DarkGray) implies t.gray.contains(j as usize) by {
            if j == i {
                assert(t.gray[s.gray.len() as int] == i);
            } else {
                assert(s.gray.contains(j as usize));
                let k = choose|k: int| 0 <= k < s.gray.len() && s.gray[k] == j as usize;
                assert(t.gray[k] == j as usize);
            }
        }
        assert forall|k: int| 0 <= k < t.gray.len() implies t.live(
            #[trigger] t.gray[k] as int,
        ) by {
            if k < s.gray.len() {
                assert(s.live(s.gray[k] as int));
            }
        }
    }
    assert(t.handles_in_range()) by {
        assert forall|j: int| #[trigger] t.live(j) implies t.in_range(t.cell(j).value) by {
            assert(s.in_range(s.cell(j).value));
        }
    }
    if s.phase != GcPhase::Sweeping {
        assert forall|j: int|
            #![trigger t.live(j)]
            t.live(j) && t.cell(j).color == GcColor::Black implies t.holds_marked_only(
            t.cell(j).value,
        ) by {
            assert(s.live(j) && s.cell(j).color == GcColor::Black);
            assert(s.holds_marked_only(s.cell(j).value));
            let v = t.cell(j).value;
            assert forall|m: int| 0 <= m < v.children().len() implies t.marked_or_dead(
                (#[trigger] v.children()[m])@ as int,
            ) by {
                assert(s.marked_or_dead(v.children()[m]@ as int));
            }
        }
    }
    if s.phase == GcPhase::Sweeping {
        assert(t.sweeping_wf()) by {
            assert(s.sweeping_wf());
            assert forall|k: int|
                0 <= k < t.gray.len() && t.unswept(#[trigger] t.gray[k] as int) implies t.cell(
                t.gray[k] as int,
            ).color != GcColor::White by {
                if k < s.gray.len() {
                    assert(s.gray[k] == t.gray[k]);
                }
            }
        }
    }
    if s.phase == GcPhase::Sleeping {
        assert(t.nothing_marked()) by {
            assert(s.nothing_marked());
            assert forall|j: int| #[trigger] t.live(j) implies !t.marked(j) by {
                assert(!s.marked(j));
            }
        }
    }
}

/// A change of one cell's root count keeps the invariant.
pub proof fn lemma_count_wf<T: GcObject>(s: GcState<T>, i: usize, count: usize)
    requires
        s.wf(),
        s.live(i as int),
    ensures
        s.with_cell(i as int, s.cell(i as int).counted(count)).wf(),
{
    let t = s.with_cell(i as int, s.cell(i as int).counted(count));
    assert(forall|j: int| t.live(j) == s.live(j));
    assert(forall|j: int| s.live(j) ==> t.cell(j).next == s.cell(j).next);
    assert(forall|j: int| s.live(j) ==> t.cell(j).color == s.cell(j).color);
    assert(forall|j: int| s.live(j) ==> t.cell(j).value == s.cell(j).value);
    assert forall|j: int| #[trigger] t.live(j) implies t.next_wf(j) by {
        assert(s.next_wf(j));
    }
    assert forall|j: int| #[trigger] t.live(j) implies t.in_range(t.cell(j).value) by {
        assert(s.in_range(s.cell(j).value));
    }
    if s.phase != GcPhase::Sweeping {
        assert forall|j: int|
            #![trigger t.live(j)]
            t.live(j) && t.cell(j).color == GcColor::Black implies t.holds_marked_only(
            t.cell(j).value,
        ) by {
            assert(s.live(j));
            assert(s.holds_marked_only(s.cell(j).value));
            let v = t.cell(j).value;
            assert forall|m: int| 0 <= m < v.children().len() implies t.marked_or_dead(
                (#[trigger] v.children()[m])@ as int,
            ) by {
                assert(s.marked_or_dead(v.children()[m]@ as int));
            }
        }
    }
    if s.phase == GcPhase::Sweeping {
        assert(s.sweeping_wf());
        assert(t.sweeping_wf());
    }
    if s.phase == GcPhase::Sleeping {
        assert(s.nothing_marked());
        assert forall|j: int| #[trigger] t.live(j) implies !t.marked(j) by {
            assert(!s.marked(j));
        }
    }
    assert(t.pending_queued()) by {
        assert(s.pending_queued());
    }
}

/// The write barrier keeps the invariant.
pub proof fn lemma_barrier_wf<T: GcObject>(s: GcState<T>, i: usize)
    requires
        s.wf(),
        s.live(i as int),
    ensures
        s.after_barrier(i).wf(),
{
    let t = s.after_barrier(i);
    if s.phase == GcPhase::Propagating && s.colored(i as int, GcColor::Black) {
        assert(forall|j: int| t.live(j) == s.live(j));
        assert(forall|j: int| s.live(j) && j != i ==> t.cell(j) == s.cell(j));
        assert(s.same_cells(t));
        lemma_same_cells_list(s, t);
        lemma_same_cells_range(s, t);
        assert forall|j: int| #[trigger] s.marked(j) implies t.marked(j) by {}
        lemma_same_cells_black(s, t);
        assert(t.gray == s.gray.push(i));
        assert forall|j: int|
            #![trigger t.live(j)]
            t.live(j) && (t.cell(j).color == GcColor::LightGray || t.cell(j).color
                == GcColor::DarkGray) implies t.gray.contains(j as usize) by {
            if j == i {
                assert(t.gray[s.gray.len() as int] == i);
            } else {
                assert(s.gray.contains(j as usize));
                let k = choose|k: int| 0 <= k < s.gray.len() && s.gray[k] == j as usize;
                assert(t.gray[k] == j as usize);
            }
        }
        assert forall|k: int| 0 <= k < t.gray.len() implies t.live(
            #[trigger] t.gray[k] as int,
        ) by {
            if k < s.gray.len() {
                assert(s.live(s.gray[k] as int));
            }
        }
    }
}

/// Counting an allocation keeps the invariant.
pub proof fn lemma_charge_wf<T: GcObject>(s: GcState<T>)
    requires
        s.wf(),
        s.total_allocated < usize::MAX,
    ensures
        s.after_charge().wf(),
        s.after_charge().cells.len() < s.after_charge().total_allocated,
{
    let t = s.after_charge();
    assert(t.cells == s.cells);
    assert(forall|j: int| t.live(j) == s.live(j));
    assert(s.same_cells(t));
    lemma_same_cells_list(s, t);
    lemma_same_cells_range(s, t);
    assert(t.pending_queued()) by {
        assert(s.pending_queued());
    }
    if s.phase == GcPhase::Sleeping {
        assert(s.nothing_marked());
        assert forall|j: int|
            #![trigger t.live(j)]
            t.live(j) && t.cell(j).color == GcColor::Black implies t.holds_marked_only(
            t.cell(j).value,
        ) by {
            assert(s.live(j));
            assert(!s.marked(j));
        }
        assert forall|j: int| #[trigger] t.live(j) implies !t.marked(j) by {
            assert(s.live(j));
            assert(!s.marked(j));
        }
    } else if s.phase == GcPhase::Propagating {
        assert forall|j: int| #[trigger] s.marked(j) implies t.marked(j) by {}
        lemma_same_cells_black(s, t);
    } else {
        assert(s.sweeping_wf());
        assert(t.sweeping_wf());
    }
}

/// Waking a sleeping collector keeps the invariant.
pub proof fn lemma_wake_wf<T: GcObject>(s: GcState<T>)
    requires
        s.wf(),
        s.phase == GcPhase::Sleeping,
    ensures
        s.after_wake().wf(),
{
    let t = s.after_wake();
    assert(s.same_cells(t));
    lemma_same_cells_list(s, t);
    lemma_same_cells_range(s, t);
    assert(s.nothing_marked());
    assert forall|j: int|
        #![trigger t.live(j)]
        t.live(j) && t.cell(j).color == GcColor::Black implies t.holds_marked_only(
        t.cell(j).value,
    ) by {
        assert(s.live(j));
        assert(!s.marked(j));
    }
    assert(t.pending_queued()) by {
        assert(s.pending_queued());
    }
}

/// Putting a fresh cell at the head of the list keeps the invariant.
pub proof fn lemma_insert_wf<T: GcObject>(s: GcState<T>, value: T)
    requires
        s.wf(),
        s.cells.len() < s.total_allocated,
        s.in_range(value),
    ensures
        s.after_insert(value).wf(),
{
    let t = s.after_insert(value);
    let n = s.cells.len() as int;
    assert(forall|j: int| j != n ==> t.live(j) == s.live(j));
    assert(forall|j: int| s.live(j) ==> t.cell(j) == s.cell(j));
    assert(t.live(n));
    assert forall|j: int| #[trigger] t.live(j) implies t.next_wf(j) by {
        if j != n {
            assert(s.live(j));
            assert(s.next_wf(j));
        }
    }
    assert forall|j: int| #[trigger] t.live(j) implies t.in_range(t.cell(j).value) by {
        if j != n {
            assert(s.live(j));
            assert(s.in_range(s.cell(j).value));
        }
    }
    assert(t.pending_queued()) by {
        assert(s.pending_queued());
    }
    if s.phase != GcPhase::Sweeping {
        assert forall|j: int|
            #![trigger t.live(j)]
            t.live(j) && t.cell(j).color == GcColor::Black implies t.holds_marked_only(
            t.cell(j).value,
        ) by {
            assert(s.live(j));
            assert(s.holds_marked_only(s.cell(j).value));
            assert(s.in_range(s.cell(j).value));
            let v = t.cell(j).value;
            assert forall|m: int| 0 <= m < v.children().len() implies t.marked_or_dead(
                (#[trigger] v.children()[m])@ as int,
            ) by {
                assert(s.marked_or_dead(v.children()[m]@ as int));
            }
        }
    }
    if s.phase == GcPhase::Sleeping {
        assert(s.nothing_marked());
        assert forall|j: int| #[trigger] t.live(j) implies !t.marked(j) by {
            if j != n {
                assert(!s.marked(j));
            }
        }
    }
    if s.phase == GcPhase::Sweeping {
        assert(s.sweeping_wf());
        assert(t.sweeping_wf());
    }
}

/// Putting a payload in a cell keeps the invariant, where the state admits
/// the payload.
pub proof fn lemma_replace_wf<T: GcObject>(s: GcState<T>, i: usize, value: T)
    requires
        s.wf(),
        s.live(i as int),
        s.admits(i, value),
    ensures
        s.after_replace(i, value).wf(),
{
    let t = s.after_replace(i, value);
    assert(forall|j: int| t.live(j) == s.live(j));
    assert(forall|j: int| s.live(j) && j != i ==> t.cell(j) == s.cell(j));
    assert forall|j: int| #[trigger] t.live(j) implies t.next_wf(j) by {
        assert(s.next_wf(j));
    }
    assert forall|j: int| #[trigger] t.live(j) implies t.in_range(t.cell(j).value) by {
        if j != i {
            assert(s.in_range(s.cell(j).value));
        }
    }
    assert(t.pending_queued()) by {
        assert(s.pending_queued());
    }
    if s.phase != GcPhase::Sweeping {
        assert forall|j: int|
            #![trigger t.live(j)]
            t.live(j) && t.cell(j).color == GcColor::Black implies t.holds_marked_only(
            t.cell(j).value,
        ) by {
            let v = t.cell(j).value;
            if j == i {
                if s.phase == GcPhase::Sleeping {
                    assert(s.nothing_marked());
                    assert(!s.marked(j));
                }
                assert(s.holds_marked_only(v));
            } else {
                assert(s.holds_marked_only(s.cell(j).value));
            }
            assert forall|m: int| 0 <= m < v.children().len() implies t.marked_or_dead(
                (#[trigger] v.children()[m])@ as int,
            ) by {
                assert(s.marked_or_dead(v.children()[m]@ as int));
            }
        }
    }
    if s.phase == GcPhase::Sleeping {
        assert(s.nothing_marked());
        assert forall|j: int| #[trigger] t.live(j) implies !t.marked(j) by {
            assert(!s.marked(j));
        }
    }
    if s.phase == GcPhase::Sweeping {
        assert(s.sweeping_wf());
        assert(t.sweeping_wf());
    }
}

/// Passing to the sweep once the gray queue is empty keeps the invariant.
pub proof fn lemma_begin_sweep_wf<T: GcObject>(s: GcState<T>)
    requires
        s.wf(),
        s.phase == GcPhase::Propagating,
        s.gray.len() == 0,
    ensures
        s.after_begin_sweep().wf(),
{
    let t = s.after_begin_sweep();
    assert(s.same_cells(t));
    lemma_same_cells_list(s, t);
    lemma_same_cells_range(s, t);
    assert(t.pending_queued()) by {
        assert(s.pending_queued());
    }
    assert forall|i: int| #![trigger t.live(i)] t.live(i) implies if t.unswept(i) {
        t.cell(i).color != GcColor::DarkGray
    } else {
        t.cell(i).color == GcColor::White || t.cell(i).color == GcColor::LightGray
    } by {
        assert(s.live(i));
        if s.cell(i).color == GcColor::DarkGray || s.cell(i).color == GcColor::LightGray {
            assert(s.gray.contains(i as usize));
        }
    }
}

/// Dropping the front of the gray queue untraced keeps the invariant, where
/// that cell is neither dark-gray nor rooted.
pub proof fn lemma_skip_wf<T: GcObject>(s: GcState<T>)
    requires
        s.wf(),
        s.phase == GcPhase::Propagating,
        s.gray.len() > 0,
        s.cell(s.gray[0] as int).color != GcColor::DarkGray,
    ensures
        s.after_skip().wf(),
{
    let t = s.after_skip();
    let i = s.gray[0] as int;
    assert(s.live(i));
    assert(forall|j: int| t.live(j) == s.live(j));
    assert(forall|j: int| s.live(j) && j != i ==> t.cell(j) == s.cell(j));
    assert(s.same_cells(t));
    lemma_same_cells_list(s, t);
    lemma_same_cells_range(s, t);
    assert forall|j: int| #[trigger] s.marked(j) implies t.marked(j) by {}
    lemma_same_cells_black(s, t);
    assert(t.gray == s.gray.subrange(1, s.gray.len() as int));
    assert forall|k: int| 0 <= k < t.gray.len() implies t.live(#[trigger] t.gray[k] as int) by {
        assert(s.live(s.gray[k + 1] as int));
    }
    assert forall|j: int|
        #![trigger t.live(j)]
        t.live(j) && (t.cell(j).color == GcColor::LightGray || t.cell(j).color
            == GcColor::DarkGray) implies t.gray.contains(j as usize) by {
        assert(j != i);
        assert(s.gray.contains(j as usize));
        let k = choose|k: int| 0 <= k < s.gray.len() && s.gray[k] == j as usize;
        assert(k != 0);
        assert(t.gray[k - 1] == j as usize);
    }
}

/// The sweep visiting the cell at its cursor keeps the invariant.
pub proof fn lemma_sweep_visit_wf<T: GcObject>(s: GcState<T>)
    requires
        s.wf(),
        s.phase == GcPhase::Sweeping,
        s.sweep is Some,
    ensures
        s.after_sweep_visit().wf(),
{
    let t = s.after_sweep_visit();
    let i = s.sweep->0 as int;
    let next = s.cell(i).next;
    assert(s.sweeping_wf());
    assert(s.live(i));
    assert(s.next_wf(i));
    if s.cell(i).color == GcColor::White {
        assert(forall|j: int| j != i ==> t.live(j) == s.live(j));
        assert(!t.live(i));
        match s.sweep_prev {
            Some(p) => {
                assert(s.next_wf(p as int));
                assert(p != i);
                assert(forall|j: int| s.live(j) && j != i && j != p ==> t.cell(j) == s.cell(j));
                assert(t.cell(p as int) == s.cell(p as int).linked(next));
            },
            None => {
                assert(forall|j: int| s.live(j) && j != i ==> t.cell(j) == s.cell(j));
            },
        }
        assert forall|j: int| #[trigger] t.live(j) implies t.next_wf(j) by {
            assert(s.live(j));
            assert(s.next_wf(j));
        }
        assert forall|k: int| 0 <= k < t.gray.len() implies t.live(
            #[trigger] t.gray[k] as int,
        ) by {
            assert(s.live(s.gray[k] as int));
            if s.gray[k] == i {
                assert(s.unswept(s.gray[k] as int));
            }
        }
        assert(t.pending_queued()) by {
            assert(s.pending_queued());
        }
        assert forall|j: int| #[trigger] t.live(j) implies t.in_range(t.cell(j).value) by {
            assert(s.live(j));
            assert(s.in_range(s.cell(j).value));
        }
        assert(t.sweeping_wf());
    } else {
        assert(forall|j: int| t.live(j) == s.live(j));
        assert(forall|j: int| s.live(j) && j != i ==> t.cell(j) == s.cell(j));
        assert(s.same_cells(t));
        lemma_same_cells_list(s, t);
        lemma_same_cells_range(s, t);
        assert(t.pending_queued()) by {
            assert(s.pending_queued());
        }
        assert(t.sweeping_wf());
    }
}

/// Going to sleep at the end of the list keeps the invariant.
pub proof fn lemma_end_sweep_wf<T: GcObject>(s: GcState<T>)
    requires
        s.wf(),
        s.phase == GcPhase::Sweeping,
        s.sweep is None,
    ensures
        s.after_end_sweep().wf(),
{
    let t = s.after_end_sweep();
    assert(s.same_cells(t));
    lemma_same_cells_list(s, t);
    lemma_same_cells_range(s, t);
    assert(s.sweeping_wf());
    assert(t.pending_queued()) by {
        assert(s.pending_queued());
    }
    assert forall|j: int| #[trigger] t.live(j) implies !t.marked(j) by {
        assert(s.live(j));
        assert(!s.unswept(j));
    }
    assert forall|j: int|
        #![trigger t.live(j)]
        t.live(j) && t.cell(j).color == GcColor::Black implies t.holds_marked_only(
        t.cell(j).value,
    ) by {
        assert(!t.marked(j));
    }
}

/// Putting in a cell a payload that holds the same handles as the one
/// before keeps the invariant, and the cells what they were.
pub proof fn lemma_retraced_wf<T: GcObject>(s: GcState<T>, i: usize, value: T)
    requires
        s.wf(),
        s.live(i as int),
        value.children() == s.cell(i as int).value.children(),
    ensures
        s.after_replace(i, value).wf(),
        s.same_cells(s.after_replace(i, value)),
{
    let t = s.after_replace(i, value);
    assert(s.in_range(s.cell(i as int).value));
    assert(s.in_range(value)) by {
        assert forall|m: int| 0 <= m < value.children().len() implies (
        #[trigger] value.children()[m])@ < s.cells.len() by {
            assert(s.cell(i as int).value.children()[m]@ < s.cells.len());
        }
    }
    if s.phase == GcPhase::Propagating && s.colored(i as int, GcColor::Black) {
        assert(s.holds_marked_only(s.cell(i as int).value));
        assert forall|m: int| 0 <= m < value.children().len() implies s.marked_or_dead(
            (#[trigger] value.children()[m])@ as int,
        ) by {
            assert(s.marked_or_dead(s.cell(i as int).value.children()[m]@ as int));
        }
    }
    lemma_replace_wf(s, i, value);
    assert(forall|j: int| t.live(j) == s.live(j));
    assert(forall|j: int| s.live(j) && j != i ==> t.cell(j) == s.cell(j));
}

} // verus!
