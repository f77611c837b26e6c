//! Reachability between cells, and the cells that a cycle protects.

use crate::flags::GcColor;
use crate::state::GcState;
use crate::tracer::GcObject;
use vstd::prelude::*;

verus! {

impl<T: GcObject> GcState<T> {
    /// A path: a sequence of cells, each holding a handle to the next.
    pub open spec fn is_path(self, path: Seq<int>) -> bool {
        &&& path.len() > 0
        &&& forall|k: int| 0 <= k < path.len() ==> self.live(#[trigger] path[k])
        &&& forall|k: int|
            0 <= k < path.len() - 1 ==> self.points_to(#[trigger] path[k], path[k + 1])
    }

    /// A path leads from `from` to `to`.
    pub open spec fn joins(self, path: Seq<int>, from: int, to: int) -> bool {
        self.is_path(path) && path[0] == from && path[path.len() - 1] == to
    }

    /// The cell in slot `to` can be reached from the cell in slot `from`
    /// by following handles through cells.
    pub open spec fn reaches(self, from: int, to: int) -> bool {
        exists|path: Seq<int>| #[trigger] self.joins(path, from, to)
    }

    /// A cell from which marking is going to start, or has started: a
    /// dark-gray or black cell, or a rooted cell in the gray queue.
    pub open spec fn source(self, i: int) -> bool {
        self.marked(i) || (self.rooted(i) && self.gray.contains(i as usize))
    }

    /// The cell in slot `i` can be reached from a source.
    pub open spec fn protected(self, i: int) -> bool {
        exists|src: int| #[trigger] self.source(src) && self.reaches(src, i)
    }

    /// The cell in slot `i` can be reached from a rooted cell.
    pub open spec fn reachable_from_root(self, i: int) -> bool {
        exists|root: int| #[trigger] self.rooted(root) && self.reaches(root, i)
    }
}

/// Every cell reaches itself.
pub proof fn lemma_reaches_self<T: GcObject>(s: GcState<T>, i: int)
    requires
        s.live(i),
    ensures
        s.reaches(i, i),
{
    let path = seq![i];
    assert(s.joins(path, i, i));
}

/// A path can be prolonged by a cell that its last cell holds a handle to.
pub proof fn lemma_reaches_step<T: GcObject>(s: GcState<T>, from: int, via: int, to: int)
    requires
        s.reaches(from, via),
        s.points_to(via, to),
        s.live(to),
    ensures
        s.reaches(from, to),
{
    let path = choose|path: Seq<int>| #[trigger] s.joins(path, from, via);
    let longer = path.push(to);
    assert forall|k: int| 0 <= k < longer.len() implies s.live(#[trigger] longer[k]) by {
        if k < path.len() {
            assert(longer[k] == path[k]);
        }
    }
    assert forall|k: int| 0 <= k < longer.len() - 1 implies s.points_to(
        #[trigger] longer[k],
        longer[k + 1],
    ) by {
        if k < path.len() - 1 {
            assert(longer[k] == path[k]);
            assert(longer[k + 1] == path[k + 1]);
            assert(s.points_to(path[k], path[k + 1]));
        }
    }
    assert(s.joins(longer, from, to));
}

/// A source is protected.
pub proof fn lemma_source_protected<T: GcObject>(s: GcState<T>, i: int)
    requires
        s.source(i),
    ensures
        s.protected(i),
{
    lemma_reaches_self(s, i);
}

/// A cell that a protected cell holds a handle to is protected.
pub proof fn lemma_protected_step<T: GcObject>(s: GcState<T>, via: int, to: int)
    requires
        s.protected(via),
        s.points_to(via, to),
        s.live(to),
    ensures
        s.protected(to),
{
    let src = choose|src: int| #[trigger] s.source(src) && s.reaches(src, via);
    lemma_reaches_step(s, src, via, to);
}

/// States with the same cells have the same paths.
pub proof fn lemma_same_cells_path<T: GcObject>(s: GcState<T>, t: GcState<T>, path: Seq<int>)
    requires
        s.same_cells(t),
        s.is_path(path),
    ensures
        t.is_path(path),
{
    assert forall|k: int| 0 <= k < path.len() implies t.live(#[trigger] path[k]) by {
        assert(s.live(path[k]));
        assert(t.live(path[k]) == s.live(path[k]));
    }
    assert forall|k: int| 0 <= k < path.len() - 1 implies t.points_to(
        #[trigger] path[k],
        path[k + 1],
    ) by {
        assert(s.points_to(path[k], path[k + 1]));
        assert(s.live(path[k]));
        assert(t.live(path[k]) == s.live(path[k]));
        let m = choose|m: int|
            0 <= m < s.children(path[k]).len() && (#[trigger] s.children(path[k])[m])@ == path[k
                + 1];
        assert(t.children(path[k])[m]@ == path[k + 1]);
    }
}

/// Where the black invariant holds and every cell is white or black, every
/// cell on a path that starts at a black cell is black.
pub proof fn lemma_black_closed<T: GcObject>(s: GcState<T>, path: Seq<int>, k: int)
    requires
        s.black_invariant(),
        forall|j: int|
            #[trigger] s.live(j) ==> s.cell(j).color == GcColor::White || s.cell(j).color
                == GcColor::Black,
        s.is_path(path),
        s.colored(path[0], GcColor::Black),
        0 <= k < path.len(),
    ensures
        s.colored(path[k], GcColor::Black),
    decreases k,
{
    if k > 0 {
        lemma_black_closed(s, path, k - 1);
        let i = path[k - 1];
        let j = path[k];
        assert(s.points_to(i, j));
        assert(s.live(i));
        assert(s.holds_marked_only(s.cell(i).value));
        let m = choose|m: int|
            0 <= m < s.children(i).len() && (#[trigger] s.children(i)[m])@ == j;
        assert(s.marked_or_dead(s.cell(i).value.children()[m]@ as int));
        assert(s.live(j));
    }
}

} // verus!
