//! Laws of the collector, proved from the invariant and the relation
//! between a state and the state in which its cycle ends.

use crate::flags::GcColor;
use crate::reach::{lemma_protected_step, lemma_reaches_self, lemma_same_cells_path};
use crate::state::{GcPhase, GcState};
use crate::tracer::GcObject;
use vstd::prelude::*;

verus! {

impl<T> GcState<T> {
    /// The cells met by following the links from `at`, in order.
    pub open spec fn list_from(self, at: Option<usize>) -> Seq<usize>
        decreases
                (match at {
                    Some(i) => i + 1,
                    None => 0,
                }),
    {
        match at {
            None => Seq::empty(),
            Some(i) => {
                let next = self.cell(i as int).next;
                if self.live(i as int) && (next is None || next->0 < i) {
                    seq![i] + self.list_from(next)
                } else {
                    seq![i]
                }
            },
        }
    }

    /// The list of all cells, as met by following the links from its head.
    pub open spec fn all_list(self) -> Seq<usize> {
        self.list_from(self.all)
    }
}

/// Following the links from a cell meets every cell at or below it, and
/// nothing else, in falling order of their slots.
pub proof fn lemma_list_from<T>(s: GcState<T>, at: Option<usize>)
    requires
        s.list_wf(),
        at is Some ==> s.live(at->0 as int),
    ensures
        at is None ==> s.list_from(at).len() == 0,
        forall|k: int|
            0 <= k < s.list_from(at).len() ==> s.live(#[trigger] s.list_from(at)[k] as int)
                && s.list_from(at)[k] <= at->0,
        forall|k1: int, k2: int|
            0 <= k1 < k2 < s.list_from(at).len() ==> s.list_from(at)[k1] > s.list_from(at)[k2],
        forall|j: int|
            #![trigger s.live(j)]
            at is Some && s.live(j) && j <= at->0 ==> s.list_from(at).contains(j as usize),
    decreases
            (match at {
                Some(i) => i + 1,
                None => 0,
            }),
{
    match at {
        None => {},
        Some(i) => {
            let next = s.cell(i as int).next;
            assert(s.next_wf(i as int));
            let rest = s.list_from(next);
            let list = s.list_from(at);
            lemma_list_from(s, next);
            assert(list == seq![i] + rest);
            assert(list[0] == i);
            assert forall|k: int| 0 <= k < list.len() implies s.live(#[trigger] list[k] as int)
                && list[k] <= i by {
                if k > 0 {
                    assert(list[k] == rest[k - 1]);
                }
            }
            assert forall|k1: int, k2: int| 0 <= k1 < k2 < list.len() implies list[k1]
                > list[k2] by {
                assert(list[k2] == rest[k2 - 1]);
                if k1 > 0 {
                    assert(list[k1] == rest[k1 - 1]);
                }
            }
            assert forall|j: int|
                #![trigger s.live(j)]
                s.live(j) && j <= i implies list.contains(j as usize) by {
                if j != i {
                    assert(next is Some && j <= next->0);
                    assert(rest.contains(j as usize));
                    let k = choose|k: int| 0 <= k < rest.len() && rest[k] == j as usize;
                    assert(list[k + 1] == j as usize);
                }
            }
        },
    }
}

/// The list of all cells holds every cell exactly once: following the links
/// from the head meets each cell, meets none twice, and meets nothing that
/// is not a cell.
pub proof fn lemma_all_list_exact<T: GcObject>(s: GcState<T>)
    requires
        s.wf(),
    ensures
        s.all_list().no_duplicates(),
        forall|i: usize| s.live(i as int) <==> #[trigger] s.all_list().contains(i),
{
    lemma_list_from(s, s.all);
    let list = s.all_list();
    assert forall|k1: int, k2: int|
        0 <= k1 < list.len() && 0 <= k2 < list.len() && k1 != k2 implies list[k1]
        != list[k2] by {
        if k1 < k2 {
            assert(list[k1] > list[k2]);
        } else {
            assert(list[k2] > list[k1]);
        }
    }
    assert forall|i: usize| s.live(i as int) <==> #[trigger] list.contains(i) by {
        if s.live(i as int) {
            assert(s.all is Some);
            assert(list.contains(i as int as usize));
        }
        if list.contains(i) {
            let k = choose|k: int| 0 <= k < list.len() && list[k] == i;
            assert(s.live(list[k] as int));
        }
    }
}

/// A full cycle from sleep keeps every cell that is rooted and stands in
/// the gray queue when the cycle starts, with the handles it holds and its
/// root count. Rooting a white cell puts it in the queue.
pub proof fn lemma_rooted_survives<T: GcObject>(s: GcState<T>, after: GcState<T>, root: int)
    requires
        s.wf(),
        s.phase == GcPhase::Sleeping,
        s.after_wake().is_cycle_result(after),
        s.rooted(root),
        s.gray.contains(root as usize),
    ensures
        after.live(root),
        after.cell(root).value.children() == s.cell(root).value.children(),
        after.cell(root).root_count == s.cell(root).root_count,
{
    lemma_reachable_survives(s, after, root, root);
}

/// A full cycle from sleep keeps every cell that can be reached from a cell
/// that is rooted and stands in the gray queue when the cycle starts.
pub proof fn lemma_reachable_survives<T: GcObject>(
    s: GcState<T>,
    after: GcState<T>,
    root: int,
    cell: int,
)
    requires
        s.wf(),
        s.phase == GcPhase::Sleeping,
        s.after_wake().is_cycle_result(after),
        s.rooted(root),
        s.gray.contains(root as usize),
        s.live(cell),
        cell == root || s.reaches(root, cell),
    ensures
        after.live(cell),
        after.cell(cell).value.children() == s.cell(cell).value.children(),
        after.cell(cell).root_count == s.cell(cell).root_count,
{
    let a = s.after_wake();
    if cell == root {
        lemma_reaches_self(s, root);
    }
    let path = choose|path: Seq<int>| #[trigger] s.joins(path, root, cell);
    assert(s.same_cells(a));
    lemma_same_cells_path(s, a, path);
    assert(a.joins(path, root, cell));
    assert(a.source(root));
    assert(a.protected(cell));
    assert(a.survives(cell));
}

/// A full cycle from sleep destroys every cell that no rooted cell reaches
/// when the cycle starts.
pub proof fn lemma_unreachable_freed<T: GcObject>(s: GcState<T>, after: GcState<T>, cell: int)
    requires
        s.wf(),
        s.phase == GcPhase::Sleeping,
        s.after_wake().is_cycle_result(after),
        !s.reachable_from_root(cell),
    ensures
        !after.live(cell),
{
    let a = s.after_wake();
    if after.live(cell) {
        assert(0 <= cell < a.cells.len());
        assert(a.survives(cell));
        let src = choose|src: int| #[trigger] a.source(src) && a.reaches(src, cell);
        let path = choose|path: Seq<int>| #[trigger] a.joins(path, src, cell);
        assert(s.nothing_marked());
        assert(s.live(src));
        assert(!s.marked(src));
        assert(s.rooted(src));
        assert(a.same_cells(s));
        lemma_same_cells_path(a, s, path);
        assert(s.joins(path, src, cell));
        assert(s.rooted(src) && s.reaches(src, cell));
    }
}

/// A full cycle from a calm sleep frees every cell: marking has nowhere to
/// start.
pub proof fn lemma_calm_cycle_frees_all<T: GcObject>(s: GcState<T>, after: GcState<T>, cell: int)
    requires
        s.wf(),
        s.phase == GcPhase::Sleeping,
        s.calm(),
        s.after_wake().is_cycle_result(after),
    ensures
        !after.live(cell),
{
    let a = s.after_wake();
    if after.live(cell) {
        assert(a.survives(cell));
        let src = choose|src: int| #[trigger] a.source(src) && a.reaches(src, cell);
        assert(s.nothing_marked());
        assert(s.live(src));
        assert(!s.marked(src));
        let k = choose|k: int| 0 <= k < s.gray.len() && s.gray[k] == src as usize;
        assert(!s.rooted(s.gray[k] as int));
    }
}

/// A full cycle from sleep leaves no cell with a handle to a cell that it
/// has destroyed: whatever a surviving cell held a handle to survives too.
pub proof fn lemma_survivors_hold_survivors<T: GcObject>(
    s: GcState<T>,
    after: GcState<T>,
    holder: int,
    held: int,
)
    requires
        s.wf(),
        s.phase == GcPhase::Sleeping,
        s.after_wake().is_cycle_result(after),
        after.live(holder),
        s.points_to(holder, held),
        s.live(held),
    ensures
        after.live(held),
        after.points_to(holder, held),
{
    let a = s.after_wake();
    assert(0 <= holder < a.cells.len());
    assert(a.survives(holder));
    let m = choose|m: int|
        0 <= m < s.children(holder).len() && (#[trigger] s.children(holder)[m])@ == held;
    assert(a.children(holder)[m]@ == held);
    assert(a.points_to(holder, held));
    lemma_protected_step(a, holder, held);
    assert(a.survives(held));
    assert(after.children(holder)[m]@ == held);
}

/// The cycle that is running in a propagating state keeps exactly the cells
/// that a source reaches: the dark-gray and black cells, the rooted cells
/// in the gray queue, and what those lead to.
pub proof fn lemma_cycle_keeps_protected<T: GcObject>(s: GcState<T>, after: GcState<T>, cell: int)
    requires
        s.phase == GcPhase::Propagating,
        s.is_cycle_result(after),
        0 <= cell < s.cells.len(),
    ensures
        after.live(cell) <==> s.live(cell) && s.protected(cell),
{
}

/// Where the sweep unlinks a cell and has kept none before it, the cell is
/// the head of the list of all cells.
pub proof fn lemma_unlinked_without_predecessor_is_head<T: GcObject>(s: GcState<T>)
    requires
        s.wf(),
        s.phase == GcPhase::Sweeping,
        s.sweep is Some,
        s.sweep_prev is None,
    ensures
        s.all == s.sweep,
{
    assert(s.sweeping_wf());
}

/// The black invariant holds at the end of every step that does not end in
/// the middle of a sweep.
pub proof fn lemma_black_invariant<T: GcObject>(s: GcState<T>)
    requires
        s.wf(),
        s.phase != GcPhase::Sweeping,
    ensures
        s.black_invariant(),
{
}

impl<T: GcObject> GcState<T> {
    /// The cell in slot `i` is safe from the cycle that is running, or from
    /// the next one if the collector is asleep, for as long as it stays
    /// rooted: asleep, it is rooted and stands in the gray queue; while
    /// propagating, it is a source; while sweeping, the sweep has passed it
    /// or it is not white.
    pub open spec fn secure(self, i: int) -> bool {
        match self.phase {
            GcPhase::Sleeping => self.rooted(i) && self.gray.contains(i as usize),
            GcPhase::Propagating => self.source(i),
            GcPhase::Sweeping => self.survives(i),
        }
    }

    /// `other` keeps the cell in slot `i` safe: the cell is still there,
    /// and unless `other` is a state in which its cycle has ended, it is
    /// secure there.
    pub open spec fn keeps(self, other: GcState<T>, i: int) -> bool {
        other.live(i) && (other.secure(i) || (self.phase != GcPhase::Sleeping && other.phase
            == GcPhase::Sleeping))
    }
}

/// Rooting a cell makes it secure, in every phase.
pub proof fn lemma_root_secures<T: GcObject>(s: GcState<T>, i: usize)
    requires
        s.wf(),
        s.live(i as int),
        s.cell(i as int).root_count < usize::MAX,
    ensures
        s.after_root(i).secure(i as int),
{
    let t = s.after_root(i);
    if s.cell(i as int).color == GcColor::White {
        assert(t.gray == s.gray.push(i));
        assert(t.gray[s.gray.len() as int] == i);
    } else {
        assert(s.pending_queued());
        if s.phase == GcPhase::Sleeping {
            assert(s.nothing_marked());
            assert(!s.marked(i as int));
        }
    }
}

/// Rooting, sharing and unrooting cells keeps a secure cell safe, as long
/// as the cell itself stays rooted where its safety rests on its root.
pub proof fn lemma_secure_kept_by_roots<T: GcObject>(s: GcState<T>, j: usize, i: int)
    requires
        s.wf(),
        s.live(j as int),
        s.secure(i),
    ensures
        s.cell(j as int).root_count < usize::MAX ==> s.keeps(s.after_root(j), i),
        s.cell(j as int).root_count < usize::MAX ==> s.keeps(s.after_share(j), i),
        s.cell(j as int).root_count > 0 && (j != i || s.cell(j as int).root_count > 1 || s.marked(
            i,
        ) || s.phase == GcPhase::Sweeping) ==> s.keeps(s.after_unroot(j), i),
{
    if s.cell(j as int).root_count < usize::MAX {
        let t = s.after_root(j);
        if s.cell(j as int).color == GcColor::White {
            assert(t.gray == s.gray.push(j));
            if s.gray.contains(i as usize) {
                let k = choose|k: int| 0 <= k < s.gray.len() && s.gray[k] == i as usize;
                assert(t.gray[k] == i as usize);
            }
        }
        assert(s.keeps(t, i));
        assert(s.keeps(s.after_share(j), i));
    }
}

/// The write barrier, a new payload, a new cell and the count of an
/// allocation keep a secure cell safe.
pub proof fn lemma_secure_kept_by_mutator<T: GcObject>(s: GcState<T>, j: usize, value: T, i: int)
    requires
        s.wf(),
        s.live(j as int),
        s.secure(i),
    ensures
        s.keeps(s.after_barrier(j), i),
        s.keeps(s.after_replace(j, value), i),
        s.keeps(s.after_insert(value), i),
        s.keeps(s.after_charge(), i),
        s.phase == GcPhase::Sleeping ==> s.keeps(s.after_wake(), i),
{
    let t = s.after_barrier(j);
    if s.phase == GcPhase::Propagating && s.colored(j as int, GcColor::Black) {
        assert(t.gray == s.gray.push(j));
        if s.gray.contains(i as usize) {
            let k = choose|k: int| 0 <= k < s.gray.len() && s.gray[k] == i as usize;
            assert(t.gray[k] == i as usize);
        }
    }
    assert(s.keeps(t, i));
    assert(s.keeps(s.after_replace(j, value), i));
    let u = s.after_insert(value);
    assert(u.live(i));
    assert(u.cell(i) == s.cell(i));
    assert(s.keeps(u, i));
    assert(s.keeps(s.after_charge(), i));
}

/// A run of the collector keeps safe every cell that a source reaches, and
/// with it every secure cell.
pub proof fn lemma_secure_kept_by_run<T: GcObject>(s: GcState<T>, t: GcState<T>, i: int)
    requires
        s.wf(),
        s.collects_to(t),
        s.live(i),
        s.secure(i) || (s.phase == GcPhase::Propagating && s.protected(i)),
    ensures
        t.live(i),
        s.secure(i) ==> s.keeps(t, i),
        t.phase == GcPhase::Sweeping ==> t.survives(i),
        t.phase == GcPhase::Propagating ==> t.protected(i),
{
    if s.phase == GcPhase::Propagating {
        if s.secure(i) {
            lemma_reaches_self(s, i);
        }
        assert(s.protected(i));
        if t.phase == GcPhase::Propagating {
            let src = choose|src: int| #[trigger] s.source(src) && s.reaches(src, i);
            let path = choose|path: Seq<int>| #[trigger] s.joins(path, src, i);
            lemma_same_cells_path(s, t, path);
            assert(t.joins(path, src, i));
            assert(t.source(src));
            assert(t.live(i) == s.live(i));
        } else if t.phase == GcPhase::Sweeping {
            assert(s.sweeps_to(t));
            assert(s.survives(i));
            if t.unswept(i) {
                assert(t.live(i) == s.live(i));
                assert(t.cell(i).color == GcColor::Black);
            } else {
                assert(t.live(i) == s.survives(i));
            }
        } else {
            assert(s.survives(i));
            assert(t.live(i) == s.survives(i));
        }
    } else if s.phase == GcPhase::Sweeping {
        if t.phase == GcPhase::Sweeping {
            assert(s.sweeps_to(t));
            if t.unswept(i) {
                assert(s.unswept(i));
                assert(t.live(i) == s.live(i));
                assert(t.cell(i).color == s.cell(i).color);
            } else {
                assert(t.live(i) == s.survives(i));
            }
        } else {
            assert(s.is_cycle_result(t));
            assert(t.live(i) == s.survives(i));
        }
    }
}

} // verus!
