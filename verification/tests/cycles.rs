use std::cell::{Cell, RefCell};
use tricolor_gc::context::GcContext;
use tricolor_gc::flags::GcColor;
use tricolor_gc::handle::Gc;
use tricolor_gc::params::GcParameters;
use tricolor_gc::state::GcPhase;
use tricolor_gc::tracer::{GcObject, GcTracer};

/// A payload that holds handles and can refuse to be traced a number of
/// times.
#[derive(Debug)]
struct Item {
    tag: u32,
    held: RefCell<Vec<Gc<Item>>>,
    refusals: Cell<u32>,
    attempts: Cell<u32>,
    traces: Cell<u32>,
}

impl Item {
    fn new(tag: u32) -> Item {
        Item::refusing(tag, 0)
    }

    fn refusing(tag: u32, refusals: u32) -> Item {
        Item {
            tag,
            held: RefCell::new(Vec::new()),
            refusals: Cell::new(refusals),
            attempts: Cell::new(0),
            traces: Cell::new(0),
        }
    }
}

impl GcObject for Item {
    fn trace(&mut self, tracer: &mut GcTracer<Item>) -> bool {
        self.attempts.set(self.attempts.get() + 1);
        if self.refusals.get() > 0 {
            self.refusals.set(self.refusals.get() - 1);
            return false;
        }
        self.traces.set(self.traces.get() + 1);
        for gc in self.held.borrow().iter() {
            tracer.trace(*gc);
        }
        true
    }
}

fn hold(context: &mut GcContext<Item>, holder: Gc<Item>, held: Gc<Item>) {
    context.write_barrier(holder);
    holder.as_ref(context).held.borrow_mut().push(held);
}

#[test]
fn simple_collection() {
    let mut context: GcContext<Item> = GcContext::new(GcParameters::default());
    let mut cells = Vec::new();
    for tag in 0..2000 {
        cells.push(context.allocate(Item::new(tag)));
    }
    context.collect_garbage();
    assert_eq!(context.live_count(), 0);
    assert_eq!(context.phase(), GcPhase::Sleeping);
    assert_eq!(context.gray_len(), 0);
    assert_eq!(context.total_allocated(), 2000);
    for gc in cells {
        assert!(!context.is_live(gc));
    }
}

#[test]
fn root_retention() {
    let mut context: GcContext<Item> = GcContext::new(GcParameters::default());
    let b = context.allocate(Item::new(2));
    let a = context.allocate_root(Item::new(1));
    hold(&mut context, a.gc(), b);
    context.collect_garbage();
    assert_eq!(context.phase(), GcPhase::Sleeping);
    assert!(context.is_live(a.gc()));
    assert!(context.is_live(b));
    assert_eq!(a.as_ref(&context).tag, 1);
    assert_eq!(b.as_ref(&context).tag, 2);
    assert_eq!(context.live_count(), 2);
    let a_gc = a.gc();
    context.unroot(a);
    context.collect_garbage();
    assert_eq!(context.phase(), GcPhase::Sleeping);
    assert!(!context.is_live(a_gc));
    assert!(!context.is_live(b));
    assert_eq!(context.live_count(), 0);
}

#[test]
fn cycle_through_heap() {
    let mut context: GcContext<Item> = GcContext::new(GcParameters::default());
    let x = context.allocate_root(Item::new(1));
    let y = context.allocate(Item::new(2));
    hold(&mut context, x.gc(), y);
    hold(&mut context, y, x.gc());
    assert_eq!(context.root_count_of(x.gc()), Some(1));
    assert_eq!(context.root_count_of(y), Some(0));
    context.collect_garbage();
    assert!(context.is_live(x.gc()));
    assert!(context.is_live(y));
    let x_gc = x.gc();
    context.unroot(x);
    context.collect_garbage();
    assert!(!context.is_live(x_gc));
    assert!(!context.is_live(y));
    assert_eq!(context.live_count(), 0);
    assert_eq!(context.phase(), GcPhase::Sleeping);
}

#[test]
fn mid_cycle_allocation() {
    // Wake-up after three allocations; a step of two units is due with the
    // first allocation of a cycle.
    let mut context: GcContext<Item> = GcContext::new(GcParameters::new(150, 100, 200, 3));
    let first = context.allocate(Item::new(0));
    let second = context.allocate(Item::new(1));
    let third = context.allocate(Item::new(2));
    assert_eq!(context.phase(), GcPhase::Sleeping);
    // The fourth allocation starts a cycle and runs one step of two units:
    // the sweep frees the two youngest cells. The new cell is linked in
    // front of the cursor.
    let fresh = context.allocate(Item::new(3));
    assert_eq!(context.phase(), GcPhase::Sweeping);
    assert!(context.is_live(first));
    assert!(!context.is_live(second));
    assert!(!context.is_live(third));
    assert!(context.is_live(fresh));
    // Completing the cycle frees the last old cell and keeps the new one.
    context.do_collection(u64::MAX);
    assert_eq!(context.phase(), GcPhase::Sleeping);
    assert!(!context.is_live(first));
    assert!(context.is_live(fresh));
    assert_eq!(context.live_count(), 1);
    assert_eq!(fresh.as_ref(&context).tag, 3);
    assert_eq!(context.color_of(fresh), Some(GcColor::White));
}

#[test]
fn cells_allocated_while_sweeping_keep_the_list_whole() {
    let mut context: GcContext<Item> = GcContext::new(GcParameters::new(150, 100, 100, 4));
    let mut old = Vec::new();
    for tag in 0..4 {
        old.push(context.allocate_root(Item::new(tag)));
    }
    // Every further allocation runs a step of one unit.
    let mut young = Vec::new();
    for tag in 4..12 {
        young.push(context.allocate(Item::new(tag)));
    }
    context.do_collection(u64::MAX);
    assert_eq!(context.phase(), GcPhase::Sleeping);
    let mut expected = 0;
    for root in old.iter() {
        assert!(context.is_live(root.gc()));
        expected += 1;
    }
    for gc in young.iter() {
        if context.is_live(*gc) {
            expected += 1;
        }
    }
    assert_eq!(context.live_count(), expected);
    // Cells allocated once the sweep had begun were kept.
    assert!(context.is_live(young[7]));
    for root in old {
        context.unroot(root);
    }
}

#[test]
fn transient_root_is_collected_in_the_same_cycle() {
    let mut context: GcContext<Item> = GcContext::new(GcParameters::default());
    let root = context.allocate_root(Item::new(1));
    let gc = root.gc();
    context.unroot(root);
    assert_eq!(context.color_of(gc), Some(GcColor::LightGray));
    assert_eq!(context.gray_len(), 1);
    context.collect_garbage();
    assert!(!context.is_live(gc));
    assert_eq!(context.gray_len(), 0);
    assert_eq!(context.phase(), GcPhase::Sleeping);
}

#[test]
fn survivors_are_white_after_the_cycle() {
    let mut context: GcContext<Item> = GcContext::new(GcParameters::default());
    let root = context.allocate_root(Item::new(1));
    context.collect_garbage();
    assert_eq!(context.color_of(root.gc()), Some(GcColor::White));
    assert_eq!(context.root_count_of(root.gc()), Some(1));
    assert_eq!(context.gray_len(), 0);
    context.unroot(root);
}

#[test]
fn rooted_cell_that_is_rooted_again_survives_the_next_cycle() {
    let mut context: GcContext<Item> = GcContext::new(GcParameters::default());
    let child = context.allocate(Item::new(2));
    let root = context.allocate_root(Item::new(1));
    hold(&mut context, root.gc(), child);
    context.collect_garbage();
    assert!(context.is_live(root.gc()));
    // A root taken on the white survivor puts it back in the queue.
    let again = context.root(root.gc());
    assert_eq!(context.color_of(root.gc()), Some(GcColor::LightGray));
    context.unroot(root);
    context.collect_garbage();
    assert!(context.is_live(again.gc()));
    assert!(context.is_live(child));
    assert_eq!(context.live_count(), 2);
    context.unroot(again);
}

#[test]
fn root_alone_does_not_queue_a_survivor_again() {
    // A cell stands in the gray queue from the moment it is rooted while
    // white. A survivor of a cycle is white and out of the queue, though
    // still rooted; the next cycle starts from the queue and does not find
    // it.
    let mut context: GcContext<Item> = GcContext::new(GcParameters::default());
    let root = context.allocate_root(Item::new(1));
    let gc = root.gc();
    context.collect_garbage();
    assert!(context.is_live(gc));
    assert_eq!(context.color_of(gc), Some(GcColor::White));
    assert_eq!(context.gray_len(), 0);
    context.collect_garbage();
    assert!(!context.is_live(gc));
}

#[test]
fn deep_chain_is_kept_from_its_root() {
    let mut context: GcContext<Item> = GcContext::new(GcParameters::default());
    let mut chain = Vec::new();
    let mut previous: Option<Gc<Item>> = None;
    for tag in 0..200 {
        let gc = context.allocate(Item::new(tag));
        if let Some(held) = previous {
            gc.as_ref(&context).held.borrow_mut().push(held);
        }
        chain.push(gc);
        previous = Some(gc);
    }
    let garbage = context.allocate(Item::new(999));
    let head = *chain.last().unwrap();
    let root = context.root(head);
    context.collect_garbage();
    for gc in chain.iter() {
        assert!(context.is_live(*gc));
        assert_eq!(gc.as_ref(&context).traces.get(), 1);
    }
    assert!(!context.is_live(garbage));
    assert_eq!(context.live_count(), 200);
    context.unroot(root);
}

#[test]
fn shared_child_is_traced_once() {
    let mut context: GcContext<Item> = GcContext::new(GcParameters::default());
    let shared = context.allocate(Item::new(0));
    let left = context.allocate_root(Item::new(1));
    let right = context.allocate_root(Item::new(2));
    hold(&mut context, left.gc(), shared);
    hold(&mut context, right.gc(), shared);
    right.gc().as_ref(&context).held.borrow_mut().push(shared);
    context.collect_garbage();
    assert!(context.is_live(shared));
    assert_eq!(shared.as_ref(&context).traces.get(), 1);
    assert_eq!(context.live_count(), 3);
    context.unroot(left);
    context.unroot(right);
}

/// Parameters with which the allocation after the first `cells` wakes the
/// collector and no allocation runs a step.
fn waking_after(cells: usize) -> GcParameters {
    GcParameters::new(150, 100, 100000000, cells)
}

#[test]
fn blocked_trace() {
    let mut context: GcContext<Item> = GcContext::new(GcParameters::default());
    let child = context.allocate(Item::new(2));
    let root = context.allocate_root(Item::refusing(1, 1));
    hold(&mut context, root.gc(), child);
    context.collect_garbage();
    // The cell refused once, went back to the queue and was traced at the
    // second attempt; its child was reached before the sweep.
    assert_eq!(context.phase(), GcPhase::Sleeping);
    assert_eq!(context.gray_len(), 0);
    assert!(context.is_live(root.gc()));
    assert!(context.is_live(child));
    assert_eq!(context.live_count(), 2);
    assert_eq!(root.as_ref(&context).attempts.get(), 2);
    assert_eq!(root.as_ref(&context).traces.get(), 1);
    assert_eq!(root.as_ref(&context).refusals.get(), 0);
    assert_eq!(child.as_ref(&context).traces.get(), 1);
    assert_eq!(context.all_cells(), vec![root.gc(), child]);
    context.unroot(root);
}

#[test]
fn full_cycle_outlasts_every_refusal() {
    let mut context: GcContext<Item> = GcContext::new(GcParameters::default());
    let child = context.allocate(Item::refusing(3, 4));
    let first = context.allocate_root(Item::refusing(1, 5));
    let second = context.allocate_root(Item::refusing(2, 3));
    let lost = context.allocate(Item::refusing(4, 7));
    hold(&mut context, second.gc(), child);
    context.collect_garbage();
    assert_eq!(context.phase(), GcPhase::Sleeping);
    assert_eq!(context.gray_len(), 0);
    assert!(context.is_live(first.gc()));
    assert!(context.is_live(second.gc()));
    assert!(context.is_live(child));
    assert!(!context.is_live(lost));
    assert_eq!(first.as_ref(&context).attempts.get(), 6);
    assert_eq!(second.as_ref(&context).attempts.get(), 4);
    assert_eq!(child.as_ref(&context).attempts.get(), 5);
    assert_eq!(first.as_ref(&context).traces.get(), 1);
    assert_eq!(second.as_ref(&context).traces.get(), 1);
    assert_eq!(child.as_ref(&context).traces.get(), 1);
    context.unroot(first);
    context.unroot(second);
}

#[test]
fn blocked_cell_turns_black_on_the_second_attempt() {
    let mut context: GcContext<Item> = GcContext::new(waking_after(2));
    let child = context.allocate(Item::new(2));
    let root = context.allocate_root(Item::refusing(1, 1));
    hold(&mut context, root.gc(), child);
    let waker = context.allocate(Item::new(3));
    assert_eq!(context.phase(), GcPhase::Propagating);
    // The whole queue is blocked: the step ends without spending work.
    let left = context.do_collection(5);
    assert_eq!(left, 5);
    assert_eq!(context.phase(), GcPhase::Propagating);
    assert_eq!(context.gray_len(), 1);
    assert_eq!(context.color_of(root.gc()), Some(GcColor::LightGray));
    assert_eq!(context.color_of(child), Some(GcColor::White));
    assert_eq!(root.as_ref(&context).attempts.get(), 1);
    // A collector that is not asleep is left alone by a forced collection.
    context.collect_garbage();
    assert_eq!(context.phase(), GcPhase::Propagating);
    assert_eq!(root.as_ref(&context).attempts.get(), 1);
    // One unit of work: the second attempt goes through.
    let left = context.do_collection(1);
    assert_eq!(left, 0);
    assert_eq!(context.color_of(root.gc()), Some(GcColor::Black));
    assert_eq!(context.color_of(child), Some(GcColor::DarkGray));
    assert_eq!(context.gray_len(), 1);
    let left = context.do_collection(1);
    assert_eq!(left, 0);
    assert_eq!(context.color_of(child), Some(GcColor::Black));
    assert_eq!(context.phase(), GcPhase::Propagating);
    // The sweep frees the one white cell.
    let left = context.do_collection(5);
    assert_eq!(left, 4);
    assert_eq!(context.phase(), GcPhase::Sleeping);
    assert!(context.is_live(root.gc()));
    assert!(context.is_live(child));
    assert!(!context.is_live(waker));
    context.unroot(root);
}

#[test]
fn stalled_queue_ends_the_step() {
    let mut context: GcContext<Item> = GcContext::new(waking_after(2));
    let first = context.allocate_root(Item::refusing(1, 100));
    let second = context.allocate_root(Item::refusing(2, 100));
    // Asleep: nothing to do.
    let left = context.do_collection(10);
    assert_eq!(left, 10);
    assert_eq!(first.as_ref(&context).attempts.get(), 0);
    let _waker = context.allocate(Item::new(3));
    assert_eq!(context.phase(), GcPhase::Propagating);
    // Each is tried once, then the queue counts as stalled.
    let left = context.do_collection(10);
    assert_eq!(left, 10);
    assert_eq!(context.phase(), GcPhase::Propagating);
    assert_eq!(context.gray_len(), 2);
    assert_eq!(first.as_ref(&context).refusals.get(), 99);
    assert_eq!(second.as_ref(&context).refusals.get(), 99);
    // The next step tries again.
    let left = context.do_collection(10);
    assert_eq!(left, 10);
    assert_eq!(first.as_ref(&context).refusals.get(), 98);
    assert_eq!(second.as_ref(&context).refusals.get(), 98);
    assert_eq!(context.live_count(), 3);
    context.unroot(first);
    context.unroot(second);
}

#[test]
fn dropped_cell_between_blocked_cells_does_not_hang_the_step() {
    let mut context: GcContext<Item> = GcContext::new(waking_after(2));
    let blocked = context.allocate_root(Item::refusing(1, 1000));
    let passing = context.allocate_root(Item::new(2));
    let passing_gc = passing.gc();
    context.unroot(passing);
    let _waker = context.allocate(Item::new(3));
    // Queue: the blocked cell, then a light-gray cell without a root. The
    // second is dropped, which leaves one cell, blocked twice in a row: the
    // step ends.
    let left = context.do_collection(10);
    assert_eq!(left, 10);
    assert_eq!(context.phase(), GcPhase::Propagating);
    assert_eq!(context.gray_len(), 1);
    assert_eq!(context.color_of(passing_gc), Some(GcColor::White));
    assert_eq!(blocked.as_ref(&context).refusals.get(), 998);
    context.unroot(blocked);
}

#[test]
fn work_is_spent_on_black_and_freed_cells_only() {
    let mut context: GcContext<Item> = GcContext::new(waking_after(4));
    let kept = context.allocate_root(Item::new(1));
    let _lost_a = context.allocate(Item::new(2));
    let _lost_b = context.allocate(Item::new(3));
    let transient = context.allocate_root(Item::new(4));
    context.unroot(transient);
    let _waker = context.allocate(Item::new(5));
    assert_eq!(context.phase(), GcPhase::Propagating);
    // One unit for the black cell, four for the freed cells; dropping the
    // transient root, repainting the survivor and the changes of phase are
    // free.
    let left = context.do_collection(10);
    assert_eq!(left, 5);
    assert_eq!(context.phase(), GcPhase::Sleeping);
    assert_eq!(context.live_count(), 1);
    assert!(context.is_live(kept.gc()));
    context.unroot(kept);
}

#[test]
fn zero_work_changes_nothing() {
    let mut context: GcContext<Item> = GcContext::new(waking_after(1));
    let root = context.allocate_root(Item::new(1));
    let _waker = context.allocate(Item::new(2));
    assert_eq!(context.phase(), GcPhase::Propagating);
    let left = context.do_collection(0);
    assert_eq!(left, 0);
    assert_eq!(context.phase(), GcPhase::Propagating);
    assert_eq!(context.gray_len(), 1);
    assert_eq!(root.as_ref(&context).attempts.get(), 0);
    assert_eq!(context.color_of(root.gc()), Some(GcColor::LightGray));
    context.unroot(root);
}

#[test]
fn sweep_frees_one_cell_per_unit() {
    let mut context: GcContext<Item> = GcContext::new(waking_after(11));
    let mut cells = Vec::new();
    for tag in 0..10 {
        cells.push(context.allocate(Item::new(tag)));
    }
    let root = context.allocate_root(Item::new(10));
    let waker = context.allocate(Item::new(11));
    assert_eq!(context.phase(), GcPhase::Propagating);
    // One unit paints the root black; three more free the three youngest
    // white cells, the sweep going from the head of the list down.
    let left = context.do_collection(4);
    assert_eq!(left, 0);
    assert_eq!(context.phase(), GcPhase::Sweeping);
    assert_eq!(context.live_count(), 9);
    assert!(!context.is_live(waker));
    assert!(context.is_live(root.gc()));
    assert_eq!(context.color_of(root.gc()), Some(GcColor::White));
    assert!(!context.is_live(cells[9]));
    assert!(!context.is_live(cells[8]));
    assert!(context.is_live(cells[7]));
    context.do_collection(u64::MAX);
    assert_eq!(context.live_count(), 1);
    assert_eq!(context.phase(), GcPhase::Sleeping);
    context.unroot(root);
}

#[test]
fn rooting_while_sweeping_saves_a_cell_the_sweep_has_not_reached() {
    let mut context: GcContext<Item> = GcContext::new(waking_after(6));
    let mut cells = Vec::new();
    for tag in 0..5 {
        cells.push(context.allocate(Item::new(tag)));
    }
    let keeper = context.allocate_root(Item::new(5));
    let waker = context.allocate(Item::new(6));
    // One unit for the rooted cell, one for the youngest white cell.
    let left = context.do_collection(2);
    assert_eq!(left, 0);
    assert_eq!(context.phase(), GcPhase::Sweeping);
    assert!(!context.is_live(waker));
    assert!(context.is_live(cells[0]));
    let saved = context.root(cells[0]);
    assert_eq!(context.color_of(cells[0]), Some(GcColor::LightGray));
    context.do_collection(u64::MAX);
    assert_eq!(context.phase(), GcPhase::Sleeping);
    assert!(context.is_live(cells[0]));
    assert!(!context.is_live(cells[1]));
    assert!(!context.is_live(cells[4]));
    // The sweep repainted it, and it is still queued for the next cycle.
    assert_eq!(context.color_of(cells[0]), Some(GcColor::White));
    assert_eq!(context.gray_len(), 1);
    let keeper_gc = keeper.gc();
    context.unroot(keeper);
    context.collect_garbage();
    assert!(context.is_live(cells[0]));
    assert!(!context.is_live(keeper_gc));
    context.unroot(saved);
}
