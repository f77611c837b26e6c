use std::cell::RefCell;
use tricolor_gc::context::GcContext;
use tricolor_gc::flags::GcColor;
use tricolor_gc::handle::Gc;
use tricolor_gc::params::GcParameters;
use tricolor_gc::state::GcPhase;
use tricolor_gc::tracer::{GcObject, GcTracer};

#[derive(Debug)]
struct Node {
    tag: u32,
    held: RefCell<Vec<Gc<Node>>>,
}

impl Node {
    fn leaf(tag: u32) -> Node {
        Node { tag, held: RefCell::new(Vec::new()) }
    }

    fn holding(tag: u32, held: Vec<Gc<Node>>) -> Node {
        Node { tag, held: RefCell::new(held) }
    }
}

impl GcObject for Node {
    fn trace(&mut self, tracer: &mut GcTracer<Node>) -> bool {
        for gc in self.held.borrow().iter() {
            tracer.trace(*gc);
        }
        true
    }
}

#[test]
fn new_context_is_asleep_and_empty() {
    let context: GcContext<Node> = GcContext::new(GcParameters::default());
    assert_eq!(context.phase(), GcPhase::Sleeping);
    assert_eq!(context.total_allocated(), 0);
    assert_eq!(context.live_count(), 0);
    assert_eq!(context.gray_len(), 0);
    assert_eq!(context.granularity(), 50);
}

#[test]
fn allocated_cell_is_white_and_unrooted() {
    let mut context: GcContext<Node> = GcContext::new(GcParameters::default());
    let a = context.allocate(Node::leaf(11));
    let b = context.allocate(Node::leaf(12));
    assert_eq!(a.index(), 0);
    assert_eq!(b.index(), 1);
    assert!(a != b);
    assert!(a == a);
    assert_eq!(context.total_allocated(), 2);
    assert_eq!(context.live_count(), 2);
    assert_eq!(context.color_of(a), Some(GcColor::White));
    assert_eq!(context.root_count_of(a), Some(0));
    assert_eq!(context.get(a).map(|node| node.tag), Some(11));
    assert_eq!(a.as_ref(&context).tag, 11);
    assert_eq!(b.as_ref(&context).tag, 12);
    assert_eq!(context.gray_len(), 0);
    assert_eq!(context.phase(), GcPhase::Sleeping);
}

#[test]
fn rooting_a_white_cell_queues_it_light_gray() {
    let mut context: GcContext<Node> = GcContext::new(GcParameters::default());
    let a = context.allocate(Node::leaf(1));
    let root = context.root(a);
    assert_eq!(root.gc(), a);
    assert_eq!(context.color_of(a), Some(GcColor::LightGray));
    assert_eq!(context.root_count_of(a), Some(1));
    assert_eq!(context.gray_len(), 1);
    assert_eq!(root.as_ref(&context).tag, 1);
    // Rooting it once more only counts.
    let second = context.root(a);
    assert_eq!(context.color_of(a), Some(GcColor::LightGray));
    assert_eq!(context.root_count_of(a), Some(2));
    assert_eq!(context.gray_len(), 1);
    context.unroot(second);
    assert_eq!(context.root_count_of(a), Some(1));
    context.unroot(root);
    assert_eq!(context.root_count_of(a), Some(0));
    assert_eq!(context.color_of(a), Some(GcColor::LightGray));
    assert_eq!(context.gray_len(), 1);
}

#[test]
fn allocate_root_is_allocate_then_root() {
    let mut context: GcContext<Node> = GcContext::new(GcParameters::default());
    let root = context.allocate_root(Node::leaf(5));
    assert_eq!(root.gc().index(), 0);
    assert_eq!(context.color_of(root.gc()), Some(GcColor::LightGray));
    assert_eq!(context.root_count_of(root.gc()), Some(1));
    assert_eq!(context.gray_len(), 1);
    assert_eq!(context.total_allocated(), 1);
}

#[test]
fn sharing_a_root_only_counts() {
    let mut context: GcContext<Node> = GcContext::new(GcParameters::default());
    let root = context.allocate_root(Node::leaf(5));
    let copy = context.clone_root(&root);
    assert_eq!(copy.gc(), root.gc());
    assert_eq!(context.root_count_of(root.gc()), Some(2));
    assert_eq!(context.gray_len(), 1);
    context.unroot(copy);
    assert_eq!(context.root_count_of(root.gc()), Some(1));
}

#[test]
fn replace_swaps_the_payload() {
    let mut context: GcContext<Node> = GcContext::new(GcParameters::default());
    let a = context.allocate(Node::leaf(1));
    let previous = context.replace(a, Node::leaf(2));
    assert_eq!(previous.tag, 1);
    assert_eq!(a.as_ref(&context).tag, 2);
    assert_eq!(context.color_of(a), Some(GcColor::White));
}

#[test]
fn write_barrier_does_nothing_while_asleep() {
    let mut context: GcContext<Node> = GcContext::new(GcParameters::default());
    let a = context.allocate(Node::leaf(1));
    let root = context.root(a);
    context.write_barrier(a);
    assert_eq!(context.color_of(a), Some(GcColor::LightGray));
    assert_eq!(context.gray_len(), 1);
    context.unroot(root);
}

#[test]
fn write_barrier_sends_a_black_cell_back_to_the_queue() {
    // Wake-up after 0 allocations, a step of one unit from the first
    // allocation of the cycle on.
    let mut context: GcContext<Node> = GcContext::new(GcParameters::new(150, 100, 100, 0));
    // The first allocation wakes the collector; its step finds the gray
    // queue empty, passes to the sweep, finds the list empty and goes back to
    // sleep, all without spending its unit.
    let a = context.allocate(Node::leaf(1));
    assert_eq!(context.phase(), GcPhase::Sleeping);
    let root = context.root(a);
    // The second allocation wakes it again; the step paints `a` black and
    // has spent its unit.
    let b = context.allocate(Node::leaf(2));
    assert_eq!(context.phase(), GcPhase::Propagating);
    assert_eq!(context.color_of(a), Some(GcColor::Black));
    assert_eq!(context.color_of(b), Some(GcColor::White));
    assert_eq!(context.gray_len(), 0);
    // `a` takes a handle to the white `b`: the barrier comes first.
    context.write_barrier(a);
    assert_eq!(context.color_of(a), Some(GcColor::DarkGray));
    assert_eq!(context.gray_len(), 1);
    a.as_ref(&context).held.borrow_mut().push(b);
    // A second barrier on a cell that is no longer black does nothing.
    context.write_barrier(a);
    assert_eq!(context.gray_len(), 1);
    // The white cell `b` is not touched by a barrier.
    context.write_barrier(b);
    assert_eq!(context.color_of(b), Some(GcColor::White));
    // Finishing the cycle keeps both.
    let left = context.do_collection(u64::MAX);
    assert!(left > 0);
    assert_eq!(context.phase(), GcPhase::Sleeping);
    assert!(context.is_live(a));
    assert!(context.is_live(b));
    assert_eq!(context.color_of(a), Some(GcColor::White));
    assert_eq!(context.color_of(b), Some(GcColor::White));
    context.unroot(root);
}

#[test]
fn marking_follows_the_colour() {
    let mut context: GcContext<Node> = GcContext::new(GcParameters::default());
    let white = context.allocate(Node::leaf(1));
    let light = context.allocate(Node::leaf(2));
    let other = context.allocate(Node::leaf(3));
    let light_root = context.root(light);
    let other_root = context.root(other);
    assert_eq!(context.gray_len(), 2);
    // A light-gray cell turns dark-gray where it stands.
    context.mark(light);
    assert_eq!(context.color_of(light), Some(GcColor::DarkGray));
    assert_eq!(context.gray_len(), 2);
    // A white cell turns dark-gray and goes to the front.
    context.mark(white);
    assert_eq!(context.color_of(white), Some(GcColor::DarkGray));
    assert_eq!(context.gray_len(), 3);
    // A dark-gray cell is left alone.
    context.mark(white);
    assert_eq!(context.color_of(white), Some(GcColor::DarkGray));
    assert_eq!(context.gray_len(), 3);
    assert_eq!(context.color_of(other), Some(GcColor::LightGray));
    context.unroot(light_root);
    context.unroot(other_root);
}

#[test]
fn marking_a_destroyed_cell_does_nothing() {
    let mut context: GcContext<Node> = GcContext::new(GcParameters::default());
    let a = context.allocate(Node::leaf(1));
    context.collect_garbage();
    assert!(!context.is_live(a));
    context.mark(a);
    assert_eq!(context.gray_len(), 0);
    assert_eq!(context.color_of(a), None);
    assert_eq!(context.root_count_of(a), None);
    assert!(context.get(a).is_none());
}

#[test]
fn collector_wakes_once_allocations_pass_the_threshold() {
    let mut context: GcContext<Node> = GcContext::new(GcParameters::new(150, 100, 5000, 2));
    let _a = context.allocate(Node::leaf(1));
    assert_eq!(context.phase(), GcPhase::Sleeping);
    let _b = context.allocate(Node::leaf(2));
    assert_eq!(context.phase(), GcPhase::Sleeping);
    let _c = context.allocate(Node::leaf(3));
    assert_eq!(context.phase(), GcPhase::Propagating);
    assert_eq!(context.total_allocated(), 3);
    assert_eq!(context.live_count(), 3);
}

#[test]
fn a_step_runs_when_the_debt_reaches_the_granularity() {
    // granularity 3 at timing 1.0: the debt is due with the second
    // allocation of a cycle (2 + 2 >= 3).
    let mut context: GcContext<Node> = GcContext::new(GcParameters::new(150, 100, 300, 4));
    let mut cells = Vec::new();
    for tag in 0..4 {
        cells.push(context.allocate(Node::leaf(tag)));
    }
    assert_eq!(context.phase(), GcPhase::Sleeping);
    // Wakes the collector; debt 2 is short of 3.
    cells.push(context.allocate(Node::leaf(4)));
    assert_eq!(context.phase(), GcPhase::Propagating);
    assert_eq!(context.live_count(), 5);
    // Debt 4: a step of three units passes to the sweep and frees the three
    // youngest cells, then the new cell is linked.
    cells.push(context.allocate(Node::leaf(5)));
    assert_eq!(context.phase(), GcPhase::Sweeping);
    assert_eq!(context.live_count(), 3);
    assert!(context.is_live(cells[0]));
    assert!(context.is_live(cells[1]));
    assert!(!context.is_live(cells[2]));
    assert!(!context.is_live(cells[3]));
    assert!(!context.is_live(cells[4]));
    assert!(context.is_live(cells[5]));
}

#[test]
fn context_knows_the_slots_it_gave_out() {
    let mut context: GcContext<Node> = GcContext::new(GcParameters::default());
    let mut other: GcContext<Node> = GcContext::new(GcParameters::default());
    let _first = other.allocate(Node::leaf(1));
    let foreign = other.allocate(Node::leaf(2));
    let own = context.allocate(Node::leaf(3));
    assert!(context.gave_out(own));
    assert!(!context.gave_out(foreign));
    context.collect_garbage();
    assert!(!context.is_live(own));
    assert!(context.gave_out(own));
}

#[test]
fn payload_given_at_allocation_may_hold_handles() {
    let mut context: GcContext<Node> = GcContext::new(GcParameters::default());
    let b = context.allocate(Node::leaf(2));
    let a = context.allocate(Node::holding(1, vec![b]));
    assert_eq!(a.as_ref(&context).held.borrow().len(), 1);
    assert_eq!(a.as_ref(&context).held.borrow()[0], b);
}
