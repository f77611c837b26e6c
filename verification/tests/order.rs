use std::cell::RefCell;
use std::rc::Rc;
use tricolor_gc::context::GcContext;
use tricolor_gc::handle::Gc;
use tricolor_gc::params::GcParameters;
use tricolor_gc::state::GcPhase;
use tricolor_gc::tracer::{GcObject, GcTracer};

/// A payload that writes its tag to a shared log when it is traced.
#[derive(Debug)]
struct Logged {
    tag: u32,
    held: RefCell<Vec<Gc<Logged>>>,
    log: Rc<RefCell<Vec<u32>>>,
}

impl Logged {
    fn new(tag: u32, log: &Rc<RefCell<Vec<u32>>>) -> Logged {
        Logged { tag, held: RefCell::new(Vec::new()), log: log.clone() }
    }
}

impl GcObject for Logged {
    fn trace(&mut self, tracer: &mut GcTracer<Logged>) -> bool {
        self.log.borrow_mut().push(self.tag);
        for gc in self.held.borrow().iter() {
            tracer.trace(*gc);
        }
        true
    }
}

#[test]
fn roots_are_traced_in_the_order_they_were_rooted() {
    let log = Rc::new(RefCell::new(Vec::new()));
    let mut context: GcContext<Logged> = GcContext::new(GcParameters::default());
    let a = context.allocate(Logged::new(1, &log));
    let b = context.allocate(Logged::new(2, &log));
    let c = context.allocate(Logged::new(3, &log));
    let rb = context.root(b);
    let rc = context.root(c);
    let ra = context.root(a);
    context.collect_garbage();
    assert_eq!(*log.borrow(), vec![2, 3, 1]);
    context.unroot(ra);
    context.unroot(rb);
    context.unroot(rc);
}

#[test]
fn discoveries_are_traced_before_older_entries() {
    let log = Rc::new(RefCell::new(Vec::new()));
    let mut context: GcContext<Logged> = GcContext::new(GcParameters::default());
    let child_a = context.allocate(Logged::new(10, &log));
    let child_b = context.allocate(Logged::new(11, &log));
    let grandchild = context.allocate(Logged::new(20, &log));
    let first = context.allocate_root(Logged::new(1, &log));
    let second = context.allocate_root(Logged::new(2, &log));
    first.as_ref(&context).held.borrow_mut().push(child_a);
    first.as_ref(&context).held.borrow_mut().push(child_b);
    child_b.as_ref(&context).held.borrow_mut().push(grandchild);
    context.collect_garbage();
    // The children of the first root go to the front, the later one first;
    // the grandchild overtakes the other child; the second root comes last.
    assert_eq!(*log.borrow(), vec![1, 11, 20, 10, 2]);
    assert_eq!(context.phase(), GcPhase::Sleeping);
    assert_eq!(context.live_count(), 5);
    context.unroot(first);
    context.unroot(second);
}

#[test]
fn sweep_goes_from_the_youngest_cell_to_the_oldest() {
    let log = Rc::new(RefCell::new(Vec::new()));
    let mut context: GcContext<Logged> = GcContext::new(GcParameters::new(150, 100, 100, 3));
    let a = context.allocate(Logged::new(1, &log));
    let b = context.allocate(Logged::new(2, &log));
    let c = context.allocate(Logged::new(3, &log));
    // Each allocation from here on runs a step of one unit: the first
    // passes to the sweep and frees the youngest cell.
    let d = context.allocate(Logged::new(4, &log));
    assert!(context.is_live(a) && context.is_live(b) && !context.is_live(c));
    let e = context.allocate(Logged::new(5, &log));
    assert!(context.is_live(a) && !context.is_live(b));
    let f = context.allocate(Logged::new(6, &log));
    assert!(!context.is_live(a));
    assert_eq!(context.phase(), GcPhase::Sweeping);
    // The cells allocated during the sweep are behind its cursor.
    let g = context.allocate(Logged::new(7, &log));
    assert_eq!(context.phase(), GcPhase::Sleeping);
    assert!(context.is_live(d) && context.is_live(e) && context.is_live(f));
    assert!(context.is_live(g));
    assert_eq!(context.live_count(), 4);
    assert!(log.borrow().is_empty());
}
