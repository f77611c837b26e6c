use tricolor_gc::context::GcContext;
use tricolor_gc::params::GcParameters;
use tricolor_gc::tracer::{GcObject, GcTracer};

#[derive(Debug)]
struct Leaf(u32);

impl GcObject for Leaf {
    fn trace(&mut self, _tracer: &mut GcTracer<Leaf>) -> bool {
        true
    }
}

#[test]
fn teardown_with_live_root() {
    let mut context: GcContext<Leaf> = GcContext::new(GcParameters::default());
    let root = context.allocate_root(Leaf(7));
    let gc = root.gc();
    let rest = context.destroy();
    assert!(rest.is_live(gc));
    assert_eq!(rest.get(&root).0, 7);
    assert_eq!(rest.root_count_of(gc), Some(1));
    let mut rest = rest;
    rest.release(root);
    assert!(!rest.is_live(gc));
    assert_eq!(rest.root_count_of(gc), None);
}

#[test]
fn teardown_destroys_unrooted_cells() {
    let mut context: GcContext<Leaf> = GcContext::new(GcParameters::default());
    let loose = context.allocate(Leaf(1));
    let root = context.allocate_root(Leaf(2));
    let transient = context.allocate_root(Leaf(3));
    let transient_gc = transient.gc();
    context.unroot(transient);
    let mut rest = context.destroy();
    assert!(!rest.is_live(loose));
    assert!(!rest.is_live(transient_gc));
    assert!(rest.is_live(root.gc()));
    assert_eq!(rest.get(&root).0, 2);
    rest.release(root);
}

#[test]
fn detached_cell_lives_until_its_last_root_is_released() {
    let mut context: GcContext<Leaf> = GcContext::new(GcParameters::default());
    let first = context.allocate_root(Leaf(9));
    let second = context.clone_root(&first);
    let gc = first.gc();
    let mut rest = context.destroy();
    assert_eq!(rest.root_count_of(gc), Some(2));
    let third = rest.clone_root(&second);
    assert_eq!(rest.root_count_of(gc), Some(3));
    rest.release(first);
    assert!(rest.is_live(gc));
    assert_eq!(rest.get(&second).0, 9);
    rest.release(second);
    assert!(rest.is_live(gc));
    assert_eq!(rest.root_count_of(gc), Some(1));
    assert_eq!(rest.get(&third).0, 9);
    rest.release(third);
    assert!(!rest.is_live(gc));
}

#[test]
fn teardown_of_an_empty_context() {
    let context: GcContext<Leaf> = GcContext::new(GcParameters::default());
    let rest = context.destroy();
    let mut other: GcContext<Leaf> = GcContext::new(GcParameters::default());
    let stray = other.allocate(Leaf(1));
    assert!(!rest.is_live(stray));
}

#[test]
fn teardown_in_the_middle_of_a_sweep() {
    let mut context: GcContext<Leaf> = GcContext::new(GcParameters::new(150, 100, 100, 3));
    let root = context.allocate_root(Leaf(0));
    let a = context.allocate(Leaf(1));
    let b = context.allocate(Leaf(2));
    // Wakes the collector; the step paints the root black.
    let c = context.allocate(Leaf(3));
    // The step passes to the sweep and frees the youngest cell.
    let d = context.allocate(Leaf(4));
    assert!(!context.is_live(c));
    assert!(context.is_live(d));
    let rest = context.destroy();
    assert!(rest.is_live(root.gc()));
    assert!(!rest.is_live(a));
    assert!(!rest.is_live(b));
    assert!(!rest.is_live(d));
    assert_eq!(rest.get(&root).0, 0);
}
