use std::cell::RefCell;
use tricolor_gc::context::GcContext;
use tricolor_gc::flags::GcColor;
use tricolor_gc::handle::Gc;
use tricolor_gc::params::GcParameters;
use tricolor_gc::state::GcPhase;
use tricolor_gc::tracer::{GcObject, GcTracer};

#[derive(Debug)]
struct Vertex {
    held: RefCell<Vec<Gc<Vertex>>>,
}

impl Vertex {
    fn new() -> Vertex {
        Vertex { held: RefCell::new(Vec::new()) }
    }
}

impl GcObject for Vertex {
    fn trace(&mut self, tracer: &mut GcTracer<Vertex>) -> bool {
        for gc in self.held.borrow().iter() {
            tracer.trace(*gc);
        }
        true
    }
}

fn black_cells_hold_marked_cells_only(context: &GcContext<Vertex>, cells: &[Gc<Vertex>]) -> bool {
    cells.iter().all(|cell| {
        context.color_of(*cell) != Some(GcColor::Black)
            || cell.as_ref(context).held.borrow().iter().all(|held| {
                matches!(
                    context.color_of(*held),
                    None | Some(GcColor::DarkGray) | Some(GcColor::Black)
                )
            })
    })
}

fn list_holds_each_cell_once(context: &GcContext<Vertex>, cells: &[Gc<Vertex>]) {
    let listed = context.all_cells();
    assert_eq!(listed.len(), context.live_count());
    for pair in listed.windows(2) {
        assert!(pair[0].index() > pair[1].index());
    }
    for gc in listed.iter() {
        assert!(context.is_live(*gc));
    }
    for gc in cells {
        assert_eq!(context.is_live(*gc), listed.contains(gc));
    }
}

/// A graph of twelve cells: a chain from the first, a cycle among the last
/// three, and cross links.
fn graph(context: &mut GcContext<Vertex>) -> Vec<Gc<Vertex>> {
    let mut cells = Vec::new();
    for _ in 0..12 {
        cells.push(context.allocate(Vertex::new()));
    }
    let links = [(0, 1), (1, 2), (2, 3), (3, 1), (0, 4), (4, 5), (9, 10), (10, 11), (11, 9), (6, 0)];
    for (from, to) in links {
        cells[from].as_ref(context).held.borrow_mut().push(cells[to]);
    }
    cells
}

#[test]
fn black_invariant_holds_after_every_step_of_propagation() {
    let mut context: GcContext<Vertex> = GcContext::new(GcParameters::new(150, 100, 100, 12));
    let cells = graph(&mut context);
    let root = context.root(cells[0]);
    // Wakes the collector and runs the first step of one unit.
    let extra = context.allocate(Vertex::new());
    assert_eq!(context.phase(), GcPhase::Propagating);
    let mut all = cells.clone();
    all.push(extra);
    let mut steps = 0;
    while context.phase() == GcPhase::Propagating {
        assert!(black_cells_hold_marked_cells_only(&context, &all));
        context.do_collection(1);
        steps += 1;
        assert!(steps < 100);
    }
    // Cells 0 to 5 were painted black, one per step.
    assert!(steps >= 5);
    context.do_collection(u64::MAX);
    for (slot, gc) in cells.iter().enumerate() {
        assert_eq!(context.is_live(*gc), slot <= 5);
    }
    assert!(!context.is_live(extra));
    context.unroot(root);
}

#[test]
fn write_barrier_keeps_the_black_invariant_under_mutation() {
    let mut context: GcContext<Vertex> = GcContext::new(GcParameters::new(150, 100, 100, 12));
    let cells = graph(&mut context);
    let root = context.root(cells[0]);
    let extra = context.allocate(Vertex::new());
    assert_eq!(context.color_of(cells[0]), Some(GcColor::Black));
    assert_eq!(context.color_of(cells[9]), Some(GcColor::White));
    // The black root takes a handle to a white cell: barrier, then store.
    context.write_barrier(cells[0]);
    cells[0].as_ref(&context).held.borrow_mut().push(cells[9]);
    let mut all = cells.clone();
    all.push(extra);
    while context.phase() == GcPhase::Propagating {
        assert!(black_cells_hold_marked_cells_only(&context, &all));
        context.do_collection(1);
    }
    context.do_collection(u64::MAX);
    assert_eq!(context.phase(), GcPhase::Sleeping);
    // The cycle 9 -> 10 -> 11 was reached through the new handle.
    for slot in [0, 1, 2, 3, 4, 5, 9, 10, 11] {
        assert!(context.is_live(cells[slot]));
    }
    for slot in [6, 7, 8] {
        assert!(!context.is_live(cells[slot]));
    }
    context.unroot(root);
}

#[test]
fn list_of_all_cells_holds_each_cell_once() {
    let mut context: GcContext<Vertex> = GcContext::new(GcParameters::new(150, 100, 200, 12));
    let mut cells = graph(&mut context);
    list_holds_each_cell_once(&context, &cells);
    let root = context.root(cells[0]);
    for round in 0..40 {
        cells.push(context.allocate(Vertex::new()));
        list_holds_each_cell_once(&context, &cells);
        if round % 7 == 3 {
            context.do_collection(3);
            list_holds_each_cell_once(&context, &cells);
        }
        if round % 11 == 5 {
            context.collect_garbage();
            list_holds_each_cell_once(&context, &cells);
        }
    }
    context.do_collection(u64::MAX);
    list_holds_each_cell_once(&context, &cells);
    if context.is_live(root.gc()) {
        context.unroot(root);
    }
}

#[test]
fn full_cycle_keeps_what_the_queued_roots_reach_and_nothing_else() {
    let mut context: GcContext<Vertex> = GcContext::new(GcParameters::default());
    let cells = graph(&mut context);
    let first = context.root(cells[9]);
    let second = context.root(cells[4]);
    context.collect_garbage();
    assert_eq!(context.phase(), GcPhase::Sleeping);
    assert_eq!(context.gray_len(), 0);
    for (slot, gc) in cells.iter().enumerate() {
        let reached = [4, 5, 9, 10, 11].contains(&slot);
        assert_eq!(context.is_live(*gc), reached);
    }
    assert_eq!(context.live_count(), 5);
    // No survivor holds a handle to a destroyed cell.
    for gc in context.all_cells() {
        for held in gc.as_ref(&context).held.borrow().iter() {
            assert!(context.is_live(*held));
        }
    }
    context.unroot(first);
    context.unroot(second);
}

#[test]
fn all_cells_lists_the_youngest_first() {
    let mut context: GcContext<Vertex> = GcContext::new(GcParameters::default());
    assert!(context.all_cells().is_empty());
    let a = context.allocate(Vertex::new());
    let b = context.allocate(Vertex::new());
    let c = context.allocate(Vertex::new());
    assert_eq!(context.all_cells(), vec![c, b, a]);
    let root = context.root(b);
    context.collect_garbage();
    assert_eq!(context.all_cells(), vec![b]);
    context.unroot(root);
}
