use tricolor_gc::context::GcContext;
use tricolor_gc::params::GcParameters;
use tricolor_gc::tracer::{GcObject, GcTracer};

#[derive(Debug)]
struct Leaf;

impl GcObject for Leaf {
    fn trace(&mut self, _tracer: &mut GcTracer<Leaf>) -> bool {
        true
    }
}

#[test]
fn tracer_records_what_is_reported_in_order() {
    let mut context: GcContext<Leaf> = GcContext::new(GcParameters::default());
    let a = context.allocate(Leaf);
    let b = context.allocate(Leaf);
    let mut tracer: GcTracer<Leaf> = GcTracer::new();
    assert_eq!(tracer.len(), 0);
    tracer.trace(b);
    tracer.trace(a);
    tracer.trace(b);
    assert_eq!(tracer.len(), 3);
    assert_eq!(tracer.get(0), b);
    assert_eq!(tracer.get(1), a);
    assert_eq!(tracer.get(2), b);
}
