//! The tracing capability and the contract of traced payloads.

use crate::handle::Gc;
use vstd::prelude::*;

verus! {

/// The capability handed to a payload while it is traced. Its one operation
/// reports a handle that the payload holds; the collector marks the reported
/// cells as soon as the payload's `trace` returns.
pub struct GcTracer<T> {
    reported: Vec<Gc<T>>,
}

impl<T> View for GcTracer<T> {
    type V = Seq<Gc<T>>;

    /// The handles reported so far, in order.
    closed spec fn view(&self) -> Seq<Gc<T>> {
        self.reported@
    }
}

impl<T> GcTracer<T> {
    /// A tracer to which nothing was reported.
    pub fn new() -> (tracer: GcTracer<T>)
        ensures
            tracer@ == Seq::<Gc<T>>::empty(),
    {
        GcTracer { reported: Vec::new() }
    }

    /// Reports one held handle.
    pub fn trace(&mut self, gc: Gc<T>)
        ensures
            final(self)@ == old(self)@.push(gc),
    {
        self.reported.push(gc);
    }

    /// The number of handles reported so far.
    pub fn len(&self) -> (len: usize)
        ensures
            len == self@.len(),
    {
        self.reported.len()
    }

    /// The `k`-th reported handle.
    pub fn get(&self, k: usize) -> (gc: Gc<T>)
        requires
            k < self@.len(),
        ensures
            gc == self@[k as int],
    {
        self.reported[k]
    }
}

/// A payload that can live in a collected heap and may hold handles to
/// cells of the same heap.
pub trait GcObject: Sized {
    /// The handles that the payload currently holds; none, unless the
    /// payload type says otherwise.
    open spec fn children(&self) -> Seq<Gc<Self>> {
        Seq::empty()
    }

    /// How many times from now the payload refuses to be traced; never,
    /// unless the payload type says otherwise.
    open spec fn refusals(&self) -> nat {
        0
    }

    /// Reports the held handles to `tracer`, one call each.
    ///
    /// Returns `true` when every held handle was reported, and `false` when
    /// tracing is not possible right now, say because the payload is locked
    /// for a mutation; the collector then comes back to the cell later. A
    /// payload refuses only finitely many times in a row: each refusal
    /// brings it nearer to being traced. What is reported is always held,
    /// whether or not tracing went through, and tracing changes nothing in
    /// what is held.
    fn trace(&mut self, tracer: &mut GcTracer<Self>) -> (traced: bool)
        ensures
            old(tracer)@.is_prefix_of(final(tracer)@),
            forall|k: int|
                old(tracer)@.len() <= k < final(tracer)@.len() ==> old(self).children().contains(
                    #[trigger] final(tracer)@[k],
                ),
            traced ==> final(tracer)@ == old(tracer)@ + old(self).children(),
            traced <==> old(self).refusals() == 0,
            !traced ==> final(self).refusals() < old(self).refusals(),
            final(self).children() == old(self).children(),
    ;
}

/// What tracing a payload can give: `after` is the payload that tracing
/// leaves of `before`, `reported` what it reports to an empty tracer, and
/// `traced` whether it went through.
pub open spec fn traces_as<T: GcObject>(
    before: T,
    after: T,
    reported: Seq<Gc<T>>,
    traced: bool,
) -> bool {
    &&& forall|k: int|
        0 <= k < reported.len() ==> before.children().contains(#[trigger] reported[k])
    &&& traced ==> reported == before.children()
    &&& traced <==> before.refusals() == 0
    &&& !traced ==> after.refusals() < before.refusals()
    &&& after.children() == before.children()
}

} // verus!
