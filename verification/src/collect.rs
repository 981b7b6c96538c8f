//! The tracing protocol: how a payload tells the collector what it points to.

use vstd::prelude::*;
use crate::gc::{Edge, Gc, GcCell};

verus! {

/// The token handed to `Collect::trace`. It records the pointers a value
/// reports, in order, and allows nothing else: no allocation, no mutation.
pub struct CollectionContext {
    edges: Vec<Edge>,
}

impl View for CollectionContext {
    type V = Seq<Edge>;

    closed spec fn view(&self) -> Seq<Edge> {
        self.edges@
    }
}

impl CollectionContext {
    /// A token that has recorded nothing.
    pub fn new() -> (cc: CollectionContext)
        ensures
            cc@ == Seq::<Edge>::empty(),
    {
        CollectionContext { edges: Vec::new() }
    }

    /// Records a strong pointer.
    pub fn trace(&mut self, gc: Gc)
        ensures
            final(self)@ == old(self)@.push(Edge::Strong(gc)),
    {
        self.edges.push(Edge::Strong(gc));
    }

    /// Records a weak pointer.
    pub fn trace_weak(&mut self, gc: Gc)
        ensures
            final(self)@ == old(self)@.push(Edge::Weak(gc)),
    {
        self.edges.push(Edge::Weak(gc));
    }

    /// Hands out what was recorded.
    pub fn into_edges(self) -> (edges: Vec<Edge>)
        ensures
            edges@ == self@,
    {
        self.edges
    }
}

/// What a payload or a root must offer to live in an arena.
///
/// The collector believes `trace`: a pointer that it leaves out is not an
/// edge of the value, and the collector may free its target. Whoever
/// implements the trait answers for the two contracts below.
pub trait Collect {
    /// Whether a value of this type can hold a managed pointer at all. An
    /// implementation states it here; where it states nothing, nothing is
    /// known of it.
    open spec fn traceable() -> bool {
        arbitrary()
    }

    /// The managed pointers that the value holds, in the order in which
    /// `trace` reports them. An implementation states them here; where it
    /// states nothing, nothing is known of them.
    open spec fn edges(&self) -> Seq<Edge> {
        arbitrary()
    }

    /// Whether a value of this type can hold a managed pointer at all.
    /// `false` lets the collector skip `trace`.
    fn needs_trace() -> (needed: bool)
        ensures
            needed == Self::traceable(),
    ;

    /// Reports every managed pointer that the value holds to `cc`.
    fn trace(&self, cc: &mut CollectionContext)
        ensures
            final(cc)@ == old(cc)@ + self.edges(),
    ;
}

/// The edges that the collector records for a value: those that the value
/// holds, or none where its type needs no tracing.
pub open spec fn reported<V: Collect>(value: &V) -> Seq<Edge> {
    if V::traceable() {
        value.edges()
    } else {
        Seq::empty()
    }
}

impl Collect for Gc {
    open spec fn traceable() -> bool {
        true
    }

    open spec fn edges(&self) -> Seq<Edge> {
        seq![Edge::Strong(*self)]
    }

    fn needs_trace() -> (needed: bool) {
        true
    }

    fn trace(&self, cc: &mut CollectionContext) {
        cc.trace(*self);
        proof {
            assert(old(cc)@.push(Edge::Strong(*self)) =~= old(cc)@ + self.edges());
        }
    }
}

impl Collect for GcCell {
    open spec fn traceable() -> bool {
        true
    }

    open spec fn edges(&self) -> Seq<Edge> {
        seq![Edge::Strong(self.inner)]
    }

    fn needs_trace() -> (needed: bool) {
        true
    }

    fn trace(&self, cc: &mut CollectionContext) {
        cc.trace(self.inner);
        proof {
            assert(old(cc)@.push(Edge::Strong(self.inner)) =~= old(cc)@ + self.edges());
        }
    }
}

/// A value that is promised to hold no managed pointer: it is never traced.
#[derive(Debug)]
pub struct StaticCollect<V>(pub V);

impl<V> Collect for StaticCollect<V> {
    open spec fn traceable() -> bool {
        false
    }

    open spec fn edges(&self) -> Seq<Edge> {
        Seq::empty()
    }

    fn needs_trace() -> (needed: bool) {
        false
    }

    fn trace(&self, cc: &mut CollectionContext) {
        proof {
            assert(old(cc)@ =~= old(cc)@ + self.edges());
        }
    }
}

/// Asks a value's type whether it needs tracing and, if so, the value for
/// its edges. A type that needs no tracing has none.
pub fn edges_of<V: Collect>(value: &V) -> (traced: (bool, Vec<Edge>))
    ensures
        traced.0 == V::traceable(),
        traced.1@ == reported(value),
{
    if V::needs_trace() {
        let mut cc = CollectionContext::new();
        value.trace(&mut cc);
        proof {
            assert(Seq::<Edge>::empty() + value.edges() =~= value.edges());
        }
        (true, cc.into_edges())
    } else {
        (false, Vec::new())
    }
}

} // verus!
