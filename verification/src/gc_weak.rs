//! Weak pointers to managed boxes.

use vstd::prelude::*;
use crate::collect::{Collect, CollectionContext};
use crate::context::Context;
use crate::gc::{Edge, Gc};

verus! {

/// A pointer that does not keep its target reachable. It can be upgraded
/// to a strong pointer while the target is alive.
#[derive(Copy, Clone, Debug, PartialEq, Eq, Structural)]
pub struct GcWeak {
    pub inner: Gc,
}

impl Collect for GcWeak {
    open spec fn traceable() -> bool {
        true
    }

    /// One weak edge: the collector flags the target and does not mark it.
    open spec fn edges(&self) -> Seq<Edge> {
        seq![Edge::Weak(self.inner)]
    }

    fn needs_trace() -> (needed: bool) {
        true
    }

    /// Reports the pointer as a weak edge.
    fn trace(&self, cc: &mut CollectionContext) {
        cc.trace_weak(self.inner);
        proof {
            assert(old(cc)@.push(Edge::Weak(self.inner)) =~= old(cc)@ + self.edges());
        }
    }
}

impl GcWeak {
    /// A weak pointer to the box of `gc`. Where the box is outstanding it
    /// is flagged as the target of a weak pointer.
    pub fn downgrade<T>(gc: Gc, mc: &mut Context<T>) -> (weak: GcWeak)
        requires
            old(mc).wf(),
        ensures
            final(mc).wf(),
            weak.inner == gc,
            final(mc)@ == (if old(mc)@.contains(gc) {
                old(mc)@.downgrade(gc)
            } else {
                old(mc)@
            }),
            final(mc)@.upgrade(gc) == old(mc)@.upgrade(gc),
            forall|x: Gc| old(mc).accessible(x) ==> final(mc).accessible(x),
            final(mc)@.mutated_from(old(mc)@),
            final(mc).pacing() == old(mc).pacing(),
            final(mc).epoch() == old(mc).epoch(),
            final(mc).same_settings(old(mc)),
    {
        if mc.contains(gc) {
            mc.flag_weak(gc);
        }
        GcWeak { inner: gc }
    }

    /// The strong pointer, if the target is still alive.
    pub fn upgrade<T>(&self, mc: &Context<T>) -> (strong: Option<Gc>)
        ensures
            strong == mc@.upgrade(self.inner),
    {
        if mc.is_alive(self.inner) {
            Some(self.inner)
        } else {
            None
        }
    }
}

} // verus!
