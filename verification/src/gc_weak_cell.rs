//! Weak pointers to mutable cells.

use vstd::prelude::*;
use crate::collect::{Collect, CollectionContext};
use crate::context::Context;
use crate::gc::{Edge, Gc, GcCell};

verus! {

/// A pointer to a cell that does not keep the cell reachable. It can be
/// upgraded to the cell while the cell is alive.
#[derive(Copy, Clone, Debug, PartialEq, Eq, Structural)]
pub struct GcWeakCell {
    pub inner: GcCell,
}

impl Collect for GcWeakCell {
    open spec fn traceable() -> bool {
        true
    }

    /// One weak edge: the collector flags the target and does not mark it.
    open spec fn edges(&self) -> Seq<Edge> {
        seq![Edge::Weak(self.inner.inner)]
    }

    fn needs_trace() -> (needed: bool) {
        true
    }

    /// Reports the pointer as a weak edge.
    fn trace(&self, cc: &mut CollectionContext) {
        cc.trace_weak(self.inner.get_inner());
        proof {
            assert(old(cc)@.push(Edge::Weak(self.inner.inner)) =~= old(cc)@ + self.edges());
        }
    }
}

impl GcWeakCell {
    /// A weak pointer to `cell`. Where the cell is outstanding it is
    /// flagged as the target of a weak pointer.
    pub fn downgrade<T>(cell: GcCell, mc: &mut Context<T>) -> (weak: GcWeakCell)
        requires
            old(mc).wf(),
        ensures
            final(mc).wf(),
            weak.inner == cell,
            final(mc)@ == (if old(mc)@.contains(cell.inner) {
                old(mc)@.downgrade(cell.inner)
            } else {
                old(mc)@
            }),
            final(mc)@.upgrade(cell.inner) == old(mc)@.upgrade(cell.inner),
            forall|x: Gc| old(mc).accessible(x) ==> final(mc).accessible(x),
            final(mc)@.mutated_from(old(mc)@),
            final(mc).pacing() == old(mc).pacing(),
            final(mc).epoch() == old(mc).epoch(),
            final(mc).same_settings(old(mc)),
    {
        if mc.contains(cell.get_inner()) {
            mc.flag_weak(cell.get_inner());
        }
        GcWeakCell { inner: cell }
    }

    /// The cell, if it is still alive.
    pub fn upgrade<T>(&self, mc: &Context<T>) -> (strong: Option<GcCell>)
        ensures
            strong == (match mc@.upgrade(self.inner.inner) {
                Some(g) => Some(GcCell { inner: g }),
                None => None,
            }),
    {
        if mc.is_alive(self.inner.get_inner()) {
            Some(self.inner)
        } else {
            None
        }
    }
}

} // verus!
