//! A pinned cell that can be read outside a mutation.

use vstd::prelude::*;
use crate::context::Context;
use crate::gc::{Edge, Gc, GcCell};

verus! {

/// A cell that was pinned: it counts as reachable for the rest of the
/// arena's life.
#[derive(Copy, Clone, Debug, PartialEq, Eq, Structural)]
pub struct StaticGcCell {
    root: GcCell,
}

impl StaticGcCell {
    /// The pinned cell.
    pub closed spec fn pointer(self) -> GcCell {
        self.root
    }

    /// Whether the cell was pinned in the context `mc`.
    pub open spec fn pinned_in<T>(self, mc: &Context<T>) -> bool {
        mc@.statics.contains(Edge::Strong(self.pointer().inner))
    }

    /// Pins `root` where it is accessible; nothing where it is not.
    pub fn wrap<T>(mc: &mut Context<T>, root: GcCell) -> (pinned: Option<StaticGcCell>)
        requires
            old(mc).wf(),
        ensures
            final(mc).wf(),
            pinned is Some <==> old(mc).accessible(root.inner),
            pinned is Some ==> pinned.unwrap().pointer() == root && pinned.unwrap().pinned_in(
                final(mc),
            ),
            final(mc)@ == (if pinned is Some {
                old(mc)@.make_static(root.inner)
            } else {
                old(mc)@
            }),
            forall|x: Gc| old(mc).accessible(x) ==> final(mc).accessible(x),
            final(mc)@.mutated_from(old(mc)@),
            final(mc).pacing() == old(mc).pacing(),
            final(mc).epoch() == old(mc).epoch(),
            final(mc).same_settings(old(mc)),
    {
        if mc.make_static_checked(root.get_inner()) {
            proof {
                let n = old(mc)@.statics.len() as int;
                assert(mc@.statics[n] == Edge::Strong(root.inner));
            }
            Some(StaticGcCell { root })
        } else {
            None
        }
    }

    /// The pinned cell.
    pub fn root(&self) -> (root: GcCell)
        ensures
            root == self.pointer(),
    {
        self.root
    }

    /// The payload of the pinned cell. A cell that is pinned in a context
    /// is outstanding in it, whatever the collector has done since.
    pub fn read<'a, T>(&self, mc: &'a Context<T>) -> (value: &'a T)
        requires
            mc.wf(),
            self.pinned_in(mc),
        ensures
            mc@.contains(self.pointer().inner),
            *value == mc@.boxes[self.pointer().inner].value,
    {
        proof {
            mc.lemma_wf();
            assert(mc@.is_root(self.root.inner));
            mc@.lemma_protected(self.root.inner);
        }
        mc.get(self.root.get_inner())
    }

    /// The payload of the pinned cell, where it is outstanding in `mc`.
    pub fn try_read<'a, T>(&self, mc: &'a Context<T>) -> (value: Option<&'a T>)
        ensures
            value is Some <==> mc@.contains(self.pointer().inner),
            value is Some ==> *value.unwrap() == mc@.boxes[self.pointer().inner].value,
    {
        self.root.get_inner().try_get(mc)
    }
}

} // verus!
