//! A pinned pointer that can be read outside a mutation, and the two flags
//! that an arena shares with its readers.

use vstd::prelude::*;
use crate::context::Context;
use crate::gc::{Edge, Gc};

verus! {

/// What an arena shares with the holders of its pinned pointers.
#[derive(Copy, Clone, Debug, PartialEq, Eq, Structural)]
pub struct SharedGcData {
    /// Set while the arena lives.
    pub alive_flag: bool,
    /// Set while a reader's callback runs.
    pub read_lock: bool,
}

impl SharedGcData {
    /// The flags of a live arena that nobody reads.
    pub fn new() -> (shared: SharedGcData)
        ensures
            shared == (SharedGcData { alive_flag: true, read_lock: false }),
    {
        SharedGcData { alive_flag: true, read_lock: false }
    }

    /// The arena is dropped, while no reader's callback runs.
    pub fn retire(&mut self)
        requires
            !old(self).read_lock,
        ensures
            *final(self) == (SharedGcData { alive_flag: false, ..*old(self) }),
    {
        self.alive_flag = false;
    }

    /// The arena is dropped, unless a reader's callback runs: then the
    /// arena cannot go, and the flags stay as they are. Returns whether the
    /// arena went.
    pub fn try_retire(&mut self) -> (retired: bool)
        ensures
            retired == !old(self).read_lock,
            *final(self) == (if retired {
                (SharedGcData { alive_flag: false, ..*old(self) })
            } else {
                *old(self)
            }),
    {
        if self.read_lock {
            false
        } else {
            self.retire();
            true
        }
    }

    /// Whether a mutation may start: the arena lives and no reader's
    /// callback runs.
    pub fn may_mutate(&self) -> (allowed: bool)
        ensures
            allowed == (self.alive_flag && !self.read_lock),
    {
        self.alive_flag && !self.read_lock
    }

    /// A read starts on a live arena. Returns whether this read took the
    /// lock; a read inside another read does not.
    pub fn begin_read(&mut self) -> (took: bool)
        requires
            old(self).alive_flag,
        ensures
            took == !old(self).read_lock,
            *final(self) == (SharedGcData { read_lock: true, ..*old(self) }),
    {
        let took = !self.read_lock;
        self.read_lock = true;
        took
    }

    /// A read starts, if the arena lives: `None` where it was dropped, and
    /// the flags stay as they are.
    pub fn try_begin_read(&mut self) -> (took: Option<bool>)
        ensures
            took is Some <==> old(self).alive_flag,
            took is Some ==> took == Some(!old(self).read_lock) && *final(self) == (SharedGcData {
                read_lock: true,
                ..*old(self)
            }),
            took is None ==> *final(self) == *old(self),
    {
        if self.alive_flag {
            Some(self.begin_read())
        } else {
            None
        }
    }

    /// A read ends: the read that took the lock releases it.
    pub fn end_read(&mut self, took: bool)
        ensures
            *final(self) == (SharedGcData {
                read_lock: if took {
                    false
                } else {
                    old(self).read_lock
                },
                ..*old(self)
            }),
    {
        if took {
            self.read_lock = false;
        }
    }
}

/// A strong pointer that was pinned: its box counts as reachable for the
/// rest of the arena's life.
#[derive(Copy, Clone, Debug, PartialEq, Eq, Structural)]
pub struct StaticGc {
    root: Gc,
}

impl StaticGc {
    /// The pinned pointer.
    pub closed spec fn pointer(self) -> Gc {
        self.root
    }

    /// Whether the pointer was pinned in the context `mc`.
    pub open spec fn pinned_in<T>(self, mc: &Context<T>) -> bool {
        mc@.statics.contains(Edge::Strong(self.pointer()))
    }

    /// Pins `root` where it is accessible; nothing where it is not.
    pub fn wrap<T>(mc: &mut Context<T>, root: Gc) -> (pinned: Option<StaticGc>)
        requires
            old(mc).wf(),
        ensures
            final(mc).wf(),
            pinned is Some <==> old(mc).accessible(root),
            pinned is Some ==> pinned.unwrap().pointer() == root && pinned.unwrap().pinned_in(
                final(mc),
            ),
            final(mc)@ == (if pinned is Some {
                old(mc)@.make_static(root)
            } else {
                old(mc)@
            }),
            forall|x: Gc| old(mc).accessible(x) ==> final(mc).accessible(x),
            final(mc)@.mutated_from(old(mc)@),
            final(mc).pacing() == old(mc).pacing(),
            final(mc).epoch() == old(mc).epoch(),
            final(mc).same_settings(old(mc)),
    {
        if mc.make_static_checked(root) {
            proof {
                let n = old(mc)@.statics.len() as int;
                assert(mc@.statics[n] == Edge::Strong(root));
            }
            Some(StaticGc { root })
        } else {
            None
        }
    }

    /// The pinned pointer.
    pub fn root(&self) -> (root: Gc)
        ensures
            root == self.pointer(),
    {
        self.root
    }

    /// The payload of the pinned box. A box that is pinned in a context is
    /// outstanding in it, whatever the collector has done since.
    pub fn read<'a, T>(&self, mc: &'a Context<T>) -> (value: &'a T)
        requires
            mc.wf(),
            self.pinned_in(mc),
        ensures
            mc@.contains(self.pointer()),
            *value == mc@.boxes[self.pointer()].value,
    {
        proof {
            mc.lemma_wf();
            assert(mc@.is_root(self.root));
            mc@.lemma_protected(self.root);
        }
        mc.get(self.root)
    }

    /// The payload of the pinned box, where the box is outstanding in `mc`.
    pub fn try_read<'a, T>(&self, mc: &'a Context<T>) -> (value: Option<&'a T>)
        ensures
            value is Some <==> mc@.contains(self.pointer()),
            value is Some ==> *value.unwrap() == mc@.boxes[self.pointer()].value,
    {
        self.root.try_get(mc)
    }
}

} // verus!
