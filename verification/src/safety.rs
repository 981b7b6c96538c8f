//! What holds of a context between any two operations, and why the boxes
//! that the root can reach are never freed.

use vstd::prelude::*;
use crate::gc::Gc;
use crate::state::{ContextView, Phase};
use crate::types::GcColor;

verus! {

impl<T> ContextView<T> {
    /// The list holds every outstanding box, and each once.
    pub open spec fn heap_wf(self) -> bool {
        &&& self.order.no_duplicates()
        &&& forall|g: Gc| self.contains(g) <==> #[trigger] self.order.contains(g)
    }

    /// An outstanding box is alive, and one that needs no tracing has no edges.
    pub open spec fn boxes_wf(self) -> bool {
        forall|g: Gc| #[trigger]
            self.contains(g) ==> {
                &&& self.boxes[g].flags.alive
                &&& !self.boxes[g].flags.needs_trace ==> self.boxes[g].edges.len() == 0
            }
    }

    /// The work list holds the gray boxes, each once; `pending` is the one
    /// that was taken from it and is being traced.
    pub open spec fn gray_wf(self, pending: Option<Gc>) -> bool {
        &&& self.gray.no_duplicates()
        &&& forall|g: Gc| #[trigger]
            self.gray.contains(g) <==> (self.contains(g) && self.color(g) == GcColor::Gray && pending
                != Some(g))
        &&& pending is Some ==> self.contains(pending.unwrap()) && self.color(pending.unwrap())
            == GcColor::Gray
    }

    /// What each phase means for the colors and the cursor.
    pub open spec fn phase_wf(self) -> bool {
        &&& 0 <= self.cursor <= self.order.len()
        &&& self.phase != Phase::Sweep ==> self.cursor == 0
        &&& self.phase != Phase::Propagate ==> forall|g: Gc| #[trigger]
            self.contains(g) ==> self.color(g) != GcColor::Gray
        &&& self.phase == Phase::Sleep ==> forall|g: Gc| #[trigger]
            self.contains(g) ==> self.color(g) == GcColor::White
        &&& self.phase == Phase::Sweep ==> forall|k: int|
            0 <= k < self.cursor ==> self.color(#[trigger] self.order[k]) == GcColor::White
    }

    /// What the root and the pins point to is protected.
    pub open spec fn roots_protected(self) -> bool {
        forall|g: Gc| #[trigger] self.is_root(g) ==> self.protected(g)
    }

    /// While marking: a black box points to marked boxes only, a marked box
    /// is protected, and once the root is traced its targets are marked.
    pub open spec fn tricolor(self) -> bool {
        self.phase == Phase::Propagate ==> {
            &&& forall|a: Gc, b: Gc| #[trigger]
                self.points_to(a, b) && self.color(a) == GcColor::Black ==> self.contains(b)
                    && self.marked(b)
            &&& forall|g: Gc| #[trigger]
                self.contains(g) && self.marked(g) ==> self.protected(g)
            &&& !self.root_needs_trace ==> forall|g: Gc| #[trigger]
                self.is_root(g) ==> self.contains(g) && self.marked(g)
        }
    }

    /// The invariant while box `pending` is being traced.
    pub open spec fn inv_with(self, pending: Option<Gc>) -> bool {
        &&& self.heap_wf()
        &&& self.boxes_wf()
        &&& self.gray_wf(pending)
        &&& self.phase_wf()
        &&& self.roots_protected()
        &&& self.tricolor()
    }

    /// The invariant of a context between operations.
    pub open spec fn inv(self) -> bool {
        self.inv_with(None)
    }

    /// The boxes that are protected.
    pub open spec fn protected_set(self) -> Set<Gc> {
        Set::new(|g: Gc| self.protected(g))
    }

    /// The protected boxes form a closed set: what a protected box points
    /// to is protected.
    pub proof fn lemma_protected_set_closed(self)
        ensures
            self.closed_set(self.protected_set()),
    {
        let all = self.protected_set();
        assert forall|a: Gc| #[trigger] all.contains(a) implies {
            &&& self.contains(a)
            &&& !self.condemned(a)
            &&& forall|b: Gc| self.points_to(a, b) ==> all.contains(b)
        } by {
            let s = choose|s: Set<Gc>| #[trigger] self.closed_set(s) && s.contains(a);
            assert(s.contains(a));
            assert forall|b: Gc| self.points_to(a, b) implies all.contains(b) by {
                assert(s.contains(b));
                assert(self.protected(b));
            }
        }
    }

    /// A protected box is outstanding and not condemned, and what it points
    /// to is protected.
    pub proof fn lemma_protected(self, a: Gc)
        requires
            self.protected(a),
        ensures
            self.contains(a),
            !self.condemned(a),
            forall|b: Gc| self.points_to(a, b) ==> self.protected(b),
    {
        self.lemma_protected_set_closed();
        assert(self.protected_set().contains(a));
        assert forall|b: Gc| self.points_to(a, b) implies self.protected(b) by {
            assert(self.protected_set().contains(b));
        }
    }

    /// Every box on a path from the root is protected.
    pub proof fn lemma_path_protected(self, path: Seq<Gc>, i: int)
        requires
            self.roots_protected(),
            self.is_path(path),
            0 <= i < path.len(),
        ensures
            self.protected(path[i]),
        decreases i,
    {
        if i == 0 {
            assert(self.is_root(path[0]));
        } else {
            self.lemma_path_protected(path, i - 1);
            self.lemma_protected(path[i - 1]);
            assert(self.points_to(path[i - 1], path[i]));
        }
    }

    /// What the root can reach is protected: it is outstanding, and the
    /// sweep in progress will not free it.
    pub proof fn lemma_reachable_protected(self, g: Gc)
        requires
            self.roots_protected(),
            self.reachable(g),
        ensures
            self.protected(g),
            self.contains(g),
            !self.condemned(g),
    {
        let path = choose|path: Seq<Gc>| #[trigger] self.is_path(path) && path.last() == g;
        self.lemma_path_protected(path, path.len() - 1);
        self.lemma_protected(g);
    }
}

/// Two states with the same boxes in the same order agree on what holds of
/// the boxes alone.
pub proof fn lemma_same_boxes<T>(pre: ContextView<T>, post: ContextView<T>)
    requires
        pre.boxes == post.boxes,
        pre.order == post.order,
        pre.heap_wf(),
        pre.boxes_wf(),
    ensures
        post.heap_wf(),
        post.boxes_wf(),
        forall|a: Gc, b: Gc| post.points_to(a, b) <==> pre.points_to(a, b),
        forall|g: Gc| post.contains(g) <==> pre.contains(g),
{
    assert forall|g: Gc| #[trigger] post.contains(g) implies post.boxes[g].flags.alive && (
    !post.boxes[g].flags.needs_trace ==> post.boxes[g].edges.len() == 0) by {
        assert(pre.contains(g));
    }
    assert forall|g: Gc| post.contains(g) <==> #[trigger] post.order.contains(g) by {
        assert(pre.contains(g) <==> pre.order.contains(g));
    }
}

/// Protection carries over from `pre` to `post` where every box that was
/// protected is still outstanding, is not condemned, and points only to
/// boxes that were protected.
pub proof fn lemma_protected_carries<T>(pre: ContextView<T>, post: ContextView<T>)
    requires
        forall|a: Gc| #[trigger]
            pre.protected(a) ==> {
                &&& post.contains(a)
                &&& !post.condemned(a)
                &&& forall|b: Gc| post.points_to(a, b) ==> pre.protected(b)
            },
    ensures
        forall|a: Gc| #[trigger] pre.protected(a) ==> post.protected(a),
{
    let all = pre.protected_set();
    assert(post.closed_set(all)) by {
        assert forall|a: Gc| #[trigger] all.contains(a) implies {
            &&& post.contains(a)
            &&& !post.condemned(a)
            &&& forall|b: Gc| post.points_to(a, b) ==> all.contains(b)
        } by {
            assert(pre.protected(a));
        }
    }
    assert forall|a: Gc| #[trigger] pre.protected(a) implies post.protected(a) by {
        assert(all.contains(a));
    }
}

} // verus!
