//! Which handles the mutator may store: those it was handed since the
//! collector last worked. Each box records the epoch in which it was last
//! handed out, and every unit of the collector's work starts a new epoch.

use vstd::prelude::*;
use crate::gc::{Edge, Gc};
use crate::safety::lemma_protected_carries;
use crate::state::{ContextView, Phase};
use crate::types::{BoxView, GcColor};

verus! {

impl<T> ContextView<T> {
    /// The mutator was handed box `g` in the epoch `epoch`, which is the
    /// current one and not the last.
    pub open spec fn accessible(self, g: Gc, epoch: u64) -> bool {
        &&& self.contains(g)
        &&& self.boxes[g].seen == epoch
        &&& epoch < u64::MAX
    }

    /// The strong targets among `edges` are all accessible.
    pub open spec fn edges_accessible(self, edges: Seq<Edge>, epoch: u64) -> bool {
        forall|g: Gc| edges.contains(Edge::Strong(g)) ==> self.accessible(g, epoch)
    }

    /// What the mutator was handed in this epoch is protected, and no box
    /// bears a later epoch.
    pub open spec fn certified(self, epoch: u64) -> bool {
        &&& forall|g: Gc| #[trigger] self.accessible(g, epoch) ==> self.protected(g)
        &&& forall|g: Gc| #[trigger] self.contains(g) ==> self.boxes[g].seen <= epoch
    }

    /// Accessible edges are protected edges.
    pub proof fn lemma_accessible_protected(self, edges: Seq<Edge>, epoch: u64)
        requires
            self.certified(epoch),
            self.edges_accessible(edges, epoch),
        ensures
            self.edges_protected(edges),
    {
        assert forall|g: Gc| edges.contains(Edge::Strong(g)) implies self.protected(g) by {
            assert(self.accessible(g, epoch));
        }
    }

    /// A change that leaves the boxes, their order, their colors, their
    /// edges and the roots as they are.
    pub open spec fn retouched_from(self, pre: Self) -> bool {
        &&& self.boxes.dom() == pre.boxes.dom()
        &&& self.order == pre.order
        &&& self.roots == pre.roots
        &&& self.statics == pre.statics
        &&& self.gray == pre.gray
        &&& self.phase == pre.phase
        &&& self.root_needs_trace == pre.root_needs_trace
        &&& self.cursor == pre.cursor
        &&& forall|g: Gc| #[trigger]
            pre.contains(g) ==> {
                &&& self.boxes[g].edges == pre.boxes[g].edges
                &&& self.boxes[g].value == pre.boxes[g].value
                &&& self.boxes[g].flags.color == pre.boxes[g].flags.color
                &&& self.boxes[g].flags.needs_trace == pre.boxes[g].flags.needs_trace
                &&& self.boxes[g].flags.alive == pre.boxes[g].flags.alive
            }
    }

    /// Such a change keeps the invariant, and the same boxes are protected
    /// and reachable after it.
    pub proof fn lemma_retouched_inv(self, pre: Self)
        requires
            pre.inv(),
            self.retouched_from(pre),
        ensures
            self.inv(),
            self.mutated_from(pre),
            forall|g: Gc| self.protected(g) <==> pre.protected(g),
    {
        let post = self;
        assert forall|a: Gc, b: Gc| post.points_to(a, b) <==> pre.points_to(a, b) by {
            if pre.contains(a) {
                assert(post.boxes[a].edges == pre.boxes[a].edges);
            }
        }
        assert forall|a: Gc| post.condemned(a) <==> pre.condemned(a) by {
            if pre.contains(a) {
                assert(post.color(a) == pre.color(a));
            }
        }
        assert forall|a: Gc| #[trigger] pre.protected(a) implies {
            &&& post.contains(a)
            &&& !post.condemned(a)
            &&& forall|b: Gc| post.points_to(a, b) ==> pre.protected(b)
        } by {
            pre.lemma_protected(a);
        }
        lemma_protected_carries(pre, post);
        assert forall|a: Gc| #[trigger] post.protected(a) implies {
            &&& pre.contains(a)
            &&& !pre.condemned(a)
            &&& forall|b: Gc| pre.points_to(a, b) ==> post.protected(b)
        } by {
            post.lemma_protected(a);
        }
        lemma_protected_carries(post, pre);
        assert(post.heap_wf()) by {
            assert forall|g: Gc| post.contains(g) <==> #[trigger] post.order.contains(g) by {
                assert(pre.contains(g) <==> pre.order.contains(g));
            }
        }
        assert(post.boxes_wf()) by {
            assert forall|x: Gc| #[trigger] post.contains(x) implies post.boxes[x].flags.alive && (
            !post.boxes[x].flags.needs_trace ==> post.boxes[x].edges.len() == 0) by {
                assert(pre.contains(x));
            }
        }
        assert(post.gray_wf(None)) by {
            assert forall|x: Gc| #[trigger]
                post.gray.contains(x) <==> (post.contains(x) && post.color(x) == GcColor::Gray) by {
                assert(pre.gray.contains(x) <==> (pre.contains(x) && pre.color(x)
                    == GcColor::Gray));
                assert(post.contains(x) == pre.contains(x));
                if pre.contains(x) {
                    assert(post.color(x) == pre.color(x));
                }
            }
        }
        assert(post.phase_wf()) by {
            assert forall|x: Gc| #[trigger] post.contains(x) implies (post.phase
                != Phase::Propagate ==> post.color(x) != GcColor::Gray) && (post.phase
                == Phase::Sleep ==> post.color(x) == GcColor::White) by {
                assert(pre.contains(x));
            }
            assert forall|k: int| 0 <= k < post.cursor && post.phase
                == Phase::Sweep implies post.color(#[trigger] post.order[k]) == GcColor::White by {
                assert(pre.color(pre.order[k]) == GcColor::White);
                assert(pre.order.contains(pre.order[k]));
            }
        }
        assert(post.roots_protected()) by {
            assert forall|x: Gc| #[trigger] post.is_root(x) implies post.protected(x) by {
                assert(pre.is_root(x));
            }
        }
        assert(post.tricolor()) by {
            if post.phase == Phase::Propagate {
                assert forall|a: Gc, b: Gc| #[trigger]
                    post.points_to(a, b) && post.color(a) == GcColor::Black implies post.contains(
                    b,
                ) && post.marked(b) by {
                    assert(pre.points_to(a, b));
                    assert(pre.contains(b) && pre.marked(b));
                }
                assert forall|x: Gc| #[trigger] post.contains(x) && post.marked(x) implies post.protected(
                    x,
                ) by {
                    assert(pre.contains(x));
                    assert(pre.marked(x));
                }
                if !post.root_needs_trace {
                    assert forall|x: Gc| #[trigger] post.is_root(x) implies post.contains(x)
                        && post.marked(x) by {
                        assert(pre.is_root(x));
                        assert(pre.contains(x) && pre.marked(x));
                    }
                }
            }
        }
    }

    /// The mutator's operations keep the certificates true: what they leave
    /// accessible was accessible and stays protected.
    pub proof fn lemma_certified_carries(self, pre: Self, epoch: u64)
        requires
            pre.certified(epoch),
            self.mutated_from(pre),
            forall|g: Gc| #[trigger]
                self.contains(g) ==> self.boxes[g].seen <= epoch && (self.boxes[g].seen == epoch
                    && epoch < u64::MAX ==> pre.accessible(g, epoch) || self.protected(g)),
        ensures
            self.certified(epoch),
    {
        assert forall|g: Gc| #[trigger] self.accessible(g, epoch) implies self.protected(g) by {
            assert(self.contains(g));
            if pre.accessible(g, epoch) {
                assert(pre.protected(g));
            }
        }
    }

    /// A new epoch leaves nothing accessible, so every certificate is true.
    pub proof fn lemma_new_epoch(self, pre: Self, epoch: u64)
        requires
            forall|g: Gc| #[trigger] pre.contains(g) ==> pre.boxes[g].seen <= epoch,
            forall|g: Gc| #[trigger]
                self.contains(g) ==> pre.contains(g) && self.boxes[g].seen == pre.boxes[g].seen,
        ensures
            epoch < u64::MAX ==> self.certified((epoch + 1) as u64),
            epoch == u64::MAX ==> self.certified(epoch),
    {
        if epoch < u64::MAX {
            let next = (epoch + 1) as u64;
            assert forall|g: Gc| #[trigger] self.contains(g) implies self.boxes[g].seen <= next by {
                assert(pre.contains(g));
            }
            assert forall|g: Gc| #[trigger] self.accessible(g, next) implies self.protected(g) by {
                assert(self.contains(g));
                assert(pre.contains(g));
            }
        } else {
            assert forall|g: Gc| #[trigger] self.contains(g) implies self.boxes[g].seen <= epoch by {
                assert(pre.contains(g));
            }
        }
    }

    /// The outstanding strong targets among `targets` are handed to the
    /// mutator in epoch `epoch`.
    pub open spec fn stamped(self, targets: Seq<Edge>, epoch: u64) -> Self {
        ContextView {
            boxes: Map::new(
                |g: Gc| self.contains(g),
                |g: Gc|
                    if targets.contains(Edge::Strong(g)) {
                        BoxView { seen: epoch, ..self.boxes[g] }
                    } else {
                        self.boxes[g]
                    },
            ),
            ..self
        }
    }

    /// Stamping one more target extends the stamping by one step.
    pub proof fn lemma_stamped_take(self, targets: Seq<Edge>, i: int, epoch: u64)
        requires
            0 <= i < targets.len(),
        ensures
            self.stamped(targets.take(i + 1), epoch) == (match targets[i] {
                Edge::Strong(t) => if self.contains(t) {
                    self.stamped(targets.take(i), epoch).certify(t, epoch)
                } else {
                    self.stamped(targets.take(i), epoch)
                },
                Edge::Weak(_) => self.stamped(targets.take(i), epoch),
            }),
            self.stamped(targets.take(i), epoch).boxes.dom() == self.boxes.dom(),
    {
        let short = targets.take(i);
        let long = targets.take(i + 1);
        assert(long.drop_last() =~= short);
        assert(long.last() == targets[i]);
        assert forall|g: Gc| long.contains(Edge::Strong(g)) <==> (short.contains(Edge::Strong(g))
            || targets[i] == Edge::Strong(g)) by {
            if long.contains(Edge::Strong(g)) {
                let k = choose|k: int| 0 <= k < long.len() && long[k] == Edge::Strong(g);
                if k < i {
                    assert(short[k] == Edge::Strong(g));
                }
            }
            if short.contains(Edge::Strong(g)) {
                let k = choose|k: int| 0 <= k < short.len() && short[k] == Edge::Strong(g);
                assert(long[k] == Edge::Strong(g));
            }
            if targets[i] == Edge::Strong(g) {
                assert(long[i] == Edge::Strong(g));
            }
        }
        let a = self.stamped(long, epoch);
        let b = self.stamped(short, epoch);
        assert(b.boxes.dom() =~= self.boxes.dom());
        match targets[i] {
            Edge::Strong(t) => {
                if self.contains(t) {
                    assert(a.boxes =~= b.certify(t, epoch).boxes);
                } else {
                    assert(a.boxes =~= b.boxes);
                }
            },
            Edge::Weak(_) => {
                assert(a.boxes =~= b.boxes);
            },
        }
    }

    /// Stamping nothing changes nothing.
    pub proof fn lemma_stamped_none(self, epoch: u64)
        ensures
            self.stamped(Seq::empty(), epoch) == self,
    {
        assert(self.stamped(Seq::empty(), epoch).boxes =~= self.boxes);
    }

    /// Handing out protected boxes keeps the invariant and the
    /// certificates, and makes those boxes accessible.
    pub proof fn lemma_stamped(self, targets: Seq<Edge>, epoch: u64)
        requires
            self.inv(),
            self.certified(epoch),
            self.edges_protected(targets),
        ensures
            self.stamped(targets, epoch).inv(),
            self.stamped(targets, epoch).certified(epoch),
            self.stamped(targets, epoch).retouched_from(self),
            self.stamped(targets, epoch).mutated_from(self),
            epoch < u64::MAX ==> self.stamped(targets, epoch).edges_accessible(targets, epoch),
            forall|x: Gc|
                self.accessible(x, epoch) ==> self.stamped(targets, epoch).accessible(x, epoch),
    {
        let post = self.stamped(targets, epoch);
        assert(post.boxes.dom() =~= self.boxes.dom());
        post.lemma_retouched_inv(self);
        assert forall|x: Gc| #[trigger] post.accessible(x, epoch) implies post.protected(x) by {
            if targets.contains(Edge::Strong(x)) {
                assert(self.protected(x));
            } else {
                assert(self.accessible(x, epoch));
            }
        }
        assert forall|x: Gc| #[trigger] post.contains(x) implies post.boxes[x].seen <= epoch by {
            assert(self.contains(x));
        }
        if epoch < u64::MAX {
            assert forall|g: Gc| targets.contains(Edge::Strong(g)) implies post.accessible(
                g,
                epoch,
            ) by {
                assert(self.protected(g));
                self.lemma_protected(g);
            }
        }
    }
}

} // verus!
