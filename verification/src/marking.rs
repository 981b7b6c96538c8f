//! Marking keeps the invariant: tracing an edge, tracing a box, tracing the
//! root.

use vstd::prelude::*;
use crate::gc::{Edge, Gc};
use crate::safety::lemma_protected_carries;
use crate::state::{ContextView, Phase};
use crate::types::GcColor;

verus! {

impl<T> ContextView<T> {
    /// What tracing leaves as it is, and what it can only add to.
    pub open spec fn traced_from(self, pre: Self) -> bool {
        &&& self.boxes.dom() == pre.boxes.dom()
        &&& self.order == pre.order
        &&& self.roots == pre.roots
        &&& self.statics == pre.statics
        &&& self.phase == pre.phase
        &&& self.cursor == pre.cursor
        &&& self.root_needs_trace == pre.root_needs_trace
        &&& forall|g: Gc| #[trigger]
            pre.contains(g) ==> {
                &&& self.boxes[g].edges == pre.boxes[g].edges
                &&& self.boxes[g].value == pre.boxes[g].value
                &&& self.boxes[g].seen == pre.boxes[g].seen
                &&& self.boxes[g].flags.needs_trace == pre.boxes[g].flags.needs_trace
                &&& self.boxes[g].flags.alive == pre.boxes[g].flags.alive
                &&& pre.marked(g) ==> self.color(g) == pre.color(g)
                &&& !self.marked(g) ==> !pre.marked(g)
            }
        &&& forall|g: Gc| #[trigger] pre.protected(g) ==> self.protected(g)
    }

    /// Tracing one edge while marking keeps the invariant and marks the
    /// target of a strong edge.
    pub proof fn lemma_trace_edge_inv(self, e: Edge, pending: Option<Gc>)
        requires
            self.inv_with(pending),
            self.phase == Phase::Propagate,
            e is Strong ==> self.protected(e.target()),
        ensures
            self.trace_edge(e).inv_with(pending),
            self.trace_edge(e).traced_from(self),
            e is Strong ==> self.trace_edge(e).contains(e.target()) && self.trace_edge(e).marked(
                e.target(),
            ),
    {
        let post = self.trace_edge(e);
        let t = e.target();
        self.lemma_trace_edge_frame(e);
        if e is Strong {
            self.lemma_protected(t);
        }
        assert forall|a: Gc, b: Gc| post.points_to(a, b) <==> self.points_to(a, b) by {
            if self.contains(a) {
                assert(post.boxes[a].edges == self.boxes[a].edges);
            }
        }
        lemma_protected_carries(self, post);
        lemma_protected_carries(post, self);
        assert(post.heap_wf());
        assert(post.boxes_wf()) by {
            assert forall|g: Gc| #[trigger] post.contains(g) implies post.boxes[g].flags.alive && (
            !post.boxes[g].flags.needs_trace ==> post.boxes[g].edges.len() == 0) by {
                assert(self.contains(g));
            }
        }
        assert(post.gray_wf(pending)) by {
            assert forall|g: Gc| #[trigger]
                post.gray.contains(g) <==> (post.contains(g) && post.color(g) == GcColor::Gray
                    && pending != Some(g)) by {
                if post.gray != self.gray {
                    assert(post.gray == self.gray.push(t));
                    if g == t {
                        assert(post.gray[self.gray.len() as int] == t);
                    } else {
                        if self.gray.contains(g) {
                            let k = choose|k: int| 0 <= k < self.gray.len() && self.gray[k] == g;
                            assert(post.gray[k] == g);
                        }
                        if post.gray.contains(g) {
                            let k = choose|k: int| 0 <= k < post.gray.len() && post.gray[k] == g;
                            assert(self.gray[k] == g);
                        }
                    }
                }
            }
            if post.gray != self.gray {
                assert(!self.gray.contains(t));
                assert forall|i: int, j: int|
                    0 <= i < post.gray.len() && 0 <= j < post.gray.len() && i != j implies post.gray[i]
                    != post.gray[j] by {
                    if i < self.gray.len() {
                        assert(self.gray.contains(self.gray[i]));
                    }
                    if j < self.gray.len() {
                        assert(self.gray.contains(self.gray[j]));
                    }
                }
            }
        }
        assert(post.phase_wf());
        assert(post.roots_protected()) by {
            assert forall|g: Gc| #[trigger] post.is_root(g) implies post.protected(g) by {
                assert(self.is_root(g));
            }
        }
        assert(post.tricolor()) by {
            assert forall|a: Gc, b: Gc| #[trigger]
                post.points_to(a, b) && post.color(a) == GcColor::Black implies post.contains(b)
                && post.marked(b) by {
                assert(self.points_to(a, b));
                assert(self.contains(a));
                if self.color(a) == GcColor::Black {
                    assert(self.contains(b) && self.marked(b));
                } else {
                    assert(self.boxes[a].edges.len() == 0);
                }
            }
            assert forall|g: Gc| #[trigger] post.contains(g) && post.marked(g) implies post.protected(
                g,
            ) by {
                assert(self.contains(g));
                if self.marked(g) {
                    assert(self.protected(g));
                } else {
                    assert(g == t);
                }
            }
            if !post.root_needs_trace {
                assert forall|g: Gc| #[trigger] post.is_root(g) implies post.contains(g)
                    && post.marked(g) by {
                    assert(self.is_root(g));
                }
            }
        }
    }

    /// Tracing a run of edges while marking keeps the invariant and marks
    /// the target of every strong edge among them.
    pub proof fn lemma_trace_edges_inv(self, edges: Seq<Edge>, pending: Option<Gc>)
        requires
            self.inv_with(pending),
            self.phase == Phase::Propagate,
            self.edges_protected(edges),
        ensures
            self.trace_edges(edges).inv_with(pending),
            self.trace_edges(edges).traced_from(self),
            forall|g: Gc|
                edges.contains(Edge::Strong(g)) ==> self.trace_edges(edges).contains(g)
                    && self.trace_edges(edges).marked(g),
        decreases edges.len(),
    {
        if edges.len() == 0 {
            assert(self.boxes.dom() =~= self.boxes.dom());
        } else {
            let front = edges.drop_last();
            let e = edges.last();
            let mid = self.trace_edges(front);
            let post = mid.trace_edge(e);
            assert forall|g: Gc| front.contains(Edge::Strong(g)) implies self.protected(g) by {
                let k = choose|k: int| 0 <= k < front.len() && front[k] == Edge::Strong(g);
                assert(edges[k] == Edge::Strong(g));
            }
            self.lemma_trace_edges_inv(front, pending);
            if e is Strong {
                assert(edges[edges.len() - 1] == e);
                assert(edges.contains(Edge::Strong(e.target())));
                assert(self.protected(e.target()));
            }
            mid.lemma_trace_edge_inv(e, pending);
            assert(post.traced_from(self)) by {
                assert forall|g: Gc| #[trigger] self.contains(g) implies {
                    &&& post.boxes[g].edges == self.boxes[g].edges
                    &&& post.boxes[g].value == self.boxes[g].value
                    &&& post.boxes[g].seen == self.boxes[g].seen
                    &&& post.boxes[g].flags.needs_trace == self.boxes[g].flags.needs_trace
                    &&& post.boxes[g].flags.alive == self.boxes[g].flags.alive
                    &&& self.marked(g) ==> post.color(g) == self.color(g)
                    &&& !post.marked(g) ==> !self.marked(g)
                } by {
                    assert(mid.contains(g));
                }
                assert forall|g: Gc| #[trigger] self.protected(g) implies post.protected(g) by {
                    assert(mid.protected(g));
                }
            }
            assert forall|g: Gc| edges.contains(Edge::Strong(g)) implies post.contains(g)
                && post.marked(g) by {
                let k = choose|k: int| 0 <= k < edges.len() && edges[k] == Edge::Strong(g);
                if k < edges.len() - 1 {
                    assert(front[k] == Edge::Strong(g));
                    assert(front.contains(Edge::Strong(g)));
                    assert(mid.contains(g) && mid.marked(g));
                } else {
                    assert(e == Edge::Strong(g));
                }
            }
        }
    }
}

} // verus!
