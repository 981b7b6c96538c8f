//! The collector's work comes to an end: each unit of it brings the cycle
//! nearer to its sleep.

use vstd::prelude::*;
use crate::gc::{Edge, Gc};
use crate::state::{ContextView, Phase};
use crate::types::GcColor;

verus! {

/// How much marking a box of this color still asks for.
pub open spec fn weight(color: GcColor) -> nat {
    match color {
        GcColor::FreshWhite => 2,
        GcColor::White => 2,
        GcColor::Gray => 1,
        GcColor::Black => 0,
    }
}

impl<T> ContextView<T> {
    /// The weights of the first `n` boxes of the list, summed.
    pub open spec fn weight_upto(self, n: int) -> nat
        decreases n,
    {
        if n <= 0 {
            0
        } else {
            self.weight_upto(n - 1) + weight(self.color(self.order[n - 1]))
        }
    }

    /// The phases in the order of a cycle, counted down to the sleep.
    pub open spec fn rank(self) -> nat {
        match self.phase {
            Phase::Propagate => 2,
            Phase::Sweep => 1,
            Phase::Sleep => 0,
        }
    }

    /// A bound on the units of work left in the phase.
    pub open spec fn work_left(self) -> nat {
        match self.phase {
            Phase::Propagate => self.weight_upto(self.order.len() as int) + (
            if self.root_needs_trace {
                1nat
            } else {
                0nat
            }),
            Phase::Sweep => (self.order.len() - self.cursor) as nat,
            Phase::Sleep => 0,
        }
    }

    /// Nearer to the sleep than `pre`.
    pub open spec fn nearer_than(self, pre: Self) -> bool {
        self.rank() < pre.rank() || (self.rank() == pre.rank() && self.work_left()
            < pre.work_left())
    }

    proof fn lemma_weight_mono(self, pre: Self, n: int)
        requires
            self.order == pre.order,
            0 <= n <= pre.order.len(),
            forall|k: int|
                0 <= k < n ==> weight(self.color(#[trigger] pre.order[k])) <= weight(
                    pre.color(pre.order[k]),
                ),
        ensures
            self.weight_upto(n) <= pre.weight_upto(n),
        decreases n,
    {
        if n > 0 {
            self.lemma_weight_mono(pre, n - 1);
        }
    }

    proof fn lemma_weight_strict(self, pre: Self, n: int, at: int)
        requires
            self.order == pre.order,
            0 <= at < n <= pre.order.len(),
            forall|k: int|
                0 <= k < n ==> weight(self.color(#[trigger] pre.order[k])) <= weight(
                    pre.color(pre.order[k]),
                ),
            weight(self.color(pre.order[at])) < weight(pre.color(pre.order[at])),
        ensures
            self.weight_upto(n) < pre.weight_upto(n),
        decreases n,
    {
        if at == n - 1 {
            self.lemma_weight_mono(pre, n - 1);
        } else {
            self.lemma_weight_strict(pre, n - 1, at);
        }
    }

    /// Tracing an edge never adds to the marking that is left.
    proof fn lemma_trace_edge_weight(self, e: Edge)
        requires
            self.heap_wf(),
        ensures
            self.trace_edge(e).order == self.order,
            forall|g: Gc| #[trigger]
                self.contains(g) ==> weight(self.trace_edge(e).color(g)) <= weight(self.color(g)),
    {
    }

    proof fn lemma_trace_edges_weight(self, edges: Seq<Edge>)
        requires
            self.heap_wf(),
        ensures
            self.trace_edges(edges).order == self.order,
            self.trace_edges(edges).heap_wf(),
            forall|g: Gc| #[trigger]
                self.contains(g) ==> weight(self.trace_edges(edges).color(g)) <= weight(
                    self.color(g),
                ),
        decreases edges.len(),
    {
        if edges.len() > 0 {
            let mid = self.trace_edges(edges.drop_last());
            self.lemma_trace_edges_weight(edges.drop_last());
            self.lemma_trace_edges_frame(edges.drop_last());
            mid.lemma_trace_edge_weight(edges.last());
            mid.lemma_trace_edge_frame(edges.last());
            let post = self.trace_edges(edges);
            assert forall|g: Gc| #[trigger] self.contains(g) implies weight(post.color(g))
                <= weight(self.color(g)) by {
                assert(mid.contains(g));
            }
            assert forall|g: Gc| post.contains(g) <==> #[trigger] post.order.contains(g) by {
                assert(mid.contains(g) <==> mid.order.contains(g));
            }
        }
    }

    /// Away from the sleep, one unit of work brings the collector nearer to it.
    pub proof fn lemma_step_progress(self)
        requires
            self.inv(),
            self.phase != Phase::Sleep,
        ensures
            self.step().nearer_than(self),
    {
        let post = self.step();
        let n = self.order.len() as int;
        match self.phase {
            Phase::Sleep => {},
            Phase::Propagate => {
                if self.gray.len() > 0 {
                    let g = self.gray.last();
                    let popped = ContextView { gray: self.gray.drop_last(), ..self };
                    assert(self.gray[self.gray.len() - 1] == g);
                    assert(self.gray.contains(g));
                    assert(self.contains(g) && self.color(g) == GcColor::Gray);
                    assert(popped.heap_wf()) by {
                        assert forall|x: Gc| popped.contains(x) <==> #[trigger] popped.order.contains(
                            x,
                        ) by {
                            assert(self.contains(x) <==> self.order.contains(x));
                        }
                    }
                    let edges = popped.boxes[g].edges;
                    popped.lemma_trace_edges_weight(edges);
                    popped.lemma_trace_edges_frame(edges);
                    let mid = popped.trace_edges(edges);
                    assert(post == mid.with_color(g, GcColor::Black));
                    assert(self.order.contains(g));
                    let at = choose|k: int| 0 <= k < n && self.order[k] == g;
                    assert forall|k: int| 0 <= k < n implies weight(
                        post.color(#[trigger] self.order[k]),
                    ) <= weight(self.color(self.order[k])) by {
                        assert(self.order.contains(self.order[k]));
                        assert(popped.contains(self.order[k]));
                    }
                    post.lemma_weight_strict(self, n, at);
                } else if self.root_needs_trace {
                    self.lemma_trace_edges_weight(self.roots);
                    self.lemma_trace_edges_frame(self.roots);
                    let m1 = self.trace_edges(self.roots);
                    m1.lemma_trace_edges_weight(m1.statics);
                    m1.lemma_trace_edges_frame(m1.statics);
                    assert forall|k: int| 0 <= k < n implies weight(
                        post.color(#[trigger] self.order[k]),
                    ) <= weight(self.color(self.order[k])) by {
                        assert(self.order.contains(self.order[k]));
                        assert(self.contains(self.order[k]));
                        assert(m1.contains(self.order[k]));
                    }
                    post.lemma_weight_mono(self, n);
                } else {
                }
            },
            Phase::Sweep => {
                if 0 <= self.cursor < self.order.len() {
                    self.lemma_sweep_one_inv();
                }
            },
        }
    }
}

} // verus!
