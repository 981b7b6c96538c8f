//! A cycle that starts from the sleep and is not disturbed by the mutator
//! marks what the root can reach and nothing else, so that its sweep leaves
//! exactly those boxes.

use vstd::prelude::*;
use crate::gc::{Edge, Gc};
use crate::state::{ContextView, Phase};
use crate::types::GcColor;

verus! {

impl<T> ContextView<T> {
    /// Every outstanding box can be reached from the root.
    pub open spec fn tight(self) -> bool {
        forall|g: Gc| #[trigger] self.contains(g) ==> self.reachable(g)
    }

    /// The cycle in flight has marked, and its sweep has kept, only what the
    /// root can reach, and no box is exempt from its sweep.
    pub open spec fn on_course(self) -> bool {
        match self.phase {
            Phase::Sleep => true,
            Phase::Propagate => forall|g: Gc| #[trigger]
                self.contains(g) ==> self.color(g) != GcColor::FreshWhite && (self.marked(g)
                    ==> self.reachable(g)),
            Phase::Sweep => {
                &&& forall|g: Gc| #[trigger]
                    self.contains(g) ==> self.color(g) != GcColor::FreshWhite && (self.color(g)
                        != GcColor::White ==> self.reachable(g))
                &&& forall|k: int| 0 <= k < self.cursor ==> self.reachable(#[trigger] self.order[k])
            },
        }
    }

    /// What a root points to can be reached.
    pub proof fn lemma_root_reachable(self, g: Gc)
        requires
            self.is_root(g),
        ensures
            self.reachable(g),
    {
        let path = seq![g];
        assert(self.is_path(path));
        assert(path.last() == g);
    }

    /// What a reachable box points to can be reached.
    pub proof fn lemma_reachable_step(self, a: Gc, b: Gc)
        requires
            self.reachable(a),
            self.points_to(a, b),
        ensures
            self.reachable(b),
    {
        let path = choose|path: Seq<Gc>| #[trigger] self.is_path(path) && path.last() == a;
        let longer = path.push(b);
        assert forall|i: int| 0 <= i < longer.len() - 1 implies self.points_to(
            #[trigger] longer[i],
            longer[i + 1],
        ) by {
            if i < path.len() - 1 {
                assert(self.points_to(path[i], path[i + 1]));
            }
        }
        assert(self.is_path(longer));
        assert(longer.last() == b);
    }

    proof fn lemma_trace_edge_course(self, e: Edge, pending: Option<Gc>)
        requires
            self.inv_with(pending),
            self.phase == Phase::Propagate,
            self.on_course(),
            e is Strong ==> self.protected(e.target()) && self.reachable(e.target()),
        ensures
            self.trace_edge(e).on_course(),
            forall|g: Gc| self.reachable(g) <==> self.trace_edge(e).reachable(g),
    {
        let post = self.trace_edge(e);
        self.lemma_trace_edge_inv(e, pending);
        assert(post.collected_from(self)) by {
            assert forall|g: Gc| #[trigger] post.contains(g) implies {
                &&& self.contains(g)
                &&& post.boxes[g].edges == self.boxes[g].edges
                &&& post.boxes[g].value == self.boxes[g].value
                &&& post.boxes[g].seen == self.boxes[g].seen
                &&& post.boxes[g].flags.needs_trace == self.boxes[g].flags.needs_trace
            } by {
                assert(self.contains(g));
            }
            assert forall|g: Gc| #[trigger] self.reachable(g) implies post.contains(g) by {
                self.lemma_reachable_protected(g);
            }
        }
        post.lemma_reachable_carries(self);
        assert forall|g: Gc| #[trigger] post.contains(g) implies post.color(g)
            != GcColor::FreshWhite && (post.marked(g) ==> post.reachable(g)) by {
            assert(self.contains(g));
            if post.marked(g) && !self.marked(g) {
                assert(g == e.target());
            }
        }
    }

    proof fn lemma_trace_edges_course(self, edges: Seq<Edge>, pending: Option<Gc>)
        requires
            self.inv_with(pending),
            self.phase == Phase::Propagate,
            self.on_course(),
            self.edges_protected(edges),
            forall|g: Gc| edges.contains(Edge::Strong(g)) ==> self.reachable(g),
        ensures
            self.trace_edges(edges).on_course(),
            forall|g: Gc| self.reachable(g) <==> self.trace_edges(edges).reachable(g),
        decreases edges.len(),
    {
        if edges.len() > 0 {
            let front = edges.drop_last();
            let e = edges.last();
            let mid = self.trace_edges(front);
            assert forall|g: Gc| front.contains(Edge::Strong(g)) implies self.protected(g)
                && self.reachable(g) by {
                let k = choose|k: int| 0 <= k < front.len() && front[k] == Edge::Strong(g);
                assert(edges[k] == Edge::Strong(g));
            }
            self.lemma_trace_edges_inv(front, pending);
            self.lemma_trace_edges_course(front, pending);
            if e is Strong {
                assert(edges[edges.len() - 1] == e);
                assert(edges.contains(Edge::Strong(e.target())));
                assert(self.protected(e.target()));
                assert(mid.protected(e.target()));
            }
            mid.lemma_trace_edge_course(e, pending);
        }
    }

    /// The collector's work changes nothing about what the root can reach.
    proof fn lemma_step_reachable(self)
        requires
            self.inv(),
        ensures
            self.step().inv(),
            forall|g: Gc| self.reachable(g) <==> self.step().reachable(g),
    {
        self.lemma_step_inv();
        self.step().lemma_reachable_carries(self);
    }

    proof fn lemma_wake_course(self)
        requires
            self.inv(),
            self.phase == Phase::Sleep,
        ensures
            self.wake().on_course(),
    {
        let post = self.wake();
        assert forall|g: Gc| #[trigger] post.contains(g) implies post.color(g)
            != GcColor::FreshWhite && (post.marked(g) ==> post.reachable(g)) by {
            assert(self.contains(g));
        }
    }

    proof fn lemma_popped_course(self)
        requires
            self.inv(),
            self.on_course(),
            self.phase == Phase::Propagate,
            self.gray.len() > 0,
        ensures
            (ContextView { gray: self.gray.drop_last(), ..self }).on_course(),
            (ContextView { gray: self.gray.drop_last(), ..self }).reachable(self.gray.last()),
            (ContextView { gray: self.gray.drop_last(), ..self }).contains(self.gray.last()),
            forall|x: Gc|
                self.reachable(x) <==> (ContextView {
                    gray: self.gray.drop_last(),
                    ..self
                }).reachable(x),
    {
        let g = self.gray.last();
        let popped = ContextView { gray: self.gray.drop_last(), ..self };
        assert(self.gray[self.gray.len() - 1] == g);
        assert(self.gray.contains(g));
        assert(self.contains(g) && self.color(g) == GcColor::Gray);
        assert(popped.collected_from(self)) by {
            assert forall|x: Gc| #[trigger] popped.contains(x) implies {
                &&& self.contains(x)
                &&& popped.boxes[x].edges == self.boxes[x].edges
                &&& popped.boxes[x].value == self.boxes[x].value
                &&& popped.boxes[x].seen == self.boxes[x].seen
                &&& popped.boxes[x].flags.needs_trace == self.boxes[x].flags.needs_trace
            } by {}
            assert forall|x: Gc| #[trigger] self.reachable(x) implies popped.contains(x) by {
                self.lemma_reachable_protected(x);
            }
        }
        popped.lemma_reachable_carries(self);
        assert forall|x: Gc| #[trigger] popped.contains(x) implies popped.color(x)
            != GcColor::FreshWhite && (popped.marked(x) ==> popped.reachable(x)) by {
            assert(self.contains(x));
        }
        assert(self.reachable(g));
    }

    /// The pending box turns black: the cycle stays on course.
    proof fn lemma_blacken_course(self, g: Gc)
        requires
            self.inv_with(Some(g)),
            self.on_course(),
            self.phase == Phase::Propagate,
            self.contains(g),
            self.reachable(g),
        ensures
            self.with_color(g, GcColor::Black).on_course(),
    {
        let post = self.with_color(g, GcColor::Black);
        assert(post.boxes.dom() =~= self.boxes.dom());
        assert(post.collected_from(self)) by {
            assert forall|x: Gc| #[trigger] post.contains(x) implies {
                &&& self.contains(x)
                &&& post.boxes[x].edges == self.boxes[x].edges
                &&& post.boxes[x].value == self.boxes[x].value
                &&& post.boxes[x].seen == self.boxes[x].seen
                &&& post.boxes[x].flags.needs_trace == self.boxes[x].flags.needs_trace
            } by {}
            assert forall|x: Gc| #[trigger] self.reachable(x) implies post.contains(x) by {
                self.lemma_reachable_protected(x);
            }
        }
        post.lemma_reachable_carries(self);
        assert forall|x: Gc| #[trigger] post.contains(x) implies post.color(x)
            != GcColor::FreshWhite && (post.marked(x) ==> post.reachable(x)) by {
            assert(self.contains(x));
        }
    }

    proof fn lemma_propagate_one_course(self)
        requires
            self.inv(),
            self.on_course(),
            self.phase == Phase::Propagate,
            self.gray.len() > 0,
        ensures
            self.propagate_one().on_course(),
    {
        let g = self.gray.last();
        let popped = ContextView { gray: self.gray.drop_last(), ..self };
        self.lemma_popped_inv();
        self.lemma_popped_course();
        let edges = popped.boxes[g].edges;
        assert(popped.protected(g)) by {
            assert(popped.color(g) == GcColor::Gray);
        }
        assert(popped.edges_protected(edges) && (forall|b: Gc|
            edges.contains(Edge::Strong(b)) ==> popped.reachable(b))) by {
            popped.lemma_protected(g);
            assert forall|b: Gc| edges.contains(Edge::Strong(b)) implies popped.protected(b)
                && popped.reachable(b) by {
                assert(popped.points_to(g, b));
                popped.lemma_reachable_step(g, b);
            }
        }
        let mid = popped.trace_edges(edges);
        assert(mid.inv_with(Some(g)) && mid.on_course() && mid.phase == Phase::Propagate
            && mid.contains(g) && mid.reachable(g)) by {
            popped.lemma_trace_edges_inv(edges, Some(g));
            popped.lemma_trace_edges_course(edges, Some(g));
        }
        mid.lemma_blacken_course(g);
    }

    proof fn lemma_propagate_root_course(self)
        requires
            self.inv(),
            self.on_course(),
            self.phase == Phase::Propagate,
            self.gray.len() == 0,
            self.root_needs_trace,
        ensures
            self.propagate_root().on_course(),
    {
        let post = self.propagate_root();
        assert(self.edges_protected(self.roots)) by {
            assert forall|g: Gc| self.roots.contains(Edge::Strong(g)) implies self.protected(g) by {
                assert(self.is_root(g));
            }
        }
        assert forall|g: Gc| self.roots.contains(Edge::Strong(g)) implies self.reachable(g) by {
            assert(self.is_root(g));
            self.lemma_root_reachable(g);
        }
        self.lemma_trace_edges_inv(self.roots, None);
        self.lemma_trace_edges_course(self.roots, None);
        let m1 = self.trace_edges(self.roots);
        assert(m1.edges_protected(m1.statics)) by {
            assert forall|g: Gc| m1.statics.contains(Edge::Strong(g)) implies m1.protected(g) by {
                assert(self.is_root(g));
                assert(self.protected(g));
            }
        }
        assert forall|g: Gc| m1.statics.contains(Edge::Strong(g)) implies m1.reachable(g) by {
            assert(self.is_root(g));
            self.lemma_root_reachable(g);
        }
        m1.lemma_trace_edges_inv(m1.statics, None);
        m1.lemma_trace_edges_course(m1.statics, None);
        let m2 = m1.trace_edges(m1.statics);
        self.lemma_step_reachable();
        assert(post == self.step());
        assert forall|x: Gc| #[trigger] post.contains(x) implies post.color(x)
            != GcColor::FreshWhite && (post.marked(x) ==> post.reachable(x)) by {
            assert(m2.contains(x));
            if m2.marked(x) {
                assert(m2.reachable(x));
                assert(m1.reachable(x));
                assert(self.reachable(x));
            }
        }
    }

    proof fn lemma_start_sweep_course(self)
        requires
            self.inv(),
            self.on_course(),
            self.phase == Phase::Propagate,
            self.gray.len() == 0,
            !self.root_needs_trace,
        ensures
            (ContextView { phase: Phase::Sweep, cursor: 0, ..self }).on_course(),
    {
        let post = ContextView { phase: Phase::Sweep, cursor: 0, ..self };
        self.lemma_step_reachable();
        assert(post == self.step());
        assert forall|x: Gc| #[trigger] post.contains(x) implies post.color(x)
            != GcColor::FreshWhite && (post.color(x) != GcColor::White ==> post.reachable(x)) by {
            assert(self.contains(x));
            if self.color(x) == GcColor::Gray {
                assert(self.gray.contains(x));
            }
        }
    }

    proof fn lemma_sweep_one_course(self)
        requires
            self.inv(),
            self.on_course(),
            self.phase == Phase::Sweep,
            0 <= self.cursor < self.order.len(),
        ensures
            self.sweep_one().on_course(),
    {
        let post = self.sweep_one();
        self.lemma_step_reachable();
        assert(post == self.step());
        let c = self.cursor;
        let g = self.order[c];
        assert(self.order.contains(g));
        assert(self.contains(g));
        assert forall|x: Gc| #[trigger] post.contains(x) implies post.color(x)
            != GcColor::FreshWhite && (post.color(x) != GcColor::White ==> post.reachable(x)) by {
            assert(self.contains(x));
        }
        assert forall|k: int| 0 <= k < post.cursor implies post.reachable(
            #[trigger] post.order[k],
        ) by {
            if k < c {
                assert(self.reachable(self.order[k]));
            } else {
                assert(self.reachable(g));
            }
        }
    }

    proof fn lemma_end_sweep_tight(self)
        requires
            self.inv(),
            self.on_course(),
            self.phase == Phase::Sweep,
            self.cursor == self.order.len(),
        ensures
            (ContextView { phase: Phase::Sleep, cursor: 0, ..self }).tight(),
    {
        let post = ContextView { phase: Phase::Sleep, cursor: 0, ..self };
        self.lemma_step_reachable();
        assert(post == self.step());
        assert forall|x: Gc| #[trigger] post.contains(x) implies post.reachable(x) by {
            assert(self.contains(x));
            assert(self.order.contains(x));
            let k = choose|k: int| 0 <= k < self.order.len() && self.order[k] == x;
            assert(self.reachable(self.order[k]));
        }
    }

    /// One unit of work keeps an undisturbed cycle on course, and the end
    /// of its sweep leaves a tight heap.
    pub proof fn lemma_step_course(self)
        requires
            self.inv(),
            self.on_course(),
        ensures
            self.step().on_course(),
            self.phase != Phase::Sleep && self.step().phase == Phase::Sleep ==> self.step().tight(),
    {
        match self.phase {
            Phase::Sleep => {
                self.lemma_wake_course();
            },
            Phase::Propagate => {
                if self.gray.len() > 0 {
                    self.lemma_propagate_one_course();
                    self.lemma_propagate_one_inv();
                } else if self.root_needs_trace {
                    self.lemma_propagate_root_course();
                    self.lemma_propagate_root_inv();
                } else {
                    self.lemma_start_sweep_course();
                }
            },
            Phase::Sweep => {
                if 0 <= self.cursor < self.order.len() {
                    self.lemma_sweep_one_course();
                    self.lemma_sweep_one_inv();
                } else {
                    self.lemma_end_sweep_tight();
                }
            },
        }
    }

    /// An undisturbed cycle leaves a tight heap when it ends.
    pub proof fn lemma_finish_tight(self)
        requires
            self.inv(),
            self.on_course(),
            self.phase != Phase::Sleep,
        ensures
            self.finish().tight(),
        decreases self.rank(), self.work_left(),
    {
        self.lemma_step_inv();
        self.lemma_step_progress();
        self.lemma_step_course();
        let next = self.step();
        assert(self.finish() == next.finish());
        if next.phase != Phase::Sleep {
            next.lemma_finish_tight();
        } else {
            assert(next.finish() == next);
        }
    }

    /// A full collection that starts from the sleep keeps exactly the boxes
    /// that the root can reach.
    pub proof fn lemma_collect_all_exact(self)
        requires
            self.inv(),
            self.phase == Phase::Sleep,
        ensures
            self.collect_all().tight(),
            forall|g: Gc| self.collect_all().contains(g) <==> self.reachable(g),
    {
        self.lemma_wake_inv();
        self.lemma_step_course();
        self.wake().lemma_finish_tight();
        self.lemma_collect_all_inv();
        self.collect_all().lemma_reachable_carries(self);
        assert forall|g: Gc| self.collect_all().contains(g) <==> self.reachable(g) by {}
    }
}

} // verus!
