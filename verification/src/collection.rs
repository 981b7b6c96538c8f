//! Each unit of the collector's work keeps the invariant, frees no box
//! that is protected, and changes no payload and no edge.

use vstd::prelude::*;
use crate::gc::{Edge, Gc};
use crate::safety::{lemma_protected_carries, lemma_same_boxes};
use crate::state::{ContextView, Phase};
use crate::types::GcColor;

verus! {

impl<T> ContextView<T> {
    /// What the collector leaves as it is: the root, the pins, and the
    /// edges and payload of every box it keeps; and it keeps every box that
    /// the root could reach.
    pub open spec fn collected_from(self, pre: Self) -> bool {
        &&& self.roots == pre.roots
        &&& self.statics == pre.statics
        &&& forall|g: Gc| #[trigger]
            self.contains(g) ==> {
                &&& pre.contains(g)
                &&& self.boxes[g].edges == pre.boxes[g].edges
                &&& self.boxes[g].value == pre.boxes[g].value
                &&& self.boxes[g].seen == pre.boxes[g].seen
                &&& self.boxes[g].flags.needs_trace == pre.boxes[g].flags.needs_trace
            }
        &&& forall|g: Gc| #[trigger] pre.reachable(g) ==> self.contains(g)
    }

    /// The collector changes nothing about what the root can reach.
    pub proof fn lemma_reachable_carries(self, pre: Self)
        requires
            self.collected_from(pre),
        ensures
            forall|g: Gc| pre.reachable(g) <==> self.reachable(g),
    {
        assert forall|g: Gc| pre.reachable(g) implies self.reachable(g) by {
            let path = choose|path: Seq<Gc>| #[trigger] pre.is_path(path) && path.last() == g;
            assert forall|i: int| 0 <= i < path.len() - 1 implies self.points_to(
                #[trigger] path[i],
                path[i + 1],
            ) by {
                let prefix = path.take(i + 1);
                assert(pre.is_path(prefix)) by {
                    assert forall|j: int| 0 <= j < prefix.len() - 1 implies pre.points_to(
                        #[trigger] prefix[j],
                        prefix[j + 1],
                    ) by {
                        assert(pre.points_to(path[j], path[j + 1]));
                    }
                }
                assert(prefix.last() == path[i]);
                assert(pre.reachable(path[i]));
                assert(self.contains(path[i]));
                assert(pre.points_to(path[i], path[i + 1]));
            }
            assert(self.is_path(path));
        }
        assert forall|g: Gc| self.reachable(g) implies pre.reachable(g) by {
            let path = choose|path: Seq<Gc>| #[trigger] self.is_path(path) && path.last() == g;
            assert forall|i: int| 0 <= i < path.len() - 1 implies pre.points_to(
                #[trigger] path[i],
                path[i + 1],
            ) by {
                assert(self.points_to(path[i], path[i + 1]));
                assert(self.contains(path[i]));
            }
            assert(pre.is_path(path));
        }
    }

    /// Collecting in two stretches is collecting.
    pub proof fn lemma_collected_trans(self, mid: Self, pre: Self)
        requires
            mid.collected_from(pre),
            self.collected_from(mid),
        ensures
            self.collected_from(pre),
    {
        assert forall|g: Gc| #[trigger] self.contains(g) implies {
            &&& pre.contains(g)
            &&& self.boxes[g].edges == pre.boxes[g].edges
            &&& self.boxes[g].value == pre.boxes[g].value
            &&& self.boxes[g].seen == pre.boxes[g].seen
            &&& self.boxes[g].flags.needs_trace == pre.boxes[g].flags.needs_trace
        } by {
            assert(mid.contains(g));
        }
        mid.lemma_reachable_carries(pre);
        assert forall|g: Gc| #[trigger] pre.reachable(g) implies self.contains(g) by {
            assert(mid.reachable(g));
        }
    }

    /// Waking the collector keeps the invariant.
    pub proof fn lemma_wake_inv(self)
        requires
            self.inv(),
            self.phase == Phase::Sleep,
        ensures
            self.wake().inv(),
            self.wake().collected_from(self),
    {
        let post = self.wake();
        assert forall|g: Gc| #[trigger] self.reachable(g) implies post.contains(g) by {
            self.lemma_reachable_protected(g);
        }
        lemma_same_boxes(self, post);
        lemma_protected_carries(self, post);
        assert(post.phase_wf()) by {
            assert forall|x: Gc| #[trigger] post.contains(x) implies post.color(x)
                == GcColor::White by {
                assert(self.contains(x));
            }
        }
        assert(post.roots_protected()) by {
            assert forall|g: Gc| #[trigger] post.is_root(g) implies post.protected(g) by {
                assert(self.is_root(g));
            }
        }
        assert(post.gray_wf(None)) by {
            assert forall|g: Gc| #[trigger]
                post.gray.contains(g) <==> (post.contains(g) && post.color(g) == GcColor::Gray) by {
                assert(self.gray.contains(g) == post.gray.contains(g));
            }
        }
        assert(post.tricolor()) by {
            assert forall|a: Gc, b: Gc| #[trigger]
                post.points_to(a, b) && post.color(a) == GcColor::Black implies post.contains(b)
                && post.marked(b) by {
                assert(self.contains(a));
            }
            assert forall|g: Gc| #[trigger] post.contains(g) && post.marked(g) implies post.protected(
                g,
            ) by {
                assert(self.contains(g));
            }
        }
    }

    /// Taking the next box from the work list leaves the invariant with
    /// that box pending.
    pub proof fn lemma_popped_inv(self)
        requires
            self.inv(),
            self.phase == Phase::Propagate,
            self.gray.len() > 0,
        ensures
            (ContextView { gray: self.gray.drop_last(), ..self }).inv_with(Some(self.gray.last())),
            forall|x: Gc|
                self.protected(x) <==> (ContextView {
                    gray: self.gray.drop_last(),
                    ..self
                }).protected(x),
    {
        let g = self.gray.last();
        let popped = ContextView { gray: self.gray.drop_last(), ..self };
        assert(self.gray[self.gray.len() - 1] == g);
        assert(self.gray.contains(g));
        assert(self.contains(g) && self.color(g) == GcColor::Gray);
        assert(popped.gray_wf(Some(g))) by {
            assert forall|x: Gc| #[trigger]
                popped.gray.contains(x) <==> (popped.contains(x) && popped.color(x)
                    == GcColor::Gray && Some(g) != Some(x)) by {
                if popped.gray.contains(x) {
                    let k = choose|k: int| 0 <= k < popped.gray.len() && popped.gray[k] == x;
                    assert(self.gray[k] == x);
                    assert(self.gray.contains(x));
                }
                if self.gray.contains(x) && x != g {
                    let k = choose|k: int| 0 <= k < self.gray.len() && self.gray[k] == x;
                    assert(popped.gray[k] == x);
                }
            }
        }
        lemma_same_boxes(self, popped);
        lemma_protected_carries(self, popped);
        lemma_protected_carries(popped, self);
        assert(popped.roots_protected()) by {
            assert forall|x: Gc| #[trigger] popped.is_root(x) implies popped.protected(x) by {
                assert(self.is_root(x));
            }
        }
        assert(popped.tricolor()) by {
            assert forall|a: Gc, b: Gc| #[trigger]
                popped.points_to(a, b) && popped.color(a) == GcColor::Black implies popped.contains(
                b,
            ) && popped.marked(b) by {
                assert(self.points_to(a, b));
            }
            assert forall|x: Gc| #[trigger] popped.contains(x) && popped.marked(x) implies popped.protected(
                x,
            ) by {
                assert(self.contains(x));
            }
            if !popped.root_needs_trace {
                assert forall|x: Gc| #[trigger] popped.is_root(x) implies popped.contains(x)
                    && popped.marked(x) by {
                    assert(self.is_root(x));
                }
            }
        }
    }

    /// Tracing the next box of the work list keeps the invariant.
    pub proof fn lemma_propagate_one_inv(self)
        requires
            self.inv(),
            self.phase == Phase::Propagate,
            self.gray.len() > 0,
        ensures
            self.propagate_one().inv(),
            self.propagate_one().collected_from(self),
            self.propagate_one().phase == Phase::Propagate,
    {
        let g = self.gray.last();
        let popped = ContextView { gray: self.gray.drop_last(), ..self };
        self.lemma_popped_inv();
        assert(self.gray[self.gray.len() - 1] == g);
        assert(self.gray.contains(g));
        assert(self.contains(g) && self.color(g) == GcColor::Gray);
        assert(popped.inv_with(Some(g)));
        let edges = popped.boxes[g].edges;
        assert(popped.protected(g));
        popped.lemma_protected(g);
        assert(popped.edges_protected(edges)) by {
            assert forall|b: Gc| edges.contains(Edge::Strong(b)) implies popped.protected(b) by {
                assert(popped.points_to(g, b));
            }
        }
        popped.lemma_trace_edges_inv(edges, Some(g));
        let mid = popped.trace_edges(edges);
        let post = mid.with_color(g, GcColor::Black);
        assert(post == self.propagate_one());
        assert(mid.contains(g));
        assert(mid.color(g) == GcColor::Gray);
        assert(post.boxes.dom() =~= mid.boxes.dom());
        assert forall|a: Gc, b: Gc| post.points_to(a, b) <==> mid.points_to(a, b) by {}
        lemma_protected_carries(mid, post);
        assert(post.heap_wf());
        assert(post.boxes_wf()) by {
            assert forall|x: Gc| #[trigger] post.contains(x) implies post.boxes[x].flags.alive && (
            !post.boxes[x].flags.needs_trace ==> post.boxes[x].edges.len() == 0) by {
                assert(mid.contains(x));
            }
        }
        assert(post.gray_wf(None)) by {
            assert forall|x: Gc| #[trigger]
                post.gray.contains(x) <==> (post.contains(x) && post.color(x) == GcColor::Gray) by {
                assert(mid.gray.contains(x) == post.gray.contains(x));
            }
        }
        assert(post.phase_wf());
        assert(post.roots_protected()) by {
            assert forall|x: Gc| #[trigger] post.is_root(x) implies post.protected(x) by {
                assert(mid.is_root(x));
            }
        }
        assert(post.tricolor()) by {
            assert forall|a: Gc, b: Gc| #[trigger]
                post.points_to(a, b) && post.color(a) == GcColor::Black implies post.contains(b)
                && post.marked(b) by {
                assert(mid.points_to(a, b));
                if a == g {
                    assert(popped.contains(g));
                    assert(mid.boxes[g].edges == edges);
                    assert(edges.contains(Edge::Strong(b)));
                    assert(mid.contains(b) && mid.marked(b));
                } else {
                    assert(mid.color(a) == GcColor::Black);
                    assert(mid.contains(b) && mid.marked(b));
                }
            }
            assert forall|x: Gc| #[trigger] post.contains(x) && post.marked(x) implies post.protected(
                x,
            ) by {
                assert(mid.contains(x));
                assert(mid.marked(x));
                assert(mid.protected(x));
            }
            if !post.root_needs_trace {
                assert forall|x: Gc| #[trigger] post.is_root(x) implies post.contains(x)
                    && post.marked(x) by {
                    assert(mid.is_root(x));
                }
            }
        }
        assert(post.collected_from(self)) by {
            assert forall|x: Gc| #[trigger] post.contains(x) implies {
                &&& self.contains(x)
                &&& post.boxes[x].edges == self.boxes[x].edges
                &&& post.boxes[x].value == self.boxes[x].value
                &&& post.boxes[x].seen == self.boxes[x].seen
                &&& post.boxes[x].flags.needs_trace == self.boxes[x].flags.needs_trace
            } by {
                assert(popped.contains(x));
            }
            assert forall|x: Gc| #[trigger] self.reachable(x) implies post.contains(x) by {
                self.lemma_reachable_protected(x);
                assert(popped.contains(x));
            }
        }
    }

    /// Tracing the root and the pins keeps the invariant.
    pub proof fn lemma_propagate_root_inv(self)
        requires
            self.inv(),
            self.phase == Phase::Propagate,
        ensures
            self.propagate_root().inv(),
            self.propagate_root().collected_from(self),
            self.propagate_root().phase == Phase::Propagate,
    {
        assert(self.edges_protected(self.roots)) by {
            assert forall|g: Gc| self.roots.contains(Edge::Strong(g)) implies self.protected(g) by {
                assert(self.is_root(g));
            }
        }
        self.lemma_trace_edges_inv(self.roots, None);
        let m1 = self.trace_edges(self.roots);
        assert(m1.edges_protected(m1.statics)) by {
            assert forall|g: Gc| m1.statics.contains(Edge::Strong(g)) implies m1.protected(g) by {
                assert(self.is_root(g));
                assert(self.protected(g));
            }
        }
        m1.lemma_trace_edges_inv(m1.statics, None);
        let m2 = m1.trace_edges(m1.statics);
        let post = ContextView { root_needs_trace: false, ..m2 };
        assert(post == self.propagate_root());
        lemma_same_boxes(m2, post);
        lemma_protected_carries(m2, post);
        assert(post.gray_wf(None)) by {
            assert forall|x: Gc| #[trigger]
                post.gray.contains(x) <==> (post.contains(x) && post.color(x) == GcColor::Gray) by {
                assert(m2.gray.contains(x) == post.gray.contains(x));
            }
        }
        assert(post.phase_wf());
        assert(post.roots_protected()) by {
            assert forall|x: Gc| #[trigger] post.is_root(x) implies post.protected(x) by {
                assert(m2.is_root(x));
            }
        }
        assert(post.tricolor()) by {
            assert forall|a: Gc, b: Gc| #[trigger]
                post.points_to(a, b) && post.color(a) == GcColor::Black implies post.contains(b)
                && post.marked(b) by {
                assert(m2.points_to(a, b));
            }
            assert forall|x: Gc| #[trigger] post.contains(x) && post.marked(x) implies post.protected(
                x,
            ) by {
                assert(m2.contains(x));
            }
            assert forall|x: Gc| #[trigger] post.is_root(x) implies post.contains(x) && post.marked(
                x,
            ) by {
                if self.roots.contains(Edge::Strong(x)) {
                    assert(m1.contains(x) && m1.marked(x));
                    assert(m2.color(x) == m1.color(x));
                } else {
                    assert(m1.statics.contains(Edge::Strong(x)));
                    assert(m2.contains(x) && m2.marked(x));
                }
            }
        }
        assert(post.collected_from(self)) by {
            assert forall|x: Gc| #[trigger] post.contains(x) implies {
                &&& self.contains(x)
                &&& post.boxes[x].edges == self.boxes[x].edges
                &&& post.boxes[x].value == self.boxes[x].value
                &&& post.boxes[x].seen == self.boxes[x].seen
                &&& post.boxes[x].flags.needs_trace == self.boxes[x].flags.needs_trace
            } by {
                assert(m2.contains(x));
                assert(m1.contains(x));
                assert(self.contains(x));
            }
            assert forall|x: Gc| #[trigger] self.reachable(x) implies post.contains(x) by {
                self.lemma_reachable_protected(x);
                assert(m1.contains(x));
                assert(m2.contains(x));
            }
        }
    }

    /// Turning from marking to sweeping keeps the invariant: every box that
    /// the root can reach is black by then, and the sweep frees no black box.
    pub proof fn lemma_start_sweep_inv(self)
        requires
            self.inv(),
            self.phase == Phase::Propagate,
            self.gray.len() == 0,
            !self.root_needs_trace,
        ensures
            (ContextView { phase: Phase::Sweep, cursor: 0, ..self }).inv(),
            (ContextView { phase: Phase::Sweep, cursor: 0, ..self }).collected_from(self),
    {
        let post = ContextView { phase: Phase::Sweep, cursor: 0, ..self };
        lemma_same_boxes(self, post);
        assert forall|x: Gc| #[trigger] self.contains(x) implies self.color(x)
            != GcColor::Gray by {
            if self.color(x) == GcColor::Gray {
                assert(self.gray.contains(x));
            }
        }
        assert(post.gray_wf(None)) by {
            assert forall|x: Gc| #[trigger]
                post.gray.contains(x) <==> (post.contains(x) && post.color(x) == GcColor::Gray) by {
                assert(self.gray.contains(x) == post.gray.contains(x));
                assert(self.contains(x) == post.contains(x));
            }
        }
        assert(post.phase_wf()) by {
            assert forall|x: Gc| #[trigger] post.contains(x) implies post.color(x)
                != GcColor::Gray by {
                assert(self.contains(x));
            }
        }
        let black = Set::new(|x: Gc| self.contains(x) && self.color(x) == GcColor::Black);
        assert(post.closed_set(black)) by {
            assert forall|a: Gc| #[trigger] black.contains(a) implies {
                &&& post.contains(a)
                &&& !post.condemned(a)
                &&& forall|b: Gc| post.points_to(a, b) ==> black.contains(b)
            } by {
                assert forall|b: Gc| post.points_to(a, b) implies black.contains(b) by {
                    assert(self.points_to(a, b));
                    assert(self.contains(b) && self.marked(b));
                }
            }
        }
        assert(post.roots_protected()) by {
            assert forall|x: Gc| #[trigger] post.is_root(x) implies post.protected(x) by {
                assert(self.is_root(x));
                assert(self.contains(x) && self.marked(x));
                assert(black.contains(x));
            }
        }
        assert(post.collected_from(self)) by {
            assert forall|x: Gc| #[trigger] post.contains(x) implies {
                &&& self.contains(x)
                &&& post.boxes[x].edges == self.boxes[x].edges
                &&& post.boxes[x].value == self.boxes[x].value
                &&& post.boxes[x].seen == self.boxes[x].seen
                &&& post.boxes[x].flags.needs_trace == self.boxes[x].flags.needs_trace
            } by {}
            assert forall|x: Gc| #[trigger] self.reachable(x) implies post.contains(x) by {
                self.lemma_reachable_protected(x);
            }
        }
    }

    /// Going to sleep at the end of the list keeps the invariant.
    pub proof fn lemma_end_sweep_inv(self)
        requires
            self.inv(),
            self.phase == Phase::Sweep,
            self.cursor == self.order.len(),
        ensures
            (ContextView { phase: Phase::Sleep, cursor: 0, ..self }).inv(),
            (ContextView { phase: Phase::Sleep, cursor: 0, ..self }).collected_from(self),
    {
        let post = ContextView { phase: Phase::Sleep, cursor: 0, ..self };
        lemma_same_boxes(self, post);
        lemma_protected_carries(self, post);
        assert(post.gray_wf(None)) by {
            assert forall|x: Gc| #[trigger]
                post.gray.contains(x) <==> (post.contains(x) && post.color(x) == GcColor::Gray) by {
                assert(self.gray.contains(x) == post.gray.contains(x));
                assert(self.contains(x) == post.contains(x));
            }
        }
        assert(post.phase_wf()) by {
            assert forall|x: Gc| #[trigger] post.contains(x) implies post.color(x)
                == GcColor::White by {
                assert(self.contains(x));
                assert(self.order.contains(x));
                let k = choose|k: int| 0 <= k < self.order.len() && self.order[k] == x;
                assert(self.color(self.order[k]) == GcColor::White);
            }
        }
        assert(post.roots_protected()) by {
            assert forall|x: Gc| #[trigger] post.is_root(x) implies post.protected(x) by {
                assert(self.is_root(x));
            }
        }
        assert(post.collected_from(self)) by {
            assert forall|x: Gc| #[trigger] post.contains(x) implies {
                &&& self.contains(x)
                &&& post.boxes[x].edges == self.boxes[x].edges
                &&& post.boxes[x].value == self.boxes[x].value
                &&& post.boxes[x].seen == self.boxes[x].seen
                &&& post.boxes[x].flags.needs_trace == self.boxes[x].flags.needs_trace
            } by {}
            assert forall|x: Gc| #[trigger] self.reachable(x) implies post.contains(x) by {
                self.lemma_reachable_protected(x);
            }
        }
    }

    /// Sweeping the box at the cursor keeps the invariant, and brings the
    /// cursor one box nearer to the end of the list.
    pub proof fn lemma_sweep_one_inv(self)
        requires
            self.inv(),
            self.phase == Phase::Sweep,
            0 <= self.cursor < self.order.len(),
        ensures
            self.sweep_one().inv(),
            self.sweep_one().collected_from(self),
            self.sweep_one().phase == Phase::Sweep,
            self.sweep_one().order.len() - self.sweep_one().cursor == self.order.len()
                - self.cursor - 1,
    {
        let c = self.cursor;
        let g = self.order[c];
        let post = self.sweep_one();
        assert(self.order.contains(g));
        assert(self.contains(g));
        assert forall|x: Gc| #[trigger] self.contains(x) implies self.color(x)
            != GcColor::Gray by {}
        assert(self.gray.len() == 0) by {
            if self.gray.len() > 0 {
                assert(self.gray.contains(self.gray[0]));
                assert(self.contains(self.gray[0]));
            }
        }
        if self.color(g) == GcColor::White {
            assert(self.condemned(g));
            assert forall|x: Gc| post.contains(x) <==> (self.contains(x) && x != g) by {}
            assert forall|k: int| 0 <= k < post.order.len() implies #[trigger] post.order[k] == (
            if k < c {
                self.order[k]
            } else {
                self.order[k + 1]
            }) && post.order[k] != g by {}
            assert(post.heap_wf()) by {
                assert forall|x: Gc| post.contains(x) <==> #[trigger] post.order.contains(x) by {
                    if post.contains(x) {
                        assert(self.order.contains(x));
                        let k = choose|k: int| 0 <= k < self.order.len() && self.order[k] == x;
                        if k < c {
                            assert(post.order[k] == x);
                        } else {
                            assert(post.order[k - 1] == x);
                        }
                    }
                    if post.order.contains(x) {
                        let k = choose|k: int| 0 <= k < post.order.len() && post.order[k] == x;
                        assert(self.order.contains(self.order[if k < c { k } else { k + 1 }]));
                    }
                }
            }
            assert(post.boxes_wf()) by {
                assert forall|x: Gc| #[trigger] post.contains(x) implies post.boxes[x].flags.alive
                    && (!post.boxes[x].flags.needs_trace ==> post.boxes[x].edges.len() == 0) by {
                    assert(self.contains(x));
                }
            }
            assert(post.gray_wf(None)) by {
                assert forall|x: Gc| #[trigger]
                    post.gray.contains(x) <==> (post.contains(x) && post.color(x)
                        == GcColor::Gray) by {
                    if post.contains(x) {
                        assert(self.contains(x));
                    }
                }
            }
            assert(post.phase_wf()) by {
                assert forall|x: Gc| #[trigger] post.contains(x) implies post.color(x)
                    != GcColor::Gray by {
                    assert(self.contains(x));
                }
                assert forall|k: int| 0 <= k < post.cursor implies post.color(
                    #[trigger] post.order[k],
                ) == GcColor::White by {
                    assert(self.color(self.order[k]) == GcColor::White);
                }
            }
            assert forall|a: Gc| #[trigger] self.protected(a) implies {
                &&& post.contains(a)
                &&& !post.condemned(a)
                &&& forall|b: Gc| post.points_to(a, b) ==> self.protected(b)
            } by {
                self.lemma_protected(a);
                if post.condemned(a) {
                    let k = choose|k: int|
                        post.cursor <= k < post.order.len() && #[trigger] post.order[k] == a;
                    assert(self.order[k + 1] == a);
                }
                assert forall|b: Gc| post.points_to(a, b) implies self.protected(b) by {
                    assert(self.points_to(a, b));
                }
            }
        } else {
            assert(post.boxes.dom() =~= self.boxes.dom());
            assert(post.heap_wf());
            assert(post.boxes_wf()) by {
                assert forall|x: Gc| #[trigger] post.contains(x) implies post.boxes[x].flags.alive
                    && (!post.boxes[x].flags.needs_trace ==> post.boxes[x].edges.len() == 0) by {
                    assert(self.contains(x));
                }
            }
            assert(post.gray_wf(None)) by {
                assert forall|x: Gc| #[trigger]
                    post.gray.contains(x) <==> (post.contains(x) && post.color(x)
                        == GcColor::Gray) by {
                    if post.contains(x) {
                        assert(self.contains(x));
                    }
                }
            }
            assert(post.phase_wf()) by {
                assert forall|x: Gc| #[trigger] post.contains(x) implies post.color(x)
                    != GcColor::Gray by {
                    assert(self.contains(x));
                }
                assert forall|k: int| 0 <= k < post.cursor implies post.color(
                    #[trigger] post.order[k],
                ) == GcColor::White by {
                    if k < c {
                        assert(self.color(self.order[k]) == GcColor::White);
                        assert(self.order[k] != self.order[c]);
                    }
                }
            }
            assert forall|a: Gc| #[trigger] self.protected(a) implies {
                &&& post.contains(a)
                &&& !post.condemned(a)
                &&& forall|b: Gc| post.points_to(a, b) ==> self.protected(b)
            } by {
                self.lemma_protected(a);
                if post.condemned(a) {
                    let k = choose|k: int|
                        post.cursor <= k < post.order.len() && #[trigger] post.order[k] == a;
                    assert(self.order[k] == a);
                    assert(self.order[k] != self.order[c]);
                    assert(self.condemned(a));
                }
                assert forall|b: Gc| post.points_to(a, b) implies self.protected(b) by {
                    assert(self.points_to(a, b));
                }
            }
        }
        lemma_protected_carries(self, post);
        assert(post.roots_protected()) by {
            assert forall|x: Gc| #[trigger] post.is_root(x) implies post.protected(x) by {
                assert(self.is_root(x));
            }
        }
        assert(post.collected_from(self)) by {
            assert forall|x: Gc| #[trigger] post.contains(x) implies {
                &&& self.contains(x)
                &&& post.boxes[x].edges == self.boxes[x].edges
                &&& post.boxes[x].value == self.boxes[x].value
                &&& post.boxes[x].seen == self.boxes[x].seen
                &&& post.boxes[x].flags.needs_trace == self.boxes[x].flags.needs_trace
            } by {}
            assert forall|x: Gc| #[trigger] self.reachable(x) implies post.contains(x) by {
                self.lemma_reachable_protected(x);
                assert(post.protected(x));
                post.lemma_protected(x);
            }
        }
    }

    /// One unit of the collector's work keeps the invariant, frees nothing
    /// that the root can reach, and changes no payload and no edge.
    pub proof fn lemma_step_inv(self)
        requires
            self.inv(),
        ensures
            self.step().inv(),
            self.step().collected_from(self),
    {
        match self.phase {
            Phase::Sleep => {
                self.lemma_wake_inv();
            },
            Phase::Propagate => {
                if self.gray.len() > 0 {
                    self.lemma_propagate_one_inv();
                } else if self.root_needs_trace {
                    self.lemma_propagate_root_inv();
                } else {
                    self.lemma_start_sweep_inv();
                }
            },
            Phase::Sweep => {
                if 0 <= self.cursor < self.order.len() {
                    self.lemma_sweep_one_inv();
                } else {
                    self.lemma_end_sweep_inv();
                }
            },
        }
    }
}

} // verus!
