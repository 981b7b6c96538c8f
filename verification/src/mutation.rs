//! The mutator's operations keep the invariant, and what was protected
//! stays protected through them.

use vstd::prelude::*;
use crate::gc::{Edge, Gc};
use crate::safety::{lemma_protected_carries, lemma_same_boxes};
use crate::state::{ContextView, Phase};
use crate::types::GcColor;

verus! {

impl<T> ContextView<T> {
    /// No box left, and what was protected still is.
    pub open spec fn mutated_from(self, pre: Self) -> bool {
        &&& forall|g: Gc| #[trigger] pre.contains(g) ==> self.contains(g)
        &&& forall|g: Gc| #[trigger] pre.protected(g) ==> self.protected(g)
    }

    /// Allocating a box whose strong targets are protected keeps the
    /// invariant, and the new box is protected.
    pub proof fn lemma_allocate_inv(
        self,
        g: Gc,
        needs_trace: bool,
        edges: Seq<Edge>,
        value: T,
        seen: u64,
    )
        requires
            self.inv(),
            !self.contains(g),
            self.edges_protected(edges),
        ensures
            self.allocate(g, needs_trace, edges, value, seen).inv(),
            self.allocate(g, needs_trace, edges, value, seen).mutated_from(self),
            self.allocate(g, needs_trace, edges, value, seen).protected(g),
    {
        let post = self.allocate(g, needs_trace, edges, value, seen);
        let n = self.order.len() as int;
        assert(!self.order.contains(g));
        assert(post.order[n] == g);
        assert forall|x: Gc| post.contains(x) <==> (self.contains(x) || x == g) by {}
        assert forall|k: int| 0 <= k < n implies #[trigger] post.order[k] == self.order[k]
            && post.order[k] != g by {
            assert(self.order.contains(self.order[k]));
        }
        assert(post.heap_wf()) by {
            assert forall|x: Gc| post.contains(x) <==> #[trigger] post.order.contains(x) by {
                if self.contains(x) {
                    assert(self.order.contains(x));
                    let k = choose|k: int| 0 <= k < n && self.order[k] == x;
                    assert(post.order[k] == x);
                }
                if post.order.contains(x) && x != g {
                    let k = choose|k: int| 0 <= k < post.order.len() && post.order[k] == x;
                    assert(self.order.contains(self.order[k]));
                }
            }
        }
        assert(post.boxes_wf()) by {
            assert forall|x: Gc| #[trigger] post.contains(x) implies post.boxes[x].flags.alive && (
            !post.boxes[x].flags.needs_trace ==> post.boxes[x].edges.len() == 0) by {
                if x != g {
                    assert(self.contains(x));
                }
            }
        }
        assert(post.gray_wf(None)) by {
            assert forall|x: Gc| #[trigger]
                post.gray.contains(x) <==> (post.contains(x) && post.color(x) == GcColor::Gray) by {
                if x != g {
                    assert(self.gray.contains(x) <==> (self.contains(x) && self.color(x)
                        == GcColor::Gray));
                } else {
                    assert(!self.gray.contains(g));
                }
            }
        }
        assert(post.phase_wf()) by {
            assert forall|x: Gc| #[trigger] post.contains(x) implies (post.phase
                != Phase::Propagate ==> post.color(x) != GcColor::Gray) && (post.phase
                == Phase::Sleep ==> post.color(x) == GcColor::White) by {
                if x != g {
                    assert(self.contains(x));
                }
            }
            assert forall|k: int| 0 <= k < post.cursor && post.phase
                == Phase::Sweep implies post.color(#[trigger] post.order[k]) == GcColor::White by {
                assert(self.color(self.order[k]) == GcColor::White);
            }
        }
        assert forall|a: Gc| #[trigger] self.protected(a) implies {
            &&& post.contains(a)
            &&& !post.condemned(a)
            &&& forall|b: Gc| post.points_to(a, b) ==> self.protected(b)
        } by {
            self.lemma_protected(a);
            if post.condemned(a) {
                let k = choose|k: int|
                    post.cursor <= k < post.order.len() && #[trigger] post.order[k] == a;
                assert(self.order[k] == a);
            }
            assert forall|b: Gc| post.points_to(a, b) implies self.protected(b) by {
                assert(self.points_to(a, b));
            }
        }
        lemma_protected_carries(self, post);
        let kept = self.protected_set().insert(g);
        assert(post.closed_set(kept)) by {
            assert forall|a: Gc| #[trigger] kept.contains(a) implies {
                &&& post.contains(a)
                &&& !post.condemned(a)
                &&& forall|b: Gc| post.points_to(a, b) ==> kept.contains(b)
            } by {
                if a == g {
                    assert forall|b: Gc| post.points_to(a, b) implies kept.contains(b) by {
                        assert(edges.contains(Edge::Strong(b)));
                        assert(self.protected(b));
                    }
                } else {
                    assert(self.protected(a));
                    assert forall|b: Gc| post.points_to(a, b) implies kept.contains(b) by {
                        assert(self.protected(b));
                    }
                }
            }
        }
        assert(kept.contains(g));
        assert(post.roots_protected()) by {
            assert forall|x: Gc| #[trigger] post.is_root(x) implies post.protected(x) by {
                assert(self.is_root(x));
            }
        }
        assert(post.tricolor()) by {
            if post.phase == Phase::Propagate {
                assert forall|a: Gc, b: Gc| #[trigger]
                    post.points_to(a, b) && post.color(a) == GcColor::Black implies post.contains(
                    b,
                ) && post.marked(b) by {
                    assert(a != g);
                    assert(self.points_to(a, b));
                    assert(self.contains(b) && self.marked(b));
                }
                assert forall|x: Gc| #[trigger] post.contains(x) && post.marked(x) implies post.protected(
                    x,
                ) by {
                    assert(x != g);
                    assert(self.contains(x));
                    assert(self.protected(x));
                }
                if !post.root_needs_trace {
                    assert forall|x: Gc| #[trigger] post.is_root(x) implies post.contains(x)
                        && post.marked(x) by {
                        assert(self.is_root(x));
                        assert(self.contains(x));
                    }
                }
            }
        }
    }

    /// The write barrier keeps the invariant. It changes the color of `g`
    /// at most, and while marking it leaves `g` other than black.
    pub proof fn lemma_write_barrier_inv(self, g: Gc)
        requires
            self.inv(),
        ensures
            self.write_barrier(g).inv(),
            self.write_barrier(g).mutated_from(self),
            self.write_barrier(g).boxes.dom() == self.boxes.dom(),
            self.write_barrier(g).order == self.order,
            self.write_barrier(g).roots == self.roots,
            self.write_barrier(g).statics == self.statics,
            self.write_barrier(g).phase == self.phase,
            self.write_barrier(g).cursor == self.cursor,
            forall|x: Gc| #[trigger]
                self.contains(x) ==> {
                    &&& self.write_barrier(g).boxes[x].edges == self.boxes[x].edges
                    &&& self.write_barrier(g).boxes[x].value == self.boxes[x].value
                    &&& self.write_barrier(g).boxes[x].flags.needs_trace
                        == self.boxes[x].flags.needs_trace
                    &&& self.write_barrier(g).boxes[x].flags.alive == self.boxes[x].flags.alive
                    &&& self.write_barrier(g).boxes[x].seen == self.boxes[x].seen
                    &&& x != g ==> self.write_barrier(g).boxes[x] == self.boxes[x]
                },
            self.phase == Phase::Propagate && self.contains(g) ==> self.write_barrier(g).color(g)
                != GcColor::Black,
            self.phase != Phase::Propagate ==> self.write_barrier(g) == self,
    {
        let post = self.write_barrier(g);
        if post != self {
            assert(post.boxes.dom() =~= self.boxes.dom());
            assert forall|a: Gc, b: Gc| post.points_to(a, b) <==> self.points_to(a, b) by {}
            lemma_protected_carries(self, post);
            assert(post.heap_wf());
            assert(post.boxes_wf()) by {
                assert forall|x: Gc| #[trigger] post.contains(x) implies post.boxes[x].flags.alive
                    && (!post.boxes[x].flags.needs_trace ==> post.boxes[x].edges.len() == 0) by {
                    assert(self.contains(x));
                }
            }
            assert(!self.gray.contains(g));
            assert(post.gray_wf(None)) by {
                assert(post.gray[self.gray.len() as int] == g);
                assert forall|x: Gc| #[trigger]
                    post.gray.contains(x) <==> (post.contains(x) && post.color(x)
                        == GcColor::Gray) by {
                    if x != g {
                        if self.gray.contains(x) {
                            let k = choose|k: int| 0 <= k < self.gray.len() && self.gray[k] == x;
                            assert(post.gray[k] == x);
                        }
                        if post.gray.contains(x) {
                            let k = choose|k: int| 0 <= k < post.gray.len() && post.gray[k] == x;
                            assert(self.gray[k] == x);
                        }
                        assert(self.gray.contains(x) <==> (self.contains(x) && self.color(x)
                            == GcColor::Gray));
                    }
                }
                assert forall|i: int, j: int|
                    0 <= i < post.gray.len() && 0 <= j < post.gray.len() && i != j implies post.gray[i]
                    != post.gray[j] by {
                    if i < self.gray.len() {
                        assert(self.gray.contains(self.gray[i]));
                    }
                    if j < self.gray.len() {
                        assert(self.gray.contains(self.gray[j]));
                    }
                }
            }
            assert(post.phase_wf());
            assert(post.roots_protected()) by {
                assert forall|x: Gc| #[trigger] post.is_root(x) implies post.protected(x) by {
                    assert(self.is_root(x));
                }
            }
            assert(post.tricolor()) by {
                assert forall|a: Gc, b: Gc| #[trigger]
                    post.points_to(a, b) && post.color(a) == GcColor::Black implies post.contains(
                    b,
                ) && post.marked(b) by {
                    assert(self.points_to(a, b));
                    assert(self.contains(b) && self.marked(b));
                }
                assert forall|x: Gc| #[trigger] post.contains(x) && post.marked(x) implies post.protected(
                    x,
                ) by {
                    assert(self.contains(x));
                    assert(self.marked(x));
                }
                if !post.root_needs_trace {
                    assert forall|x: Gc| #[trigger] post.is_root(x) implies post.contains(x)
                        && post.marked(x) by {
                        assert(self.is_root(x));
                        assert(self.contains(x) && self.marked(x));
                    }
                }
            }
        }
    }

    /// Writing a payload whose strong targets are protected keeps the
    /// invariant.
    pub proof fn lemma_write_inv(self, g: Gc, edges: Seq<Edge>, value: T)
        requires
            self.inv(),
            self.contains(g),
            self.edges_protected(edges),
        ensures
            self.write(g, edges, value).inv(),
            self.write(g, edges, value).mutated_from(self),
    {
        let armed = self.write_barrier(g);
        self.lemma_write_barrier_inv(g);
        let post = self.write(g, edges, value);
        assert(armed.contains(g));
        assert(post.boxes.dom() =~= armed.boxes.dom());
        assert forall|x: Gc| post.contains(x) <==> armed.contains(x) by {}
        assert forall|x: Gc| post.contains(x) implies post.boxes[x].flags
            == armed.boxes[x].flags by {}
        assert forall|a: Gc| #[trigger] armed.protected(a) implies {
            &&& post.contains(a)
            &&& !post.condemned(a)
            &&& forall|b: Gc| post.points_to(a, b) ==> armed.protected(b)
        } by {
            armed.lemma_protected(a);
            if post.condemned(a) {
                let k = choose|k: int|
                    post.cursor <= k < post.order.len() && #[trigger] post.order[k] == a;
                assert(armed.order[k] == a);
                assert(armed.condemned(a));
            }
            assert forall|b: Gc| post.points_to(a, b) implies armed.protected(b) by {
                if a == g {
                    assert(edges.contains(Edge::Strong(b)));
                    assert(self.protected(b));
                } else {
                    assert(armed.points_to(a, b));
                }
            }
        }
        lemma_protected_carries(armed, post);
        assert(post.heap_wf());
        assert(post.boxes_wf()) by {
            assert forall|x: Gc| #[trigger] post.contains(x) implies post.boxes[x].flags.alive && (
            !post.boxes[x].flags.needs_trace ==> post.boxes[x].edges.len() == 0) by {
                assert(armed.contains(x));
            }
        }
        assert(post.gray_wf(None)) by {
            assert forall|x: Gc| #[trigger]
                post.gray.contains(x) <==> (post.contains(x) && post.color(x) == GcColor::Gray) by {
                assert(armed.gray.contains(x) <==> (armed.contains(x) && armed.color(x)
                    == GcColor::Gray));
            }
        }
        assert(post.phase_wf()) by {
            assert forall|x: Gc| #[trigger] post.contains(x) implies (post.phase
                != Phase::Propagate ==> post.color(x) != GcColor::Gray) && (post.phase
                == Phase::Sleep ==> post.color(x) == GcColor::White) by {
                assert(armed.contains(x));
            }
            assert forall|k: int| 0 <= k < post.cursor && post.phase
                == Phase::Sweep implies post.color(#[trigger] post.order[k]) == GcColor::White by {
                assert(armed.color(armed.order[k]) == GcColor::White);
                assert(armed.order.contains(armed.order[k]));
            }
        }
        assert(post.roots_protected()) by {
            assert forall|x: Gc| #[trigger] post.is_root(x) implies post.protected(x) by {
                assert(armed.is_root(x));
            }
        }
        assert(post.tricolor()) by {
            if post.phase == Phase::Propagate {
                assert forall|a: Gc, b: Gc| #[trigger]
                    post.points_to(a, b) && post.color(a) == GcColor::Black implies post.contains(
                    b,
                ) && post.marked(b) by {
                    assert(a != g);
                    assert(armed.points_to(a, b));
                    assert(armed.contains(b) && armed.marked(b));
                }
                assert forall|x: Gc| #[trigger] post.contains(x) && post.marked(x) implies post.protected(
                    x,
                ) by {
                    assert(armed.contains(x));
                    assert(armed.marked(x));
                }
                if !post.root_needs_trace {
                    assert forall|x: Gc| #[trigger] post.is_root(x) implies post.contains(x)
                        && post.marked(x) by {
                        assert(armed.is_root(x));
                        assert(armed.contains(x) && armed.marked(x));
                    }
                }
            }
        }
        assert(post.mutated_from(self)) by {
            assert forall|x: Gc| #[trigger] self.protected(x) implies post.protected(x) by {
                assert(armed.protected(x));
            }
        }
    }

    /// Flagging a box as the target of a weak pointer keeps the invariant.
    pub proof fn lemma_downgrade_inv(self, g: Gc)
        requires
            self.inv(),
            self.contains(g),
        ensures
            self.downgrade(g).inv(),
            self.downgrade(g).mutated_from(self),
            self.downgrade(g).retouched_from(self),
    {
        let post = self.downgrade(g);
        assert(post.boxes.dom() =~= self.boxes.dom());
        post.lemma_retouched_inv(self);
    }

    /// Changing what counts as a root keeps the invariant where every new
    /// root target is protected; the root is then due for tracing again.
    pub proof fn lemma_reroot_inv(self, post: Self)
        requires
            self.inv(),
            post == (ContextView { roots: post.roots, statics: post.statics, root_needs_trace: true, ..self }),
            forall|g: Gc| #[trigger] post.is_root(g) ==> self.protected(g),
        ensures
            post.inv(),
            post.mutated_from(self),
    {
        lemma_same_boxes(self, post);
        assert forall|a: Gc| #[trigger] self.protected(a) implies {
            &&& post.contains(a)
            &&& !post.condemned(a)
            &&& forall|b: Gc| post.points_to(a, b) ==> self.protected(b)
        } by {
            self.lemma_protected(a);
            if post.condemned(a) {
                let k = choose|k: int|
                    post.cursor <= k < post.order.len() && #[trigger] post.order[k] == a;
                assert(self.order[k] == a);
                assert(self.condemned(a));
            }
        }
        lemma_protected_carries(self, post);
        assert(post.gray_wf(None)) by {
            assert forall|x: Gc| #[trigger]
                post.gray.contains(x) <==> (post.contains(x) && post.color(x) == GcColor::Gray) by {
                assert(self.gray.contains(x) <==> (self.contains(x) && self.color(x)
                    == GcColor::Gray));
            }
        }
        assert(post.phase_wf()) by {
            assert forall|x: Gc| #[trigger] post.contains(x) implies (post.phase
                != Phase::Propagate ==> post.color(x) != GcColor::Gray) && (post.phase
                == Phase::Sleep ==> post.color(x) == GcColor::White) by {
                assert(self.contains(x));
            }
            assert forall|k: int| 0 <= k < post.cursor && post.phase
                == Phase::Sweep implies post.color(#[trigger] post.order[k]) == GcColor::White by {
                assert(self.color(self.order[k]) == GcColor::White);
            }
        }
        assert(post.tricolor()) by {
            if post.phase == Phase::Propagate {
                assert forall|a: Gc, b: Gc| #[trigger]
                    post.points_to(a, b) && post.color(a) == GcColor::Black implies post.contains(
                    b,
                ) && post.marked(b) by {
                    assert(self.points_to(a, b));
                    assert(self.contains(b) && self.marked(b));
                }
                assert forall|x: Gc| #[trigger] post.contains(x) && post.marked(x) implies post.protected(
                    x,
                ) by {
                    assert(self.contains(x));
                    assert(self.marked(x));
                }
            }
        }
    }

    /// Pinning a protected box keeps the invariant.
    pub proof fn lemma_make_static_inv(self, g: Gc)
        requires
            self.inv(),
            self.protected(g),
        ensures
            self.make_static(g).inv(),
            self.make_static(g).mutated_from(self),
    {
        let post = self.make_static(g);
        assert forall|x: Gc| #[trigger] post.is_root(x) implies self.protected(x) by {
            if post.statics.contains(Edge::Strong(x)) && x != g {
                let k = choose|k: int|
                    0 <= k < post.statics.len() && post.statics[k] == Edge::Strong(x);
                assert(self.statics[k] == Edge::Strong(x));
                assert(self.is_root(x));
            } else if x != g {
                assert(self.is_root(x));
            }
        }
        self.lemma_reroot_inv(post);
    }

    /// Installing a root whose strong targets are protected keeps the
    /// invariant.
    pub proof fn lemma_set_root_inv(self, edges: Seq<Edge>)
        requires
            self.inv(),
            self.edges_protected(edges),
        ensures
            self.set_root(edges).inv(),
            self.set_root(edges).mutated_from(self),
    {
        let post = self.set_root(edges);
        assert forall|x: Gc| #[trigger] post.is_root(x) implies self.protected(x) by {
            if !edges.contains(Edge::Strong(x)) {
                assert(self.is_root(x));
            }
        }
        self.lemma_reroot_inv(post);
    }
}

} // verus!
