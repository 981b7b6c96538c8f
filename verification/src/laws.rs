//! What holds of the collector whatever the heap and whatever the order of
//! operations.

use vstd::prelude::*;
use crate::gc::{Edge, Gc};
use crate::state::{ContextView, Phase};
use crate::types::GcColor;

verus! {

/// Two heaps that hold the same boxes hold as many.
pub proof fn lemma_same_boxes_same_count<T>(a: ContextView<T>, b: ContextView<T>)
    requires
        a.heap_wf(),
        b.heap_wf(),
        forall|g: Gc| a.contains(g) <==> b.contains(g),
    ensures
        a.order.len() == b.order.len(),
{
    a.order.unique_seq_to_set();
    b.order.unique_seq_to_set();
    assert(a.order.to_set() =~= b.order.to_set()) by {
        assert forall|g: Gc| a.order.to_set().contains(g) <==> b.order.to_set().contains(g) by {
            assert(a.order.contains(g) <==> a.contains(g));
            assert(b.order.contains(g) <==> b.contains(g));
        }
    }
}

/// A pointer that the mutator was handed in the current epoch names a box
/// that is outstanding and alive, and that no sweep in progress will free.
pub proof fn law_accessible_is_alive<T>(s: ContextView<T>, epoch: u64, g: Gc)
    requires
        s.inv(),
        s.certified(epoch),
        s.accessible(g, epoch),
    ensures
        s.contains(g),
        s.boxes[g].flags.alive,
        s.protected(g),
        !s.condemned(g),
{
    s.lemma_protected(g);
}

/// A box that the root can reach is outstanding and alive: it was not
/// freed, whatever the mutator and the collector did to bring the heap to
/// this state.
pub proof fn law_reachable_is_live<T>(s: ContextView<T>, g: Gc)
    requires
        s.inv(),
        s.reachable(g),
    ensures
        s.contains(g),
        s.boxes[g].flags.alive,
        !s.condemned(g),
{
    s.lemma_reachable_protected(g);
}

/// A box that the sweep in progress is about to free cannot be reached
/// from the root.
pub proof fn law_condemned_is_unreachable<T>(s: ContextView<T>, g: Gc)
    requires
        s.inv(),
        s.condemned(g),
    ensures
        !s.reachable(g),
{
    if s.reachable(g) {
        s.lemma_reachable_protected(g);
    }
}

/// While marking, between any two operations, no black box holds a strong
/// edge to a box that is white or fresh-white; and a box is on the work
/// list exactly if it is gray.
pub proof fn law_tricolor<T>(s: ContextView<T>, a: Gc, b: Gc)
    requires
        s.inv(),
    ensures
        s.phase == Phase::Propagate && s.points_to(a, b) && s.color(a) == GcColor::Black ==> s.contains(
            b,
        ) && s.color(b) != GcColor::White && s.color(b) != GcColor::FreshWhite,
        s.gray.contains(a) <==> (s.contains(a) && s.color(a) == GcColor::Gray),
        s.phase == Phase::Sleep && s.contains(a) ==> s.color(a) == GcColor::White,
{
    if s.phase == Phase::Propagate && s.points_to(a, b) && s.color(a) == GcColor::Black {
        assert(s.contains(b) && s.marked(b));
    }
    if s.phase == Phase::Sleep && s.contains(a) {
        assert(s.color(a) == GcColor::White);
    }
}

/// While the collector marks, a cell that is about to be written is not
/// left black: a black cell turns gray and is the next on the work list,
/// so that what is stored into it is traced. Any other cell, and every
/// cell while the collector does not mark, is left as it is.
pub proof fn law_write_barrier<T>(s: ContextView<T>, g: Gc)
    requires
        s.inv(),
        s.contains(g),
    ensures
        s.write_barrier(g).inv(),
        s.phase == Phase::Propagate ==> s.write_barrier(g).color(g) != GcColor::Black,
        s.phase == Phase::Propagate && s.color(g) == GcColor::Black ==> s.write_barrier(g).color(g)
            == GcColor::Gray && s.write_barrier(g).gray == s.gray.push(g),
        !(s.phase == Phase::Propagate && s.color(g) == GcColor::Black) ==> s.write_barrier(g) == s,
{
    s.lemma_write_barrier_inv(g);
}

/// The mutator frees nothing: whatever it allocates, writes, downgrades,
/// pins or installs as the root, every box that was outstanding still is,
/// and the invariant holds, so that what the root can reach afterwards is
/// outstanding and alive.
pub proof fn law_mutation_frees_nothing<T>(
    s: ContextView<T>,
    g: Gc,
    needs_trace: bool,
    edges: Seq<Edge>,
    value: T,
    seen: u64,
    x: Gc,
)
    requires
        s.inv(),
        s.edges_protected(edges),
        s.contains(x),
    ensures
        !s.contains(g) ==> s.allocate(g, needs_trace, edges, value, seen).inv() && s.allocate(
            g,
            needs_trace,
            edges,
            value,
            seen,
        ).contains(x),
        s.contains(g) ==> s.write(g, edges, value).inv() && s.write(g, edges, value).contains(x),
        s.contains(g) ==> s.downgrade(g).inv() && s.downgrade(g).contains(x),
        s.protected(g) ==> s.make_static(g).inv() && s.make_static(g).contains(x),
        s.set_root(edges).inv() && s.set_root(edges).contains(x),
{
    if !s.contains(g) {
        s.lemma_allocate_inv(g, needs_trace, edges, value, seen);
    }
    if s.contains(g) {
        s.lemma_write_inv(g, edges, value);
        s.lemma_downgrade_inv(g);
    }
    if s.protected(g) {
        s.lemma_make_static_inv(g);
    }
    s.lemma_set_root_inv(edges);
}

/// No run of the collector for a budget of work frees a box that the root
/// can reach, nor changes its payload or its edges.
pub proof fn law_paced_work_keeps_reachable<T>(s: ContextView<T>, budget: int, g: Gc)
    requires
        s.inv(),
        s.reachable(g),
    ensures
        s.pay(budget).contains(g),
        s.pay(budget).reachable(g),
        s.pay(budget).boxes[g].value == s.boxes[g].value,
        s.pay(budget).boxes[g].edges == s.boxes[g].edges,
{
    s.lemma_pay_inv(budget);
    s.pay(budget).lemma_reachable_carries(s);
}

/// No unit of the collector's work frees a box that the root can reach, nor
/// changes its payload or its edges; and the box stays reachable.
pub proof fn law_step_keeps_reachable<T>(s: ContextView<T>, g: Gc)
    requires
        s.inv(),
        s.reachable(g),
    ensures
        s.step().contains(g),
        s.step().reachable(g),
        s.step().boxes[g].value == s.boxes[g].value,
        s.step().boxes[g].edges == s.boxes[g].edges,
{
    s.lemma_step_inv();
    s.step().lemma_reachable_carries(s);
}

/// No full collection frees a box that the root can reach, nor changes its
/// payload or its edges; and the box stays reachable.
pub proof fn law_collection_keeps_reachable<T>(s: ContextView<T>, g: Gc)
    requires
        s.inv(),
        s.reachable(g),
    ensures
        s.collect_all().contains(g),
        s.collect_all().reachable(g),
        s.collect_all().boxes[g].value == s.boxes[g].value,
        s.collect_all().boxes[g].edges == s.boxes[g].edges,
{
    s.lemma_collect_all_inv();
    s.collect_all().lemma_reachable_carries(s);
}

/// After two full collections with no mutation between them, the
/// outstanding boxes are exactly the boxes that the root could reach:
/// every other box is freed, and every reachable box is alive with its
/// payload.
pub proof fn law_two_collections_exact<T>(s: ContextView<T>)
    requires
        s.inv(),
    ensures
        s.collect_all().collect_all().inv(),
        forall|g: Gc| s.collect_all().collect_all().contains(g) <==> s.reachable(g),
        forall|g: Gc|
            s.reachable(g) ==> s.collect_all().collect_all().boxes[g].value == s.boxes[g].value
                && s.collect_all().collect_all().boxes[g].flags.alive,
{
    let once = s.collect_all();
    let twice = once.collect_all();
    s.lemma_collect_all_inv();
    once.lemma_reachable_carries(s);
    once.lemma_collect_all_inv();
    once.lemma_collect_all_exact();
    assert forall|g: Gc| twice.contains(g) <==> s.reachable(g) by {}
    assert forall|g: Gc| s.reachable(g) implies twice.boxes[g].value == s.boxes[g].value
        && twice.boxes[g].flags.alive by {
        assert(twice.contains(g));
        assert(once.contains(g));
    }
}

/// A third full collection, and any after it, leaves the set of
/// outstanding boxes, and so their number, as the second left it.
pub proof fn law_further_collections_idle<T>(s: ContextView<T>)
    requires
        s.inv(),
    ensures
        s.collect_all().collect_all().collect_all().order.len()
            == s.collect_all().collect_all().order.len(),
        forall|g: Gc|
            s.collect_all().collect_all().collect_all().contains(g)
                <==> s.collect_all().collect_all().contains(g),
        forall|g: Gc|
            s.collect_all().collect_all().contains(g) ==> s.collect_all().collect_all().collect_all().boxes[g].value
                == s.collect_all().collect_all().boxes[g].value,
{
    let once = s.collect_all();
    let twice = once.collect_all();
    let thrice = twice.collect_all();
    law_two_collections_exact(s);
    s.lemma_collect_all_inv();
    once.lemma_collect_all_inv();
    twice.lemma_collect_all_inv();
    twice.lemma_collect_all_exact();
    once.lemma_collect_all_exact();
    assert forall|g: Gc| thrice.contains(g) <==> twice.contains(g) by {
        assert(thrice.contains(g) <==> twice.reachable(g));
        assert(twice.tight());
        if twice.reachable(g) {
            twice.lemma_reachable_protected(g);
        }
    }
    assert forall|g: Gc| twice.contains(g) implies thrice.boxes[g].value
        == twice.boxes[g].value by {
        assert(thrice.contains(g));
    }
    lemma_same_boxes_same_count(thrice, twice);
}

/// A weak pointer made from a strong pointer upgrades to the same strong
/// pointer, at once and in any later state in which the root can reach
/// the target.
pub proof fn law_downgrade_upgrade<T>(s: ContextView<T>, later: ContextView<T>, g: Gc)
    requires
        s.inv(),
        s.reachable(g),
        later.inv(),
        later.reachable(g),
    ensures
        s.downgrade(g).upgrade(g) == Some(g),
        later.upgrade(g) == Some(g),
{
    s.lemma_reachable_protected(g);
    later.lemma_reachable_protected(g);
    s.lemma_downgrade_inv(g);
}

/// A new box that nothing points to is not reachable, and the boxes that
/// the root can reach are the same with it as without it.
pub proof fn law_allocation_unreached<T>(
    s: ContextView<T>,
    g: Gc,
    needs_trace: bool,
    edges: Seq<Edge>,
    value: T,
    seen: u64,
)
    requires
        s.inv(),
        !s.contains(g),
    ensures
        !s.allocate(g, needs_trace, edges, value, seen).reachable(g),
        forall|x: Gc| s.allocate(g, needs_trace, edges, value, seen).reachable(x) <==> s.reachable(x),
{
    let a = s.allocate(g, needs_trace, edges, value, seen);
    assert forall|x: Gc| a.reachable(x) implies s.reachable(x) && x != g by {
        let path = choose|path: Seq<Gc>| #[trigger] a.is_path(path) && path.last() == x;
        lemma_path_avoids(s, a, g, path, path.len() - 1);
        assert(s.is_path(path)) by {
            assert forall|i: int| 0 <= i < path.len() - 1 implies s.points_to(
                #[trigger] path[i],
                path[i + 1],
            ) by {
                lemma_path_avoids(s, a, g, path, i);
                assert(a.points_to(path[i], path[i + 1]));
            }
        }
    }
    assert forall|x: Gc| s.reachable(x) implies a.reachable(x) by {
        let path = choose|path: Seq<Gc>| #[trigger] s.is_path(path) && path.last() == x;
        assert(a.is_path(path)) by {
            assert forall|i: int| 0 <= i < path.len() - 1 implies a.points_to(
                #[trigger] path[i],
                path[i + 1],
            ) by {
                assert(s.points_to(path[i], path[i + 1]));
            }
        }
    }
}

/// A path from the root in the heap with the new box `g` does not come to
/// `g`: each box on it was outstanding before.
proof fn lemma_path_avoids<T>(
    s: ContextView<T>,
    a: ContextView<T>,
    g: Gc,
    path: Seq<Gc>,
    i: int,
)
    requires
        s.inv(),
        !s.contains(g),
        a.roots == s.roots,
        a.statics == s.statics,
        forall|x: Gc| x != g ==> (a.contains(x) <==> s.contains(x)),
        forall|x: Gc| x != g && s.contains(x) ==> a.boxes[x].edges == s.boxes[x].edges,
        a.is_path(path),
        0 <= i < path.len(),
    ensures
        path[i] != g,
        s.protected(path[i]),
    decreases i,
{
    if i == 0 {
        assert(s.is_root(path[0]));
        s.lemma_protected(path[0]);
    } else {
        lemma_path_avoids(s, a, g, path, i - 1);
        assert(a.points_to(path[i - 1], path[i]));
        s.lemma_protected(path[i - 1]);
        assert(s.points_to(path[i - 1], path[i]));
        s.lemma_protected(path[i]);
    }
}

/// A box that is allocated and never stored leaves no trace: after two
/// more full collections the outstanding boxes are those that two full
/// collections had left before it was allocated, and as many.
pub proof fn law_dropped_allocation_reclaimed<T>(
    s: ContextView<T>,
    g: Gc,
    needs_trace: bool,
    edges: Seq<Edge>,
    value: T,
    seen: u64,
)
    requires
        s.inv(),
        !s.collect_all().collect_all().contains(g),
        s.collect_all().collect_all().edges_protected(edges),
    ensures
        s.collect_all().collect_all().allocate(
            g,
            needs_trace,
            edges,
            value,
            seen,
        ).collect_all().collect_all().order.len() == s.collect_all().collect_all().order.len(),
        forall|x: Gc|
            s.collect_all().collect_all().allocate(
                g,
                needs_trace,
                edges,
                value,
                seen,
            ).collect_all().collect_all().contains(x) <==> s.collect_all().collect_all().contains(
                x,
            ),
{
    let steady = s.collect_all().collect_all();
    let with_box = steady.allocate(g, needs_trace, edges, value, seen);
    let after = with_box.collect_all().collect_all();
    law_two_collections_exact(s);
    s.lemma_collect_all_inv();
    s.collect_all().lemma_collect_all_inv();
    s.collect_all().lemma_collect_all_exact();
    steady.lemma_allocate_inv(g, needs_trace, edges, value, seen);
    law_two_collections_exact(with_box);
    law_allocation_unreached(steady, g, needs_trace, edges, value, seen);
    assert forall|x: Gc| after.contains(x) <==> steady.contains(x) by {
        assert(after.contains(x) <==> with_box.reachable(x));
        assert(with_box.reachable(x) <==> steady.reachable(x));
        assert(steady.tight());
        if steady.reachable(x) {
            steady.lemma_reachable_protected(x);
        }
    }
    lemma_same_boxes_same_count(after, steady);
}

impl<T> ContextView<T> {
    /// Some outstanding box, the root or a pin holds a weak pointer to `g`.
    pub open spec fn weakly_held(self, g: Gc) -> bool {
        ||| exists|a: Gc| self.contains(a) && #[trigger] self.boxes[a].edges.contains(Edge::Weak(g))
        ||| self.roots.contains(Edge::Weak(g))
        ||| self.statics.contains(Edge::Weak(g))
    }

    /// Box `g` is outstanding and the cycle in flight will not free it:
    /// it is not white, or the sweep has passed it.
    pub open spec fn exempt(self, g: Gc) -> bool {
        &&& self.contains(g)
        &&& self.phase == Phase::Propagate ==> self.color(g) != GcColor::White
        &&& self.phase == Phase::Sweep ==> (self.color(g) != GcColor::White || exists|k: int|
            0 <= k < self.cursor && #[trigger] self.order[k] == g)
    }

    proof fn lemma_trace_edges_exempt(self, edges: Seq<Edge>, g: Gc)
        requires
            self.contains(g),
            self.color(g) != GcColor::White,
            !edges.contains(Edge::Weak(g)),
        ensures
            self.trace_edges(edges).contains(g),
            self.trace_edges(edges).color(g) != GcColor::White,
        decreases edges.len(),
    {
        if edges.len() > 0 {
            let front = edges.drop_last();
            assert(!front.contains(Edge::Weak(g))) by {
                if front.contains(Edge::Weak(g)) {
                    let k = choose|k: int| 0 <= k < front.len() && front[k] == Edge::Weak(g);
                    assert(edges[k] == Edge::Weak(g));
                }
            }
            self.lemma_trace_edges_exempt(front, g);
            assert(edges[edges.len() - 1] == edges.last());
            assert(edges.last() != Edge::Weak(g));
        }
    }

    /// One unit of work leaves an exempt box exempt, where no weak pointer
    /// to it is held.
    proof fn lemma_step_exempt(self, g: Gc)
        requires
            self.inv(),
            self.phase != Phase::Sleep,
            self.exempt(g),
            !self.weakly_held(g),
        ensures
            self.step().exempt(g),
            !self.step().weakly_held(g),
            self.step().boxes[g].value == self.boxes[g].value,
    {
        let post = self.step();
        self.lemma_step_inv();
        match self.phase {
            Phase::Sleep => {},
            Phase::Propagate => {
                if self.gray.len() > 0 {
                    let h = self.gray.last();
                    let popped = ContextView { gray: self.gray.drop_last(), ..self };
                    assert(self.gray[self.gray.len() - 1] == h);
                    assert(self.gray.contains(h));
                    assert(self.contains(h));
                    let edges = popped.boxes[h].edges;
                    assert(!edges.contains(Edge::Weak(g)));
                    popped.lemma_trace_edges_exempt(edges, g);
                    self.lemma_propagate_one_inv();
                } else if self.root_needs_trace {
                    self.lemma_trace_edges_exempt(self.roots, g);
                    let m1 = self.trace_edges(self.roots);
                    self.lemma_trace_edges_frame(self.roots);
                    m1.lemma_trace_edges_exempt(m1.statics, g);
                    self.lemma_propagate_root_inv();
                } else {
                }
            },
            Phase::Sweep => {
                if 0 <= self.cursor < self.order.len() {
                    let c = self.cursor;
                    let h = self.order[c];
                    self.lemma_sweep_one_inv();
                    if self.color(g) == GcColor::White {
                        let k = choose|k: int| 0 <= k < self.cursor && #[trigger] self.order[k] == g;
                        assert(self.order[k] != self.order[c]);
                        assert(post.order[k] == g);
                    } else if h == g {
                        assert(post.order[c] == g);
                    }
                } else {
                }
            },
        }
        assert(post.contains(g));
        assert(post.collected_from(self));
        assert(post.boxes[g].value == self.boxes[g].value);
        assert(!post.weakly_held(g)) by {
            if post.weakly_held(g) {
                if exists|a: Gc|
                    post.contains(a) && #[trigger] post.boxes[a].edges.contains(Edge::Weak(g)) {
                    let a = choose|a: Gc|
                        post.contains(a) && #[trigger] post.boxes[a].edges.contains(Edge::Weak(g));
                    assert(self.contains(a));
                    assert(self.boxes[a].edges.contains(Edge::Weak(g)));
                }
            }
        }
    }

    proof fn lemma_finish_exempt(self, g: Gc)
        requires
            self.inv(),
            self.exempt(g),
            !self.weakly_held(g),
        ensures
            self.finish().contains(g),
            self.finish().boxes[g].value == self.boxes[g].value,
        decreases self.rank(), self.work_left(),
    {
        if self.phase != Phase::Sleep {
            self.lemma_step_inv();
            self.lemma_step_progress();
            self.lemma_step_exempt(g);
            self.step().lemma_finish_exempt(g);
        }
    }
}

/// A box that is fresh-white while a cycle is in flight, and to which no
/// box, root or pin holds a weak pointer, outlasts that cycle with its
/// payload, whether the root can reach it or not.
pub proof fn law_fresh_survives_cycle<T>(s: ContextView<T>, g: Gc)
    requires
        s.inv(),
        s.phase != Phase::Sleep,
        s.contains(g),
        s.color(g) == GcColor::FreshWhite,
        !s.weakly_held(g),
    ensures
        s.collect_all().contains(g),
        s.collect_all().boxes[g].value == s.boxes[g].value,
{
    s.lemma_finish_exempt(g);
}

/// A box that is allocated while a cycle is in flight is fresh-white.
pub proof fn law_allocation_in_flight_fresh<T>(
    s: ContextView<T>,
    g: Gc,
    needs_trace: bool,
    edges: Seq<Edge>,
    value: T,
    seen: u64,
)
    requires
        s.phase != Phase::Sleep,
    ensures
        s.allocate(g, needs_trace, edges, value, seen).color(g) == GcColor::FreshWhite,
        s.allocate(g, needs_trace, edges, value, seen).contains(g),
{
}

} // verus!
