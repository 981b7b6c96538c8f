//! The collector as a state machine over the view of a context: what each
//! operation does to the boxes, the gray queue and the phase.

use vstd::prelude::*;
use crate::gc::{Edge, Gc};
use crate::types::{BoxView, FlagsView, GcColor};

verus! {

/// Where the collector stands in its cycle.
#[derive(Copy, Clone, Debug, PartialEq, Eq, Structural)]
pub enum Phase {
    /// Between cycles.
    Sleep,
    /// Marking: gray boxes are traced and turn black.
    Propagate,
    /// Walking the list of boxes, oldest first.
    Sweep,
}

/// The state of a context.
pub struct ContextView<T> {
    /// The outstanding boxes.
    pub boxes: Map<Gc, BoxView<T>>,
    /// The intrusive list, oldest box first.
    pub order: Seq<Gc>,
    /// The edges that the root reported.
    pub roots: Seq<Edge>,
    /// Strong edges to the boxes that were pinned for the arena's life.
    pub statics: Seq<Edge>,
    /// The work list of marking; the next box to trace is the last.
    pub gray: Seq<Gc>,
    pub phase: Phase,
    /// Whether the root is still to be traced in this cycle.
    pub root_needs_trace: bool,
    /// How many boxes at the head of the list the sweep has passed.
    pub cursor: int,
}

impl<T> ContextView<T> {
    /// Box `g` is outstanding.
    pub open spec fn contains(self, g: Gc) -> bool {
        self.boxes.dom().contains(g)
    }

    /// The color of box `g`.
    pub open spec fn color(self, g: Gc) -> GcColor {
        self.boxes[g].flags.color
    }

    /// Gray or black: reached by marking in this cycle.
    pub open spec fn marked(self, g: Gc) -> bool {
        self.color(g) == GcColor::Gray || self.color(g) == GcColor::Black
    }

    /// Box `a` is outstanding and holds a strong edge to `b`.
    pub open spec fn points_to(self, a: Gc, b: Gc) -> bool {
        self.contains(a) && self.boxes[a].edges.contains(Edge::Strong(b))
    }

    /// The root, or a pin, holds a strong edge to `g`.
    pub open spec fn is_root(self, g: Gc) -> bool {
        self.roots.contains(Edge::Strong(g)) || self.statics.contains(Edge::Strong(g))
    }

    /// A chain of strong edges that starts at the root.
    pub open spec fn is_path(self, path: Seq<Gc>) -> bool {
        &&& path.len() > 0
        &&& self.is_root(path[0])
        &&& forall|i: int| 0 <= i < path.len() - 1 ==> self.points_to(#[trigger] path[i], path[i + 1])
    }

    /// Some chain of strong edges leads from the root to `g`.
    pub open spec fn reachable(self, g: Gc) -> bool {
        exists|path: Seq<Gc>| #[trigger] self.is_path(path) && path.last() == g
    }

    /// The sweep has yet to come to `g` and will free it.
    pub open spec fn condemned(self, g: Gc) -> bool {
        &&& self.phase == Phase::Sweep
        &&& self.contains(g)
        &&& self.color(g) == GcColor::White
        &&& exists|k: int| self.cursor <= k < self.order.len() && #[trigger] self.order[k] == g
    }

    /// Every member is outstanding and not condemned, and so is every box
    /// that a member holds a strong edge to.
    pub open spec fn closed_set(self, s: Set<Gc>) -> bool {
        forall|a: Gc| #[trigger]
            s.contains(a) ==> {
                &&& self.contains(a)
                &&& !self.condemned(a)
                &&& forall|b: Gc| self.points_to(a, b) ==> s.contains(b)
            }
    }

    /// Everything that strong edges lead to from `g`, and `g` itself, is
    /// outstanding and will outlast the sweep in progress: `g` may be stored
    /// where the root can reach it.
    pub open spec fn protected(self, g: Gc) -> bool {
        exists|s: Set<Gc>| #[trigger] self.closed_set(s) && s.contains(g)
    }

    /// The strong targets among `edges` are all protected.
    pub open spec fn edges_protected(self, edges: Seq<Edge>) -> bool {
        forall|g: Gc| edges.contains(Edge::Strong(g)) ==> self.protected(g)
    }

    /// The same state with another header on box `g`.
    pub open spec fn with_flags(self, g: Gc, flags: FlagsView) -> Self {
        ContextView { boxes: self.boxes.insert(g, BoxView { flags, ..self.boxes[g] }), ..self }
    }

    /// The same state with another color on box `g`.
    pub open spec fn with_color(self, g: Gc, color: GcColor) -> Self {
        self.with_flags(g, FlagsView { color, ..self.boxes[g].flags })
    }

    /// Marking comes to a strong edge: an unmarked target turns gray and
    /// joins the work list, or black at once where it needs no tracing.
    pub open spec fn trace_strong(self, g: Gc) -> Self {
        if !self.contains(g) || self.marked(g) {
            self
        } else if self.boxes[g].flags.needs_trace {
            ContextView { gray: self.gray.push(g), ..self.with_color(g, GcColor::Gray) }
        } else {
            self.with_color(g, GcColor::Black)
        }
    }

    /// Marking comes to a weak edge: the target is flagged, and one born in
    /// this cycle loses its exemption from this cycle's sweep. The target is
    /// not marked.
    pub open spec fn trace_weak(self, g: Gc) -> Self {
        if !self.contains(g) {
            self
        } else {
            let flags = self.boxes[g].flags;
            self.with_flags(
                g,
                FlagsView {
                    has_weak_ref: true,
                    color: if flags.color == GcColor::FreshWhite {
                        GcColor::White
                    } else {
                        flags.color
                    },
                    ..flags
                },
            )
        }
    }

    /// Marking comes to an edge, strong or weak.
    pub open spec fn trace_edge(self, e: Edge) -> Self {
        match e {
            Edge::Strong(g) => self.trace_strong(g),
            Edge::Weak(g) => self.trace_weak(g),
        }
    }

    /// Marking comes to each of `edges` in turn.
    pub open spec fn trace_edges(self, edges: Seq<Edge>) -> Self
        decreases edges.len(),
    {
        if edges.len() == 0 {
            self
        } else {
            self.trace_edges(edges.drop_last()).trace_edge(edges.last())
        }
    }

    /// The next box of the work list is traced and turns black.
    pub open spec fn propagate_one(self) -> Self {
        let g = self.gray.last();
        let popped = ContextView { gray: self.gray.drop_last(), ..self };
        if popped.contains(g) {
            popped.trace_edges(popped.boxes[g].edges).with_color(g, GcColor::Black)
        } else {
            popped
        }
    }

    /// The root and the pins are traced.
    pub open spec fn propagate_root(self) -> Self {
        ContextView {
            root_needs_trace: false,
            ..self.trace_edges(self.roots).trace_edges(self.statics)
        }
    }

    /// The sweep deals with the box at the cursor: a white one is unlinked
    /// and freed; any other is kept, and is white from then on.
    pub open spec fn sweep_one(self) -> Self {
        let g = self.order[self.cursor];
        if self.color(g) == GcColor::White {
            ContextView {
                boxes: self.boxes.remove(g),
                order: self.order.remove(self.cursor),
                ..self
            }
        } else {
            ContextView { cursor: self.cursor + 1, ..self.with_color(g, GcColor::White) }
        }
    }

    /// A cycle starts: the root is to be traced again.
    pub open spec fn wake(self) -> Self {
        ContextView { phase: Phase::Propagate, root_needs_trace: true, ..self }
    }

    /// One unit of the collector's work.
    pub open spec fn step(self) -> Self {
        match self.phase {
            Phase::Sleep => self.wake(),
            Phase::Propagate => {
                if self.gray.len() > 0 {
                    self.propagate_one()
                } else if self.root_needs_trace {
                    self.propagate_root()
                } else {
                    ContextView { phase: Phase::Sweep, cursor: 0, ..self }
                }
            },
            Phase::Sweep => {
                if 0 <= self.cursor < self.order.len() {
                    self.sweep_one()
                } else {
                    ContextView { phase: Phase::Sleep, cursor: 0, ..self }
                }
            },
        }
    }

    /// The header of a new box: white between cycles, and exempt from the
    /// sweep of the cycle in flight otherwise.
    pub open spec fn fresh_flags(self, needs_trace: bool) -> FlagsView {
        FlagsView {
            color: if self.phase == Phase::Sleep {
                GcColor::White
            } else {
                GcColor::FreshWhite
            },
            needs_trace,
            has_weak_ref: false,
            alive: true,
        }
    }

    /// A box with handle `g` joins the tail of the list.
    pub open spec fn allocate(
        self,
        g: Gc,
        needs_trace: bool,
        edges: Seq<Edge>,
        value: T,
        seen: u64,
    ) -> Self {
        ContextView {
            boxes: self.boxes.insert(
                g,
                BoxView {
                    flags: self.fresh_flags(needs_trace),
                    seen,
                    edges: if needs_trace {
                        edges
                    } else {
                        Seq::empty()
                    },
                    value,
                },
            ),
            order: self.order.push(g),
            ..self
        }
    }

    /// The forward write barrier: while marking, a black box that is about
    /// to be written turns gray and joins the work list again.
    pub open spec fn write_barrier(self, g: Gc) -> Self {
        if self.contains(g) && self.phase == Phase::Propagate && self.color(g) == GcColor::Black {
            ContextView { gray: self.gray.push(g), ..self.with_color(g, GcColor::Gray) }
        } else {
            self
        }
    }

    /// The payload of box `g` is replaced, after the write barrier.
    pub open spec fn write(self, g: Gc, edges: Seq<Edge>, value: T) -> Self {
        let armed = self.write_barrier(g);
        let flags = armed.boxes[g].flags;
        ContextView {
            boxes: armed.boxes.insert(
                g,
                BoxView {
                    edges: if flags.needs_trace {
                        edges
                    } else {
                        Seq::empty()
                    },
                    value,
                    ..armed.boxes[g]
                },
            ),
            ..armed
        }
    }

    /// A weak pointer to `g` is made.
    pub open spec fn downgrade(self, g: Gc) -> Self {
        self.with_flags(g, FlagsView { has_weak_ref: true, ..self.boxes[g].flags })
    }

    /// What upgrading a weak pointer to `g` gives: the strong pointer where
    /// the box is outstanding and alive, and nothing otherwise.
    pub open spec fn upgrade(self, g: Gc) -> Option<Gc> {
        if self.contains(g) && self.boxes[g].flags.alive {
            Some(g)
        } else {
            None
        }
    }

    /// Box `g` is handed to the mutator in epoch `seen`.
    pub open spec fn certify(self, g: Gc, seen: u64) -> Self {
        ContextView { boxes: self.boxes.insert(g, BoxView { seen, ..self.boxes[g] }), ..self }
    }

    /// Box `g` is pinned: it counts as reachable from now on.
    pub open spec fn make_static(self, g: Gc) -> Self {
        ContextView {
            statics: self.statics.push(Edge::Strong(g)),
            root_needs_trace: true,
            ..self
        }
    }

    /// The root's edges are installed.
    pub open spec fn set_root(self, edges: Seq<Edge>) -> Self {
        ContextView { roots: edges, root_needs_trace: true, ..self }
    }
}

impl<T> ContextView<T> {
    /// Tracing changes headers only: the same boxes stay, in the same order,
    /// with the same edges and payloads.
    pub proof fn lemma_trace_edge_frame(self, e: Edge)
        ensures
            self.trace_edge(e).boxes.dom() == self.boxes.dom(),
            self.trace_edge(e).order == self.order,
            self.trace_edge(e).roots == self.roots,
            self.trace_edge(e).statics == self.statics,
            self.trace_edge(e).phase == self.phase,
            self.trace_edge(e).cursor == self.cursor,
            self.trace_edge(e).root_needs_trace == self.root_needs_trace,
            forall|g: Gc| #[trigger]
                self.contains(g) ==> self.trace_edge(e).boxes[g].edges == self.boxes[g].edges
                    && self.trace_edge(e).boxes[g].value == self.boxes[g].value,
    {
        let after = self.trace_edge(e);
        assert(after.boxes.dom() =~= self.boxes.dom());
    }

    /// Tracing a run of edges changes headers only.
    pub proof fn lemma_trace_edges_frame(self, edges: Seq<Edge>)
        ensures
            self.trace_edges(edges).boxes.dom() == self.boxes.dom(),
            self.trace_edges(edges).order == self.order,
            self.trace_edges(edges).roots == self.roots,
            self.trace_edges(edges).statics == self.statics,
            self.trace_edges(edges).phase == self.phase,
            self.trace_edges(edges).cursor == self.cursor,
            self.trace_edges(edges).root_needs_trace == self.root_needs_trace,
            forall|g: Gc| #[trigger]
                self.contains(g) ==> self.trace_edges(edges).boxes[g].edges == self.boxes[g].edges
                    && self.trace_edges(edges).boxes[g].value == self.boxes[g].value,
        decreases edges.len(),
    {
        if edges.len() > 0 {
            let before = self.trace_edges(edges.drop_last());
            self.lemma_trace_edges_frame(edges.drop_last());
            before.lemma_trace_edge_frame(edges.last());
            assert forall|g: Gc| #[trigger] self.contains(g) implies self.trace_edges(
                edges,
            ).boxes[g].edges == self.boxes[g].edges && self.trace_edges(edges).boxes[g].value
                == self.boxes[g].value by {
                assert(before.contains(g));
            }
        }
    }

    /// Tracing one more edge extends the fold by one step.
    pub proof fn lemma_trace_edges_take(self, edges: Seq<Edge>, i: int)
        requires
            0 <= i < edges.len(),
        ensures
            self.trace_edges(edges.take(i + 1)) == self.trace_edges(edges.take(i)).trace_edge(
                edges[i],
            ),
    {
        assert(edges.take(i + 1).drop_last() =~= edges.take(i));
    }
}

} // verus!
