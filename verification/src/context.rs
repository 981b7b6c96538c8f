//! The collector: the heap, the gray queue and the phase, and the
//! operations that the mutator and the collector perform on them.

use vstd::prelude::*;
use vstd::layout::size_of;
use crate::collect::{edges_of, reported, Collect};
use crate::gc::{Edge, Gc, GcCell};
use crate::heap::Heap;
use crate::pacing::{bytes_of, saturated, ArenaParameters, Pacing};
use crate::state::{ContextView, Phase};
use crate::types::{GcBox, GcColor, GcFlags};

verus! {

/// The heap of an arena and its collector.
pub struct Context<T> {
    parameters: ArenaParameters,
    pacing: Pacing,
    box_size: u64,
    epoch: u64,
    heap: Heap<T>,
    phase: Phase,
    root_needs_trace: bool,
    roots: Vec<Edge>,
    statics: Vec<Edge>,
    gray: Vec<Gc>,
    sweep: Option<Gc>,
    sweep_prev: Option<Gc>,
    cursor: Ghost<int>,
}

/// The token of mutation: whoever holds it may allocate, write through a
/// cell and pin a pointer, and nobody else can use the context meanwhile.
pub type MutationContext<'a, T> = &'a mut Context<T>;

impl<T> View for Context<T> {
    type V = ContextView<T>;

    closed spec fn view(&self) -> ContextView<T> {
        ContextView {
            boxes: self.heap@.boxes,
            order: self.heap@.order,
            roots: self.roots@,
            statics: self.statics@,
            gray: self.gray@,
            phase: self.phase,
            root_needs_trace: self.root_needs_trace,
            cursor: self.cursor@,
        }
    }
}

impl<T> Context<T> {
    /// The sweep's two handles stand where the cursor says.
    closed spec fn cursor_wf(&self) -> bool {
        let order = self.heap@.order;
        let k = self.cursor@;
        &&& 0 <= k <= order.len()
        &&& self.phase != Phase::Sweep ==> k == 0
        &&& self.phase == Phase::Sweep ==> {
            &&& self.sweep == (if k < order.len() {
                Some(order[k])
            } else {
                None
            })
            &&& self.sweep_prev == (if k > 0 {
                Some(order[k - 1])
            } else {
                None
            })
        }
    }

    /// The representation is consistent.
    pub closed spec fn wf_repr(&self) -> bool {
        self.heap.wf() && self.cursor_wf() && self.box_size > 0
    }

    /// The context is consistent, its invariant holds, and what the
    /// mutator was handed in the current epoch is protected.
    pub closed spec fn wf(&self) -> bool {
        self.wf_repr() && self@.inv() && self@.certified(self.epoch)
    }

    /// The count of the units of work that the collector has done, up to
    /// the largest `u64`.
    pub closed spec fn epoch(&self) -> u64 {
        self.epoch
    }

    /// The mutator was handed box `g` since the collector last worked: it
    /// may store the handle.
    pub open spec fn accessible(&self, g: Gc) -> bool {
        self@.accessible(g, self.epoch())
    }

    /// The parameters the context was made with.
    pub closed spec fn parameters(&self) -> ArenaParameters {
        self.parameters
    }

    /// The debt and what the last sweep kept.
    pub closed spec fn pacing(&self) -> Pacing {
        self.pacing
    }

    /// The bytes that one box takes: at least one.
    pub closed spec fn box_size(&self) -> u64 {
        self.box_size
    }

    /// The bytes that the outstanding boxes take.
    pub open spec fn total_allocated(&self) -> u64 {
        saturated(self@.order.len() * self.box_size() as nat)
    }

    /// What holds of a well-formed context.
    pub proof fn lemma_wf(&self)
        requires
            self.wf(),
        ensures
            self@.inv(),
            self@.certified(self.epoch()),
            self.box_size() > 0,
            forall|g: Gc| self.accessible(g) ==> self@.protected(g),
    {
        assert forall|g: Gc| self.accessible(g) implies self@.protected(g) by {
            assert(self@.accessible(g, self.epoch()));
        }
    }

    /// The view of a context that was just made.
    pub open spec fn empty_view() -> ContextView<T> {
        ContextView {
            boxes: Map::empty(),
            order: Seq::empty(),
            roots: Seq::empty(),
            statics: Seq::empty(),
            gray: Seq::empty(),
            phase: Phase::Sleep,
            root_needs_trace: true,
            cursor: 0,
        }
    }

    /// A context with no boxes, no roots and no cycle in flight.
    pub fn new(parameters: ArenaParameters) -> (cx: Context<T>)
        ensures
            cx.wf(),
            cx@ == Self::empty_view(),
            cx.parameters() == parameters,
            cx.pacing() == (Pacing { allocated: 0, remembered: 0 }),
            cx.epoch() == 0,
            cx.box_size() == (if size_of::<GcBox<T>>() == 0 {
                1u64
            } else {
                size_of::<GcBox<T>>() as u64
            }),
    {
        let measured: usize = core::mem::size_of::<GcBox<T>>();
        let box_size: u64 = if measured == 0 {
            1
        } else {
            measured as u64
        };
        let cx = Context {
            parameters,
            pacing: Pacing::new(),
            box_size,
            epoch: 0,
            heap: Heap::new(),
            phase: Phase::Sleep,
            root_needs_trace: true,
            roots: Vec::new(),
            statics: Vec::new(),
            gray: Vec::new(),
            sweep: None,
            sweep_prev: None,
            cursor: Ghost(0),
        };
        proof {
            let v = cx@;
            assert(v.heap_wf());
            assert(v.boxes_wf());
            assert(v.gray_wf(None));
            assert(v.phase_wf());
            assert(v.roots_protected()) by {
                assert forall|g: Gc| #[trigger] v.is_root(g) implies v.protected(g) by {}
            }
            assert(v.tricolor());
            assert(v.certified(0));
        }
        cx
    }

    /// How many boxes are outstanding.
    pub fn len(&self) -> (count: usize)
        requires
            self.wf(),
        ensures
            count == self@.order.len(),
    {
        self.heap.len()
    }

    /// The bytes that the outstanding boxes take, saturated.
    pub fn total_bytes(&self) -> (bytes: u64)
        requires
            self.wf(),
        ensures
            bytes == self.total_allocated(),
    {
        bytes_of(self.heap.len(), self.box_size)
    }

    /// The allocation debt, in bytes.
    pub fn allocation_debt(&self) -> (debt: u64)
        ensures
            debt == self.pacing().debt(self.parameters()),
    {
        self.pacing.allocation_debt(&self.parameters)
    }

    /// The bytes that one box takes.
    pub fn box_bytes(&self) -> (bytes: u64)
        ensures
            bytes == self.box_size(),
    {
        self.box_size
    }

    /// The parameters the context was made with.
    pub fn arena_parameters(&self) -> (parameters: ArenaParameters)
        ensures
            parameters == self.parameters(),
    {
        self.parameters
    }

    /// The header of a box.
    pub fn flags(&self, g: Gc) -> (flags: GcFlags)
        requires
            self@.contains(g),
        ensures
            flags@ == self@.boxes[g].flags,
    {
        self.heap.flags(g)
    }

    /// Where the collector stands in its cycle.
    pub fn phase(&self) -> (phase: Phase)
        ensures
            phase == self@.phase,
    {
        self.phase
    }

    /// Whether `g` names an outstanding box.
    pub fn contains(&self, g: Gc) -> (held: bool)
        ensures
            held == self@.contains(g),
    {
        self.heap.contains(g)
    }

    /// The payload of a box.
    pub fn get(&self, g: Gc) -> (value: &T)
        requires
            self@.contains(g),
        ensures
            *value == self@.boxes[g].value,
    {
        self.heap.value(g)
    }

    fn set_color(&mut self, g: Gc, color: GcColor)
        requires
            old(self).wf_repr(),
            old(self)@.contains(g),
        ensures
            final(self).wf_repr(),
            final(self)@ == old(self)@.with_color(g, color),
            final(self).pacing() == old(self).pacing(),
            final(self).epoch() == old(self).epoch(),
            final(self).same_settings(old(self)),
    {
        let mut flags = self.heap.flags(g);
        flags.set_color(color);
        self.heap.set_flags(g, flags);
    }

    fn trace_edge(&mut self, e: Edge)
        requires
            old(self).wf_repr(),
        ensures
            final(self).wf_repr(),
            final(self)@ == old(self)@.trace_edge(e),
            final(self).pacing() == old(self).pacing(),
            final(self).epoch() == old(self).epoch(),
            final(self).same_settings(old(self)),
    {
        match e {
            Edge::Strong(g) => {
                if self.heap.contains(g) {
                    let flags = self.heap.flags(g);
                    let color = flags.color();
                    if color == GcColor::White || color == GcColor::FreshWhite {
                        if flags.needs_trace() {
                            self.set_color(g, GcColor::Gray);
                            self.gray.push(g);
                        } else {
                            self.set_color(g, GcColor::Black);
                        }
                    }
                }
            },
            Edge::Weak(g) => {
                if self.heap.contains(g) {
                    let mut flags = self.heap.flags(g);
                    flags.set_has_weak_ref(true);
                    if flags.color() == GcColor::FreshWhite {
                        flags.set_color(GcColor::White);
                    }
                    self.heap.set_flags(g, flags);
                }
            },
        }
    }

    /// Traces the edges of box `g`, in order.
    fn trace_box(&mut self, g: Gc)
        requires
            old(self).wf_repr(),
            old(self)@.contains(g),
        ensures
            final(self).wf_repr(),
            final(self)@ == old(self)@.trace_edges(old(self)@.boxes[g].edges),
            final(self).pacing() == old(self).pacing(),
            final(self).epoch() == old(self).epoch(),
            final(self).same_settings(old(self)),
    {
        let ghost start = self@;
        let ghost edges = start.boxes[g].edges;
        let n: usize = self.heap.edges(g).len();
        let mut i: usize = 0;
        while i < n
            invariant
                self.wf_repr(),
                self.pacing() == old(self).pacing(),
                self.epoch() == old(self).epoch(),
                self.same_settings(old(self)),
                0 <= i <= n,
                n == edges.len(),
                start.contains(g),
                edges == start.boxes[g].edges,
                self@ == start.trace_edges(edges.take(i as int)),
            decreases n - i,
        {
            proof {
                start.lemma_trace_edges_frame(edges.take(i as int));
                start.lemma_trace_edges_take(edges, i as int);
            }
            let e: Edge = self.heap.edges(g)[i];
            self.trace_edge(e);
            i = i + 1;
        }
        proof {
            assert(edges.take(n as int) =~= edges);
        }
    }

    /// Traces the root's edges and the pins, in order.
    fn trace_roots(&mut self)
        requires
            old(self).wf_repr(),
        ensures
            final(self).wf_repr(),
            final(self)@ == old(self)@.trace_edges(old(self)@.roots).trace_edges(old(self)@.statics),
            final(self).pacing() == old(self).pacing(),
            final(self).epoch() == old(self).epoch(),
            final(self).same_settings(old(self)),
    {
        let ghost start = self@;
        let n: usize = self.roots.len();
        let mut i: usize = 0;
        while i < n
            invariant
                self.wf_repr(),
                self.pacing() == old(self).pacing(),
                self.epoch() == old(self).epoch(),
                self.same_settings(old(self)),
                0 <= i <= n,
                n == start.roots.len(),
                self@ == start.trace_edges(start.roots.take(i as int)),
            decreases n - i,
        {
            proof {
                start.lemma_trace_edges_frame(start.roots.take(i as int));
                start.lemma_trace_edges_take(start.roots, i as int);
            }
            let e: Edge = self.roots[i];
            self.trace_edge(e);
            i = i + 1;
        }
        proof {
            assert(start.roots.take(n as int) =~= start.roots);
            start.lemma_trace_edges_frame(start.roots);
        }
        let ghost mid = self@;
        let m: usize = self.statics.len();
        let mut j: usize = 0;
        while j < m
            invariant
                self.wf_repr(),
                self.pacing() == old(self).pacing(),
                self.epoch() == old(self).epoch(),
                self.same_settings(old(self)),
                0 <= j <= m,
                m == mid.statics.len(),
                mid.statics == start.statics,
                self@ == mid.trace_edges(mid.statics.take(j as int)),
            decreases m - j,
        {
            proof {
                mid.lemma_trace_edges_frame(mid.statics.take(j as int));
                mid.lemma_trace_edges_take(mid.statics, j as int);
            }
            let e: Edge = self.statics[j];
            self.trace_edge(e);
            j = j + 1;
        }
        proof {
            assert(mid.statics.take(m as int) =~= mid.statics);
        }
    }

    /// The parameters and the box size are those of `other`.
    pub open spec fn same_settings(&self, other: &Self) -> bool {
        self.parameters() == other.parameters() && self.box_size() == other.box_size()
    }

    /// The epoch after `epoch`: one more, up to the largest `u64`.
    pub open spec fn next_epoch(epoch: u64) -> u64 {
        if epoch < u64::MAX {
            (epoch + 1) as u64
        } else {
            epoch
        }
    }

    /// The pacing after one unit of work: the end of a sweep clears what
    /// was allocated and remembers the bytes that the sweep kept.
    pub open spec fn pacing_after_step(&self) -> Pacing {
        if self@.phase == Phase::Sweep && !(0 <= self@.cursor < self@.order.len()) {
            Pacing { allocated: 0, remembered: self.total_allocated() }
        } else {
            self.pacing()
        }
    }

    /// One unit of the collector's work: a sleeping collector wakes; a
    /// marking one traces the next gray box, or the root, or turns to
    /// sweeping; a sweeping one deals with the next box, or goes to sleep.
    /// Returns whether the unit counts as work in the pacing.
    pub fn step(&mut self) -> (worked: bool)
        requires
            old(self).wf(),
        ensures
            final(self).wf(),
            final(self)@ == old(self)@.step(),
            final(self)@.collected_from(old(self)@),
            worked == (old(self)@.step_cost() == 1),
            final(self).pacing() == old(self).pacing_after_step(),
            final(self).same_settings(old(self)),
            final(self).epoch() == Self::next_epoch(old(self).epoch()),
            forall|g: Gc| !final(self).accessible(g),
    {
        proof {
            old(self)@.lemma_step_inv();
            old(self).heap.lemma_view_wf();
        }
        let worked = self.advance();
        proof {
            self@.lemma_new_epoch(old(self)@, old(self).epoch);
        }
        if self.epoch < u64::MAX {
            self.epoch = self.epoch + 1;
        }
        proof {
            assert forall|g: Gc| !self.accessible(g) by {
                if self@.contains(g) {
                    assert(old(self)@.contains(g));
                }
            }
        }
        worked
    }

    /// The collector's unit of work, before the new epoch starts.
    fn advance(&mut self) -> (worked: bool)
        requires
            old(self).wf(),
        ensures
            final(self).wf_repr(),
            final(self)@ == old(self)@.step(),
            worked == (old(self)@.step_cost() == 1),
            final(self).pacing() == old(self).pacing_after_step(),
            final(self).same_settings(old(self)),
            final(self).epoch() == old(self).epoch(),
    {
        proof {
            old(self).heap.lemma_view_wf();
        }
        match self.phase {
            Phase::Sleep => {
                self.phase = Phase::Propagate;
                self.root_needs_trace = true;
                false
            },
            Phase::Propagate => {
                if self.gray.len() > 0 {
                    let g = self.gray.pop().unwrap();
                    if self.heap.contains(g) {
                        self.trace_box(g);
                        proof {
                            let popped = ContextView { gray: old(self)@.gray.drop_last(), ..old(self)@ };
                            popped.lemma_trace_edges_frame(popped.boxes[g].edges);
                        }
                        self.set_color(g, GcColor::Black);
                    }
                    proof {
                        assert(self@ == old(self)@.propagate_one());
                    }
                    true
                } else if self.root_needs_trace {
                    self.trace_roots();
                    self.root_needs_trace = false;
                    proof {
                        assert(self@ == old(self)@.propagate_root());
                    }
                    false
                } else {
                    self.phase = Phase::Sweep;
                    self.sweep = self.heap.first();
                    self.sweep_prev = None;
                    self.cursor = Ghost(0);
                    false
                }
            },
            Phase::Sweep => {
                match self.sweep {
                    Some(g) => {
                        let ghost k = self.cursor@;
                        proof {
                            self.heap.lemma_view_wf();
                            assert(self.heap@.order.contains(self.heap@.order[k]));
                        }
                        let after = self.heap.next(g, Ghost(k));
                        let mut flags = self.heap.flags(g);
                        if flags.color() == GcColor::White {
                            if flags.has_weak_ref() {
                                flags.set_alive(false);
                                self.heap.set_flags(g, flags);
                            }
                            let _payload = self.heap.remove(self.sweep_prev, g, Ghost(k));
                            self.sweep = after;
                            proof {
                                assert(self@.boxes =~= old(self)@.boxes.remove(g));
                                assert(self@ == old(self)@.sweep_one());
                            }
                        } else {
                            flags.set_color(GcColor::White);
                            self.heap.set_flags(g, flags);
                            self.sweep_prev = Some(g);
                            self.sweep = after;
                            self.cursor = Ghost(k + 1);
                            proof {
                                assert(self@ == old(self)@.sweep_one());
                            }
                            return false;
                        }
                        true
                    },
                    None => {
                        self.pacing = Pacing {
                            allocated: 0,
                            remembered: bytes_of(self.heap.len(), self.box_size),
                        };
                        self.phase = Phase::Sleep;
                        self.sweep_prev = None;
                        self.cursor = Ghost(0);
                        proof {
                            assert(old(self)@.cursor == old(self)@.order.len());
                        }
                        false
                    },
                }
            },
        }
    }

    /// Allocates a box for `value`, whose type needs tracing or not as
    /// `needs_trace` says and which reported `edges`.
    pub fn allocate_traced(&mut self, value: T, needs_trace: bool, edges: Vec<Edge>) -> (g: Gc)
        requires
            old(self).wf(),
            old(self)@.edges_protected(edges@),
        ensures
            final(self).wf(),
            !old(self)@.contains(g),
            final(self)@ == old(self)@.allocate(g, needs_trace, edges@, value, old(self).epoch()),
            final(self).epoch() == old(self).epoch(),
            old(self).epoch() < u64::MAX ==> final(self).accessible(g),
            forall|x: Gc| old(self).accessible(x) ==> final(self).accessible(x),
            final(self)@.mutated_from(old(self)@),
            final(self)@.protected(g),
            final(self).pacing() == old(self).pacing().charged(old(self).box_size()),
            final(self).same_settings(old(self)),
    {
        self.pacing.charge(self.box_size);
        let mut flags = GcFlags::new();
        if self.phase == Phase::Sleep {
            flags.set_color(GcColor::White);
        }
        flags.set_needs_trace(needs_trace);
        flags.set_alive(true);
        let kept = if needs_trace {
            edges
        } else {
            Vec::new()
        };
        let g = self.heap.insert(flags, self.epoch, kept, value);
        if self.phase == Phase::Sweep && self.sweep.is_none() {
            self.sweep = Some(g);
        }
        proof {
            assert(kept@ =~= (if needs_trace {
                edges@
            } else {
                Seq::empty()
            }));
            old(self)@.lemma_allocate_inv(g, needs_trace, edges@, value, self.epoch);
            assert forall|x: Gc| #[trigger] self@.contains(x) implies self@.boxes[x].seen
                <= self.epoch && (self@.boxes[x].seen == self.epoch && self.epoch < u64::MAX
                ==> old(self)@.accessible(x, self.epoch) || self@.protected(x)) by {
                if x != g {
                    assert(old(self)@.contains(x));
                }
            }
            self@.lemma_certified_carries(old(self)@, self.epoch);
        }
        g
    }

    /// The forward write barrier on box `g`.
    pub fn write_barrier(&mut self, g: Gc)
        requires
            old(self).wf(),
        ensures
            final(self).wf(),
            final(self)@ == old(self)@.write_barrier(g),
            final(self)@.mutated_from(old(self)@),
            final(self).pacing() == old(self).pacing(),
            final(self).epoch() == old(self).epoch(),
            forall|x: Gc| old(self).accessible(x) ==> final(self).accessible(x),
            final(self).same_settings(old(self)),
    {
        proof {
            old(self)@.lemma_write_barrier_inv(g);
        }
        if self.heap.contains(g) && self.phase == Phase::Propagate {
            if self.heap.flags(g).color() == GcColor::Black {
                self.set_color(g, GcColor::Gray);
                self.gray.push(g);
            }
        }
        proof {
            assert forall|x: Gc| #[trigger] self@.contains(x) implies self@.boxes[x].seen == old(
                self,
            )@.boxes[x].seen && old(self)@.contains(x) by {
                assert(old(self)@.contains(x));
            }
            self@.lemma_certified_carries(old(self)@, self.epoch);
        }
    }

    /// Replaces the payload of box `g` by `value`, which reported `edges`,
    /// after the write barrier. Hands back the payload that was there.
    pub fn write_traced(&mut self, g: Gc, value: T, edges: Vec<Edge>) -> (previous: T)
        requires
            old(self).wf(),
            old(self)@.contains(g),
            old(self)@.edges_protected(edges@),
        ensures
            final(self).wf(),
            final(self)@ == old(self)@.write(g, edges@, value),
            final(self)@.mutated_from(old(self)@),
            previous == old(self)@.boxes[g].value,
            final(self).pacing() == old(self).pacing(),
            final(self).epoch() == old(self).epoch(),
            forall|x: Gc| old(self).accessible(x) ==> final(self).accessible(x),
            final(self).same_settings(old(self)),
    {
        proof {
            old(self)@.lemma_write_inv(g, edges@, value);
            old(self)@.lemma_write_barrier_inv(g);
        }
        self.write_barrier(g);
        let kept = if self.heap.flags(g).needs_trace() {
            edges
        } else {
            Vec::new()
        };
        proof {
            assert(kept@ =~= (if self@.boxes[g].flags.needs_trace {
                edges@
            } else {
                Seq::empty()
            }));
        }
        let previous = self.heap.replace(g, value, kept);
        proof {
            assert forall|x: Gc| #[trigger] self@.contains(x) implies self@.boxes[x].seen == old(
                self,
            )@.boxes[x].seen && old(self)@.contains(x) by {
                assert(old(self)@.contains(x));
            }
            self@.lemma_certified_carries(old(self)@, self.epoch);
        }
        previous
    }

    /// Flags box `g` as the target of a weak pointer.
    pub fn flag_weak(&mut self, g: Gc)
        requires
            old(self).wf(),
            old(self)@.contains(g),
        ensures
            final(self).wf(),
            final(self)@ == old(self)@.downgrade(g),
            final(self)@.upgrade(g) == old(self)@.upgrade(g),
            final(self)@.mutated_from(old(self)@),
            final(self).pacing() == old(self).pacing(),
            final(self).epoch() == old(self).epoch(),
            forall|x: Gc| old(self).accessible(x) ==> final(self).accessible(x),
            final(self).same_settings(old(self)),
    {
        proof {
            old(self)@.lemma_downgrade_inv(g);
        }
        let mut flags = self.heap.flags(g);
        flags.set_has_weak_ref(true);
        self.heap.set_flags(g, flags);
        proof {
            assert forall|x: Gc| #[trigger] self@.contains(x) implies self@.boxes[x].seen == old(
                self,
            )@.boxes[x].seen && old(self)@.contains(x) by {
                assert(old(self)@.contains(x));
            }
            self@.lemma_certified_carries(old(self)@, self.epoch);
        }
    }

    /// Whether a weak pointer to `g` can be upgraded: the box is outstanding
    /// and its `alive` flag is set.
    pub fn is_alive(&self, g: Gc) -> (alive: bool)
        ensures
            alive == (self@.contains(g) && self@.boxes[g].flags.alive),
    {
        self.heap.contains(g) && self.heap.flags(g).alive()
    }

    /// Pins box `g` for the life of the context.
    pub fn make_static(&mut self, g: Gc)
        requires
            old(self).wf(),
            old(self)@.protected(g),
        ensures
            final(self).wf(),
            final(self)@ == old(self)@.make_static(g),
            final(self)@.mutated_from(old(self)@),
            final(self).pacing() == old(self).pacing(),
            final(self).epoch() == old(self).epoch(),
            forall|x: Gc| old(self).accessible(x) ==> final(self).accessible(x),
            final(self).same_settings(old(self)),
    {
        proof {
            old(self)@.lemma_make_static_inv(g);
        }
        self.statics.push(Edge::Strong(g));
        self.root_needs_trace = true;
        proof {
            assert forall|x: Gc| #[trigger] self@.contains(x) implies self@.boxes[x].seen == old(
                self,
            )@.boxes[x].seen && old(self)@.contains(x) by {}
            self@.lemma_certified_carries(old(self)@, self.epoch);
        }
    }

    /// Installs the edges that the root reported.
    pub fn set_root(&mut self, edges: Vec<Edge>)
        requires
            old(self).wf(),
            old(self)@.edges_protected(edges@),
        ensures
            final(self).wf(),
            final(self)@ == old(self)@.set_root(edges@),
            final(self)@.mutated_from(old(self)@),
            final(self).pacing() == old(self).pacing(),
            final(self).epoch() == old(self).epoch(),
            forall|x: Gc| old(self).accessible(x) ==> final(self).accessible(x),
            final(self).same_settings(old(self)),
    {
        proof {
            old(self)@.lemma_set_root_inv(edges@);
        }
        self.roots = edges;
        self.root_needs_trace = true;
        proof {
            assert forall|x: Gc| #[trigger] self@.contains(x) implies self@.boxes[x].seen == old(
                self,
            )@.boxes[x].seen && old(self)@.contains(x) by {}
            self@.lemma_certified_carries(old(self)@, self.epoch);
        }
    }

    /// The pacing once a run of the collector that started from `self` has
    /// come to the state `reached`: a run that ended a sweep remembers what
    /// the sweep kept; and the debt is paid.
    pub open spec fn pacing_after_run(&self, reached: ContextView<T>) -> Pacing {
        if reached.phase == Phase::Sleep {
            Pacing {
                allocated: 0,
                remembered: saturated(reached.order.len() * self.box_size() as nat),
            }
        } else {
            Pacing { allocated: 0, ..self.pacing() }
        }
    }

    /// Runs the collector to the end of a cycle: a sleeping collector starts
    /// one and completes it; a cycle in flight is completed.
    pub fn collect_all(&mut self)
        requires
            old(self).wf(),
        ensures
            final(self).wf(),
            final(self)@ == old(self)@.collect_all(),
            final(self)@.collected_from(old(self)@),
            final(self)@.phase == Phase::Sleep,
            final(self).pacing() == (Pacing {
                allocated: 0,
                remembered: final(self).total_allocated(),
            }),
            final(self).same_settings(old(self)),
    {
        if self.phase == Phase::Sleep {
            self.step();
        }
        let ghost start = self@;
        proof {
            start.lemma_collected_refl();
            if old(self)@.phase != Phase::Sleep {
                assert(start == old(self)@);
            }
        }
        while self.phase != Phase::Sleep
            invariant
                self.wf(),
                self.same_settings(old(self)),
                start.inv(),
                self@.inv(),
                self@.finish() == start.finish(),
                self@.collected_from(start),
                self@.phase == Phase::Sleep ==> self.pacing() == (Pacing {
                    allocated: 0,
                    remembered: self.total_allocated(),
                }),
            decreases self@.rank(), self@.work_left(),
        {
            let ghost before = self@;
            proof {
                before.lemma_step_progress();
                before.lemma_step_inv();
                before.lemma_step_sleeps();
            }
            self.step();
            proof {
                self@.lemma_collected_trans(before, start);
            }
        }
        proof {
            assert(self@.finish() == self@);
            old(self)@.lemma_collect_all_inv();
        }
    }

    /// The state that `collect_debt` leaves: nothing changes while the
    /// collector is not due; else a sleeping collector wakes, and the
    /// collector runs for the budget that pays the debt off.
    pub open spec fn after_collect_debt(&self) -> ContextView<T> {
        let asleep = self@.phase == Phase::Sleep;
        if !self.pacing().due(self.parameters(), asleep) {
            self@
        } else {
            let woken = if asleep {
                self@.wake()
            } else {
                self@
            };
            woken.pay(self.pacing().budget(self.parameters(), self.box_size()) as int)
        }
    }

    /// Advances the collector by the work that the debt asks for.
    pub fn collect_debt(&mut self)
        requires
            old(self).wf(),
        ensures
            final(self).wf(),
            final(self)@ == old(self).after_collect_debt(),
            final(self)@.collected_from(old(self)@),
            final(self).pacing() == (if old(self).pacing().due(
                old(self).parameters(),
                old(self)@.phase == Phase::Sleep,
            ) {
                old(self).pacing_after_run(final(self)@)
            } else {
                old(self).pacing()
            }),
            final(self).same_settings(old(self)),
    {
        let asleep = self.phase == Phase::Sleep;
        proof {
            old(self)@.lemma_collected_refl();
        }
        if !self.pacing.is_due(&self.parameters, asleep) {
            return ;
        }
        let budget: u64 = self.pacing.work_budget(&self.parameters, self.box_size);
        if asleep {
            self.step();
        }
        let ghost start = self@;
        let ghost kept = old(self).pacing().remembered;
        self.pacing.allocated = 0;
        let mut left: u64 = budget;
        proof {
            start.lemma_collected_refl();
        }
        while self.phase != Phase::Sleep && left > 0
            invariant
                self.wf(),
                self.same_settings(old(self)),
                start.inv(),
                self@.inv(),
                start.collected_from(old(self)@),
                self@.pay(left as int) == start.pay(budget as int),
                self@.collected_from(start),
                self.pacing().allocated == 0,
                self.pacing().remembered == (if self@.phase == Phase::Sleep {
                    self.total_allocated()
                } else {
                    kept
                }),
            decreases self@.rank(), self@.work_left(),
        {
            let ghost before = self@;
            proof {
                before.lemma_step_progress();
                before.lemma_step_inv();
                before.lemma_step_sleeps();
            }
            let worked = self.step();
            if worked {
                left = left - 1;
            }
            proof {
                self@.lemma_collected_trans(before, start);
            }
        }
        proof {
            assert(self@.pay(left as int) == self@);
            self@.lemma_collected_trans(start, old(self)@);
        }
    }

    /// Whether the mutator was handed box `g` since the collector last
    /// worked.
    pub fn is_accessible(&self, g: Gc) -> (held: bool)
        ensures
            held == self.accessible(g),
    {
        self.heap.contains(g) && self.heap.seen(g) == self.epoch && self.epoch < u64::MAX
    }

    /// Whether every strong target among `edges` is accessible.
    pub fn all_accessible(&self, edges: &Vec<Edge>) -> (held: bool)
        ensures
            held == self@.edges_accessible(edges@, self.epoch()),
    {
        let n: usize = edges.len();
        let mut i: usize = 0;
        while i < n
            invariant
                0 <= i <= n,
                n == edges@.len(),
                forall|k: int|
                    0 <= k < i ==> (edges@[k] is Strong ==> self.accessible(
                        (#[trigger] edges@[k]).target(),
                    )),
            decreases n - i,
        {
            match edges[i] {
                Edge::Strong(g) => {
                    if !self.is_accessible(g) {
                        proof {
                            assert(edges@.contains(Edge::Strong(g)));
                        }
                        return false;
                    }
                },
                Edge::Weak(_) => {},
            }
            i = i + 1;
        }
        proof {
            assert forall|g: Gc| edges@.contains(Edge::Strong(g)) implies self@.accessible(
                g,
                self.epoch(),
            ) by {
                let k = choose|k: int| 0 <= k < edges@.len() && edges@[k] == Edge::Strong(g);
                assert(edges@[k] is Strong);
                assert(edges@[k].target() == g);
            }
        }
        true
    }

    /// Stamps the outstanding strong targets among the edges of box `g`.
    fn stamp_box(&mut self, g: Gc)
        requires
            old(self).wf_repr(),
            old(self)@.contains(g),
        ensures
            final(self).wf_repr(),
            final(self)@ == old(self)@.stamped(old(self)@.boxes[g].edges, old(self).epoch()),
            final(self).pacing() == old(self).pacing(),
            final(self).epoch() == old(self).epoch(),
            final(self).same_settings(old(self)),
    {
        let ghost start = self@;
        let ghost edges = start.boxes[g].edges;
        let n: usize = self.heap.edges(g).len();
        let mut i: usize = 0;
        proof {
            assert(edges.take(0) =~= Seq::<Edge>::empty());
            start.lemma_stamped_none(self.epoch);
        }
        while i < n
            invariant
                self.wf_repr(),
                self.pacing() == old(self).pacing(),
                self.epoch() == old(self).epoch(),
                self.same_settings(old(self)),
                0 <= i <= n,
                n == edges.len(),
                start.contains(g),
                start == old(self)@,
                edges == start.boxes[g].edges,
                self@ == start.stamped(edges.take(i as int), self.epoch()),
            decreases n - i,
        {
            proof {
                start.lemma_stamped_take(edges, i as int, self.epoch);
            }
            let e: Edge = self.heap.edges(g)[i];
            match e {
                Edge::Strong(t) => {
                    if self.heap.contains(t) {
                        self.heap.set_seen(t, self.epoch);
                    }
                },
                Edge::Weak(_) => {},
            }
            i = i + 1;
        }
        proof {
            assert(edges.take(n as int) =~= edges);
        }
    }

    /// Hands the mutator what box `g` points to: where `g` is accessible,
    /// its strong targets become accessible. Returns whether `g` was.
    pub fn open(&mut self, g: Gc) -> (opened: bool)
        requires
            old(self).wf(),
        ensures
            final(self).wf(),
            opened == old(self).accessible(g),
            final(self)@ == (if opened {
                old(self)@.stamped(old(self)@.boxes[g].edges, old(self).epoch())
            } else {
                old(self)@
            }),
            opened ==> forall|b: Gc| old(self)@.points_to(g, b) ==> final(self).accessible(b),
            forall|x: Gc| old(self).accessible(x) ==> final(self).accessible(x),
            final(self)@.mutated_from(old(self)@),
            final(self).pacing() == old(self).pacing(),
            final(self).epoch() == old(self).epoch(),
            final(self).same_settings(old(self)),
    {
        if !self.is_accessible(g) {
            return false;
        }
        proof {
            let edges = self@.boxes[g].edges;
            assert(self@.accessible(g, self.epoch));
            self@.lemma_protected(g);
            assert(self@.edges_protected(edges)) by {
                assert forall|b: Gc| edges.contains(Edge::Strong(b)) implies self@.protected(b) by {
                    assert(self@.points_to(g, b));
                }
            }
            self@.lemma_stamped(edges, self.epoch);
        }
        self.stamp_box(g);
        true
    }

    /// Hands the mutator what the root and the pins point to: their strong
    /// targets become accessible.
    pub fn open_roots(&mut self)
        requires
            old(self).wf(),
        ensures
            final(self).wf(),
            final(self)@ == old(self)@.stamped(old(self)@.roots, old(self).epoch()).stamped(
                old(self)@.statics,
                old(self).epoch(),
            ),
            old(self).epoch() < u64::MAX ==> forall|b: Gc|
                old(self)@.is_root(b) ==> final(self).accessible(b),
            forall|x: Gc| old(self).accessible(x) ==> final(self).accessible(x),
            final(self)@.mutated_from(old(self)@),
            final(self).pacing() == old(self).pacing(),
            final(self).epoch() == old(self).epoch(),
            final(self).same_settings(old(self)),
    {
        let ghost start = self@;
        let ghost mid = start.stamped(start.roots, self.epoch);
        proof {
            assert(start.edges_protected(start.roots)) by {
                assert forall|b: Gc| start.roots.contains(Edge::Strong(b)) implies start.protected(
                    b,
                ) by {
                    assert(start.is_root(b));
                }
            }
            start.lemma_stamped(start.roots, self.epoch);
            assert(mid.edges_protected(mid.statics)) by {
                assert forall|b: Gc| mid.statics.contains(Edge::Strong(b)) implies mid.protected(
                    b,
                ) by {
                    assert(start.is_root(b));
                    assert(start.protected(b));
                }
            }
            mid.lemma_stamped(mid.statics, self.epoch);
            assert(start.roots.take(0) =~= Seq::<Edge>::empty());
            start.lemma_stamped_none(self.epoch);
        }
        let n: usize = self.roots.len();
        let mut i: usize = 0;
        while i < n
            invariant
                self.wf_repr(),
                self.pacing() == old(self).pacing(),
                self.epoch() == old(self).epoch(),
                self.same_settings(old(self)),
                0 <= i <= n,
                n == start.roots.len(),
                start == old(self)@,
                self@ == start.stamped(start.roots.take(i as int), self.epoch()),
            decreases n - i,
        {
            proof {
                start.lemma_stamped_take(start.roots, i as int, self.epoch);
            }
            let e: Edge = self.roots[i];
            match e {
                Edge::Strong(t) => {
                    if self.heap.contains(t) {
                        self.heap.set_seen(t, self.epoch);
                    }
                },
                Edge::Weak(_) => {},
            }
            i = i + 1;
        }
        proof {
            assert(start.roots.take(n as int) =~= start.roots);
            assert(self@ == mid);
            assert(mid.statics.take(0) =~= Seq::<Edge>::empty());
            mid.lemma_stamped_none(self.epoch);
        }
        let m: usize = self.statics.len();
        let mut j: usize = 0;
        while j < m
            invariant
                self.wf_repr(),
                self.pacing() == old(self).pacing(),
                self.epoch() == old(self).epoch(),
                self.same_settings(old(self)),
                0 <= j <= m,
                m == mid.statics.len(),
                mid.statics == start.statics,
                self@ == mid.stamped(mid.statics.take(j as int), self.epoch()),
            decreases m - j,
        {
            proof {
                mid.lemma_stamped_take(mid.statics, j as int, self.epoch);
            }
            let e: Edge = self.statics[j];
            match e {
                Edge::Strong(t) => {
                    if self.heap.contains(t) {
                        self.heap.set_seen(t, self.epoch);
                    }
                },
                Edge::Weak(_) => {},
            }
            j = j + 1;
        }
        proof {
            assert(mid.statics.take(m as int) =~= mid.statics);
            let post = self@;
            assert(post.mutated_from(start)) by {
                assert forall|x: Gc| #[trigger] start.contains(x) implies post.contains(x) by {
                    assert(mid.contains(x));
                }
                assert forall|x: Gc| #[trigger] start.protected(x) implies post.protected(x) by {
                    assert(mid.protected(x));
                }
            }
            if self.epoch < u64::MAX {
                assert forall|b: Gc| start.is_root(b) implies self.accessible(b) by {
                    if start.roots.contains(Edge::Strong(b)) {
                        assert(mid.accessible(b, self.epoch));
                    }
                }
            }
            assert forall|x: Gc| old(self).accessible(x) implies self.accessible(x) by {
                assert(mid.accessible(x, self.epoch));
            }
        }
    }

    /// Allocates a box where every strong target among `edges` is
    /// accessible, and hands the payload back where one is not.
    pub fn allocate_checked(&mut self, value: T, needs_trace: bool, edges: Vec<Edge>) -> (out:
        Result<Gc, T>)
        requires
            old(self).wf(),
        ensures
            final(self).wf(),
            out is Ok <==> old(self)@.edges_accessible(edges@, old(self).epoch()),
            match out {
                Ok(g) => {
                    &&& !old(self)@.contains(g)
                    &&& final(self)@ == old(self)@.allocate(
                        g,
                        needs_trace,
                        edges@,
                        value,
                        old(self).epoch(),
                    )
                    &&& final(self).pacing() == old(self).pacing().charged(old(self).box_size())
                    &&& final(self)@.protected(g)
                    &&& old(self).epoch() < u64::MAX ==> final(self).accessible(g)
                },
                Err(back) => {
                    &&& back == value
                    &&& final(self)@ == old(self)@
                    &&& final(self).pacing() == old(self).pacing()
                },
            },
            forall|x: Gc| old(self).accessible(x) ==> final(self).accessible(x),
            final(self)@.mutated_from(old(self)@),
            final(self).epoch() == old(self).epoch(),
            final(self).same_settings(old(self)),
    {
        if self.all_accessible(&edges) {
            proof {
                self@.lemma_accessible_protected(edges@, self.epoch);
            }
            Ok(self.allocate_traced(value, needs_trace, edges))
        } else {
            Err(value)
        }
    }

    /// Replaces the payload of box `g` where the box is outstanding and
    /// every strong target among `edges` is accessible, and hands the new
    /// payload back where not. On success hands back the old payload.
    pub fn write_checked(&mut self, g: Gc, value: T, edges: Vec<Edge>) -> (out: Result<T, T>)
        requires
            old(self).wf(),
        ensures
            final(self).wf(),
            out is Ok <==> (old(self)@.contains(g) && old(self)@.edges_accessible(
                edges@,
                old(self).epoch(),
            )),
            match out {
                Ok(previous) => {
                    &&& previous == old(self)@.boxes[g].value
                    &&& final(self)@ == old(self)@.write(g, edges@, value)
                },
                Err(back) => {
                    &&& back == value
                    &&& final(self)@ == old(self)@
                },
            },
            forall|x: Gc| old(self).accessible(x) ==> final(self).accessible(x),
            final(self)@.mutated_from(old(self)@),
            final(self).pacing() == old(self).pacing(),
            final(self).epoch() == old(self).epoch(),
            final(self).same_settings(old(self)),
    {
        if self.heap.contains(g) && self.all_accessible(&edges) {
            proof {
                self@.lemma_accessible_protected(edges@, self.epoch);
            }
            Ok(self.write_traced(g, value, edges))
        } else {
            Err(value)
        }
    }

    /// Pins box `g` where it is accessible. Returns whether it was.
    pub fn make_static_checked(&mut self, g: Gc) -> (pinned: bool)
        requires
            old(self).wf(),
        ensures
            final(self).wf(),
            pinned == old(self).accessible(g),
            final(self)@ == (if pinned {
                old(self)@.make_static(g)
            } else {
                old(self)@
            }),
            forall|x: Gc| old(self).accessible(x) ==> final(self).accessible(x),
            final(self)@.mutated_from(old(self)@),
            final(self).pacing() == old(self).pacing(),
            final(self).epoch() == old(self).epoch(),
            final(self).same_settings(old(self)),
    {
        if self.is_accessible(g) {
            proof {
                assert(self@.accessible(g, self.epoch));
            }
            self.make_static(g);
            true
        } else {
            false
        }
    }

    /// Installs the root's edges where every strong target among them is
    /// accessible. Returns whether they were.
    pub fn set_root_checked(&mut self, edges: Vec<Edge>) -> (installed: bool)
        requires
            old(self).wf(),
        ensures
            final(self).wf(),
            installed == old(self)@.edges_accessible(edges@, old(self).epoch()),
            final(self)@ == (if installed {
                old(self)@.set_root(edges@)
            } else {
                old(self)@
            }),
            !installed ==> *final(self) == *old(self),
            forall|x: Gc| old(self).accessible(x) ==> final(self).accessible(x),
            final(self)@.mutated_from(old(self)@),
            final(self).pacing() == old(self).pacing(),
            final(self).epoch() == old(self).epoch(),
            final(self).same_settings(old(self)),
    {
        if self.all_accessible(&edges) {
            proof {
                self@.lemma_accessible_protected(edges@, self.epoch);
            }
            self.set_root(edges);
            true
        } else {
            false
        }
    }
}

impl<T: Collect> Context<T> {
    /// Allocates a box for `value`, with the edges that its `trace`
    /// reports. Hands the payload back where a strong pointer among them is
    /// not accessible.
    pub fn allocate(&mut self, value: T) -> (out: Result<Gc, T>)
        requires
            old(self).wf(),
        ensures
            final(self).wf(),
            out is Ok <==> old(self)@.edges_accessible(reported(&value), old(self).epoch()),
            match out {
                Ok(g) => {
                    &&& !old(self)@.contains(g)
                    &&& final(self)@ == old(self)@.allocate(
                        g,
                        T::traceable(),
                        reported(&value),
                        value,
                        old(self).epoch(),
                    )
                    &&& final(self).pacing() == old(self).pacing().charged(old(self).box_size())
                    &&& final(self)@.protected(g)
                    &&& old(self).epoch() < u64::MAX ==> final(self).accessible(g)
                },
                Err(back) => {
                    &&& back == value
                    &&& final(self)@ == old(self)@
                    &&& final(self).pacing() == old(self).pacing()
                },
            },
            forall|x: Gc| old(self).accessible(x) ==> final(self).accessible(x),
            final(self)@.mutated_from(old(self)@),
            final(self).epoch() == old(self).epoch(),
            final(self).same_settings(old(self)),
    {
        let (needs_trace, edges) = edges_of(&value);
        self.allocate_checked(value, needs_trace, edges)
    }

    /// Replaces the payload of a cell by `value`, with the edges that its
    /// `trace` reports, after the write barrier. Hands back the old payload,
    /// or the new one where the cell is not outstanding or a strong pointer
    /// among the edges is not accessible.
    pub fn write(&mut self, cell: GcCell, value: T) -> (out: Result<T, T>)
        requires
            old(self).wf(),
        ensures
            final(self).wf(),
            out is Ok <==> (old(self)@.contains(cell.inner) && old(self)@.edges_accessible(
                reported(&value),
                old(self).epoch(),
            )),
            match out {
                Ok(previous) => {
                    &&& previous == old(self)@.boxes[cell.inner].value
                    &&& final(self)@ == old(self)@.write(cell.inner, reported(&value), value)
                },
                Err(back) => {
                    &&& back == value
                    &&& final(self)@ == old(self)@
                },
            },
            forall|x: Gc| old(self).accessible(x) ==> final(self).accessible(x),
            final(self)@.mutated_from(old(self)@),
            final(self).pacing() == old(self).pacing(),
            final(self).epoch() == old(self).epoch(),
            final(self).same_settings(old(self)),
    {
        let (_needs_trace, edges) = edges_of(&value);
        self.write_checked(cell.inner, value, edges)
    }
}

} // verus!
