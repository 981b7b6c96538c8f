//! The store of managed boxes: a slab of slots threaded by an intrusive list
//! in allocation order.

use vstd::prelude::*;
use crate::gc::{Edge, Gc};
use crate::types::{BoxView, GcBox, GcFlags};

verus! {

/// One place in the slab. A vacant slot keeps its generation, so that a
/// handle to a box that once lived there is told apart from a later tenant.
pub struct Slot<T> {
    pub generation: u64,
    pub entry: Option<GcBox<T>>,
}

/// The boxes that are outstanding, by handle, and the order in which the
/// intrusive list holds them: oldest first.
pub struct HeapView<T> {
    pub boxes: Map<Gc, BoxView<T>>,
    pub order: Seq<Gc>,
}

impl<T> HeapView<T> {
    /// The list holds every outstanding box, and each once.
    pub open spec fn wf(self) -> bool {
        &&& self.order.no_duplicates()
        &&& forall|g: Gc| self.boxes.dom().contains(g) <==> self.order.contains(g)
    }
}

pub struct Heap<T> {
    slots: Vec<Slot<T>>,
    free: Vec<usize>,
    all: Option<usize>,
    last: Option<usize>,
    live: usize,
    order: Ghost<Seq<usize>>,
}

impl<T> View for Heap<T> {
    type V = HeapView<T>;

    closed spec fn view(&self) -> HeapView<T> {
        HeapView {
            boxes: Map::new(|g: Gc| self.occupied(g), |g: Gc| self.slots@[g.index as int].entry.unwrap()@),
            order: Seq::new(self.order@.len(), |k: int| self.handle(self.order@[k])),
        }
    }
}

impl<T> Heap<T> {
    /// The handle of the box that slot `i` holds now.
    closed spec fn handle(&self, i: usize) -> Gc {
        Gc { index: i, generation: self.slots@[i as int].generation }
    }

    /// Whether `g` names a box that is outstanding.
    closed spec fn occupied(&self, g: Gc) -> bool {
        &&& g.index < self.slots@.len()
        &&& self.slots@[g.index as int].generation == g.generation
        &&& self.slots@[g.index as int].entry is Some
    }

    closed spec fn links_wf(&self) -> bool {
        let order = self.order@;
        &&& forall|k: int| 0 <= k < order.len() ==> #[trigger] order[k] < self.slots@.len()
        &&& forall|k: int|
            0 <= k < order.len() ==> (#[trigger] self.slots@[order[k] as int]).entry is Some
        &&& forall|k: int|
            0 <= k < order.len() ==> (#[trigger] self.slots@[order[k] as int]).entry.unwrap().next == (
            if k + 1 < order.len() {
                Some(order[k + 1])
            } else {
                None
            })
        &&& order.no_duplicates()
        &&& forall|i: usize|
            i < self.slots@.len() && (#[trigger] self.slots@[i as int]).entry is Some
                ==> order.contains(i)
        &&& self.all == (if order.len() > 0 {
            Some(order[0])
        } else {
            None
        })
        &&& self.last == (if order.len() > 0 {
            Some(order[order.len() - 1])
        } else {
            None
        })
    }

    closed spec fn free_wf(&self) -> bool {
        let free = self.free@;
        &&& forall|j: int| 0 <= j < free.len() ==> #[trigger] free[j] < self.slots@.len()
        &&& forall|j: int|
            0 <= j < free.len() ==> (#[trigger] self.slots@[free[j] as int]).entry is None
        &&& free.no_duplicates()
        &&& self.live == self.order@.len()
        &&& self.live + free.len() <= self.slots@.len()
    }

    /// The slab, the list and the free list agree.
    pub closed spec fn wf(&self) -> bool {
        self.links_wf() && self.free_wf()
    }

    /// A well-formed heap has a well-formed view.
    pub proof fn lemma_view_wf(&self)
        requires
            self.wf(),
        ensures
            self@.wf(),
    {
        let v = self@;
        assert forall|a: int, b: int| 0 <= a < v.order.len() && 0 <= b < v.order.len() && a != b
            implies v.order[a] != v.order[b] by {
            assert(self.order@[a] != self.order@[b]);
        }
        assert forall|g: Gc| v.boxes.dom().contains(g) <==> v.order.contains(g) by {
            if v.boxes.dom().contains(g) {
                assert(self.slots@[g.index as int].entry is Some);
                assert(self.order@.contains(g.index));
                let k = choose|k: int| 0 <= k < self.order@.len() && self.order@[k] == g.index;
                assert(v.order[k] == g);
            }
            if v.order.contains(g) {
                let k = choose|k: int| 0 <= k < v.order.len() && v.order[k] == g;
                assert(self.slots@[self.order@[k] as int].entry is Some);
            }
        }
    }

    /// An empty heap.
    pub fn new() -> (heap: Heap<T>)
        ensures
            heap.wf(),
            heap@.boxes == Map::<Gc, BoxView<T>>::empty(),
            heap@.order == Seq::<Gc>::empty(),
    {
        let heap = Heap {
            slots: Vec::new(),
            free: Vec::new(),
            all: None,
            last: None,
            live: 0,
            order: Ghost(Seq::empty()),
        };
        assert(heap@.boxes =~= Map::<Gc, BoxView<T>>::empty());
        assert(heap@.order =~= Seq::<Gc>::empty());
        heap
    }

    /// How many boxes are outstanding.
    pub fn len(&self) -> (count: usize)
        requires
            self.wf(),
        ensures
            count == self@.order.len(),
    {
        self.live
    }

    /// Whether `g` names a box that is outstanding.
    pub fn contains(&self, g: Gc) -> (held: bool)
        ensures
            held == self@.boxes.dom().contains(g),
    {
        if g.index < self.slots.len() {
            let slot = &self.slots[g.index];
            slot.generation == g.generation && slot.entry.is_some()
        } else {
            false
        }
    }

    /// The header of a box.
    pub fn flags(&self, g: Gc) -> (flags: GcFlags)
        requires
            self@.boxes.dom().contains(g),
        ensures
            flags@ == self@.boxes[g].flags,
    {
        match &self.slots[g.index].entry {
            Some(b) => b.flags,
            None => GcFlags::new(),
        }
    }

    /// The payload of a box.
    pub fn value(&self, g: Gc) -> (value: &T)
        requires
            self@.boxes.dom().contains(g),
        ensures
            *value == self@.boxes[g].value,
    {
        self.slots[g.index].entry.as_ref().unwrap().borrow_value()
    }

    /// The edges of a box.
    pub fn edges(&self, g: Gc) -> (edges: &Vec<Edge>)
        requires
            self@.boxes.dom().contains(g),
        ensures
            edges@ == self@.boxes[g].edges,
    {
        self.slots[g.index].entry.as_ref().unwrap().borrow_edges()
    }

    /// Replaces the header of a box.
    pub fn set_flags(&mut self, g: Gc, flags: GcFlags)
        requires
            old(self).wf(),
            old(self)@.boxes.dom().contains(g),
        ensures
            final(self).wf(),
            final(self)@.boxes == old(self)@.boxes.insert(
                g,
                BoxView { flags: flags@, ..old(self)@.boxes[g] },
            ),
            final(self)@.order == old(self)@.order,
    {
        let slot = &mut self.slots[g.index];
        match &mut slot.entry {
            Some(b) => {
                b.flags = flags;
            },
            None => {},
        }
        proof {
            assert(self.order@ == old(self).order@);
            assert(self.slots@.len() == old(self).slots@.len());
            assert forall|i: int| 0 <= i < self.slots@.len() implies (#[trigger] self.slots@[i]).generation
                == old(self).slots@[i].generation && (self.slots@[i].entry is Some) == (old(
                self,
            ).slots@[i].entry is Some) && (self.slots@[i].entry is Some
                ==> self.slots@[i].entry.unwrap().next == old(self).slots@[i].entry.unwrap().next)
                by {}
            assert(self.links_wf());
            assert(self.free_wf());
            assert(self@.boxes =~= old(self)@.boxes.insert(
                g,
                BoxView { flags: flags@, ..old(self)@.boxes[g] },
            ));
            assert(self@.order =~= old(self)@.order);
        }
    }

    /// Records the epoch in which the mutator was handed a box.
    pub fn set_seen(&mut self, g: Gc, seen: u64)
        requires
            old(self).wf(),
            old(self)@.boxes.dom().contains(g),
        ensures
            final(self).wf(),
            final(self)@.boxes == old(self)@.boxes.insert(
                g,
                BoxView { seen, ..old(self)@.boxes[g] },
            ),
            final(self)@.order == old(self)@.order,
    {
        let slot = &mut self.slots[g.index];
        match &mut slot.entry {
            Some(b) => {
                b.seen = seen;
            },
            None => {},
        }
        proof {
            assert(self.order@ == old(self).order@);
            assert(self.slots@.len() == old(self).slots@.len());
            assert forall|i: int| 0 <= i < self.slots@.len() implies (#[trigger] self.slots@[i]).generation
                == old(self).slots@[i].generation && (self.slots@[i].entry is Some) == (old(
                self,
            ).slots@[i].entry is Some) && (self.slots@[i].entry is Some
                ==> self.slots@[i].entry.unwrap().next == old(self).slots@[i].entry.unwrap().next)
                by {}
            assert(self.links_wf());
            assert(self.free_wf());
            assert(self@.boxes =~= old(self)@.boxes.insert(
                g,
                BoxView { seen, ..old(self)@.boxes[g] },
            ));
            assert(self@.order =~= old(self)@.order);
        }
    }

    /// The epoch in which the mutator was last handed a box.
    pub fn seen(&self, g: Gc) -> (seen: u64)
        requires
            self@.boxes.dom().contains(g),
        ensures
            seen == self@.boxes[g].seen,
    {
        match &self.slots[g.index].entry {
            Some(b) => b.seen,
            None => 0,
        }
    }

    /// Replaces the payload of a box and its edges, and hands back the
    /// payload that was there.
    pub fn replace(&mut self, g: Gc, value: T, edges: Vec<Edge>) -> (previous: T)
        requires
            old(self).wf(),
            old(self)@.boxes.dom().contains(g),
        ensures
            final(self).wf(),
            final(self)@.boxes == old(self)@.boxes.insert(
                g,
                BoxView { edges: edges@, value, ..old(self)@.boxes[g] },
            ),
            final(self)@.order == old(self)@.order,
            previous == old(self)@.boxes[g].value,
    {
        let slot = &mut self.slots[g.index];
        let mut held = value;
        match &mut slot.entry {
            Some(b) => {
                core::mem::swap(&mut b.value, &mut held);
                b.edges = edges;
            },
            None => {},
        }
        proof {
            assert(self.order@ == old(self).order@);
            assert(self.slots@.len() == old(self).slots@.len());
            assert forall|i: int| 0 <= i < self.slots@.len() implies (#[trigger] self.slots@[i]).generation
                == old(self).slots@[i].generation && (self.slots@[i].entry is Some) == (old(
                self,
            ).slots@[i].entry is Some) && (self.slots@[i].entry is Some
                ==> self.slots@[i].entry.unwrap().next == old(self).slots@[i].entry.unwrap().next)
                by {}
            assert(self.links_wf());
            assert(self.free_wf());
            assert(self@.boxes =~= old(self)@.boxes.insert(
                g,
                BoxView { edges: edges@, value, ..old(self)@.boxes[g] },
            ));
            assert(self@.order =~= old(self)@.order);
        }
        held
    }

    /// The oldest outstanding box.
    pub fn first(&self) -> (head: Option<Gc>)
        requires
            self.wf(),
        ensures
            head == (if self@.order.len() > 0 {
                Some(self@.order[0])
            } else {
                None
            }),
    {
        match self.all {
            Some(i) => Some(Gc { index: i, generation: self.slots[i].generation }),
            None => None,
        }
    }

    /// The box allocated after the one at position `p` of the list.
    pub(crate) fn next(&self, g: Gc, Ghost(p): Ghost<int>) -> (after: Option<Gc>)
        requires
            self.wf(),
            0 <= p < self@.order.len(),
            self@.order[p] == g,
        ensures
            after == (if p + 1 < self@.order.len() {
                Some(self@.order[p + 1])
            } else {
                None
            }),
    {
        assert(self.order@[p] == g.index);
        assert(self.slots@[self.order@[p] as int].entry is Some);
        let link = self.slots[g.index].entry.as_ref().unwrap().next;
        match link {
            Some(i) => {
                assert(i == self.order@[p + 1]);
                Some(Gc { index: i, generation: self.slots[i].generation })
            },
            None => None,
        }
    }

    /// Adds a box at the tail of the list and hands back its handle, which
    /// named no box that was outstanding.
    pub fn insert(&mut self, flags: GcFlags, seen: u64, edges: Vec<Edge>, value: T) -> (g: Gc)
        requires
            old(self).wf(),
        ensures
            final(self).wf(),
            !old(self)@.boxes.dom().contains(g),
            final(self)@.boxes == old(self)@.boxes.insert(
                g,
                BoxView { flags: flags@, seen, edges: edges@, value },
            ),
            final(self)@.order == old(self)@.order.push(g),
    {
        let ghost before = *self;
        let fresh = GcBox { flags, next: None, seen, edges, value };
        let index: usize;
        if self.free.len() > 0 {
            let i: usize = self.free.pop().unwrap();
            assert(i == old(self).free@[old(self).free@.len() - 1]);
            self.slots[i].entry = Some(fresh);
            index = i;
        } else {
            index = self.slots.len();
            self.slots.push(Slot { generation: 0, entry: Some(fresh) });
        }
        let ghost mid = *self;
        proof {
            assert(!before.order@.contains(index)) by {
                if before.order@.contains(index) {
                    let k = choose|k: int| 0 <= k < before.order@.len() && before.order@[k] == index;
                    assert(before.slots@[before.order@[k] as int].entry is Some);
                }
            }
            assert forall|i: int| 0 <= i < before.slots@.len() && i != index implies mid.slots@[i]
                == before.slots@[i] by {}
        }
        match self.last {
            Some(t) => {
                assert(t == before.order@[before.order@.len() - 1]);
                assert(before.slots@[before.order@[before.order@.len() - 1] as int].entry is Some);
                match &mut self.slots[t].entry {
                    Some(b) => {
                        b.next = Some(index);
                    },
                    None => {},
                }
            },
            None => {
                self.all = Some(index);
            },
        }
        self.last = Some(index);
        self.order = Ghost(before.order@.push(index));
        let slots_now: usize = self.slots.len();
        assert(before.live < slots_now);
        self.live = self.live + 1;
        let g = Gc { index, generation: self.slots[index].generation };
        proof {
            let order = self.order@;
            let n = before.order@.len();
            assert(order.len() == n + 1);
            assert(order[n as int] == index);
            assert forall|k: int| 0 <= k < n implies order[k] == before.order@[k] && order[k]
                != index by {
                assert(before.order@.contains(before.order@[k]));
            }
            assert(self.slots@[index as int].entry is Some);
            assert(self.slots@[index as int].entry.unwrap().next is None);
            assert forall|i: int| 0 <= i < before.slots@.len() && i != index implies (
            #[trigger] self.slots@[i]).generation == before.slots@[i].generation && (
            self.slots@[i].entry is Some) == (before.slots@[i].entry is Some) && (
            self.slots@[i].entry is Some ==> self.slots@[i].entry.unwrap()@
                == before.slots@[i].entry.unwrap()@) by {}
            assert forall|k: int| 0 <= k < order.len() implies #[trigger] order[k]
                < self.slots@.len() by {
                if k < n {
                    assert(before.order@[k] < before.slots@.len());
                }
            }
            assert forall|k: int| 0 <= k < order.len() implies (
            #[trigger] self.slots@[order[k] as int]).entry is Some by {
                if k < n {
                    assert(before.slots@[before.order@[k] as int].entry is Some);
                }
            }
            assert forall|k: int| 0 <= k < order.len() implies (
            #[trigger] self.slots@[order[k] as int]).entry.unwrap().next == (if k + 1
                < order.len() {
                Some(order[k + 1])
            } else {
                None
            }) by {
                if k < n {
                    assert(before.slots@[before.order@[k] as int].entry is Some);
                    if k + 1 < n {
                        assert(before.order@[k] != before.order@[n - 1]);
                    }
                }
            }
            assert(order.no_duplicates());
            assert forall|i: usize|
                i < self.slots@.len() && (#[trigger] self.slots@[i as int]).entry is Some implies order.contains(
                i,
            ) by {
                if i == index {
                    assert(order[n as int] == i);
                } else {
                    assert(before.slots@[i as int].entry is Some);
                    let k = choose|k: int| 0 <= k < before.order@.len() && before.order@[k] == i;
                    assert(order[k] == i);
                }
            }
            assert(self.links_wf());
            assert forall|j: int| 0 <= j < self.free@.len() implies self.free@[j] != index by {
                if before.free@.len() > 0 {
                    assert(self.free@[j] == before.free@[j]);
                } else {
                }
            }
            assert(self.free_wf()) by {
                assert forall|j: int| 0 <= j < self.free@.len() implies #[trigger] self.free@[j]
                    < self.slots@.len() && self.slots@[self.free@[j] as int].entry is None by {
                    assert(self.free@[j] == before.free@[j]);
                    assert(before.slots@[before.free@[j] as int].entry is None);
                }
            }
            assert(!before@.boxes.dom().contains(g));
            assert(self@.boxes =~= before@.boxes.insert(
                g,
                BoxView { flags: flags@, seen, edges: edges@, value },
            ));
            assert(self@.order =~= before@.order.push(g));
        }
        g
    }

    /// Unlinks the box at position `p` of the list, whose predecessor is
    /// `prev`, vacates its slot and hands back its payload. The handle names
    /// no box from then on.
    pub(crate) fn remove(&mut self, prev: Option<Gc>, g: Gc, Ghost(p): Ghost<int>) -> (value: T)
        requires
            old(self).wf(),
            0 <= p < old(self)@.order.len(),
            old(self)@.order[p] == g,
            prev == (if p > 0 {
                Some(old(self)@.order[p - 1])
            } else {
                None
            }),
        ensures
            final(self).wf(),
            final(self)@.boxes == old(self)@.boxes.remove(g),
            final(self)@.order == old(self)@.order.remove(p),
            value == old(self)@.boxes[g].value,
    {
        let ghost before = *self;
        proof {
            assert(before.order@[p] == g.index);
            assert(before.slots@[before.order@[p] as int].entry is Some);
            if p > 0 {
                assert(before.slots@[before.order@[p - 1] as int].entry is Some);
            }
        }
        let taken = self.slots[g.index].entry.take().unwrap();
        let link = taken.next;
        match prev {
            Some(pg) => {
                assert(pg.index == before.order@[p - 1]);
                assert(pg.index != g.index);
                match &mut self.slots[pg.index].entry {
                    Some(b) => {
                        b.next = link;
                    },
                    None => {},
                }
            },
            None => {
                self.all = link;
            },
        }
        if link.is_none() {
            self.last = match prev {
                Some(pg) => Some(pg.index),
                None => None,
            };
        }
        if self.slots[g.index].generation < u64::MAX {
            self.slots[g.index].generation = self.slots[g.index].generation + 1;
            self.free.push(g.index);
        }
        self.order = Ghost(before.order@.remove(p));
        self.live = self.live - 1;
        proof {
            Self::lemma_remove(before, *self, g, p);
        }
        taken.value
    }

    /// How the representation stands after the box at position `p` left.
    spec fn removed(before: Heap<T>, after: Heap<T>, g: Gc, p: int) -> bool {
        &&& before.wf()
        &&& 0 <= p < before.order@.len()
        &&& before.order@[p] == g.index
        &&& before.slots@[g.index as int].generation == g.generation
        &&& after.slots@.len() == before.slots@.len()
        &&& after.slots@[g.index as int].entry is None
        &&& forall|i: int|
            0 <= i < before.slots@.len() && i != g.index && (p == 0 || i != before.order@[p - 1])
                ==> #[trigger] after.slots@[i] == before.slots@[i]
        &&& p > 0 ==> {
            let was = before.slots@[before.order@[p - 1] as int];
            let now = after.slots@[before.order@[p - 1] as int];
            &&& now.generation == was.generation
            &&& now.entry is Some
            &&& now.entry.unwrap().flags == was.entry.unwrap().flags
            &&& now.entry.unwrap().seen == was.entry.unwrap().seen
            &&& now.entry.unwrap().edges == was.entry.unwrap().edges
            &&& now.entry.unwrap().value == was.entry.unwrap().value
            &&& now.entry.unwrap().next == before.slots@[g.index as int].entry.unwrap().next
        }
        &&& after.all == (if p == 0 {
            before.slots@[g.index as int].entry.unwrap().next
        } else {
            before.all
        })
        &&& after.last == (if before.slots@[g.index as int].entry.unwrap().next is None {
            if p > 0 {
                Some(before.order@[p - 1])
            } else {
                None
            }
        } else {
            before.last
        })
        &&& (after.free@ == before.free@ || after.free@ == before.free@.push(g.index))
        &&& after.order@ == before.order@.remove(p)
        &&& after.live == before.live - 1
    }

    /// Where each entry of the list was before the removal.
    proof fn lemma_removed_order(before: Heap<T>, after: Heap<T>, g: Gc, p: int)
        requires
            Self::removed(before, after, g, p),
        ensures
            after.order@.len() == before.order@.len() - 1,
            after.order@.no_duplicates(),
            forall|k: int|
                0 <= k < after.order@.len() ==> {
                    let kk = if k < p { k } else { k + 1 };
                    &&& #[trigger] after.order@[k] == before.order@[kk]
                    &&& after.order@[k] != g.index
                    &&& after.order@[k] < after.slots@.len()
                    &&& before.slots@[after.order@[k] as int].entry is Some
                },
    {
        let old_order = before.order@;
        assert forall|k: int| 0 <= k < after.order@.len() implies {
            let kk = if k < p { k } else { k + 1 };
            &&& #[trigger] after.order@[k] == old_order[kk]
            &&& after.order@[k] != g.index
            &&& after.order@[k] < after.slots@.len()
            &&& before.slots@[after.order@[k] as int].entry is Some
        } by {
            let kk = if k < p { k } else { k + 1 };
            assert(old_order[kk] != old_order[p]);
            assert(old_order[kk] < before.slots@.len());
            assert(before.slots@[old_order[kk] as int].entry is Some);
        }
    }

    proof fn lemma_removed_links(before: Heap<T>, after: Heap<T>, g: Gc, p: int)
        requires
            Self::removed(before, after, g, p),
        ensures
            after.links_wf(),
    {
        Self::lemma_removed_order(before, after, g, p);
        let order = after.order@;
        let old_order = before.order@;
        let n = old_order.len();
        let link = before.slots@[g.index as int].entry.unwrap().next;
        assert(before.slots@[old_order[p] as int].entry is Some);
        assert(link == (if p + 1 < n {
            Some(old_order[p + 1])
        } else {
            None
        }));
        assert forall|k: int| 0 <= k < order.len() implies (
        #[trigger] after.slots@[order[k] as int]).entry is Some by {
            let kk = if k < p { k } else { k + 1 };
            assert(order[k] == old_order[kk]);
            if p > 0 && kk == p - 1 {
            } else {
                if p > 0 {
                    assert(old_order[kk] != old_order[p - 1]);
                }
                assert(after.slots@[order[k] as int] == before.slots@[order[k] as int]);
            }
        }
        assert forall|k: int| 0 <= k < order.len() implies (
        #[trigger] after.slots@[order[k] as int]).entry.unwrap().next == (if k + 1 < order.len() {
            Some(order[k + 1])
        } else {
            None
        }) by {
            let kk = if k < p { k } else { k + 1 };
            assert(order[k] == old_order[kk]);
            assert(before.slots@[old_order[kk] as int].entry is Some);
            if k + 1 < order.len() {
                assert(order[k + 1] == old_order[if k + 1 < p { k + 1 } else { k + 2 }]);
            }
            if p > 0 && kk == p - 1 {
            } else {
                if p > 0 {
                    assert(old_order[kk] != old_order[p - 1]);
                }
                assert(after.slots@[order[k] as int] == before.slots@[order[k] as int]);
            }
        }
        assert forall|i: usize|
            i < after.slots@.len() && (#[trigger] after.slots@[i as int]).entry is Some implies order.contains(
            i,
        ) by {
            assert(i != g.index);
            if p > 0 && i == old_order[p - 1] {
                assert(order[p - 1] == i);
            } else {
                assert(after.slots@[i as int] == before.slots@[i as int]);
                assert(before.slots@[i as int].entry is Some);
                assert(old_order.contains(i));
                let k = choose|k: int| 0 <= k < n && old_order[k] == i;
                if k < p {
                    assert(order[k] == i);
                } else {
                    assert(order[k - 1] == i);
                }
            }
        }
        if order.len() > 0 {
            assert(order[0] == old_order[if 0 < p { 0int } else { 1int }]);
            assert(order[order.len() - 1] == old_order[if order.len() - 1 < p {
                order.len() - 1
            } else {
                order.len() as int
            }]);
        }
    }

    proof fn lemma_removed_free(before: Heap<T>, after: Heap<T>, g: Gc, p: int)
        requires
            Self::removed(before, after, g, p),
        ensures
            after.free_wf(),
    {
        let old_order = before.order@;
        assert(before.slots@[old_order[p] as int].entry is Some);
        if p > 0 {
            assert(before.slots@[old_order[p - 1] as int].entry is Some);
        }
        assert forall|j: int| 0 <= j < before.free@.len() implies before.free@[j] != g.index && (p
            > 0 ==> before.free@[j] != old_order[p - 1]) && before.free@[j] < before.slots@.len() by {
            assert(before.slots@[before.free@[j] as int].entry is None);
        }
        assert forall|j: int| 0 <= j < after.free@.len() implies #[trigger] after.free@[j]
            < after.slots@.len() by {
            if j < before.free@.len() {
                assert(after.free@[j] == before.free@[j]);
            }
        }
        assert forall|j: int| 0 <= j < after.free@.len() implies (
        #[trigger] after.slots@[after.free@[j] as int]).entry is None by {
            if j < before.free@.len() {
                assert(after.free@[j] == before.free@[j]);
                assert(before.slots@[before.free@[j] as int].entry is None);
                assert(after.slots@[after.free@[j] as int] == before.slots@[before.free@[j] as int]);
            }
        }
        assert(after.free@.no_duplicates());
    }

    proof fn lemma_removed_view(before: Heap<T>, after: Heap<T>, g: Gc, p: int)
        requires
            Self::removed(before, after, g, p),
        ensures
            after@.boxes == before@.boxes.remove(g),
            after@.order == before@.order.remove(p),
    {
        Self::lemma_removed_order(before, after, g, p);
        let order = after.order@;
        let old_order = before.order@;
        assert(before.slots@[old_order[p] as int].entry is Some);
        if p > 0 {
            assert(before.slots@[old_order[p - 1] as int].entry is Some);
            assert(old_order[p - 1] != old_order[p]);
        }
        assert forall|i: int| 0 <= i < before.slots@.len() && i != g.index implies (
        #[trigger] after.slots@[i]).generation == before.slots@[i].generation && (
        after.slots@[i].entry is Some) == (before.slots@[i].entry is Some) && (
        after.slots@[i].entry is Some ==> after.slots@[i].entry.unwrap()@
            == before.slots@[i].entry.unwrap()@) by {
            if p > 0 && i == old_order[p - 1] {
            } else {
                assert(after.slots@[i] == before.slots@[i]);
            }
        }
        assert forall|h: Gc| after.occupied(h) <==> (before.occupied(h) && h != g) by {
            if h.index < before.slots@.len() && h.index != g.index {
                assert(after.slots@[h.index as int].generation
                    == before.slots@[h.index as int].generation);
            }
        }
        assert(after@.boxes =~= before@.boxes.remove(g));
        assert forall|k: int| 0 <= k < order.len() implies after.handle(#[trigger] order[k])
            == before.handle(order[k]) by {
            assert(after.slots@[order[k] as int].generation
                == before.slots@[order[k] as int].generation);
        }
        assert(after@.order =~= before@.order.remove(p));
    }

    proof fn lemma_remove(before: Heap<T>, after: Heap<T>, g: Gc, p: int)
        requires
            Self::removed(before, after, g, p),
        ensures
            after.wf(),
            after@.boxes == before@.boxes.remove(g),
            after@.order == before@.order.remove(p),
    {
        Self::lemma_removed_links(before, after, g, p);
        Self::lemma_removed_free(before, after, g, p);
        Self::lemma_removed_view(before, after, g, p);
    }
}

impl<T> GcBox<T> {
    /// The payload.
    pub fn borrow_value(&self) -> (value: &T)
        ensures
            *value == self.value,
    {
        &self.value
    }

    /// The edges.
    pub fn borrow_edges(&self) -> (edges: &Vec<Edge>)
        ensures
            *edges == self.edges,
    {
        &self.edges
    }
}

} // verus!
