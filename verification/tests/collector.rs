use std::rc::Rc;

use gc_arena::arena::{rootless_arena, Arena};
use gc_arena::collect::{edges_of, Collect, CollectionContext};
use gc_arena::context::Context;
use gc_arena::gc::{Edge, Gc, GcCell};
use gc_arena::gc_weak::GcWeak;
use gc_arena::gc_weak_cell::GcWeakCell;
use gc_arena::pacing::ArenaParameters;
use gc_arena::state::Phase;
use gc_arena::types::GcColor;

/// A node of a graph: a label, strong pointers and weak pointers.
struct Node {
    label: u32,
    strong: Vec<Gc>,
    weak: Vec<GcWeak>,
    _count: Option<Rc<()>>,
}

impl Node {
    fn leaf(label: u32) -> Node {
        Node { label, strong: Vec::new(), weak: Vec::new(), _count: None }
    }

    fn pointing_to(label: u32, strong: Vec<Gc>) -> Node {
        Node { label, strong, weak: Vec::new(), _count: None }
    }
}

impl Collect for Node {
    fn needs_trace() -> bool {
        true
    }

    fn trace(&self, cc: &mut CollectionContext) {
        for g in &self.strong {
            g.trace(cc);
        }
        for w in &self.weak {
            w.trace(cc);
        }
    }
}

struct Roots(Vec<Gc>);

impl Collect for Roots {
    fn needs_trace() -> bool {
        true
    }

    fn trace(&self, cc: &mut CollectionContext) {
        for g in &self.0 {
            cc.trace(*g);
        }
    }
}

fn new_context() -> Context<Node> {
    Context::new(ArenaParameters::default())
}

#[test]
fn unreachable_boxes_are_freed_and_reachable_kept() {
    let mut cx = new_context();
    let leaf = Gc::allocate(&mut cx, Node::leaf(1)).ok().unwrap();
    let inner = Gc::allocate(&mut cx, Node::pointing_to(2, vec![leaf])).ok().unwrap();
    let top = Gc::allocate(&mut cx, Node::pointing_to(3, vec![inner])).ok().unwrap();
    let lost = Gc::allocate(&mut cx, Node::pointing_to(4, vec![leaf])).ok().unwrap();
    let mut arena = Arena::new(cx, Roots(vec![top])).ok().unwrap();
    assert_eq!(arena.read().len(), 4);

    arena.collect_all();
    arena.collect_all();

    let cx = arena.read();
    assert_eq!(cx.len(), 3);
    assert!(cx.contains(top) && cx.contains(inner) && cx.contains(leaf));
    assert!(!cx.contains(lost));
    assert_eq!(top.get(cx).label, 3);
    assert_eq!(inner.get(cx).label, 2);
    assert_eq!(leaf.get(cx).label, 1);
    assert!(lost.try_get(cx).is_none());
}

#[test]
fn cycles_are_collected() {
    let mut cx = new_context();
    let a = GcCell::allocate(&mut cx, Node::leaf(1)).ok().unwrap();
    let b = GcCell::allocate(&mut cx, Node::pointing_to(2, vec![a.get_inner()])).ok().unwrap();
    assert!(a.write(&mut cx, Node::pointing_to(1, vec![b.get_inner()])).is_ok());
    let kept = Gc::allocate(&mut cx, Node::leaf(3)).ok().unwrap();
    let mut arena = Arena::new(cx, Roots(vec![kept])).ok().unwrap();

    arena.collect_all();
    arena.collect_all();

    let cx = arena.read();
    assert_eq!(cx.len(), 1);
    assert!(!cx.contains(a.get_inner()));
    assert!(!cx.contains(b.get_inner()));
    assert!(cx.contains(kept));
}

#[test]
fn reachable_cycle_is_kept() {
    let mut cx = new_context();
    let a = GcCell::allocate(&mut cx, Node::leaf(1)).ok().unwrap();
    let b = GcCell::allocate(&mut cx, Node::pointing_to(2, vec![a.get_inner()])).ok().unwrap();
    assert!(a.write(&mut cx, Node::pointing_to(1, vec![b.get_inner()])).is_ok());
    let mut arena = Arena::new(cx, Roots(vec![a.get_inner()])).ok().unwrap();

    arena.collect_all();
    arena.collect_all();
    arena.collect_all();

    let cx = arena.read();
    assert_eq!(cx.len(), 2);
    assert_eq!(a.read(cx).strong, vec![b.get_inner()]);
    assert_eq!(b.read(cx).strong, vec![a.get_inner()]);
}

#[test]
fn further_collections_change_nothing() {
    let mut cx = new_context();
    let leaf = Gc::allocate(&mut cx, Node::leaf(1)).ok().unwrap();
    let top = Gc::allocate(&mut cx, Node::pointing_to(2, vec![leaf])).ok().unwrap();
    let _lost = Gc::allocate(&mut cx, Node::leaf(3)).ok().unwrap();
    let mut arena = Arena::new(cx, Roots(vec![top])).ok().unwrap();

    arena.collect_all();
    arena.collect_all();
    let settled = arena.read().len();
    let bytes = arena.metrics().total_allocated;
    assert_eq!(settled, 2);
    for _ in 0..5 {
        arena.collect_all();
        assert_eq!(arena.read().len(), settled);
        assert_eq!(arena.metrics().total_allocated, bytes);
        assert!(arena.read().contains(top) && arena.read().contains(leaf));
    }
}

#[test]
fn box_born_in_a_cycle_outlasts_it() {
    let mut cx = new_context();
    let kept = Gc::allocate(&mut cx, Node::leaf(1)).ok().unwrap();
    let mut arena = Arena::new(cx, Roots(vec![kept])).ok().unwrap();

    let (mc, _root) = arena.mutate();
    assert_eq!(mc.phase(), Phase::Sleep);
    mc.step();
    assert_eq!(mc.phase(), Phase::Propagate);
    let fresh = Gc::allocate(mc, Node::leaf(2)).ok().unwrap();
    assert_eq!(mc.flags(fresh).color(), GcColor::FreshWhite);

    arena.collect_all();
    assert_eq!(arena.read().phase(), Phase::Sleep);
    assert!(arena.read().contains(fresh));
    assert_eq!(fresh.get(arena.read()).label, 2);
    assert_eq!(arena.read().flags(fresh).color(), GcColor::White);

    arena.collect_all();
    assert!(!arena.read().contains(fresh));
    assert!(arena.read().contains(kept));
}

#[test]
fn box_born_asleep_is_white() {
    let mut cx = new_context();
    let g = Gc::allocate(&mut cx, Node::leaf(1)).ok().unwrap();
    let flags = cx.flags(g);
    assert_eq!(flags.color(), GcColor::White);
    assert!(flags.alive());
    assert!(flags.needs_trace());
    assert!(!flags.has_weak_ref());
}

#[test]
fn weakly_held_fresh_box_is_swept_with_the_cycle() {
    let mut cx = new_context();
    let holder = GcCell::allocate(&mut cx, Node::leaf(1)).ok().unwrap();
    let mut arena = Arena::new(cx, Roots(vec![holder.get_inner()])).ok().unwrap();

    let (mc, _root) = arena.mutate();
    mc.step();
    assert_eq!(mc.phase(), Phase::Propagate);
    let fresh = Gc::allocate(mc, Node::leaf(2)).ok().unwrap();
    let weak = GcWeak::downgrade(fresh, mc);
    let node = Node { label: 1, strong: Vec::new(), weak: vec![weak], _count: None };
    assert!(holder.write(mc, node).is_ok());

    arena.collect_all();
    assert!(!arena.read().contains(fresh));
    assert_eq!(weak.upgrade(arena.read()), None);
}

#[test]
fn dropped_allocation_leaves_no_trace() {
    let mut cx = new_context();
    let kept = Gc::allocate(&mut cx, Node::leaf(1)).ok().unwrap();
    let mut arena = Arena::new(cx, Roots(vec![kept])).ok().unwrap();
    arena.collect_all();
    arena.collect_all();
    let steady = arena.metrics().total_allocated;
    assert_eq!(arena.read().len(), 1);

    for _ in 0..10 {
        let (mc, _root) = arena.mutate();
        let dropped = Gc::allocate(mc, Node::leaf(9)).ok().unwrap();
        assert!(mc.contains(dropped));
        arena.collect_all();
        arena.collect_all();
        assert!(!arena.read().contains(dropped));
        assert_eq!(arena.metrics().total_allocated, steady);
        assert_eq!(arena.read().len(), 1);
    }
}

#[test]
fn downgrade_then_upgrade_gives_the_same_pointer() {
    let mut cx = new_context();
    let target = Gc::allocate(&mut cx, Node::leaf(7)).ok().unwrap();
    let mut arena = Arena::new(cx, Roots(vec![target])).ok().unwrap();

    let (mc, root) = arena.mutate();
    let weak = GcWeak::downgrade(root.0[0], mc);
    assert!(mc.flags(target).has_weak_ref());
    assert_eq!(weak.upgrade(mc), Some(target));
    assert!(Gc::ptr_eq(weak.upgrade(mc).unwrap(), target));

    arena.collect_all();
    arena.collect_all();
    assert_eq!(weak.upgrade(arena.read()), Some(target));
}

#[test]
fn upgrade_of_a_dead_weak_pointer_is_none() {
    let mut cx = new_context();
    let kept = Gc::allocate(&mut cx, Node::leaf(1)).ok().unwrap();
    let lost = Gc::allocate(&mut cx, Node::leaf(2)).ok().unwrap();
    let weak = GcWeak::downgrade(lost, &mut cx);
    let mut arena = Arena::new(cx, Roots(vec![kept])).ok().unwrap();
    assert_eq!(weak.upgrade(arena.read()), Some(lost));

    arena.collect_all();
    arena.collect_all();
    assert_eq!(weak.upgrade(arena.read()), None);
}

#[test]
fn weak_pointer_does_not_keep_its_target() {
    let mut cx = new_context();
    let target = Gc::allocate(&mut cx, Node::leaf(2)).ok().unwrap();
    let weak = GcWeak::downgrade(target, &mut cx);
    let holder = Gc::allocate(
        &mut cx,
        Node { label: 1, strong: Vec::new(), weak: vec![weak], _count: None },
    )
    .ok()
    .unwrap();
    let mut arena = Arena::new(cx, Roots(vec![holder])).ok().unwrap();

    arena.collect_all();
    arena.collect_all();
    assert!(arena.read().contains(holder));
    assert!(!arena.read().contains(target));
    assert_eq!(holder.get(arena.read()).weak[0].upgrade(arena.read()), None);
}

#[test]
fn weak_cell_upgrades_to_its_cell() {
    let mut cx = new_context();
    let cell = GcCell::allocate(&mut cx, Node::leaf(5)).ok().unwrap();
    let other = GcCell::allocate(&mut cx, Node::leaf(6)).ok().unwrap();
    let weak = GcWeakCell::downgrade(cell, &mut cx);
    let dead = GcWeakCell::downgrade(other, &mut cx);
    let mut arena = Arena::new(cx, Roots(vec![cell.get_inner()])).ok().unwrap();
    assert_eq!(weak.upgrade(arena.read()), Some(cell));
    assert!(GcCell::ptr_eq(weak.upgrade(arena.read()).unwrap(), cell));

    arena.collect_all();
    arena.collect_all();
    assert_eq!(weak.upgrade(arena.read()), Some(cell));
    assert_eq!(dead.upgrade(arena.read()), None);
}

#[test]
fn weak_pointer_to_a_stale_handle_is_dead() {
    let mut cx = new_context();
    let stale = Gc { index: 17, generation: 3 };
    let weak = GcWeak::downgrade(stale, &mut cx);
    assert_eq!(weak.inner, stale);
    assert_eq!(weak.upgrade(&cx), None);
    assert_eq!(cx.len(), 0);
}

#[test]
fn pointer_kept_across_a_collection_is_refused() {
    let mut cx = new_context();
    let kept = Gc::allocate(&mut cx, Node::leaf(1)).ok().unwrap();
    let lost = Gc::allocate(&mut cx, Node::leaf(2)).ok().unwrap();
    let mut arena = Arena::new(cx, Roots(vec![kept])).ok().unwrap();
    arena.collect_all();
    arena.collect_all();

    let (mc, _root) = arena.mutate();
    assert!(!mc.is_accessible(lost));
    let refused = Gc::allocate(mc, Node::pointing_to(3, vec![lost]));
    match refused {
        Ok(_) => panic!("a pointer to a freed box was stored"),
        Err(back) => {
            assert_eq!(back.label, 3);
            assert_eq!(back.strong, vec![lost]);
        }
    }
    assert_eq!(mc.len(), 1);
    assert!(mc.is_accessible(kept));
    assert!(Gc::allocate(mc, Node::pointing_to(4, vec![kept])).is_ok());
    assert_eq!(mc.len(), 2);
}

#[test]
fn write_to_a_freed_cell_is_refused() {
    let mut cx = new_context();
    let kept = Gc::allocate(&mut cx, Node::leaf(1)).ok().unwrap();
    let lost = GcCell::allocate(&mut cx, Node::leaf(2)).ok().unwrap();
    let mut arena = Arena::new(cx, Roots(vec![kept])).ok().unwrap();
    arena.collect_all();
    arena.collect_all();

    let (mc, _root) = arena.mutate();
    match lost.write(mc, Node::leaf(5)) {
        Ok(_) => panic!("a freed cell was written"),
        Err(back) => assert_eq!(back.label, 5),
    }
}

#[test]
fn write_hands_back_the_old_payload() {
    let mut cx = new_context();
    let cell = GcCell::allocate(&mut cx, Node::leaf(1)).ok().unwrap();
    let previous = cell.write(&mut cx, Node::leaf(2)).ok().unwrap();
    assert_eq!(previous.label, 1);
    assert_eq!(cell.read(&cx).label, 2);
}

#[test]
fn root_with_an_inaccessible_pointer_is_refused() {
    let cx = new_context();
    let stale = Gc { index: 0, generation: 0 };
    match Arena::new(cx, Roots(vec![stale])) {
        Ok(_) => panic!("a root with a stale pointer was installed"),
        Err((back, root)) => {
            assert_eq!(back.len(), 0);
            assert_eq!(root.0, vec![stale]);
        }
    }
}

#[test]
fn opening_a_box_makes_its_targets_accessible() {
    let mut cx = new_context();
    let leaf = Gc::allocate(&mut cx, Node::leaf(1)).ok().unwrap();
    let top = Gc::allocate(&mut cx, Node::pointing_to(2, vec![leaf])).ok().unwrap();
    let mut arena = Arena::new(cx, Roots(vec![top])).ok().unwrap();
    arena.collect_debt();
    arena.collect_all();

    let (mc, root) = arena.mutate();
    assert!(mc.is_accessible(root.0[0]));
    assert!(!mc.is_accessible(leaf));
    assert!(!mc.open(leaf));
    assert!(mc.open(top));
    assert!(mc.is_accessible(leaf));
    assert!(Gc::allocate(mc, Node::pointing_to(3, vec![leaf, top])).is_ok());
}

#[test]
fn write_barrier_regrays_a_black_cell() {
    let mut cx = new_context();
    let cell = GcCell::allocate(&mut cx, Node::leaf(1)).ok().unwrap();
    let mut arena = Arena::new(cx, Roots(vec![cell.get_inner()])).ok().unwrap();

    let (mc, root) = arena.mutate();
    let cell = GcCell { inner: root.0[0] };
    // wake, trace the root, trace the cell
    assert!(!mc.step());
    assert!(!mc.step());
    assert_eq!(mc.flags(cell.get_inner()).color(), GcColor::Gray);
    assert!(mc.step());
    assert_eq!(mc.flags(cell.get_inner()).color(), GcColor::Black);
    assert_eq!(mc.phase(), Phase::Propagate);

    mc.open_roots();
    let late = Gc::allocate(mc, Node::leaf(2)).ok().unwrap();
    assert!(cell.write(mc, Node::pointing_to(1, vec![late])).is_ok());
    assert_eq!(mc.flags(cell.get_inner()).color(), GcColor::Gray);

    // the cell is traced again, so the late box is marked and not swept
    arena.collect_all();
    assert!(arena.read().contains(late));
    arena.collect_all();
    assert!(arena.read().contains(late));
    assert_eq!(arena.read().len(), 2);
}

#[test]
fn write_barrier_leaves_other_colors_alone() {
    let mut cx = new_context();
    let cell = GcCell::allocate(&mut cx, Node::leaf(1)).ok().unwrap();
    cx.write_barrier(cell.get_inner());
    assert_eq!(cx.flags(cell.get_inner()).color(), GcColor::White);
    cx.write_barrier(Gc { index: 99, generation: 0 });
    assert_eq!(cx.len(), 1);
}

#[test]
fn sweep_walks_the_list_in_allocation_order() {
    let mut arena: Arena<(), Node> = rootless_arena(ArenaParameters::default());
    let (mc, _root) = arena.mutate();
    let first = Gc::allocate(mc, Node::leaf(1)).ok().unwrap();
    let second = Gc::allocate(mc, Node::leaf(2)).ok().unwrap();
    let third = Gc::allocate(mc, Node::leaf(3)).ok().unwrap();
    // wake, trace the root, turn to sweeping
    mc.step();
    mc.step();
    mc.step();
    assert_eq!(mc.phase(), Phase::Sweep);
    assert!(mc.step());
    assert!(!mc.contains(first) && mc.contains(second) && mc.contains(third));
    assert!(mc.step());
    assert!(!mc.contains(second) && mc.contains(third));
    assert!(mc.step());
    assert_eq!(mc.len(), 0);
    assert!(!mc.step());
    assert_eq!(mc.phase(), Phase::Sleep);
}

#[test]
fn freed_slot_is_reused_under_a_new_generation() {
    let mut arena: Arena<(), Node> = rootless_arena(ArenaParameters::default());
    let (mc, _root) = arena.mutate();
    let first = Gc::allocate(mc, Node::leaf(1)).ok().unwrap();
    arena.collect_all();
    arena.collect_all();
    assert!(!arena.read().contains(first));

    let (mc, _root) = arena.mutate();
    let second = Gc::allocate(mc, Node::leaf(2)).ok().unwrap();
    assert_eq!(second.index, first.index);
    assert_eq!(second.generation, first.generation + 1);
    assert!(!Gc::ptr_eq(first, second));
    assert!(mc.contains(second));
    assert!(!mc.contains(first));
    assert!(first.try_get(mc).is_none());
    assert_eq!(second.get(mc).label, 2);
}

#[test]
fn payload_is_dropped_when_its_box_is_swept() {
    let count = Rc::new(());
    let mut arena: Arena<(), Node> = rootless_arena(ArenaParameters::default());
    let (mc, _root) = arena.mutate();
    for _ in 0..10 {
        let node = Node { label: 0, strong: Vec::new(), weak: Vec::new(), _count: Some(count.clone()) };
        assert!(Gc::allocate(mc, node).is_ok());
    }
    assert_eq!(Rc::strong_count(&count), 11);
    arena.collect_all();
    assert_eq!(Rc::strong_count(&count), 1);
}

#[test]
fn rootless_arena_starts_empty() {
    let arena: Arena<(), Node> = rootless_arena(ArenaParameters::default());
    assert_eq!(arena.read().len(), 0);
    assert_eq!(arena.read().phase(), Phase::Sleep);
    assert_eq!(arena.metrics().total_allocated, 0);
    assert_eq!(arena.metrics().allocation_debt, 0);
    assert_eq!(arena.read().arena_parameters(), ArenaParameters::default());
}

#[test]
fn trace_reports_edges_in_order() {
    let a = Gc { index: 1, generation: 0 };
    let b = Gc { index: 2, generation: 5 };
    let node = Node {
        label: 0,
        strong: vec![a, b],
        weak: vec![GcWeak { inner: a }],
        _count: None,
    };
    let (needed, edges) = edges_of(&node);
    assert!(needed);
    assert_eq!(edges, vec![Edge::Strong(a), Edge::Strong(b), Edge::Weak(a)]);

    let (needed, edges) = edges_of(&42i32);
    assert!(!needed);
    assert_eq!(edges, Vec::new());

    let (needed, edges) = edges_of(&vec![Some(a), None, Some(b)]);
    assert!(needed);
    assert_eq!(edges, vec![Edge::Strong(a), Edge::Strong(b)]);

    let (needed, edges) = edges_of(&(7u8, GcCell { inner: b }));
    assert!(needed);
    assert_eq!(edges, vec![Edge::Strong(b)]);

    let weak_cell = GcWeakCell { inner: GcCell { inner: b } };
    let (needed, edges) = edges_of(&weak_cell);
    assert!(needed);
    assert_eq!(edges, vec![Edge::Weak(b)]);
}

#[test]
fn untraced_payload_turns_black_without_the_work_list() {
    let mut cx: Context<i32> = Context::new(ArenaParameters::default());
    let n = Gc::allocate(&mut cx, 5).ok().unwrap();
    assert!(!cx.flags(n).needs_trace());
    let mut arena = Arena::new(cx, Roots(vec![n])).ok().unwrap();
    let (mc, _root) = arena.mutate();
    // wake, then trace the root: the box goes from white to black at once
    mc.step();
    mc.step();
    assert_eq!(mc.flags(n).color(), GcColor::Black);
    // nothing is on the work list: the next unit turns to sweeping
    assert!(!mc.step());
    assert_eq!(mc.phase(), Phase::Sweep);
}
