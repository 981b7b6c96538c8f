use gc_arena::collect::{edges_of, Collect, CollectionContext, StaticCollect};
use gc_arena::context::Context;
use gc_arena::gc::{Edge, Gc};
use gc_arena::pacing::ArenaParameters;
use gc_arena::shape::{derive_collect, DeriveError, Mode, Shape};
use gc_arena::state::Phase;
use gc_arena::types::GcColor;

fn context() -> Context<u32> {
    Context::new(ArenaParameters::default())
}

#[test]
fn derive_refuses_a_destructor_against_the_promise() {
    let shape = Shape::Product(vec![Shape::Pointer]);
    assert_eq!(derive_collect(&shape, Mode::NoDrop, true), Err(DeriveError::ImplementsDrop));
    assert_eq!(derive_collect(&shape, Mode::NoDrop, false), Ok(true));
    assert_eq!(derive_collect(&shape, Mode::UnsafeDrop, true), Ok(true));
    assert_eq!(derive_collect(&shape, Mode::UnsafeDrop, false), Ok(true));
}

#[test]
fn derive_of_a_static_type_needs_no_trace() {
    let shape = Shape::Product(vec![Shape::Pointer]);
    assert_eq!(derive_collect(&shape, Mode::RequireStatic, false), Ok(false));
    assert_eq!(derive_collect(&shape, Mode::RequireStatic, true), Ok(false));
    let plain = Shape::Product(vec![Shape::Primitive]);
    assert_eq!(derive_collect(&plain, Mode::NoDrop, false), Ok(false));
}

#[test]
fn static_collect_is_never_traced() {
    let hidden = StaticCollect(vec![Gc { index: 1, generation: 1 }]);
    let (needed, edges) = edges_of(&hidden);
    assert!(!needed);
    assert!(edges.is_empty());
}

#[test]
fn allocate_checked_takes_accessible_edges_only() {
    let mut cx = context();
    let a = cx.allocate_checked(1, true, Vec::new()).ok().unwrap();
    let b = cx.allocate_checked(2, true, vec![Edge::Strong(a), Edge::Weak(a)]).ok().unwrap();
    assert!(cx.is_accessible(a) && cx.is_accessible(b));
    assert_eq!(*cx.get(b), 2);

    let stale = Gc { index: 40, generation: 0 };
    assert_eq!(cx.allocate_checked(3, true, vec![Edge::Strong(a), Edge::Strong(stale)]), Err(3));
    assert_eq!(cx.len(), 2);
    // a weak pointer may be stale
    assert!(cx.allocate_checked(4, true, vec![Edge::Weak(stale)]).is_ok());
    assert_eq!(cx.len(), 3);
}

#[test]
fn box_that_needs_no_trace_keeps_no_edges() {
    let mut cx = context();
    let a = cx.allocate_checked(1, true, Vec::new()).ok().unwrap();
    let b = cx.allocate_checked(2, false, vec![Edge::Strong(a)]).ok().unwrap();
    assert!(!cx.flags(b).needs_trace());
    assert!(cx.set_root_checked(vec![Edge::Strong(b)]));
    cx.collect_all();
    cx.collect_all();
    // the edge from `b` was not kept, so `a` was not reachable
    assert!(cx.contains(b));
    assert!(!cx.contains(a));
}

#[test]
fn write_checked_needs_an_outstanding_box_and_accessible_edges() {
    let mut cx = context();
    let a = cx.allocate_checked(1, true, Vec::new()).ok().unwrap();
    let b = cx.allocate_checked(2, true, Vec::new()).ok().unwrap();
    let stale = Gc { index: 40, generation: 0 };
    assert_eq!(cx.write_checked(stale, 9, Vec::new()), Err(9));
    assert_eq!(cx.write_checked(a, 9, vec![Edge::Strong(stale)]), Err(9));
    assert_eq!(*cx.get(a), 1);
    assert_eq!(cx.write_checked(a, 9, vec![Edge::Strong(b)]), Ok(1));
    assert_eq!(*cx.get(a), 9);
}

#[test]
fn set_root_checked_installs_accessible_edges_only() {
    let mut cx = context();
    let a = cx.allocate_checked(1, true, Vec::new()).ok().unwrap();
    let stale = Gc { index: 40, generation: 0 };
    assert!(!cx.set_root_checked(vec![Edge::Strong(stale)]));
    assert!(cx.set_root_checked(vec![Edge::Strong(a)]));
    cx.collect_all();
    cx.collect_all();
    assert!(cx.contains(a));
    assert!(!cx.is_accessible(a));
    assert!(!cx.set_root_checked(vec![Edge::Strong(a)]));
    cx.open_roots();
    assert!(cx.is_accessible(a));
    assert!(cx.set_root_checked(vec![Edge::Strong(a)]));
    // an empty root lets go of everything
    assert!(cx.set_root_checked(Vec::new()));
    cx.collect_all();
    cx.collect_all();
    assert_eq!(cx.len(), 0);
}

#[test]
fn make_static_checked_pins_accessible_boxes_only() {
    let mut cx = context();
    let a = cx.allocate_checked(1, true, Vec::new()).ok().unwrap();
    let b = cx.allocate_checked(2, true, Vec::new()).ok().unwrap();
    assert!(cx.make_static_checked(a));
    assert!(!cx.make_static_checked(Gc { index: 40, generation: 0 }));
    cx.collect_all();
    cx.collect_all();
    assert!(cx.contains(a));
    assert!(!cx.contains(b));
    assert!(!cx.make_static_checked(a));
}

#[test]
fn is_alive_follows_the_box() {
    let mut cx = context();
    let a = cx.allocate_checked(1, true, Vec::new()).ok().unwrap();
    assert!(cx.is_alive(a));
    assert!(cx.flags(a).alive());
    assert!(!cx.is_alive(Gc { index: a.index, generation: a.generation + 1 }));
    cx.collect_all();
    assert!(!cx.is_alive(a));
}

#[test]
fn marking_leaves_no_black_box_pointing_to_a_white_one() {
    let mut cx = context();
    let leaf = cx.allocate_checked(1, true, Vec::new()).ok().unwrap();
    let mid = cx.allocate_checked(2, true, vec![Edge::Strong(leaf)]).ok().unwrap();
    let top = cx.allocate_checked(3, true, vec![Edge::Strong(mid)]).ok().unwrap();
    assert!(cx.set_root_checked(vec![Edge::Strong(top)]));

    cx.step();
    assert_eq!(cx.phase(), Phase::Propagate);
    // the root is traced: its target turns gray
    cx.step();
    assert_eq!(cx.flags(top).color(), GcColor::Gray);
    assert_eq!(cx.flags(mid).color(), GcColor::White);
    // each gray box is traced in turn: it turns black and its target gray
    assert!(cx.step());
    assert_eq!(cx.flags(top).color(), GcColor::Black);
    assert_eq!(cx.flags(mid).color(), GcColor::Gray);
    assert_eq!(cx.flags(leaf).color(), GcColor::White);
    assert!(cx.step());
    assert_eq!(cx.flags(mid).color(), GcColor::Black);
    assert_eq!(cx.flags(leaf).color(), GcColor::Gray);
    assert!(cx.step());
    assert_eq!(cx.flags(leaf).color(), GcColor::Black);
    // the work list is empty: the collector turns to sweeping
    assert!(!cx.step());
    assert_eq!(cx.phase(), Phase::Sweep);
    // the sweep keeps each black box and turns it white, at no cost
    assert!(!cx.step());
    assert_eq!(cx.flags(leaf).color(), GcColor::White);
    assert_eq!(cx.flags(mid).color(), GcColor::Black);
    assert!(!cx.step());
    assert!(!cx.step());
    assert_eq!(cx.phase(), Phase::Sweep);
    assert!(!cx.step());
    assert_eq!(cx.phase(), Phase::Sleep);
    assert_eq!(cx.len(), 3);
}

#[test]
fn every_unit_of_work_ends_the_epoch() {
    let mut cx = context();
    let a = cx.allocate_checked(1, true, Vec::new()).ok().unwrap();
    assert!(cx.is_accessible(a));
    assert!(cx.all_accessible(&vec![Edge::Strong(a), Edge::Weak(Gc { index: 9, generation: 9 })]));
    cx.step();
    assert!(!cx.is_accessible(a));
    assert!(!cx.all_accessible(&vec![Edge::Strong(a)]));
    assert!(cx.all_accessible(&Vec::new()));
}

#[test]
fn weak_trace_flags_its_target_and_does_not_mark_it() {
    let mut cx = context();
    let target = cx.allocate_checked(1, true, Vec::new()).ok().unwrap();
    let holder = cx.allocate_checked(2, true, vec![Edge::Weak(target)]).ok().unwrap();
    assert!(cx.set_root_checked(vec![Edge::Strong(holder)]));
    assert!(!cx.flags(target).has_weak_ref());
    // wake, trace the root, trace the holder
    cx.step();
    cx.step();
    cx.step();
    assert_eq!(cx.flags(holder).color(), GcColor::Black);
    assert!(cx.flags(target).has_weak_ref());
    assert_eq!(cx.flags(target).color(), GcColor::White);
}

#[test]
fn composite_needs_trace_exactly_if_a_part_does() {
    assert!(!<Option<i32> as Collect>::needs_trace());
    assert!(<Option<Gc> as Collect>::needs_trace());
    assert!(!<Vec<u8> as Collect>::needs_trace());
    assert!(<Vec<Gc> as Collect>::needs_trace());
    assert!(<Vec<Option<Gc>> as Collect>::needs_trace());
    assert!(!<(u8, bool) as Collect>::needs_trace());
    assert!(<(u8, Gc) as Collect>::needs_trace());
    assert!(<(Gc, u8) as Collect>::needs_trace());
    assert!(!<Option<StaticCollect<Gc>> as Collect>::needs_trace());
}

#[test]
fn composite_trace_appends_the_edges_of_its_parts_in_order() {
    let a = Gc { index: 1, generation: 0 };
    let b = Gc { index: 2, generation: 0 };
    let c = Gc { index: 3, generation: 7 };

    let mut cc = CollectionContext::new();
    cc.trace_weak(c);
    Some(a).trace(&mut cc);
    None::<Gc>.trace(&mut cc);
    vec![b, a].trace(&mut cc);
    Vec::<Gc>::new().trace(&mut cc);
    (c, Some(b)).trace(&mut cc);
    (5u8, 6u8).trace(&mut cc);
    assert_eq!(
        cc.into_edges(),
        vec![
            Edge::Weak(c),
            Edge::Strong(a),
            Edge::Strong(b),
            Edge::Strong(a),
            Edge::Strong(c),
            Edge::Strong(b),
        ]
    );
}

#[test]
fn edges_of_a_type_that_needs_no_trace_are_none() {
    assert_eq!(edges_of(&Some(3u8)), (false, Vec::new()));
    assert_eq!(edges_of(&vec![1u64, 2, 3]), (false, Vec::new()));
    let a = Gc { index: 1, generation: 0 };
    assert_eq!(edges_of(&Some(a)), (true, vec![Edge::Strong(a)]));
    assert_eq!(edges_of(&None::<Gc>), (true, Vec::new()));
    assert_eq!(edges_of(&vec![(a, 1u8), (a, 2u8)]), (true, vec![Edge::Strong(a), Edge::Strong(a)]));
}
