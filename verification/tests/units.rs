use gc_arena::arena::{rootless_arena, Arena, Metrics};
use gc_arena::collect::CollectionContext;
use gc_arena::context::Context;
use gc_arena::gc::{Edge, Gc, GcCell};
use gc_arena::gc_static::{SharedGcData, StaticGc};
use gc_arena::gc_static_cell::StaticGcCell;
use gc_arena::heap::Heap;
use gc_arena::pacing::{bytes_of, scale, ArenaParameters, Pacing};
use gc_arena::shape::Shape;
use gc_arena::state::Phase;
use gc_arena::types::{GcColor, GcFlags};

#[test]
fn new_flags_are_fresh_white_and_clear() {
    let flags = GcFlags::new();
    assert_eq!(flags.color(), GcColor::FreshWhite);
    assert!(!flags.needs_trace());
    assert!(!flags.has_weak_ref());
    assert!(!flags.alive());
}

#[test]
fn each_color_reads_back() {
    for color in [GcColor::FreshWhite, GcColor::White, GcColor::Gray, GcColor::Black] {
        let mut flags = GcFlags::new();
        flags.set_color(GcColor::Black);
        flags.set_color(color);
        assert_eq!(flags.color(), color);
    }
}

#[test]
fn setting_the_color_keeps_the_flags() {
    let mut flags = GcFlags::new();
    flags.set_needs_trace(true);
    flags.set_has_weak_ref(true);
    flags.set_alive(true);
    for color in [GcColor::White, GcColor::Gray, GcColor::Black, GcColor::FreshWhite] {
        flags.set_color(color);
        assert_eq!(flags.color(), color);
        assert!(flags.needs_trace() && flags.has_weak_ref() && flags.alive());
    }
}

#[test]
fn each_flag_is_set_and_cleared_alone() {
    let mut flags = GcFlags::new();
    flags.set_color(GcColor::Gray);

    flags.set_needs_trace(true);
    assert!(flags.needs_trace() && !flags.has_weak_ref() && !flags.alive());
    flags.set_has_weak_ref(true);
    assert!(flags.needs_trace() && flags.has_weak_ref() && !flags.alive());
    flags.set_alive(true);
    assert!(flags.needs_trace() && flags.has_weak_ref() && flags.alive());

    flags.set_needs_trace(false);
    assert!(!flags.needs_trace() && flags.has_weak_ref() && flags.alive());
    flags.set_has_weak_ref(false);
    assert!(!flags.needs_trace() && !flags.has_weak_ref() && flags.alive());
    flags.set_alive(false);
    assert!(!flags.needs_trace() && !flags.has_weak_ref() && !flags.alive());
    assert_eq!(flags.color(), GcColor::Gray);
}

#[test]
fn default_parameters() {
    let parameters = ArenaParameters::default();
    assert_eq!(parameters.pause_factor, 50);
    assert_eq!(parameters.timing_factor, 150);
    assert_eq!(parameters.min_sleep, 4096);
}

#[test]
fn parameters_are_set_one_by_one() {
    let parameters = ArenaParameters::default()
        .set_pause_factor(75)
        .set_timing_factor(200)
        .set_min_sleep(0);
    assert_eq!(
        parameters,
        ArenaParameters { pause_factor: 75, timing_factor: 200, min_sleep: 0 }
    );
    let only_pause = ArenaParameters::default().set_pause_factor(1);
    assert_eq!(
        only_pause,
        ArenaParameters { pause_factor: 1, timing_factor: 150, min_sleep: 4096 }
    );
}

#[test]
fn scale_takes_hundredths_rounds_down_and_saturates() {
    assert_eq!(scale(100, 150), 150);
    assert_eq!(scale(4096, 50), 2048);
    assert_eq!(scale(7, 50), 3);
    assert_eq!(scale(0, 150), 0);
    assert_eq!(scale(1, 99), 0);
    assert_eq!(scale(u64::MAX, 100), u64::MAX);
    assert_eq!(scale(u64::MAX, 200), u64::MAX);
    assert_eq!(scale(u64::MAX, 50), u64::MAX / 2);
}

#[test]
fn bytes_of_multiplies_and_saturates() {
    assert_eq!(bytes_of(0, 48), 0);
    assert_eq!(bytes_of(3, 48), 144);
    assert_eq!(bytes_of(usize::MAX, 2), u64::MAX);
}

#[test]
fn collector_is_due_above_the_minimum_sleep() {
    let parameters = ArenaParameters::default();
    // at a pause factor of a half, 8192 bytes allocated are 4096 bytes of debt
    let below = Pacing { allocated: 8191, remembered: 0 };
    let at = Pacing { allocated: 8192, remembered: 0 };
    assert_eq!(below.allocation_debt(&parameters), 4095);
    assert_eq!(at.allocation_debt(&parameters), 4096);
    assert!(!below.is_due(&parameters, false));
    assert!(!below.is_due(&parameters, true));
    assert!(at.is_due(&parameters, false));
    assert!(at.is_due(&parameters, true));
}

#[test]
fn sleeping_collector_waits_for_the_pause_factor() {
    let parameters = ArenaParameters::default();
    // the last sweep kept 100000 bytes: a sleeping collector waits until
    // 50000 bytes are allocated
    let short = Pacing { allocated: 49999, remembered: 100000 };
    let enough = Pacing { allocated: 50000, remembered: 100000 };
    assert!(!short.is_due(&parameters, true));
    assert!(short.is_due(&parameters, false));
    assert!(enough.is_due(&parameters, true));
}

#[test]
fn work_budget_is_the_debt_by_the_timing_factor_in_boxes() {
    let parameters = ArenaParameters::default();
    // 8192 bytes allocated are 4096 bytes of debt, which ask for 6144 bytes
    // of work: 192 boxes of 32 bytes
    assert_eq!(Pacing { allocated: 8192, remembered: 0 }.work_budget(&parameters, 32), 192);
    // a part of a box counts as a box: 150 bytes of work are 4 boxes of 40
    assert_eq!(Pacing { allocated: 200, remembered: 0 }.work_budget(&parameters, 40), 4);
    assert_eq!(Pacing { allocated: 0, remembered: 0 }.work_budget(&parameters, 40), 0);
    assert_eq!(Pacing { allocated: 2, remembered: 0 }.work_budget(&parameters, 1), 1);
    let doubled = ArenaParameters { pause_factor: 200, timing_factor: 300, min_sleep: 0 };
    assert_eq!(Pacing { allocated: 10, remembered: 0 }.work_budget(&doubled, 6), 10);
}

#[test]
fn charge_adds_and_saturates() {
    let mut pacing = Pacing::new();
    assert_eq!(pacing, Pacing { allocated: 0, remembered: 0 });
    pacing.charge(48);
    pacing.charge(48);
    assert_eq!(pacing.allocated, 96);
    assert_eq!(pacing.allocation_debt(&ArenaParameters::default()), 48);
    pacing.charge(u64::MAX);
    assert_eq!(pacing.allocated, u64::MAX);
    assert_eq!(pacing.allocation_debt(&ArenaParameters::default()), u64::MAX / 2);
}

#[test]
fn allocation_runs_up_debt_by_the_box_size_and_the_pause_factor() {
    let mut cx: Context<u64> = Context::new(ArenaParameters::default());
    let size = cx.box_bytes();
    assert!(size >= 1);
    assert_eq!(size, std::mem::size_of::<gc_arena::types::GcBox<u64>>() as u64);
    assert_eq!(cx.allocation_debt(), 0);
    for i in 0..5u64 {
        assert!(Gc::allocate(&mut cx, i).is_ok());
        assert_eq!(cx.allocation_debt(), (i + 1) * size * 50 / 100);
        assert_eq!(cx.total_bytes(), (i + 1) * size);
    }
}

#[test]
fn collect_debt_below_the_minimum_sleep_does_nothing() {
    let mut arena: Arena<(), u64> = rootless_arena(ArenaParameters::default());
    let (mc, _root) = arena.mutate();
    assert!(Gc::allocate(mc, 1).is_ok());
    let debt = arena.metrics().allocation_debt;
    assert!(debt < 4096);
    arena.collect_debt();
    assert_eq!(arena.read().phase(), Phase::Sleep);
    assert_eq!(arena.read().len(), 1);
    assert_eq!(arena.metrics().allocation_debt, debt);
}

#[test]
fn collect_debt_works_for_the_budget_and_clears_the_debt() {
    let parameters = ArenaParameters::default().set_min_sleep(0).set_pause_factor(100);
    let mut arena: Arena<(), u64> = rootless_arena(parameters);
    let (mc, _root) = arena.mutate();
    for i in 0..4u64 {
        assert!(Gc::allocate(mc, i).is_ok());
    }
    // four boxes of debt at a timing factor of 1.5 pay for six boxes of work:
    // the four unreachable boxes are freed and the collector goes to sleep
    arena.collect_debt();
    assert_eq!(arena.read().len(), 0);
    assert_eq!(arena.read().phase(), Phase::Sleep);
    assert_eq!(arena.metrics(), Metrics { total_allocated: 0, allocation_debt: 0 });
}

#[test]
fn collect_debt_stops_when_the_budget_is_spent() {
    let parameters =
        ArenaParameters::default().set_min_sleep(0).set_pause_factor(100).set_timing_factor(50);
    let mut arena: Arena<(), u64> = rootless_arena(parameters);
    let (mc, _root) = arena.mutate();
    for i in 0..4u64 {
        assert!(Gc::allocate(mc, i).is_ok());
    }
    // four boxes of debt at a timing factor of a half pay for two boxes
    arena.collect_debt();
    assert_eq!(arena.read().phase(), Phase::Sweep);
    assert_eq!(arena.read().len(), 2);
    assert_eq!(arena.metrics().allocation_debt, 0);
}

#[test]
fn collect_debt_at_the_default_pause_pays_for_less() {
    let parameters = ArenaParameters::default().set_min_sleep(0);
    let mut arena: Arena<(), u64> = rootless_arena(parameters);
    let (mc, _root) = arena.mutate();
    for i in 0..4u64 {
        assert!(Gc::allocate(mc, i).is_ok());
    }
    // four boxes allocated are two boxes of debt, which pay for three boxes
    // of work: three boxes are freed
    arena.collect_debt();
    assert_eq!(arena.read().phase(), Phase::Sweep);
    assert_eq!(arena.read().len(), 1);
    assert_eq!(arena.metrics().allocation_debt, 0);
}

#[test]
fn zero_factors_are_accepted() {
    let parameters = ArenaParameters::default().set_pause_factor(0).set_timing_factor(0);
    let mut arena: Arena<(), u64> = rootless_arena(parameters.set_min_sleep(0));
    let (mc, _root) = arena.mutate();
    assert!(Gc::allocate(mc, 1).is_ok());
    assert_eq!(arena.metrics().allocation_debt, 0);
    // no debt and no budget: the collector wakes and does no work
    arena.collect_debt();
    assert_eq!(arena.read().phase(), Phase::Propagate);
    assert_eq!(arena.read().len(), 1);
}

#[test]
fn metrics_report_bytes_and_debt() {
    let mut arena: Arena<(), u64> = rootless_arena(ArenaParameters::default());
    let size = arena.read().box_bytes();
    let (mc, _root) = arena.mutate();
    assert!(Gc::allocate(mc, 1).is_ok());
    assert!(Gc::allocate(mc, 2).is_ok());
    assert_eq!(
        arena.metrics(),
        Metrics { total_allocated: 2 * size, allocation_debt: size }
    );
}

#[test]
fn shared_flags_of_a_new_arena() {
    let shared = SharedGcData::new();
    assert!(shared.alive_flag);
    assert!(!shared.read_lock);
    assert!(shared.may_mutate());
}

#[test]
fn read_after_the_arena_is_dropped_is_refused() {
    let mut shared = SharedGcData::new();
    shared.retire();
    assert!(!shared.alive_flag);
    assert_eq!(shared.try_begin_read(), None);
    assert!(!shared.read_lock);
    assert!(!shared.may_mutate());
}

#[test]
fn read_inside_a_read_leaves_the_lock_to_the_outer_read() {
    let mut shared = SharedGcData::new();
    let outer = shared.begin_read();
    assert!(outer);
    assert!(shared.read_lock);
    assert!(!shared.may_mutate());
    let inner = shared.try_begin_read().unwrap();
    assert!(!inner);
    shared.end_read(inner);
    assert!(shared.read_lock);
    shared.end_read(outer);
    assert!(!shared.read_lock);
    assert!(shared.may_mutate());
}

#[test]
fn arena_cannot_go_during_a_read() {
    let mut shared = SharedGcData::new();
    let took = shared.begin_read();
    assert!(!shared.try_retire());
    assert!(shared.alive_flag);
    shared.end_read(took);
    assert!(shared.try_retire());
    assert!(!shared.alive_flag);
    assert_eq!(shared.try_begin_read(), None);
}

#[test]
fn pinned_box_outlasts_collections_without_a_root() {
    let mut arena: Arena<(), u64> = rootless_arena(ArenaParameters::default());
    let (mc, _root) = arena.mutate();
    let pinned = Gc::allocate(mc, 42).ok().unwrap();
    let loose = Gc::allocate(mc, 7).ok().unwrap();
    let handle = StaticGc::wrap(mc, pinned).unwrap();
    assert_eq!(handle.root(), pinned);

    arena.collect_all();
    arena.collect_all();
    assert!(!arena.read().contains(loose));
    assert_eq!(*handle.read(arena.read()), 42);
    assert_eq!(handle.try_read(arena.read()), Some(&42));
}

#[test]
fn pinning_an_inaccessible_pointer_is_refused() {
    let mut arena: Arena<(), u64> = rootless_arena(ArenaParameters::default());
    let (mc, _root) = arena.mutate();
    let g = Gc::allocate(mc, 1).ok().unwrap();
    arena.collect_all();
    let (mc, _root) = arena.mutate();
    assert!(StaticGc::wrap(mc, g).is_none());
    assert!(StaticGcCell::wrap(mc, GcCell { inner: g }).is_none());
    assert!(StaticGc::wrap(mc, Gc { index: 5, generation: 5 }).is_none());
}

#[test]
fn pinned_cell_reads_what_was_written() {
    let mut arena: Arena<(), u64> = rootless_arena(ArenaParameters::default());
    let (mc, _root) = arena.mutate();
    let cell = GcCell::allocate(mc, 1).ok().unwrap();
    let handle = StaticGcCell::wrap(mc, cell).unwrap();
    assert_eq!(handle.root(), cell);
    assert!(cell.write(mc, 2).is_ok());
    arena.collect_all();
    arena.collect_all();
    assert_eq!(*handle.read(arena.read()), 2);
    assert_eq!(handle.try_read(arena.read()), Some(&2));
}

#[test]
fn shapes_of_primitives_and_pointers() {
    assert!(!Shape::Primitive.needs_trace());
    assert!(Shape::Pointer.needs_trace());
    assert!(!Shape::Inert.needs_trace());
    assert!(!Shape::Product(Vec::new()).needs_trace());
    assert!(!Shape::Sum(Vec::new()).needs_trace());
}

#[test]
fn pointer_deep_inside_a_shape_is_found() {
    let deep = Shape::Product(vec![
        Shape::Primitive,
        Shape::Sum(vec![
            Shape::Product(vec![Shape::Primitive, Shape::Inert]),
            Shape::Product(vec![Shape::Product(vec![Shape::Primitive, Shape::Pointer])]),
        ]),
    ]);
    assert!(deep.needs_trace());
    let none = Shape::Product(vec![
        Shape::Primitive,
        Shape::Sum(vec![
            Shape::Product(vec![Shape::Primitive, Shape::Inert]),
            Shape::Product(vec![Shape::Product(vec![Shape::Primitive, Shape::Inert])]),
        ]),
    ]);
    assert!(!none.needs_trace());
}

#[test]
fn collection_context_records_in_order() {
    let a = Gc { index: 0, generation: 0 };
    let b = Gc { index: 1, generation: 0 };
    let mut cc = CollectionContext::new();
    cc.trace(a);
    cc.trace_weak(b);
    cc.trace(b);
    assert_eq!(cc.into_edges(), vec![Edge::Strong(a), Edge::Weak(b), Edge::Strong(b)]);
    assert_eq!(CollectionContext::new().into_edges(), Vec::new());
}

#[test]
fn heap_keeps_boxes_in_allocation_order() {
    let mut heap: Heap<u32> = Heap::new();
    assert_eq!(heap.first(), None);
    assert_eq!(heap.len(), 0);
    let a = heap.insert(GcFlags::new(), 0, Vec::new(), 10);
    let b = heap.insert(GcFlags::new(), 0, vec![Edge::Strong(a)], 20);
    assert_eq!(heap.first(), Some(a));
    assert_eq!(heap.len(), 2);
    assert!(heap.contains(a) && heap.contains(b));
    assert!(!heap.contains(Gc { index: 2, generation: 0 }));
    assert!(!heap.contains(Gc { index: 0, generation: 1 }));
    assert_eq!(*heap.value(a), 10);
    assert_eq!(*heap.value(b), 20);
    assert_eq!(*heap.edges(b), vec![Edge::Strong(a)]);
    assert_eq!(heap.replace(a, 11, vec![Edge::Weak(b)]), 10);
    assert_eq!(*heap.value(a), 11);
    assert_eq!(*heap.edges(a), vec![Edge::Weak(b)]);
    heap.set_seen(b, 9);
    assert_eq!(heap.seen(b), 9);
    assert_eq!(heap.seen(a), 0);
    let mut flags = heap.flags(b);
    flags.set_color(GcColor::Black);
    heap.set_flags(b, flags);
    assert_eq!(heap.flags(b).color(), GcColor::Black);
    assert_eq!(heap.flags(a).color(), GcColor::FreshWhite);
}

#[test]
fn pointers_compare_by_identity() {
    let a = Gc { index: 3, generation: 1 };
    let b = Gc { index: 3, generation: 2 };
    assert!(Gc::ptr_eq(a, a));
    assert!(!Gc::ptr_eq(a, b));
    assert!(a == a && a != b);
    assert!(GcCell::ptr_eq(GcCell { inner: a }, GcCell { inner: a }));
    assert!(!GcCell::ptr_eq(GcCell { inner: a }, GcCell { inner: b }));
    assert_eq!(GcCell { inner: b }.get_inner(), b);
}

#[test]
fn arena_comes_apart_into_its_context_and_root() {
    let mut cx: Context<u64> = Context::new(ArenaParameters::default());
    let g = Gc::allocate(&mut cx, 3).ok().unwrap();
    let arena = Arena::new(cx, g).ok().unwrap();
    assert_eq!(*arena.root(), g);
    let (cx, root) = arena.into_parts();
    assert_eq!(root, g);
    assert_eq!(*root.get(&cx), 3);
}
