use rand::distributions::Distribution;
use std::collections::HashMap;
use std::rc::Rc;

use gc_arena::arena::Arena;
use gc_arena::collect::{Collect, CollectionContext};
use gc_arena::context::Context;
use gc_arena::gc::{Gc, GcCell};
use gc_arena::gc_static::{SharedGcData, StaticGc};
use gc_arena::gc_static_cell::StaticGcCell;
use gc_arena::pacing::ArenaParameters;
use gc_arena::shape::Shape;

#[derive(Clone)]
struct RefCounter(Rc<()>);

/// What the boxes of the tests below hold.
enum Payload {
    Int(i32),
    Counter(RefCounter),
    Keyed(i32, RefCounter),
    List(Vec<Gc>),
    Table(HashMap<i32, Gc>),
}

impl Collect for Payload {
    fn needs_trace() -> bool {
        true
    }

    fn trace(&self, cc: &mut CollectionContext) {
        match self {
            Payload::List(items) => {
                for g in items {
                    cc.trace(*g);
                }
            }
            Payload::Table(items) => {
                for g in items.values() {
                    cc.trace(*g);
                }
            }
            _ => {}
        }
    }
}

struct GcRoot {
    test: Gc,
}

impl Collect for GcRoot {
    fn needs_trace() -> bool {
        true
    }

    fn trace(&self, cc: &mut CollectionContext) {
        cc.trace(self.test);
    }
}

struct CellRoot(GcCell);

impl Collect for CellRoot {
    fn needs_trace() -> bool {
        true
    }

    fn trace(&self, cc: &mut CollectionContext) {
        cc.trace(self.0.get_inner());
    }
}

fn list_of(payload: &Payload) -> Vec<Gc> {
    match payload {
        Payload::List(items) => items.clone(),
        _ => panic!("not a list"),
    }
}

fn int_of(payload: &Payload) -> i32 {
    match payload {
        Payload::Int(n) => *n,
        _ => panic!("not an integer"),
    }
}

#[test]
fn simple_allocation() {
    let mut cx: Context<i32> = Context::new(ArenaParameters::default());
    let test = Gc::allocate(&mut cx, 42).ok().unwrap();
    let mut arena = Arena::new(cx, GcRoot { test }).ok().unwrap();

    let (mc, root) = arena.mutate();
    assert_eq!(*root.test.get(mc), 42);
}

#[test]
fn static_gc() {
    let mut cx: Context<i32> = Context::new(ArenaParameters::default());
    let test = Gc::allocate(&mut cx, 42).ok().unwrap();
    let mut arena = Arena::new(cx, GcRoot { test }).ok().unwrap();
    let mut shared = SharedGcData::new();

    let (mc, root) = arena.mutate();
    let static_arena = StaticGc::wrap(mc, root.test);

    if let Some(static_arena) = static_arena {
        let took = shared.try_begin_read().unwrap();
        assert_eq!(*static_arena.read(arena.read()), 42);
        shared.end_read(took);
    } else {
        panic!("the root's pointer was not pinned");
    }
}

#[test]
#[should_panic]
fn static_gc_early_drop() {
    let mut cx: Context<i32> = Context::new(ArenaParameters::default());
    let test = Gc::allocate(&mut cx, 42).ok().unwrap();
    let mut arena = Arena::new(cx, GcRoot { test }).ok().unwrap();
    let mut shared = SharedGcData::new();

    let (mc, root) = arena.mutate();
    let static_arena = StaticGc::wrap(mc, root.test);
    let (cx, _root) = arena.into_parts();
    assert!(shared.try_retire());

    if let Some(static_arena) = static_arena {
        let took = shared.try_begin_read().unwrap();
        assert_eq!(*static_arena.read(&cx), 42);
        shared.end_read(took);
    }
}

#[test]
#[should_panic]
fn static_gc_mid_drop() {
    let mut cx: Context<i32> = Context::new(ArenaParameters::default());
    let test = Gc::allocate(&mut cx, 42).ok().unwrap();
    let mut arena = Arena::new(cx, GcRoot { test }).ok().unwrap();
    let mut shared = SharedGcData::new();

    let (mc, root) = arena.mutate();
    let static_arena = StaticGc::wrap(mc, root.test);

    if let Some(static_arena) = static_arena {
        let took = shared.try_begin_read().unwrap();
        assert!(shared.try_retire());
        assert_eq!(*static_arena.read(arena.read()), 42);
        shared.end_read(took);
    }
}

#[test]
fn static_gc_cell() {
    let mut cx: Context<Payload> = Context::new(ArenaParameters::default());
    let one = Gc::allocate(&mut cx, Payload::Int(1)).ok().unwrap();
    let two = Gc::allocate(&mut cx, Payload::Int(2)).ok().unwrap();
    let test = GcCell::allocate(&mut cx, Payload::List(vec![one, two])).ok().unwrap();
    let mut arena = Arena::new(cx, CellRoot(test)).ok().unwrap();
    let mut shared = SharedGcData::new();

    let (mc, root) = arena.mutate();
    let static_arena = StaticGcCell::wrap(mc, root.0);

    if let Some(static_arena) = static_arena {
        let took = shared.try_begin_read().unwrap();
        let cx = arena.read();
        let read = list_of(static_arena.read(cx));
        let mut iter = read.iter();
        assert_eq!(int_of(iter.next().unwrap().get(cx)), 1);
        assert_eq!(int_of(iter.next().unwrap().get(cx)), 2);
        shared.end_read(took);
    } else {
        panic!("the root's cell was not pinned");
    }
}

#[test]
fn repeated_allocation_deallocation() {
    let r = RefCounter(Rc::new(()));

    let mut cx: Context<Payload> = Context::new(ArenaParameters::default());
    let map = GcCell::allocate(&mut cx, Payload::Table(HashMap::new())).ok().unwrap();
    let mut arena = Arena::new(cx, CellRoot(map)).ok().unwrap();

    let key_range = rand::distributions::Uniform::from(0..10000);
    let mut rng = rand::thread_rng();

    for _ in 0..200 {
        {
            let (mc, root) = arena.mutate();
            assert!(mc.open(root.0.get_inner()));
            let mut map = match root.0.read(mc) {
                Payload::Table(items) => items.clone(),
                _ => panic!("not a map"),
            };
            for _ in 0..100 {
                let i = key_range.sample(&mut rng);
                let fresh = Gc::allocate(mc, Payload::Keyed(i, r.clone())).ok().unwrap();
                if let Some(old) = map.insert(i, fresh) {
                    match old.get(mc) {
                        Payload::Keyed(key, _) => assert_eq!(*key, i),
                        _ => panic!("not a keyed payload"),
                    }
                }
            }

            for _ in 0..100 {
                let i = key_range.sample(&mut rng);
                if let Some(old) = map.remove(&i) {
                    match old.get(mc) {
                        Payload::Keyed(key, _) => assert_eq!(*key, i),
                        _ => panic!("not a keyed payload"),
                    }
                }
            }
            assert!(root.0.write(mc, Payload::Table(map)).is_ok());
        }

        arena.collect_debt();
    }

    arena.collect_all();
    arena.collect_all();

    let (mc, root) = arena.mutate();
    let live_size = match root.0.read(mc) {
        Payload::Table(items) => items.len(),
        _ => panic!("not a map"),
    };
    assert_eq!(Rc::strong_count(&r.0), live_size + 1);
    assert_eq!(mc.len(), live_size + 1);
}

#[test]
fn all_dropped() {
    let r = RefCounter(Rc::new(()));

    let mut cx: Context<Payload> = Context::new(ArenaParameters::default());
    let list = GcCell::allocate(&mut cx, Payload::List(Vec::new())).ok().unwrap();
    let mut arena = Arena::new(cx, CellRoot(list)).ok().unwrap();

    {
        let (mc, root) = arena.mutate();
        let mut v = list_of(root.0.read(mc));
        for _ in 0..100 {
            v.push(Gc::allocate(mc, Payload::Counter(r.clone())).ok().unwrap());
        }
        assert!(root.0.write(mc, Payload::List(v)).is_ok());
    }
    assert_eq!(Rc::strong_count(&r.0), 101);
    drop(arena);
    assert_eq!(Rc::strong_count(&r.0), 1);
}

#[test]
fn all_garbage_collected() {
    let r = RefCounter(Rc::new(()));

    let mut cx: Context<Payload> = Context::new(ArenaParameters::default());
    let list = GcCell::allocate(&mut cx, Payload::List(Vec::new())).ok().unwrap();
    let mut arena = Arena::new(cx, CellRoot(list)).ok().unwrap();

    {
        let (mc, root) = arena.mutate();
        let mut v = list_of(root.0.read(mc));
        for _ in 0..100 {
            v.push(Gc::allocate(mc, Payload::Counter(r.clone())).ok().unwrap());
        }
        assert!(root.0.write(mc, Payload::List(v)).is_ok());
    }
    {
        let (mc, root) = arena.mutate();
        assert!(root.0.write(mc, Payload::List(Vec::new())).is_ok());
    }
    arena.collect_all();
    arena.collect_all();
    assert_eq!(Rc::strong_count(&r.0), 1);
}

#[test]
fn derive_collect() {
    // struct Test1 { a: i32, b: Gc }
    let test1 = Shape::Product(vec![Shape::Primitive, Shape::Pointer]);
    // struct Test2 { a: i32, b: i32 }
    let test2 = Shape::Product(vec![Shape::Primitive, Shape::Primitive]);
    // enum Test3 { B(Gc), A(i32) }
    let test3 = Shape::Sum(vec![
        Shape::Product(vec![Shape::Pointer]),
        Shape::Product(vec![Shape::Primitive]),
    ]);
    // enum Test4 { A(i32) }
    let test4 = Shape::Sum(vec![Shape::Product(vec![Shape::Primitive])]);
    // struct Test5(Gc)
    let test5 = Shape::Product(vec![Shape::Pointer]);
    // struct Test6(i32)
    let test6 = Shape::Product(vec![Shape::Primitive]);

    assert_eq!(test1.needs_trace(), true);
    assert_eq!(test2.needs_trace(), false);
    assert_eq!(test3.needs_trace(), true);
    assert_eq!(test4.needs_trace(), false);
    assert_eq!(test5.needs_trace(), true);
    assert_eq!(test6.needs_trace(), false);

    // struct Test7 { field: NoImpl }, the field promised to hold no pointer
    let test7 = Shape::Product(vec![Shape::Inert]);
    // enum Test8 { First { field: NoImpl } }, likewise
    let test8 = Shape::Sum(vec![Shape::Product(vec![Shape::Inert])]);

    assert_eq!(test7.needs_trace(), false);
    assert_eq!(test8.needs_trace(), false);
}
