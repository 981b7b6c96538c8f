//! The tracing protocol for the types of the standard library.

use vstd::prelude::*;
use crate::collect::{Collect, CollectionContext};
use crate::gc::Edge;

verus! {

impl Collect for () {
    open spec fn traceable() -> bool {
        false
    }

    open spec fn edges(&self) -> Seq<Edge> {
        Seq::empty()
    }

    fn needs_trace() -> (needed: bool) {
        false
    }

    fn trace(&self, cc: &mut CollectionContext) {
        proof {
            assert(old(cc)@ =~= old(cc)@ + self.edges());
        }
    }
}

impl Collect for bool {
    open spec fn traceable() -> bool {
        false
    }

    open spec fn edges(&self) -> Seq<Edge> {
        Seq::empty()
    }

    fn needs_trace() -> (needed: bool) {
        false
    }

    fn trace(&self, cc: &mut CollectionContext) {
        proof {
            assert(old(cc)@ =~= old(cc)@ + self.edges());
        }
    }
}

impl Collect for char {
    open spec fn traceable() -> bool {
        false
    }

    open spec fn edges(&self) -> Seq<Edge> {
        Seq::empty()
    }

    fn needs_trace() -> (needed: bool) {
        false
    }

    fn trace(&self, cc: &mut CollectionContext) {
        proof {
            assert(old(cc)@ =~= old(cc)@ + self.edges());
        }
    }
}

impl Collect for u8 {
    open spec fn traceable() -> bool {
        false
    }

    open spec fn edges(&self) -> Seq<Edge> {
        Seq::empty()
    }

    fn needs_trace() -> (needed: bool) {
        false
    }

    fn trace(&self, cc: &mut CollectionContext) {
        proof {
            assert(old(cc)@ =~= old(cc)@ + self.edges());
        }
    }
}

impl Collect for u16 {
    open spec fn traceable() -> bool {
        false
    }

    open spec fn edges(&self) -> Seq<Edge> {
        Seq::empty()
    }

    fn needs_trace() -> (needed: bool) {
        false
    }

    fn trace(&self, cc: &mut CollectionContext) {
        proof {
            assert(old(cc)@ =~= old(cc)@ + self.edges());
        }
    }
}

impl Collect for u32 {
    open spec fn traceable() -> bool {
        false
    }

    open spec fn edges(&self) -> Seq<Edge> {
        Seq::empty()
    }

    fn needs_trace() -> (needed: bool) {
        false
    }

    fn trace(&self, cc: &mut CollectionContext) {
        proof {
            assert(old(cc)@ =~= old(cc)@ + self.edges());
        }
    }
}

impl Collect for u64 {
    open spec fn traceable() -> bool {
        false
    }

    open spec fn edges(&self) -> Seq<Edge> {
        Seq::empty()
    }

    fn needs_trace() -> (needed: bool) {
        false
    }

    fn trace(&self, cc: &mut CollectionContext) {
        proof {
            assert(old(cc)@ =~= old(cc)@ + self.edges());
        }
    }
}

impl Collect for u128 {
    open spec fn traceable() -> bool {
        false
    }

    open spec fn edges(&self) -> Seq<Edge> {
        Seq::empty()
    }

    fn needs_trace() -> (needed: bool) {
        false
    }

    fn trace(&self, cc: &mut CollectionContext) {
        proof {
            assert(old(cc)@ =~= old(cc)@ + self.edges());
        }
    }
}

impl Collect for usize {
    open spec fn traceable() -> bool {
        false
    }

    open spec fn edges(&self) -> Seq<Edge> {
        Seq::empty()
    }

    fn needs_trace() -> (needed: bool) {
        false
    }

    fn trace(&self, cc: &mut CollectionContext) {
        proof {
            assert(old(cc)@ =~= old(cc)@ + self.edges());
        }
    }
}

impl Collect for i8 {
    open spec fn traceable() -> bool {
        false
    }

    open spec fn edges(&self) -> Seq<Edge> {
        Seq::empty()
    }

    fn needs_trace() -> (needed: bool) {
        false
    }

    fn trace(&self, cc: &mut CollectionContext) {
        proof {
            assert(old(cc)@ =~= old(cc)@ + self.edges());
        }
    }
}

impl Collect for i16 {
    open spec fn traceable() -> bool {
        false
    }

    open spec fn edges(&self) -> Seq<Edge> {
        Seq::empty()
    }

    fn needs_trace() -> (needed: bool) {
        false
    }

    fn trace(&self, cc: &mut CollectionContext) {
        proof {
            assert(old(cc)@ =~= old(cc)@ + self.edges());
        }
    }
}

impl Collect for i32 {
    open spec fn traceable() -> bool {
        false
    }

    open spec fn edges(&self) -> Seq<Edge> {
        Seq::empty()
    }

    fn needs_trace() -> (needed: bool) {
        false
    }

    fn trace(&self, cc: &mut CollectionContext) {
        proof {
            assert(old(cc)@ =~= old(cc)@ + self.edges());
        }
    }
}

impl Collect for i64 {
    open spec fn traceable() -> bool {
        false
    }

    open spec fn edges(&self) -> Seq<Edge> {
        Seq::empty()
    }

    fn needs_trace() -> (needed: bool) {
        false
    }

    fn trace(&self, cc: &mut CollectionContext) {
        proof {
            assert(old(cc)@ =~= old(cc)@ + self.edges());
        }
    }
}

impl Collect for i128 {
    open spec fn traceable() -> bool {
        false
    }

    open spec fn edges(&self) -> Seq<Edge> {
        Seq::empty()
    }

    fn needs_trace() -> (needed: bool) {
        false
    }

    fn trace(&self, cc: &mut CollectionContext) {
        proof {
            assert(old(cc)@ =~= old(cc)@ + self.edges());
        }
    }
}

impl Collect for isize {
    open spec fn traceable() -> bool {
        false
    }

    open spec fn edges(&self) -> Seq<Edge> {
        Seq::empty()
    }

    fn needs_trace() -> (needed: bool) {
        false
    }

    fn trace(&self, cc: &mut CollectionContext) {
        proof {
            assert(old(cc)@ =~= old(cc)@ + self.edges());
        }
    }
}

impl Collect for String {
    open spec fn traceable() -> bool {
        false
    }

    open spec fn edges(&self) -> Seq<Edge> {
        Seq::empty()
    }

    fn needs_trace() -> (needed: bool) {
        false
    }

    fn trace(&self, cc: &mut CollectionContext) {
        proof {
            assert(old(cc)@ =~= old(cc)@ + self.edges());
        }
    }
}

/// The edges of the values of `items`, one value after the other.
pub open spec fn edges_of_all<V: Collect>(items: Seq<V>) -> Seq<Edge>
    decreases items.len(),
{
    if items.len() == 0 {
        Seq::empty()
    } else {
        edges_of_all(items.drop_last()) + items.last().edges()
    }
}

/// The edges of one value more come after the edges of those before it.
pub proof fn lemma_edges_of_all_take<V: Collect>(items: Seq<V>, i: int)
    requires
        0 <= i < items.len(),
    ensures
        edges_of_all(items.take(i + 1)) == edges_of_all(items.take(i)) + items[i].edges(),
{
    assert(items.take(i + 1).drop_last() =~= items.take(i));
    assert(items.take(i + 1).last() == items[i]);
}

impl<V: Collect> Collect for Option<V> {
    /// An option can hold a pointer exactly if its value can.
    open spec fn traceable() -> bool {
        V::traceable()
    }

    /// The edges of the value, where there is one.
    open spec fn edges(&self) -> Seq<Edge> {
        match self {
            Some(value) => value.edges(),
            None => Seq::empty(),
        }
    }

    fn needs_trace() -> (needed: bool) {
        V::needs_trace()
    }

    fn trace(&self, cc: &mut CollectionContext) {
        match self {
            Some(value) => {
                value.trace(cc);
            },
            None => {
                proof {
                    assert(old(cc)@ =~= old(cc)@ + self.edges());
                }
            },
        }
    }
}

impl<V: Collect> Collect for Vec<V> {
    /// A vector can hold a pointer exactly if its items can.
    open spec fn traceable() -> bool {
        V::traceable()
    }

    /// The edges of the items, one item after the other.
    open spec fn edges(&self) -> Seq<Edge> {
        edges_of_all(self@)
    }

    fn needs_trace() -> (needed: bool) {
        V::needs_trace()
    }

    fn trace(&self, cc: &mut CollectionContext) {
        let n: usize = self.len();
        let mut i: usize = 0;
        proof {
            assert(self@.take(0) =~= Seq::<V>::empty());
            assert(old(cc)@ =~= old(cc)@ + edges_of_all(self@.take(0)));
        }
        while i < n
            invariant
                0 <= i <= n,
                n == self@.len(),
                cc@ == old(cc)@ + edges_of_all(self@.take(i as int)),
            decreases n - i,
        {
            let ghost before = cc@;
            self[i].trace(cc);
            proof {
                lemma_edges_of_all_take(self@, i as int);
                assert(cc@ == before + self@[i as int].edges());
                assert(cc@ =~= old(cc)@ + edges_of_all(self@.take(i + 1)));
            }
            i = i + 1;
        }
        proof {
            assert(self@.take(n as int) =~= self@);
        }
    }
}

impl<A: Collect, B: Collect> Collect for (A, B) {
    /// A pair can hold a pointer exactly if one of its parts can.
    open spec fn traceable() -> bool {
        A::traceable() || B::traceable()
    }

    /// The edges of the first part, then those of the second.
    open spec fn edges(&self) -> Seq<Edge> {
        self.0.edges() + self.1.edges()
    }

    fn needs_trace() -> (needed: bool) {
        A::needs_trace() || B::needs_trace()
    }

    fn trace(&self, cc: &mut CollectionContext) {
        self.0.trace(cc);
        self.1.trace(cc);
        proof {
            assert(cc@ =~= old(cc)@ + (self.0.edges() + self.1.edges()));
        }
    }
}

} // verus!
