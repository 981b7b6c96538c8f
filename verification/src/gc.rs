//! Handles to managed boxes.

use vstd::prelude::*;
use crate::collect::{reported, Collect};
use crate::context::Context;

verus! {

/// A strong pointer: the identity of one managed box.
///
/// A box is named by the slot it lives in and by the generation that the slot
/// had when the box was allocated. A slot's generation only grows, so a handle
/// never comes to name a later box.
#[derive(Copy, Clone, Debug, PartialEq, Eq, Structural)]
pub struct Gc {
    pub index: usize,
    pub generation: u64,
}

impl Gc {
    /// Allocates a box for `value` and hands back the strong pointer to
    /// it, or the payload where it reports a strong pointer that is not
    /// accessible.
    pub fn allocate<T: Collect>(mc: &mut Context<T>, value: T) -> (out: Result<Gc, T>)
        requires
            old(mc).wf(),
        ensures
            final(mc).wf(),
            out is Ok <==> old(mc)@.edges_accessible(reported(&value), old(mc).epoch()),
            match out {
                Ok(g) => {
                    &&& !old(mc)@.contains(g)
                    &&& final(mc)@ == old(mc)@.allocate(
                        g,
                        T::traceable(),
                        reported(&value),
                        value,
                        old(mc).epoch(),
                    )
                    &&& final(mc).pacing() == old(mc).pacing().charged(old(mc).box_size())
                    &&& final(mc)@.protected(g)
                    &&& old(mc).epoch() < u64::MAX ==> final(mc).accessible(g)
                },
                Err(back) => back == value && final(mc)@ == old(mc)@ && final(mc).pacing() == old(
                    mc,
                ).pacing(),
            },
            forall|x: Gc| old(mc).accessible(x) ==> final(mc).accessible(x),
            final(mc)@.mutated_from(old(mc)@),
            final(mc).epoch() == old(mc).epoch(),
            final(mc).same_settings(old(mc)),
    {
        mc.allocate(value)
    }

    /// The payload of the box.
    pub fn get<'a, T>(&self, mc: &'a Context<T>) -> (value: &'a T)
        requires
            mc@.contains(*self),
        ensures
            *value == mc@.boxes[*self].value,
    {
        mc.get(*self)
    }

    /// The payload of the box, where the box is outstanding.
    pub fn try_get<'a, T>(&self, mc: &'a Context<T>) -> (value: Option<&'a T>)
        ensures
            value is Some <==> mc@.contains(*self),
            value is Some ==> *value.unwrap() == mc@.boxes[*self].value,
    {
        if mc.contains(*self) {
            Some(mc.get(*self))
        } else {
            None
        }
    }

    /// Whether two handles name the same box.
    pub fn ptr_eq(this: Gc, other: Gc) -> (same: bool)
        ensures
            same == (this == other),
    {
        this.index == other.index && this.generation == other.generation
    }
}

/// A strong pointer to a box whose payload may be replaced through the
/// mutation context.
#[derive(Copy, Clone, Debug, PartialEq, Eq, Structural)]
pub struct GcCell {
    pub inner: Gc,
}

impl GcCell {
    /// Allocates a cell that holds `value`, or hands the payload back where
    /// it reports a strong pointer that is not accessible.
    pub fn allocate<T: Collect>(mc: &mut Context<T>, value: T) -> (out: Result<GcCell, T>)
        requires
            old(mc).wf(),
        ensures
            final(mc).wf(),
            out is Ok <==> old(mc)@.edges_accessible(reported(&value), old(mc).epoch()),
            match out {
                Ok(cell) => {
                    &&& !old(mc)@.contains(cell.inner)
                    &&& final(mc)@ == old(mc)@.allocate(
                        cell.inner,
                        T::traceable(),
                        reported(&value),
                        value,
                        old(mc).epoch(),
                    )
                    &&& final(mc).pacing() == old(mc).pacing().charged(old(mc).box_size())
                    &&& final(mc)@.protected(cell.inner)
                    &&& old(mc).epoch() < u64::MAX ==> final(mc).accessible(cell.inner)
                },
                Err(back) => back == value && final(mc)@ == old(mc)@ && final(mc).pacing() == old(
                    mc,
                ).pacing(),
            },
            forall|x: Gc| old(mc).accessible(x) ==> final(mc).accessible(x),
            final(mc)@.mutated_from(old(mc)@),
            final(mc).epoch() == old(mc).epoch(),
            final(mc).same_settings(old(mc)),
    {
        match mc.allocate(value) {
            Ok(g) => Ok(GcCell { inner: g }),
            Err(back) => Err(back),
        }
    }

    /// The payload of the cell. Reading arms no barrier.
    pub fn read<'a, T>(&self, mc: &'a Context<T>) -> (value: &'a T)
        requires
            mc@.contains(self.inner),
        ensures
            *value == mc@.boxes[self.inner].value,
    {
        mc.get(self.inner)
    }

    /// Replaces the payload of the cell by `value`, after the write
    /// barrier. Hands back the old payload, or the new one where the cell
    /// is not outstanding or `value` reports a strong pointer that is not
    /// accessible.
    pub fn write<T: Collect>(&self, mc: &mut Context<T>, value: T) -> (out: Result<T, T>)
        requires
            old(mc).wf(),
        ensures
            final(mc).wf(),
            out is Ok <==> (old(mc)@.contains(self.inner) && old(mc)@.edges_accessible(
                reported(&value),
                old(mc).epoch(),
            )),
            match out {
                Ok(previous) => {
                    &&& previous == old(mc)@.boxes[self.inner].value
                    &&& final(mc)@ == old(mc)@.write(self.inner, reported(&value), value)
                },
                Err(back) => back == value && final(mc)@ == old(mc)@,
            },
            forall|x: Gc| old(mc).accessible(x) ==> final(mc).accessible(x),
            final(mc)@.mutated_from(old(mc)@),
            final(mc).pacing() == old(mc).pacing(),
            final(mc).epoch() == old(mc).epoch(),
            final(mc).same_settings(old(mc)),
    {
        mc.write(*self, value)
    }

    /// The handle of the box behind the cell.
    pub fn get_inner(&self) -> (gc: Gc)
        ensures
            gc == self.inner,
    {
        self.inner
    }

    /// Whether two cells are the same box.
    pub fn ptr_eq(this: GcCell, other: GcCell) -> (same: bool)
        ensures
            same == (this == other),
    {
        Gc::ptr_eq(this.inner, other.inner)
    }
}

/// One outgoing reference of a payload, as its `trace` reports it.
#[derive(Copy, Clone, Debug, PartialEq, Eq, Structural)]
pub enum Edge {
    /// Keeps its target reachable.
    Strong(Gc),
    /// Does not keep its target reachable.
    Weak(Gc),
}

impl Edge {
    /// The handle the edge holds.
    pub open spec fn target(self) -> Gc {
        match self {
            Edge::Strong(g) => g,
            Edge::Weak(g) => g,
        }
    }
}

} // verus!
