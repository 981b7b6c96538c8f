//! The arena: a root and the context that holds everything the root can
//! reach.

use vstd::prelude::*;
use crate::collect::{edges_of, reported, Collect};
use crate::context::Context;
use crate::gc::{Edge, Gc};
use crate::pacing::{ArenaParameters, Pacing};
use crate::state::Phase;

verus! {

/// What an arena reports of itself.
#[derive(Copy, Clone, Debug, PartialEq, Eq, Structural)]
pub struct Metrics {
    /// The bytes that the outstanding boxes take.
    pub total_allocated: u64,
    /// The allocation debt: the bytes allocated since the collector last
    /// worked, by the pause factor.
    pub allocation_debt: u64,
}

/// A root of type `R` over a heap of payloads of type `T`.
pub struct Arena<R, T> {
    root: R,
    context: Context<T>,
}

impl<R, T> Arena<R, T> {
    /// The root value.
    pub closed spec fn root_value(&self) -> R {
        self.root
    }

    /// The context of the arena.
    pub closed spec fn context(&self) -> Context<T> {
        self.context
    }

    /// The arena's context is well formed.
    pub open spec fn wf(&self) -> bool {
        self.context().wf()
    }

    /// An arena over `context` whose root is `root`, which reported
    /// `edges`: where every strong target among them is accessible. Hands
    /// both back where one is not.
    pub fn with_root(context: Context<T>, root: R, edges: Vec<Edge>) -> (out: Result<
        Arena<R, T>,
        (Context<T>, R),
    >)
        requires
            context.wf(),
        ensures
            out is Ok <==> context@.edges_accessible(edges@, context.epoch()),
            match out {
                Ok(arena) => {
                    &&& arena.wf()
                    &&& arena.root_value() == root
                    &&& arena.context()@ == context@.set_root(edges@)
                    &&& arena.context().pacing() == context.pacing()
                    &&& arena.context().epoch() == context.epoch()
                    &&& arena.context().same_settings(&context)
                },
                Err(back) => back == (context, root),
            },
    {
        let mut context = context;
        if context.set_root_checked(edges) {
            Ok(Arena { root, context })
        } else {
            Err((context, root))
        }
    }

    /// Starts a mutation: hands out the context, which is the token of
    /// mutation, and a shared view of the root. What the root and the pins
    /// point to is accessible in it.
    pub fn mutate(&mut self) -> (access: (&mut Context<T>, &R))
        requires
            old(self).wf(),
        ensures
            access.0.wf(),
            access.0@ == old(self).context()@.stamped(
                old(self).context()@.roots,
                old(self).context().epoch(),
            ).stamped(old(self).context()@.statics, old(self).context().epoch()),
            access.0.epoch() < u64::MAX ==> forall|b: Gc|
                old(self).context()@.is_root(b) ==> access.0.accessible(b),
            forall|x: Gc| old(self).context().accessible(x) ==> access.0.accessible(x),
            access.0@.mutated_from(old(self).context()@),
            access.0.pacing() == old(self).context().pacing(),
            access.0.epoch() == old(self).context().epoch(),
            access.0.same_settings(&old(self).context()),
            *access.1 == old(self).root_value(),
            final(self).context() == *final(access.0),
            final(self).root_value() == old(self).root_value(),
    {
        self.context.open_roots();
        (&mut self.context, &self.root)
    }

    /// The root.
    pub fn root(&self) -> (root: &R)
        ensures
            *root == self.root_value(),
    {
        &self.root
    }

    /// The context, for reading.
    pub fn read(&self) -> (context: &Context<T>)
        ensures
            *context == self.context(),
    {
        &self.context
    }

    /// Advances the collector by the work that the debt asks for.
    pub fn collect_debt(&mut self)
        requires
            old(self).wf(),
        ensures
            final(self).wf(),
            final(self).root_value() == old(self).root_value(),
            final(self).context()@ == old(self).context().after_collect_debt(),
            final(self).context()@.collected_from(old(self).context()@),
            final(self).context().pacing() == (if old(self).context().pacing().due(
                old(self).context().parameters(),
                old(self).context()@.phase == Phase::Sleep,
            ) {
                old(self).context().pacing_after_run(final(self).context()@)
            } else {
                old(self).context().pacing()
            }),
            final(self).context().same_settings(&old(self).context()),
    {
        self.context.collect_debt();
    }

    /// Runs the collector to the end of a cycle. After two such runs with
    /// no mutation between them the arena holds exactly what the root can
    /// reach.
    pub fn collect_all(&mut self)
        requires
            old(self).wf(),
        ensures
            final(self).wf(),
            final(self).root_value() == old(self).root_value(),
            final(self).context()@ == old(self).context()@.collect_all(),
            final(self).context()@.collected_from(old(self).context()@),
            final(self).context()@.phase == Phase::Sleep,
            final(self).context().pacing() == (Pacing {
                allocated: 0,
                remembered: final(self).context().total_allocated(),
            }),
            final(self).context().same_settings(&old(self).context()),
    {
        self.context.collect_all();
    }

    /// The bytes outstanding and the debt.
    pub fn metrics(&self) -> (metrics: Metrics)
        requires
            self.wf(),
        ensures
            metrics == (Metrics {
                total_allocated: self.context().total_allocated(),
                allocation_debt: self.context().pacing().debt(self.context().parameters()),
            }),
    {
        Metrics {
            total_allocated: self.context.total_bytes(),
            allocation_debt: self.context.allocation_debt(),
        }
    }

    /// Takes the arena apart.
    pub fn into_parts(self) -> (parts: (Context<T>, R))
        ensures
            parts == (self.context(), self.root_value()),
    {
        (self.context, self.root)
    }
}

impl<R: Collect, T> Arena<R, T> {
    /// An arena over `context` whose root is `root`, with the edges that
    /// the root's `trace` reports. Hands both back where the root reports a
    /// strong pointer that is not accessible.
    pub fn new(context: Context<T>, root: R) -> (out: Result<Arena<R, T>, (Context<T>, R)>)
        requires
            context.wf(),
        ensures
            out is Ok <==> context@.edges_accessible(reported(&root), context.epoch()),
            match out {
                Ok(arena) => {
                    &&& arena.wf()
                    &&& arena.root_value() == root
                    &&& arena.context()@ == context@.set_root(reported(&root))
                    &&& arena.context().pacing() == context.pacing()
                    &&& arena.context().epoch() == context.epoch()
                    &&& arena.context().same_settings(&context)
                },
                Err(back) => back == (context, root),
            },
    {
        let (_needs_trace, edges) = edges_of(&root);
        Self::with_root(context, root, edges)
    }
}

/// An arena without a root over a new context: nothing is reachable in
/// it, so a full collection frees whatever was allocated in it.
pub fn rootless_arena<T>(parameters: ArenaParameters) -> (arena: Arena<(), T>)
    ensures
        arena.wf(),
        arena.context()@ == Context::<T>::empty_view().set_root(Seq::empty()),
        arena.context().parameters() == parameters,
        arena.context().pacing() == (Pacing { allocated: 0, remembered: 0 }),
{
    let context = Context::new(parameters);
    let out = Arena::with_root(context, (), Vec::new());
    match out {
        Ok(arena) => arena,
        Err(back) => Arena { root: (), context: back.0 },
    }
}

} // verus!
