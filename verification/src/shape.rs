//! The structural rule by which a composite type is found to need tracing.

use vstd::prelude::*;

verus! {

/// The shape of a type, as far as tracing is concerned.
pub enum Shape {
    /// A type that holds no managed pointer: an integer, a `bool`, a string.
    Primitive,
    /// A managed pointer, strong or weak.
    Pointer,
    /// A field that is promised to hold no managed pointer, whatever its
    /// type: it is left out of the decision.
    Inert,
    /// A struct, a tuple or one variant of an enum, by its fields.
    Product(Vec<Shape>),
    /// An enum, by its variants.
    Sum(Vec<Shape>),
}

/// What a type promises of its destructor when its tracing is derived.
#[derive(Copy, Clone, Debug, PartialEq, Eq, Structural)]
pub enum Mode {
    /// The type holds no managed pointer at all: it is never traced.
    RequireStatic,
    /// The type has no destructor of its own.
    NoDrop,
    /// The type has a destructor that touches no managed pointer.
    UnsafeDrop,
}

/// Why tracing cannot be derived for a type.
#[derive(Copy, Clone, Debug, PartialEq, Eq, Structural)]
pub enum DeriveError {
    /// The type promised to have no destructor, and has one.
    ImplementsDrop,
}

/// What deriving the tracing of a type of shape `shape` gives: an error
/// where the type has a destructor against its promise; else whether the
/// type needs tracing, which a type that holds no managed pointer at all
/// never does.
pub open spec fn derived(shape: Shape, mode: Mode, has_drop: bool) -> Result<bool, DeriveError> {
    if mode == Mode::NoDrop && has_drop {
        Err(DeriveError::ImplementsDrop)
    } else if mode == Mode::RequireStatic {
        Ok(false)
    } else {
        Ok(shape.spec_needs_trace())
    }
}

/// Derives whether a type needs tracing from its shape, its promise and
/// whether it has a destructor of its own.
pub fn derive_collect(shape: &Shape, mode: Mode, has_drop: bool) -> (out: Result<bool, DeriveError>)
    ensures
        out == derived(*shape, mode, has_drop),
{
    match mode {
        Mode::NoDrop => {
            if has_drop {
                Err(DeriveError::ImplementsDrop)
            } else {
                Ok(shape.needs_trace())
            }
        },
        Mode::RequireStatic => Ok(false),
        Mode::UnsafeDrop => Ok(shape.needs_trace()),
    }
}

impl Shape {
    /// A composite needs tracing exactly if one of its parts does; a
    /// pointer does; a primitive and an inert field do not.
    pub open spec fn spec_needs_trace(self) -> bool
        decreases self,
    {
        match self {
            Shape::Primitive => false,
            Shape::Pointer => true,
            Shape::Inert => false,
            Shape::Product(fields) => exists|i: int|
                0 <= i < fields@.len() && (#[trigger] fields@[i]).spec_needs_trace(),
            Shape::Sum(variants) => exists|i: int|
                0 <= i < variants@.len() && (#[trigger] variants@[i]).spec_needs_trace(),
        }
    }

    /// Whether a value of this shape can hold a managed pointer.
    pub fn needs_trace(&self) -> (needed: bool)
        ensures
            needed == self.spec_needs_trace(),
        decreases self,
    {
        match self {
            Shape::Primitive => false,
            Shape::Pointer => true,
            Shape::Inert => false,
            Shape::Product(fields) => Self::any_needs_trace(fields),
            Shape::Sum(variants) => Self::any_needs_trace(variants),
        }
    }

    /// Whether one of `parts` needs tracing.
    fn any_needs_trace(parts: &Vec<Shape>) -> (needed: bool)
        ensures
            needed == (exists|i: int|
                0 <= i < parts@.len() && (#[trigger] parts@[i]).spec_needs_trace()),
        decreases parts,
    {
        let n: usize = parts.len();
        let mut i: usize = 0;
        while i < n
            invariant
                0 <= i <= n,
                n == parts@.len(),
                forall|k: int| 0 <= k < i ==> !(#[trigger] parts@[k]).spec_needs_trace(),
            decreases n - i,
        {
            if parts[i].needs_trace() {
                return true;
            }
            i = i + 1;
        }
        false
    }
}

} // verus!
