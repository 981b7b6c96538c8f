//! An incremental tri-color mark-and-sweep collector over an arena of managed
//! boxes, with its state, its steps and its safety invariants stated and proved.
//!
//! A [`context::Context`] holds the boxes and the collector. Boxes are named
//! by handles ([`gc::Gc`], [`gc::GcCell`], [`gc_weak::GcWeak`]); a payload
//! tells the collector what it points to through [`collect::Collect`]. An
//! [`arena::Arena`] adds the root.
//!
//! The collector is specified as a state machine over the view of a context
//! ([`state`]). Its invariant ([`safety`]) is kept by marking ([`marking`]),
//! by every unit of collection ([`collection`]) and by the mutator
//! ([`mutation`]); every run of it ends ([`progress`], [`cycle`]); and a cycle
//! that the mutator does not disturb keeps exactly what the root can reach
//! ([`exactness`]). What follows for every heap is gathered in [`laws`].
//!
//! Handles are plain values, so the mutator could keep one past a
//! collection. A context therefore records which handles it has handed out
//! since the collector last worked ([`access`]), and stores no other.

pub mod access;
pub mod arena;
pub mod collect;
pub mod collect_impl;
pub mod collection;
pub mod context;
pub mod cycle;
pub mod exactness;
pub mod gc;
pub mod gc_static;
pub mod gc_static_cell;
pub mod gc_weak;
pub mod gc_weak_cell;
pub mod heap;
pub mod laws;
pub mod marking;
pub mod mutation;
pub mod pacing;
pub mod progress;
pub mod safety;
pub mod shape;
pub mod state;
pub mod types;
