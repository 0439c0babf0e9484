//! A reactive dataflow engine: a graph of value cells in which a write to one
//! cell recomputes, batch by batch and without glitches, every cell derived
//! from it.
//!
//! The cells of a graph live in one [`SignalGraph`]; a [`Signal`] is a handle
//! to one of them. A write marks every cell that depends on the written one
//! and returns a guard; the release of the guard fires each marked cell
//! once, after the cells it depends on.
//!
//! [`graph`] holds the model that all contracts are stated over; [`laws`],
//! [`quiesce`] and [`interleave`] hold what is proved of it. [`signal_sync`]
//! is the twin for graphs that threads share, [`signal_v2`] a simpler engine
//! that propagates at once.
pub mod value;
pub mod walk;
pub mod graph;
pub mod links;
pub mod preserve;
pub mod signal;
pub mod propagate;
pub mod room;
pub mod firing;
pub mod api;
pub mod operators;
pub mod laws;
pub mod quiesce;
pub mod interleave;
pub mod signal_sync;
pub mod signal_v2;

pub use crate::signal::{
    Signal, SignalGraph, SignalGuard, SignalGuardInner, SignalInner, WeakSignalRef,
};
pub use crate::value::Value;
