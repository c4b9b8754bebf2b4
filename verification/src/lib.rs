//! A fine-grained reactive graph: cells that hold values ("signals"),
//! computations that are evaluated again when a cell they read is written
//! ("effects"), and cells whose value is computed from other cells and
//! written only when it changes ("selectors").
//!
//! Nothing is declared: an effect depends on the cells that its procedure
//! read when it was last evaluated. All state lives in a [`runtime::Runtime`],
//! which hands out copyable names checked by generation, so that a name that
//! outlives its cell is refused and never yields a stale value.
//!
//! What a write does is stated over a mathematical model of the graph
//! ([`graph::Graph`]) and of the evaluations that the write set off
//! ([`graph::Run`]); [`laws`] holds what follows for every graph.

mod ambient;
pub mod arena;
pub mod effect;
pub mod error;
pub mod frame;
pub mod graph;
pub mod laws;
pub mod once;
pub mod runtime;
pub mod scope;
pub mod selector;
pub mod signal;
pub mod stack;
pub mod tracker;
