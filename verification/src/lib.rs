//! An incremental computation graph: a DAG of scalar arithmetic nodes with
//! memoised evaluation and cache invalidation when a leaf input changes.
//!
//! Scalars are carried as the 32-bit patterns of single-precision numbers.
//! The graph never interprets them: the arithmetic itself is supplied by the
//! caller as a kernel, and every contract is stated relative to what that
//! kernel guarantees. A graph records, in ghost state, each request it makes
//! to its kernel, so that the contracts also say what is worked out and what
//! is taken from a cache.
//!
//! - [`model`] is the mathematical model: slots, reachability, evaluation
//!   from scratch, the invariant, and what each operation does to a graph.
//! - [`graph`] holds the arena and is the only module that sees how a graph
//!   is stored.
//! - [`builder`] grows a graph and releases nodes; [`eval`] sets inputs and
//!   evaluates; [`render`] and [`dump`] give the textual forms.
//! - [`laws`] states what holds of every graph; [`frame`], [`preserve`] and
//!   [`requests`] hold the lemmas behind the contracts.

pub mod builder;
pub mod dump;
pub mod eval;
pub mod frame;
pub mod graph;
pub mod laws;
pub mod model;
pub mod node;
pub mod ops;
pub mod preserve;
pub mod render;
pub mod requests;

pub use eval::UnsetInput;
pub use graph::ArenaGraph;
pub use node::{ArenaNode, CompNode, NodeView};
pub use ops::{Applied, BinaryOpType, Operation, UnaryOpType};
