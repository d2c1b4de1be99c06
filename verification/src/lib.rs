//! A peephole optimizer that runs on a typed SSA intermediate representation
//! before target legalization.
//!
//! It folds constant operands into immediate-form opcodes, replaces integer
//! division and remainder by a constant with multiply-and-shift sequences,
//! fuses compare-against-zero into conditional branches, and reorders the
//! terminator pair of a block so that the unconditional edge falls through.
//!
//! The function under optimization is described in [`function`], what its
//! instructions compute in [`semantics`]. The pass itself is
//! [`preopt::run_preopt`]; its steps are in [`simplify`], [`divrem`] and
//! [`branch`]. What is proved of them beyond their own contracts is in
//! [`soundness`], [`laws`], [`refine`] and [`settle`].

// the intermediate representation
pub mod entities;
pub mod instructions;
pub mod function;
pub mod cursor;
pub mod flowgraph;
pub mod semantics;
pub mod interp;
pub mod validate;

// arithmetic behind division by multiplication
pub mod arith;
pub mod convert;
pub mod magic;

// the pass
pub mod simplify;
pub mod divrem;
pub mod branch;
pub mod preopt;

// what holds of the pass
pub mod soundness;
pub mod laws;
pub mod refine;
pub mod settle;

// records for the embedder
pub mod metadata;
