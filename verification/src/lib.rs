//! A fixpoint evaluation engine for stratified Datalog programs with
//! optional lattice-valued predicates.
//!
//! The engine accepts an already type-checked Datalog program, assigns each
//! predicate a stratum (Ullman's algorithm), and executes relational-algebra
//! (RAM) programs to a semi-naive fixpoint, producing a database of derived
//! facts.

pub mod callable;
pub mod database;
pub mod datalog;
pub mod index_selection;
pub mod interpreter;
pub mod precedence_graph;
pub mod pred_syms_of;
pub mod ram;
pub mod search_env;
pub mod shared;
pub mod simplifier;
pub mod stratifier;
pub mod vars_to_indices;
