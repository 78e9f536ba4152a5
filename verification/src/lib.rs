//! Incremental, scope-aware Skolemization of first-order formulas.

pub mod commands;
pub mod equivalence;
pub mod fingerprint;
pub mod forms;
pub mod histories;
pub mod meaning;
pub mod model;
pub mod naming;
pub mod nnf;
pub mod reading;
pub mod renaming;
pub mod reuse;
pub mod scripts;
pub mod semantics;
pub mod sexpr;
pub mod shapes;
pub mod sharing;
pub mod skolem_table;
pub mod skolemize;
pub mod smt2;
pub mod soundness;
pub mod term;
pub mod text;
pub mod translation;
pub mod verdicts;
pub mod writing;
pub mod z3_api;
pub mod z3_bridge;

pub use skolem_table::SkolemTable;
pub use skolemize::Skolemizer;
pub use term::{Formula, Interner, Term};
