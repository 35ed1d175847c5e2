//! Static detection of reentrant deadlocks: a relational fact store, a
//! stratified fixpoint engine over it, and the helpers that turn a compiled
//! program's call sites and guard aliases into facts.
pub mod reach;
pub mod facts;
mod engine;
pub mod lock_detection;
pub mod alias;
pub mod interner;
pub mod generic;
pub mod program;
pub mod callsites;
pub mod pass;
