//! Canonical LR(1) table construction for context-free grammars.
//!
//! The crate analyses a grammar (FIRST and FOLLOW sets), builds the canonical
//! collection of LR(1) item sets and derives the shift/reduce/goto table from
//! it. Every function carries a contract that Verus checks.

pub mod grammar;
pub mod loader;
pub mod symbol_set;
pub mod symbol_map;
pub mod first;
pub mod follow;
pub mod derivation;
pub mod item;
pub mod lr1_generator;
pub mod parse_table;
