//! Symbols of ELF files, their comparison and the reports built from them.

pub mod diff_engine;
pub mod diff_laws;
pub mod parsers;
pub mod sort;
pub mod symbol_diff;
pub mod symbols;
