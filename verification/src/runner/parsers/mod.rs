//! Symbol parsers built on the `elf` crate.

pub mod native;
