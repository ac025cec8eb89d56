//! Symbol-size analysis of ELF files: symbol extraction from parsed ELF
//! tables, comparison of two symbol lists, and CSV reports.

pub mod elf;
pub mod output;
pub mod runner;
pub mod table;
pub mod table_read;
pub mod text;
