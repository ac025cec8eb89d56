//! Running comparisons: engines that may call the size-diff script, the
//! build step, and the native parser.

pub mod build_engine;
pub mod diff_engine;
pub mod parsers;
