//! The engines that read symbols, and the reports they produce.

use vstd::prelude::*;

use crate::elf::parsers::goblin::goblin_image_symbols;
use crate::elf::parsers::nm::nm_output_symbols;
use crate::elf::parsers::{GoblinParser, NativeParser, NmParser};
use crate::elf::symbol_diff::{
    compare_symbols, comparison_rows, comparison_totals, diff_records, generate_diff_csv,
    generate_symbols_csv, symbols_records, by_size,
};
use crate::elf::symbols::{symbol_views, ElfParser, Symbol, SymbolReadError, SymbolView};
use crate::runner::parsers::native::native_image_symbols;
use crate::table::{csv_records, CsvWriteError};
use crate::text::{chars_of, text_is};

verus! {

/// The diff engine to use for comparison.
#[derive(Debug, Clone, Copy, PartialEq, Eq, Structural)]
pub enum DiffEngine {
    Nm,
    Native,
    Goblin,
}

/// A diff engine name was not recognized.
#[derive(Debug, Clone, Copy, PartialEq, Eq, Structural)]
pub struct EngineParseError;

/// The engine a name selects: `nm`, `native` or `goblin`, exactly.
pub open spec fn engine_from_text(s: Seq<char>) -> Option<DiffEngine> {
    if s == "nm"@ {
        Some(DiffEngine::Nm)
    } else if s == "native"@ {
        Some(DiffEngine::Native)
    } else if s == "goblin"@ {
        Some(DiffEngine::Goblin)
    } else {
        None
    }
}

/// Parses an engine name: `nm`, `native` or `goblin` (case-sensitive).
pub fn parse_diff_engine(s: &str) -> (res: Result<DiffEngine, EngineParseError>)
    ensures
        match res {
            Ok(e) => engine_from_text(s@) == Some(e),
            Err(_) => engine_from_text(s@) is None,
        },
{
    let cs = chars_of(s);
    if text_is(&cs, "nm") {
        Ok(DiffEngine::Nm)
    } else if text_is(&cs, "native") {
        Ok(DiffEngine::Native)
    } else if text_is(&cs, "goblin") {
        Ok(DiffEngine::Goblin)
    } else {
        Err(EngineParseError)
    }
}

impl std::str::FromStr for DiffEngine {
    type Err = EngineParseError;

    fn from_str(s: &str) -> (res: Result<Self, Self::Err>)
        ensures
            match res {
                Ok(e) => engine_from_text(s@) == Some(e),
                Err(_) => engine_from_text(s@) is None,
            },
    {
        parse_diff_engine(s)
    }
}

/// Why a report could not be produced.
#[derive(Debug, Clone, Copy, PartialEq, Eq, Structural)]
pub enum RunError {
    /// The symbols of an image could not be read.
    Symbols(SymbolReadError),
    /// The engine compares two files only.
    SingleFileUnsupported,
    /// The CSV text could not be produced.
    Report(CsvWriteError),
}

/// The symbols that an engine reads from what it is given for an image:
/// for `nm`, the output of `nm --print-size` run on the image; for the
/// others, the image's bytes.
pub open spec fn engine_symbols(engine: DiffEngine, data: Seq<u8>) -> Result<Seq<SymbolView>, RunError> {
    match engine {
        DiffEngine::Nm => match nm_output_symbols(data) {
            Some(s) => Ok(s),
            None => Err(RunError::Symbols(SymbolReadError::Malformed)),
        },
        DiffEngine::Native => match native_image_symbols(data) {
            Ok(s) => Ok(s),
            Err(e) => Err(RunError::Symbols(e)),
        },
        DiffEngine::Goblin => match goblin_image_symbols(data) {
            Some(s) => Ok(s),
            None => Err(RunError::Symbols(SymbolReadError::Malformed)),
        },
    }
}

/// Reads the symbols of an image with an engine (see `engine_symbols` for
/// what `data` holds).
pub fn read_symbols(engine: &DiffEngine, data: &[u8]) -> (res: Result<Vec<Symbol>, RunError>)
    ensures
        match res {
            Ok(v) => engine_symbols(*engine, data@) == Ok::<Seq<SymbolView>, RunError>(symbol_views(v@)),
            Err(e) => engine_symbols(*engine, data@) == Err::<Seq<SymbolView>, RunError>(e),
        },
{
    match engine {
        DiffEngine::Nm => match NmParser.symbols_from_output(data) {
            Ok(v) => Ok(v),
            Err(e) => Err(RunError::Symbols(e)),
        },
        DiffEngine::Native => match NativeParser.get_symbols(data) {
            Ok(v) => Ok(v),
            Err(e) => Err(RunError::Symbols(e)),
        },
        DiffEngine::Goblin => match GoblinParser.get_symbols(data) {
            Ok(v) => Ok(v),
            Err(e) => Err(RunError::Symbols(e)),
        },
    }
}

/// The CSV comparison report of two symbol lists.
pub open spec fn comparison_csv(from: Seq<SymbolView>, to: Seq<SymbolView>) -> Seq<char> {
    csv_records(diff_records(comparison_rows(from, to), comparison_totals(from, to)))
}

/// The CSV size report of one symbol list.
pub open spec fn single_csv(syms: Seq<SymbolView>) -> Seq<char> {
    csv_records(symbols_records(by_size(syms)))
}

/// Compares the symbols of two images (the baseline `from_data` and
/// `to_data`, each what the engine reads: see `engine_symbols`) read with
/// the selected engine, and returns the CSV report.
pub fn run_diff(from_data: &[u8], to_data: &[u8], diff_engine: &DiffEngine) -> (res: Result<String, RunError>)
    ensures
        match (engine_symbols(*diff_engine, from_data@), engine_symbols(*diff_engine, to_data@)) {
            (Ok(a), Ok(b)) => res is Ok && res.unwrap()@ == comparison_csv(a, b),
            (Err(e), _) => res == Err::<String, RunError>(e),
            (Ok(_), Err(e)) => res == Err::<String, RunError>(e),
        },
{
    let from_symbols = read_symbols(diff_engine, from_data)?;
    let to_symbols = read_symbols(diff_engine, to_data)?;
    let report = compare_symbols(from_symbols, to_symbols);
    match generate_diff_csv(&report) {
        Ok(csv) => Ok(csv),
        Err(e) => Err(RunError::Report(e)),
    }
}

/// The CSV size report of the symbols of one image read with the selected engine.
pub fn run_single(data: &[u8], diff_engine: &DiffEngine) -> (res: Result<String, RunError>)
    ensures
        match engine_symbols(*diff_engine, data@) {
            Ok(s) => res is Ok && res.unwrap()@ == single_csv(s),
            Err(e) => res == Err::<String, RunError>(e),
        },
{
    let symbols = read_symbols(diff_engine, data)?;
    match generate_symbols_csv(symbols) {
        Ok(csv) => Ok(csv),
        Err(e) => Err(RunError::Report(e)),
    }
}

} // verus!
