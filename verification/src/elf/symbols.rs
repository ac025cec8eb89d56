//! The symbol records that the parsers produce and the comparison consumes.

use vstd::prelude::*;

verus! {

/// Represents the type of a symbol (e.g., code, data, BSS).
#[derive(Debug, Clone, Copy, PartialEq, Eq, Hash, Structural)]
pub enum SymbolKind {
    /// Function or other executable code
    Code,
    /// Initialized data
    Data,
    /// Uninitialized data
    Bss,
    /// Other symbol types (e.g., section, file)
    Other,
    /// Symbol type could not be determined
    Unknown,
}

/// The label of a symbol kind in reports.
pub open spec fn kind_label(kind: SymbolKind) -> Seq<char> {
    match kind {
        SymbolKind::Code => "Code"@,
        SymbolKind::Data => "Data"@,
        SymbolKind::Bss => "Bss"@,
        SymbolKind::Other => "Other"@,
        SymbolKind::Unknown => "Unknown"@,
    }
}

impl SymbolKind {
    /// The label of this kind as it appears in reports (`Code`, `Data`, ...).
    pub fn label(&self) -> (s: String)
        ensures
            s@ == kind_label(*self),
    {
        match self {
            SymbolKind::Code => String::from_str("Code"),
            SymbolKind::Data => String::from_str("Data"),
            SymbolKind::Bss => String::from_str("Bss"),
            SymbolKind::Other => String::from_str("Other"),
            SymbolKind::Unknown => String::from_str("Unknown"),
        }
    }
}

/// One symbol of an ELF file.
#[derive(Debug, Clone, PartialEq)]
pub struct Symbol {
    pub name: String,
    pub demangled: String,
    pub kind: SymbolKind,
    pub size: usize,
    pub address: Option<u64>,
}

/// A symbol as a mathematical value.
pub struct SymbolView {
    pub name: Seq<char>,
    pub demangled: Seq<char>,
    pub kind: SymbolKind,
    pub size: usize,
    pub address: Option<u64>,
}

impl View for Symbol {
    type V = SymbolView;

    open spec fn view(&self) -> SymbolView {
        SymbolView {
            name: self.name@,
            demangled: self.demangled@,
            kind: self.kind,
            size: self.size,
            address: self.address,
        }
    }
}

/// The views of a sequence of symbols.
pub open spec fn symbol_views(syms: Seq<Symbol>) -> Seq<SymbolView> {
    syms.map_values(|s: Symbol| s@)
}

/// Type of change for a symbol.
#[derive(Debug, Clone, Copy, PartialEq, Eq, Structural)]
pub enum ChangeType {
    Added,
    Removed,
    Changed,
}

/// The label of a change in reports.
pub open spec fn change_label(change: ChangeType) -> Seq<char> {
    match change {
        ChangeType::Added => "ADDED"@,
        ChangeType::Removed => "REMOVED"@,
        ChangeType::Changed => "CHANGED"@,
    }
}

impl ChangeType {
    /// The label of this change as it appears in reports (`ADDED`, ...).
    pub fn label(&self) -> (s: String)
        ensures
            s@ == change_label(*self),
    {
        match self {
            ChangeType::Added => String::from_str("ADDED"),
            ChangeType::Removed => String::from_str("REMOVED"),
            ChangeType::Changed => String::from_str("CHANGED"),
        }
    }
}

/// Represents the change in size of a symbol between two ELF files.
#[derive(Debug, PartialEq)]
pub struct DiffResult {
    pub change_type: ChangeType,
    pub symbol_kind: SymbolKind,
    pub symbol_name: String,
    pub diff: i64,
    pub base_size: usize,
    pub size: usize,
}

/// A row of a comparison as a mathematical value.
pub struct DiffRow {
    pub change_type: ChangeType,
    pub symbol_kind: SymbolKind,
    pub symbol_name: Seq<char>,
    pub diff: i64,
    pub base_size: usize,
    pub size: usize,
}

impl View for DiffResult {
    type V = DiffRow;

    open spec fn view(&self) -> DiffRow {
        DiffRow {
            change_type: self.change_type,
            symbol_kind: self.symbol_kind,
            symbol_name: self.symbol_name@,
            diff: self.diff,
            base_size: self.base_size,
            size: self.size,
        }
    }
}

/// The views of a sequence of comparison rows.
pub open spec fn diff_views(rows: Seq<DiffResult>) -> Seq<DiffRow> {
    rows.map_values(|r: DiffResult| r@)
}

/// Sizes summed over every symbol of both inputs, shown or not.
#[derive(Debug, Clone, Copy, PartialEq, Eq, Structural)]
pub struct DiffTotals {
    pub base_size: usize,
    pub size: usize,
    pub diff: i64,
}

/// The result of comparing two symbol lists.
#[derive(Debug)]
pub struct SymbolDiffReport {
    pub diffs: Vec<DiffResult>,
    pub totals: DiffTotals,
}

/// Why the symbols of an ELF image could not be read.
#[derive(Debug, Clone, Copy, PartialEq, Eq, Structural)]
pub enum SymbolReadError {
    /// The bytes are not an ELF image that the parser accepts.
    Malformed,
    /// The image has no symbol table.
    NoSymbolTable,
    /// A symbol's name could not be read from the string table.
    BadSymbolName,
}

/// A source of symbols: parses the bytes of an ELF image.
pub trait ElfParser {
    fn get_symbols(&self, data: &[u8]) -> Result<Vec<Symbol>, SymbolReadError>;
}

} // verus!
