//! Symbol extraction from ELF images: the shared rules, and the parsers
//! built on the `goblin` and `elf` crates and on the listing of `nm`.

pub mod goblin;
pub mod nm;

pub use self::goblin::GoblinParser;
pub use self::nm::NmParser;
pub use crate::runner::parsers::native::NativeParser;

use vstd::prelude::*;

use crate::elf::symbol_diff::{demangle_name, display_name};
use crate::elf::symbols::{Symbol, SymbolKind, SymbolView};

verus! {

/// A symbol table entry as an ELF parser reads it: the name looked up in the
/// string table (`None` when the lookup failed), the `st_info` byte, the
/// size and the value.
pub struct RawSymbol {
    pub name: Option<String>,
    pub info: u8,
    pub size: u64,
    pub value: u64,
}

/// A symbol table entry as a mathematical value.
pub struct RawSymbolView {
    pub name: Option<Seq<char>>,
    pub info: u8,
    pub size: u64,
    pub value: u64,
}

impl View for RawSymbol {
    type V = RawSymbolView;

    open spec fn view(&self) -> RawSymbolView {
        RawSymbolView {
            name: match self.name {
                Some(n) => Some(n@),
                None => None,
            },
            info: self.info,
            size: self.size,
            value: self.value,
        }
    }
}

/// The views of a list of entries.
pub open spec fn raw_views(v: Seq<RawSymbol>) -> Seq<RawSymbolView> {
    v.map_values(|r: RawSymbol| r@)
}

/// The symbol type held in the low four bits of `st_info`.
pub open spec fn symbol_type(info: u8) -> u8 {
    info & 0xf
}

/// The kind of a symbol type (`STT_*`).
pub open spec fn kind_of_type(t: u8) -> SymbolKind {
    if t == 1 || t == 6 {
        SymbolKind::Data
    } else if t == 2 {
        SymbolKind::Code
    } else if t == 5 {
        SymbolKind::Bss
    } else {
        SymbolKind::Other
    }
}

/// The kind of a symbol type: objects and thread-local data are data,
/// functions are code, common blocks are BSS, everything else is other.
pub fn symbol_kind(t: u8) -> (k: SymbolKind)
    ensures
        k == kind_of_type(t),
{
    match t {
        0 => SymbolKind::Other,  // STT_NOTYPE
        1 => SymbolKind::Data,  // STT_OBJECT
        2 => SymbolKind::Code,  // STT_FUNC
        3 => SymbolKind::Other,  // STT_SECTION
        4 => SymbolKind::Other,  // STT_FILE
        5 => SymbolKind::Bss,  // STT_COMMON
        6 => SymbolKind::Data,  // STT_TLS
        _ => SymbolKind::Other,
    }
}

/// The symbol made from an entry whose name is `name`.
pub open spec fn symbol_of(name: Seq<char>, r: RawSymbolView) -> SymbolView {
    SymbolView {
        name: name,
        demangled: display_name(name),
        kind: kind_of_type(symbol_type(r.info)),
        size: r.size as usize,
        address: Some(r.value),
    }
}

/// Builds the symbol of an entry named `name`.
pub fn make_symbol(name: &String, r: &RawSymbol) -> (s: Symbol)
    ensures
        s@ == symbol_of(name@, r@),
{
    Symbol {
        name: name.clone(),
        demangled: demangle_name(name.as_str()),
        kind: symbol_kind(r.info & 0xf),
        size: r.size as usize,
        address: Some(r.value),
    }
}

} // verus!
