//! ELF symbol parser using the `elf` crate.

use vstd::prelude::*;

use crate::elf::parsers::{make_symbol, raw_views, symbol_of, RawSymbol, RawSymbolView};
use crate::elf::symbols::{symbol_views, ElfParser, Symbol, SymbolReadError, SymbolView};

verus! {

/// What the `elf` crate reads from the bytes of an ELF image: nothing when
/// `ElfBytes::minimal_parse` or `symbol_table` fails; `Some(None)` when the
/// image has no symbol table; otherwise the entries of `.symtab`, each name
/// looked up in the linked string table with `StringTable::get`.
pub uninterp spec fn elf_symbol_table(data: Seq<u8>) -> Option<Option<Seq<RawSymbolView>>>;

/// The number of symbol table entries (`ElfBytes::<AnyEndian>::minimal_parse`,
/// `symbol_table`, `ParsingTable::len`), `Some(None)` without a symbol
/// table, `None` when parsing fails. Claimed: these agree with `elf_symbol_table`.
#[verifier::external_body]
fn elf_symbol_count(data: &[u8]) -> (res: Option<Option<usize>>)
    ensures
        match res {
            Some(Some(n)) => match elf_symbol_table(data@) {
                Some(Some(t)) => t.len() == n,
                _ => false,
            },
            Some(None) => elf_symbol_table(data@) == Some(None::<Seq<RawSymbolView>>),
            None => elf_symbol_table(data@) is None,
        },
{
    let file = match ::elf::ElfBytes::<::elf::endian::AnyEndian>::minimal_parse(data) {
        Ok(file) => file,
        Err(_) => return None,
    };
    match file.symbol_table() {
        Ok(Some((symtab, _))) => Some(Some(symtab.len())),
        Ok(None) => Some(None),
        Err(_) => None,
    }
}

/// Entry `i` of the symbol table (`ParsingTable::get`, which parses every
/// entry below the table's length), its name from `StringTable::get`
/// (`None` when that fails). Claimed: it is entry `i` of `elf_symbol_table`.
#[verifier::external_body]
fn elf_symbol_entry(data: &[u8], i: usize) -> (r: Option<RawSymbol>)
    requires
        match elf_symbol_table(data@) {
            Some(Some(t)) => i < t.len(),
            _ => false,
        },
    ensures
        r is Some,
        match elf_symbol_table(data@) {
            Some(Some(t)) => r.unwrap()@ == t[i as int],
            _ => false,
        },
{
    let file = ::elf::ElfBytes::<::elf::endian::AnyEndian>::minimal_parse(data).ok()?;
    let (symtab, strtab) = file.symbol_table().ok()??;
    let sym = symtab.get(i).ok()?;
    let name = match strtab.get(sym.st_name as usize) {
        Ok(n) => Some(n.to_string()),
        Err(_) => None,
    };
    Some(RawSymbol { name, info: sym.st_info, size: sym.st_size, value: sym.st_value })
}

/// The symbols of symbol table entries: nothing when some entry's name
/// could not be read; entries with an empty name are left out.
pub open spec fn native_symbols(entries: Seq<RawSymbolView>) -> Option<Seq<SymbolView>>
    decreases entries.len(),
{
    if entries.len() == 0 {
        Some(seq![])
    } else {
        match native_symbols(entries.drop_last()) {
            None => None,
            Some(rest) => {
                let e = entries.last();
                match e.name {
                    None => None,
                    Some(n) => if n.len() == 0 {
                        Some(rest)
                    } else {
                        Some(rest.push(symbol_of(n, e)))
                    },
                }
            },
        }
    }
}

/// The symbols of the entries that the `elf` crate read; an entry whose
/// name could not be read fails the whole table.
pub fn native_symbols_from(entries: &Vec<RawSymbol>) -> (res: Result<Vec<Symbol>, SymbolReadError>)
    ensures
        match res {
            Ok(v) => native_symbols(raw_views(entries@)) == Some(symbol_views(v@)),
            Err(e) => native_symbols(raw_views(entries@)) is None && e == SymbolReadError::BadSymbolName,
        },
{
    let ghost ev = raw_views(entries@);
    let mut syms: Vec<Symbol> = Vec::new();
    proof {
        assert(ev.take(0) =~= Seq::<RawSymbolView>::empty());
        assert(symbol_views(syms@) =~= Seq::<SymbolView>::empty());
    }
    for i in 0..entries.len()
        invariant
            ev == raw_views(entries@),
            native_symbols(ev.take(i as int)) == Some(symbol_views(syms@)),
    {
        let e = &entries[i];
        proof {
            assert(ev.take(i + 1).drop_last() =~= ev.take(i as int));
            assert(ev.take(i + 1).last() == e@);
        }
        match &e.name {
            Some(n) => {
                if !n.as_str().is_empty() {
                    let s = make_symbol(n, e);
                    let ghost prev = syms@;
                    syms.push(s);
                    proof {
                        assert(symbol_views(syms@) =~= symbol_views(prev).push(s@));
                    }
                }
            },
            None => {
                proof {
                    lemma_native_none_extends(ev, i as int + 1);
                }
                return Err(SymbolReadError::BadSymbolName);
            },
        }
    }
    proof {
        assert(ev.take(ev.len() as int) =~= ev);
    }
    Ok(syms)
}

/// Once a prefix of the entries fails, every longer prefix fails.
proof fn lemma_native_none_extends(entries: Seq<RawSymbolView>, k: int)
    requires
        0 <= k <= entries.len(),
        native_symbols(entries.take(k)) is None,
    ensures
        native_symbols(entries) is None,
    decreases entries.len() - k,
{
    if k == entries.len() {
        assert(entries.take(k) =~= entries);
    } else {
        assert(entries.take(k + 1).drop_last() =~= entries.take(k));
        lemma_native_none_extends(entries, k + 1);
    }
}

/// Reads the symbols of an ELF image with the `elf` crate.
pub struct NativeParser;

/// The symbols that the native parser reads from an image, or the reason it fails.
pub open spec fn native_image_symbols(data: Seq<u8>) -> Result<Seq<SymbolView>, SymbolReadError> {
    match elf_symbol_table(data) {
        None => Err(SymbolReadError::Malformed),
        Some(None) => Err(SymbolReadError::NoSymbolTable),
        Some(Some(t)) => match native_symbols(t) {
            Some(s) => Ok(s),
            None => Err(SymbolReadError::BadSymbolName),
        },
    }
}

impl ElfParser for NativeParser {
    /// The symbols of the symbol table (`.symtab`); entries with an empty
    /// name are left out.
    fn get_symbols(&self, data: &[u8]) -> (res: Result<Vec<Symbol>, SymbolReadError>)
        ensures
            match res {
                Ok(v) => native_image_symbols(data@) == Ok::<Seq<SymbolView>, SymbolReadError>(symbol_views(v@)),
                Err(e) => native_image_symbols(data@) == Err::<Seq<SymbolView>, SymbolReadError>(e),
            },
    {
        let n = match elf_symbol_count(data) {
            None => return Err(SymbolReadError::Malformed),
            Some(None) => return Err(SymbolReadError::NoSymbolTable),
            Some(Some(n)) => n,
        };
        let ghost t = match elf_symbol_table(data@) {
            Some(Some(t)) => t,
            _ => Seq::empty(),
        };
        let mut entries: Vec<RawSymbol> = Vec::new();
        for i in 0..n
            invariant
                elf_symbol_table(data@) == Some(Some(t)),
                n == t.len(),
                raw_views(entries@) == t.take(i as int),
        {
            let e = elf_symbol_entry(data, i).unwrap();
            let ghost ev = e@;
            let ghost prev = entries@;
            entries.push(e);
            proof {
                assert(ev == t[i as int]);
                assert(raw_views(prev).len() == prev.len());
                assert forall|k: int| 0 <= k < i implies raw_views(entries@)[k] == raw_views(prev)[k] by {
                    assert(entries@[k] == prev[k]);
                }
                assert(raw_views(entries@)[i as int] == ev);
                assert(raw_views(entries@) =~= t.take(i + 1));
            }
        }
        proof {
            assert(t.take(n as int) =~= t);
        }
        native_symbols_from(&entries)
    }
}

} // verus!
