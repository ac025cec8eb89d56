//! ELF symbol parser using the `goblin` crate.

use vstd::prelude::*;

use crate::elf::parsers::{make_symbol, raw_views, symbol_of, RawSymbol, RawSymbolView};
use crate::elf::symbols::{symbol_views, ElfParser, Symbol, SymbolReadError, SymbolView};

verus! {

#[verifier::external_type_specification]
#[verifier::external_body]
pub struct ExGoblinElf<'a>(::goblin::elf::Elf<'a>);

#[verifier::external_type_specification]
#[verifier::external_body]
pub struct ExGoblinError(::goblin::error::Error);

/// What goblin reads from the bytes of an ELF image: the entries of the
/// symbol table and of the dynamic symbol table, each name looked up in
/// `.strtab`; nothing when `Elf::parse` rejects the bytes.
pub uninterp spec fn goblin_tables(data: Seq<u8>) -> Option<(Seq<RawSymbolView>, Seq<RawSymbolView>)>;

/// The symbol table entries that a parsed goblin image holds.
pub uninterp spec fn goblin_static_table(elf: ::goblin::elf::Elf<'_>) -> Seq<RawSymbolView>;

/// The dynamic symbol table entries that a parsed goblin image holds.
pub uninterp spec fn goblin_dynamic_table(elf: ::goblin::elf::Elf<'_>) -> Seq<RawSymbolView>;

/// `goblin::elf::Elf::parse`. Claimed: it fails exactly when `goblin_tables`
/// is nothing, and the parsed image holds the tables that `goblin_tables` names.
#[verifier::external_body]
fn goblin_parse<'a>(data: &'a [u8]) -> (res: Result<::goblin::elf::Elf<'a>, ::goblin::error::Error>)
    ensures
        match res {
            Ok(e) => goblin_tables(data@) == Some((goblin_static_table(e), goblin_dynamic_table(e))),
            Err(_) => goblin_tables(data@) is None,
        },
{
    ::goblin::elf::Elf::parse(data)
}

/// `Symtab::len` of the symbol table.
#[verifier::external_body]
fn goblin_static_count(e: &::goblin::elf::Elf) -> (n: usize)
    ensures
        n == goblin_static_table(*e).len(),
{
    e.syms.len()
}

/// `Symtab::len` of the dynamic symbol table.
#[verifier::external_body]
fn goblin_dynamic_count(e: &::goblin::elf::Elf) -> (n: usize)
    ensures
        n == goblin_dynamic_table(*e).len(),
{
    e.dynsyms.len()
}

/// Entry `i` of the symbol table (`Symtab::get`, which gives an entry for
/// every index below the length), its name looked up with `Strtab::get_at`.
#[verifier::external_body]
fn goblin_static_entry(e: &::goblin::elf::Elf, i: usize) -> (r: Option<RawSymbol>)
    requires
        i < goblin_static_table(*e).len(),
    ensures
        r is Some,
        r.unwrap()@ == goblin_static_table(*e)[i as int],
{
    match e.syms.get(i) {
        Some(s) => {
            let name = match e.strtab.get_at(s.st_name) {
                Some(n) => Some(n.to_string()),
                None => None,
            };
            Some(RawSymbol { name, info: s.st_info, size: s.st_size, value: s.st_value })
        },
        None => None,
    }
}

/// Entry `i` of the dynamic symbol table, its name looked up in `.strtab`
/// (as for the symbol table).
#[verifier::external_body]
fn goblin_dynamic_entry(e: &::goblin::elf::Elf, i: usize) -> (r: Option<RawSymbol>)
    requires
        i < goblin_dynamic_table(*e).len(),
    ensures
        r is Some,
        r.unwrap()@ == goblin_dynamic_table(*e)[i as int],
{
    match e.dynsyms.get(i) {
        Some(s) => {
            let name = match e.strtab.get_at(s.st_name) {
                Some(n) => Some(n.to_string()),
                None => None,
            };
            Some(RawSymbol { name, info: s.st_info, size: s.st_size, value: s.st_value })
        },
        None => None,
    }
}

/// The symbols of goblin entries: entries without a name or with an empty
/// name are left out.
pub open spec fn goblin_symbols(entries: Seq<RawSymbolView>) -> Seq<SymbolView>
    decreases entries.len(),
{
    if entries.len() == 0 {
        seq![]
    } else {
        let rest = goblin_symbols(entries.drop_last());
        let e = entries.last();
        match e.name {
            Some(n) => if n.len() == 0 {
                rest
            } else {
                rest.push(symbol_of(n, e))
            },
            None => rest,
        }
    }
}

/// The symbols of the entries that goblin read.
pub fn goblin_symbols_from(entries: &Vec<RawSymbol>) -> (syms: Vec<Symbol>)
    ensures
        symbol_views(syms@) == goblin_symbols(raw_views(entries@)),
{
    let mut syms: Vec<Symbol> = Vec::new();
    append_goblin_symbols(&mut syms, entries);
    proof {
        assert(raw_views(entries@).take(0) =~= Seq::<RawSymbolView>::empty());
    }
    syms
}

/// Appends the symbols of `entries` to `syms`.
fn append_goblin_symbols(syms: &mut Vec<Symbol>, entries: &Vec<RawSymbol>)
    ensures
        symbol_views(final(syms)@) == symbol_views(old(syms)@) + goblin_symbols(raw_views(entries@)),
{
    let ghost start = symbol_views(syms@);
    let ghost ev = raw_views(entries@);
    proof {
        assert(start + goblin_symbols(ev.take(0)) =~= start);
    }
    for i in 0..entries.len()
        invariant
            ev == raw_views(entries@),
            symbol_views(syms@) == start + goblin_symbols(ev.take(i as int)),
    {
        let e = &entries[i];
        proof {
            assert(ev.take(i + 1).drop_last() =~= ev.take(i as int));
            assert(ev.take(i + 1).last() == e@);
        }
        match &e.name {
            Some(n) => {
                if !n.as_str().is_empty() {
                    let s = make_symbol(n, e);
                    let ghost prev = syms@;
                    syms.push(s);
                    proof {
                        assert(symbol_views(syms@) =~= symbol_views(prev).push(s@));
                    }
                }
            },
            None => {},
        }
    }
    proof {
        assert(ev.take(ev.len() as int) =~= ev);
    }
}

/// Reads the symbols of an ELF image with goblin.
pub struct GoblinParser;

/// The symbols that the goblin parser reads from an image, or nothing when
/// goblin rejects it.
pub open spec fn goblin_image_symbols(data: Seq<u8>) -> Option<Seq<SymbolView>> {
    match goblin_tables(data) {
        Some((st, dy)) => Some(goblin_symbols(st + dy)),
        None => None,
    }
}

impl ElfParser for GoblinParser {
    /// The symbols of the symbol table, then those of the dynamic symbol
    /// table; entries without a name are left out.
    fn get_symbols(&self, data: &[u8]) -> (res: Result<Vec<Symbol>, SymbolReadError>)
        ensures
            match res {
                Ok(v) => goblin_image_symbols(data@) == Some(symbol_views(v@)),
                Err(e) => goblin_image_symbols(data@) is None && e == SymbolReadError::Malformed,
            },
    {
        let elf = match goblin_parse(data) {
            Ok(elf) => elf,
            Err(_) => return Err(SymbolReadError::Malformed),
        };
        let mut entries: Vec<RawSymbol> = Vec::new();
        let n = goblin_static_count(&elf);
        for i in 0..n
            invariant
                n == goblin_static_table(elf).len(),
                raw_views(entries@) == goblin_static_table(elf).take(i as int),
        {
            let e = goblin_static_entry(&elf, i).unwrap();
            let ghost ev = e@;
            let ghost prev = entries@;
            entries.push(e);
            proof {
                assert(ev == goblin_static_table(elf)[i as int]);
                assert(raw_views(prev).len() == prev.len());
                assert forall|k: int| 0 <= k < i implies raw_views(entries@)[k] == raw_views(prev)[k] by {
                    assert(entries@[k] == prev[k]);
                }
                assert(raw_views(entries@)[i as int] == ev);
                assert(raw_views(entries@) =~= goblin_static_table(elf).take(i + 1));
            }
        }
        let m = goblin_dynamic_count(&elf);
        let ghost st = goblin_static_table(elf);
        proof {
            assert(st.take(n as int) =~= st);
        }
        for j in 0..m
            invariant
                m == goblin_dynamic_table(elf).len(),
                st == goblin_static_table(elf),
                raw_views(entries@) == st + goblin_dynamic_table(elf).take(j as int),
        {
            let e = goblin_dynamic_entry(&elf, j).unwrap();
            let ghost ev = e@;
            let ghost prev = entries@;
            entries.push(e);
            proof {
                assert(ev == goblin_dynamic_table(elf)[j as int]);
                assert(raw_views(prev).len() == prev.len());
                assert forall|k: int| 0 <= k < prev.len() implies raw_views(entries@)[k] == raw_views(prev)[k] by {
                    assert(entries@[k] == prev[k]);
                }
                assert(raw_views(entries@)[prev.len() as int] == ev);
                assert(prev.len() == st.len() + j);
                let target = st + goblin_dynamic_table(elf).take(j + 1);
                assert(target.len() == raw_views(entries@).len());
                assert forall|k: int| 0 <= k < target.len() implies raw_views(entries@)[k] == target[k] by {
                    if k < prev.len() {
                        assert(raw_views(prev)[k] == (st + goblin_dynamic_table(elf).take(j as int))[k]);
                    }
                }
                assert(raw_views(entries@) =~= st + goblin_dynamic_table(elf).take(j + 1));
            }
        }
        proof {
            assert(goblin_dynamic_table(elf).take(m as int) =~= goblin_dynamic_table(elf));
        }
        Ok(goblin_symbols_from(&entries))
    }
}

} // verus!
