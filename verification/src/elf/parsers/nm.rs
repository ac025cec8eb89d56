//! Symbols read from the listing that the system's `nm --print-size` prints.

use vstd::prelude::*;
use vstd::utf8::{decode_utf8, valid_utf8};

use crate::elf::symbol_diff::{demangle_name, display_name, texts};
use crate::elf::symbols::{symbol_views, Symbol, SymbolKind, SymbolReadError, SymbolView};
use crate::table::string_texts;
use crate::text::{chars_of, split_words, words};

verus! {

/// The lines of a text: the pieces between line feeds (a text always has
/// at least one line, which may be empty).
pub open spec fn text_lines(s: Seq<char>) -> Seq<Seq<char>>
    decreases s.len(),
{
    if s.len() == 0 {
        seq![seq![]]
    } else {
        let r = text_lines(s.drop_last());
        if s.last() == '\n' {
            r.push(seq![])
        } else {
            r.update(r.len() - 1, r.last().push(s.last()))
        }
    }
}

proof fn lemma_text_lines_len(s: Seq<char>)
    ensures
        text_lines(s).len() >= 1,
    decreases s.len(),
{
    if s.len() > 0 {
        lemma_text_lines_len(s.drop_last());
    }
}

/// The value of a hexadecimal digit.
pub open spec fn hex_digit(c: char) -> Option<nat> {
    let u = c as u32;
    if 48 <= u <= 57 {
        Some((u - 48) as nat)
    } else if 97 <= u <= 102 {
        Some((u - 87) as nat)
    } else if 65 <= u <= 70 {
        Some((u - 55) as nat)
    } else {
        None
    }
}

/// The number that the hexadecimal digits `w` write.
pub open spec fn hex_value(w: Seq<char>) -> nat
    decreases w.len(),
{
    if w.len() == 0 {
        0
    } else {
        let d = match hex_digit(w.last()) {
            Some(v) => v,
            None => 0,
        };
        hex_value(w.drop_last()) * 16 + d
    }
}

/// The number that a word of `nm` writes: one or more hexadecimal digits
/// whose value fits in 64 bits.
pub open spec fn nm_number(w: Seq<char>) -> Option<u64> {
    if w.len() > 0 && (forall|i: int| 0 <= i < w.len() ==> hex_digit(#[trigger] w[i]) is Some)
        && hex_value(w) <= u64::MAX {
        Some(hex_value(w) as u64)
    } else {
        None
    }
}

/// The kind of symbol that an `nm` type letter names: text is code;
/// initialised, read-only and small data are data; bss, small bss and
/// common symbols are bss; every other letter is another kind.
pub open spec fn nm_kind(c: char) -> SymbolKind {
    if c == 'T' || c == 't' {
        SymbolKind::Code
    } else if c == 'D' || c == 'd' || c == 'R' || c == 'r' || c == 'G' || c == 'g' {
        SymbolKind::Data
    } else if c == 'B' || c == 'b' || c == 'S' || c == 's' || c == 'C' || c == 'c' {
        SymbolKind::Bss
    } else {
        SymbolKind::Other
    }
}

/// Law: the kind of an `nm` type letter does not depend on its case: the
/// upper-case letter (global symbol) and the lower-case letter (local
/// symbol) of every type name the same kind.
pub proof fn lemma_nm_kind_ignores_case(upper: char, lower: char)
    requires
        65 <= (upper as u32) <= 90,
        (lower as u32) == (upper as u32) + 32,
    ensures
        nm_kind(upper) == nm_kind(lower),
{
    broadcast use vstd::utf8::char_u32_cast;

    assert(('T' as u32) == 84 && ('t' as u32) == 116);
    assert(('D' as u32) == 68 && ('d' as u32) == 100);
    assert(('R' as u32) == 82 && ('r' as u32) == 114);
    assert(('G' as u32) == 71 && ('g' as u32) == 103);
    assert(('B' as u32) == 66 && ('b' as u32) == 98);
    assert(('S' as u32) == 83 && ('s' as u32) == 115);
    assert(('C' as u32) == 67 && ('c' as u32) == 99);
    assert((upper == 'T') <==> (lower == 't')) by {
        if (upper as u32) == 84 { assert(upper == ((upper as u32) as char)); assert((84u32 as char) == 'T'); }
        if (lower as u32) == 116 { assert(lower == ((lower as u32) as char)); assert((116u32 as char) == 't'); }
    }
    assert((upper == 'D') <==> (lower == 'd')) by {
        if (upper as u32) == 68 { assert(upper == ((upper as u32) as char)); assert((68u32 as char) == 'D'); }
        if (lower as u32) == 100 { assert(lower == ((lower as u32) as char)); assert((100u32 as char) == 'd'); }
    }
    assert((upper == 'R') <==> (lower == 'r')) by {
        if (upper as u32) == 82 { assert(upper == ((upper as u32) as char)); assert((82u32 as char) == 'R'); }
        if (lower as u32) == 114 { assert(lower == ((lower as u32) as char)); assert((114u32 as char) == 'r'); }
    }
    assert((upper == 'G') <==> (lower == 'g')) by {
        if (upper as u32) == 71 { assert(upper == ((upper as u32) as char)); assert((71u32 as char) == 'G'); }
        if (lower as u32) == 103 { assert(lower == ((lower as u32) as char)); assert((103u32 as char) == 'g'); }
    }
    assert((upper == 'B') <==> (lower == 'b')) by {
        if (upper as u32) == 66 { assert(upper == ((upper as u32) as char)); assert((66u32 as char) == 'B'); }
        if (lower as u32) == 98 { assert(lower == ((lower as u32) as char)); assert((98u32 as char) == 'b'); }
    }
    assert((upper == 'S') <==> (lower == 's')) by {
        if (upper as u32) == 83 { assert(upper == ((upper as u32) as char)); assert((83u32 as char) == 'S'); }
        if (lower as u32) == 115 { assert(lower == ((lower as u32) as char)); assert((115u32 as char) == 's'); }
    }
    assert((upper == 'C') <==> (lower == 'c')) by {
        if (upper as u32) == 67 { assert(upper == ((upper as u32) as char)); assert((67u32 as char) == 'C'); }
        if (lower as u32) == 99 { assert(lower == ((lower as u32) as char)); assert((99u32 as char) == 'c'); }
    }
}

/// Law: text symbols are code, whatever their binding: a line of the
/// listing whose type letter is `T` (global) or `t` (local) gives a code
/// symbol, with the line's name and size.
pub proof fn lemma_nm_text_is_code(line: Seq<char>)
    requires
        nm_line_symbol(line) is Some,
        words(line)[2] == seq!['T'] || words(line)[2] == seq!['t'],
    ensures
        nm_line_symbol(line).unwrap().kind == SymbolKind::Code,
        nm_line_symbol(line).unwrap().name == words(line)[3],
        nm_line_symbol(line).unwrap().size as int == nm_number(words(line)[1]).unwrap() as int,
{
    let w = words(line)[2];
    if w == seq!['T'] {
        assert(w[0] == 'T');
    } else {
        assert(w[0] == 't');
    }
}

/// The symbol of one line of the listing: a line of exactly four words,
/// the address and the size in hexadecimal, a one-letter type, and the
/// name. Any other line (a header, an undefined symbol, a symbol without a
/// size) names no symbol.
pub open spec fn nm_line_symbol(line: Seq<char>) -> Option<SymbolView> {
    let ws = words(line);
    if ws.len() == 4 && ws[2].len() == 1 {
        match (nm_number(ws[0]), nm_number(ws[1])) {
            (Some(a), Some(z)) => if z <= usize::MAX {
                Some(SymbolView {
                    name: ws[3],
                    demangled: display_name(ws[3]),
                    kind: nm_kind(ws[2][0]),
                    size: z as usize,
                    address: Some(a),
                })
            } else {
                None
            },
            _ => None,
        }
    } else {
        None
    }
}

/// The symbols of a list of lines, in order.
pub open spec fn nm_lines_symbols(ls: Seq<Seq<char>>) -> Seq<SymbolView>
    decreases ls.len(),
{
    if ls.len() == 0 {
        seq![]
    } else {
        let rest = nm_lines_symbols(ls.drop_last());
        match nm_line_symbol(ls.last()) {
            Some(s) => rest.push(s),
            None => rest,
        }
    }
}

/// The symbols of an `nm --print-size` listing, in the order of its lines.
pub open spec fn nm_symbols(listing: Seq<char>) -> Seq<SymbolView> {
    nm_lines_symbols(text_lines(listing))
}

/// Splits a text into its lines.
fn split_lines(s: &Vec<char>) -> (ls: Vec<Vec<char>>)
    ensures
        texts(ls@) == text_lines(s@),
{
    let mut out: Vec<Vec<char>> = Vec::new();
    let mut cur: Vec<char> = Vec::new();
    proof {
        assert(s@.take(0) =~= Seq::<char>::empty());
        assert(texts(out@).push(cur@) =~= text_lines(s@.take(0)));
    }
    for i in 0..s.len()
        invariant
            texts(out@).push(cur@) == text_lines(s@.take(i as int)),
    {
        let c = s[i];
        let ghost before = texts(out@).push(cur@);
        proof {
            assert(s@.take(i + 1).drop_last() =~= s@.take(i as int));
            assert(s@.take(i + 1).last() == c);
        }
        if c == '\n' {
            let done = cur;
            let ghost prev = out@;
            out.push(done);
            cur = Vec::new();
            proof {
                assert(texts(out@) =~= texts(prev).push(done@));
                assert(texts(out@).push(cur@) =~= before.push(seq![]));
            }
        } else {
            let ghost old_cur = cur@;
            cur.push(c);
            proof {
                assert(texts(out@).push(cur@) =~= before.update(before.len() - 1, before.last().push(c)));
            }
        }
    }
    let ghost fin = texts(out@).push(cur@);
    let ghost prev = out@;
    out.push(cur);
    proof {
        assert(texts(out@) =~= fin);
        assert(s@.take(s@.len() as int) =~= s@);
    }
    out
}

/// The value of a hexadecimal digit.
fn hex_digit_value(c: char) -> (r: Option<u64>)
    ensures
        match r {
            Some(v) => hex_digit(c) == Some(v as nat),
            None => hex_digit(c) is None,
        },
{
    let u = c as u32;
    if 48 <= u && u <= 57 {
        Some((u - 48) as u64)
    } else if 97 <= u && u <= 102 {
        Some((u - 87) as u64)
    } else if 65 <= u && u <= 70 {
        Some((u - 55) as u64)
    } else {
        None
    }
}

/// A prefix of hexadecimal digits is worth no more than the whole word.
proof fn lemma_hex_prefix(w: Seq<char>, j: int)
    requires
        0 <= j <= w.len(),
    ensures
        hex_value(w.take(j)) <= hex_value(w),
    decreases w.len(),
{
    if j == w.len() {
        assert(w.take(j) =~= w);
    } else {
        lemma_hex_prefix(w.drop_last(), j);
        assert(w.drop_last().take(j) =~= w.take(j));
    }
}

/// Reads a word of hexadecimal digits whose value fits in 64 bits.
fn parse_hex(w: &Vec<char>) -> (r: Option<u64>)
    ensures
        r == nm_number(w@),
{
    if w.len() == 0 {
        return None;
    }
    let mut acc: u64 = 0;
    proof {
        assert(w@.take(0) =~= Seq::<char>::empty());
    }
    for i in 0..w.len()
        invariant
            w.len() > 0,
            acc == hex_value(w@.take(i as int)),
            forall|k: int| 0 <= k < i ==> hex_digit(#[trigger] w@[k]) is Some,
    {
        let c = w[i];
        proof {
            assert(w@.take(i + 1).drop_last() =~= w@.take(i as int));
            assert(w@.take(i + 1).last() == c);
        }
        match hex_digit_value(c) {
            None => {
                proof {
                    assert(hex_digit(w@[i as int]) is None);
                }
                return None;
            },
            Some(d) => {
                let next = match acc.checked_mul(16) {
                    Some(m) => m.checked_add(d),
                    None => None,
                };
                match next {
                    Some(v) => {
                        acc = v;
                    },
                    None => {
                        proof {
                            assert(hex_value(w@.take(i + 1)) > u64::MAX);
                            lemma_hex_prefix(w@, i + 1);
                        }
                        return None;
                    },
                }
            },
        }
    }
    proof {
        assert(w@.take(w@.len() as int) =~= w@);
    }
    Some(acc)
}

/// The kind of symbol that an `nm` type letter names.
pub fn nm_symbol_kind(c: char) -> (k: SymbolKind)
    ensures
        k == nm_kind(c),
{
    if c == 'T' || c == 't' {
        SymbolKind::Code
    } else if c == 'D' || c == 'd' || c == 'R' || c == 'r' || c == 'G' || c == 'g' {
        SymbolKind::Data
    } else if c == 'B' || c == 'b' || c == 'S' || c == 's' || c == 'C' || c == 'c' {
        SymbolKind::Bss
    } else {
        SymbolKind::Other
    }
}

/// The symbol of one line of the listing, if it names one.
pub fn nm_line(line: &Vec<char>) -> (r: Option<Symbol>)
    ensures
        match r {
            Some(s) => nm_line_symbol(line@) == Some(s@),
            None => nm_line_symbol(line@) is None,
        },
{
    let ws = split_words(line);
    proof {
        assert(string_texts(ws@).len() == ws@.len());
    }
    if ws.len() != 4 {
        return None;
    }
    let t = chars_of(ws[2].as_str());
    proof {
        assert(string_texts(ws@)[2] == ws@[2]@);
    }
    if t.len() != 1 {
        return None;
    }
    let a = parse_hex(&chars_of(ws[0].as_str()));
    let z = parse_hex(&chars_of(ws[1].as_str()));
    proof {
        assert(string_texts(ws@)[0] == ws@[0]@);
        assert(string_texts(ws@)[1] == ws@[1]@);
        assert(string_texts(ws@)[3] == ws@[3]@);
    }
    match (a, z) {
        (Some(a), Some(z)) => {
            if z > usize::MAX as u64 {
                return None;
            }
            let name = ws[3].clone();
            let demangled = demangle_name(ws[3].as_str());
            Some(Symbol { name, demangled, kind: nm_symbol_kind(t[0]), size: z as usize, address: Some(a) })
        },
        _ => None,
    }
}

/// `std::str::from_utf8`: the text that the bytes encode in UTF-8, or
/// nothing when they are not valid UTF-8. Claimed: it succeeds exactly on
/// valid UTF-8 (as vstd's `valid_utf8` defines it) and gives the characters
/// that vstd's `decode_utf8` reads.
#[verifier::external_body]
fn utf8_text(bytes: &[u8]) -> (r: Option<String>)
    ensures
        match r {
            Some(t) => valid_utf8(bytes@) && t@ == decode_utf8(bytes@),
            None => !valid_utf8(bytes@),
        },
{
    match std::str::from_utf8(bytes) {
        Ok(t) => Some(t.to_owned()),
        Err(_) => None,
    }
}

/// The symbols of the bytes that `nm --print-size` wrote: its listing when
/// the bytes are UTF-8 text, else nothing.
pub open spec fn nm_output_symbols(output: Seq<u8>) -> Option<Seq<SymbolView>> {
    if valid_utf8(output) {
        Some(nm_symbols(decode_utf8(output)))
    } else {
        None
    }
}

/// Reads symbols from the listing that `nm --print-size` prints.
pub struct NmParser;

impl NmParser {
    /// The symbols of the listing, in the order of its lines: each line of
    /// an address, a size, a type letter and a name gives one symbol.
    pub fn symbols_from_listing(&self, listing: &str) -> (syms: Vec<Symbol>)
        ensures
            symbol_views(syms@) == nm_symbols(listing@),
    {
        let cs = chars_of(listing);
        let ls = split_lines(&cs);
        let ghost lv = texts(ls@);
        let mut syms: Vec<Symbol> = Vec::new();
        proof {
            assert(lv.take(0) =~= Seq::<Seq<char>>::empty());
            assert(symbol_views(syms@) =~= Seq::<SymbolView>::empty());
        }
        for i in 0..ls.len()
            invariant
                lv == texts(ls@),
                symbol_views(syms@) == nm_lines_symbols(lv.take(i as int)),
        {
            proof {
                assert(lv.take(i + 1).drop_last() =~= lv.take(i as int));
                assert(lv.take(i + 1).last() == ls@[i as int]@);
            }
            match nm_line(&ls[i]) {
                Some(s) => {
                    let ghost prev = syms@;
                    syms.push(s);
                    proof {
                        assert(symbol_views(syms@) =~= symbol_views(prev).push(s@));
                    }
                },
                None => {},
            }
        }
        proof {
            assert(lv.take(lv.len() as int) =~= lv);
        }
        syms
    }

    /// The symbols of the bytes that `nm --print-size` wrote; output that is
    /// not UTF-8 text is refused as malformed.
    pub fn symbols_from_output(&self, output: &[u8]) -> (res: Result<Vec<Symbol>, SymbolReadError>)
        ensures
            match res {
                Ok(v) => nm_output_symbols(output@) == Some(symbol_views(v@)),
                Err(e) => nm_output_symbols(output@) is None && e == SymbolReadError::Malformed,
            },
    {
        match utf8_text(output) {
            Some(t) => Ok(self.symbols_from_listing(t.as_str())),
            None => Err(SymbolReadError::Malformed),
        }
    }
}

} // verus!
