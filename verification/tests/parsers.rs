use elf_size::elf::parsers::goblin::goblin_symbols_from;
use elf_size::elf::parsers::{symbol_kind, GoblinParser, NativeParser, RawSymbol};
use elf_size::elf::symbols::{ElfParser, SymbolKind, SymbolReadError};
use elf_size::elf::diff_engine::{run_diff, DiffEngine};
use elf_size::runner::parsers::native::native_symbols_from;

fn raw(name: Option<&str>, info: u8, size: u64) -> RawSymbol {
    RawSymbol { name: name.map(|n| n.to_string()), info, size, value: 0x1000 }
}

#[test]
fn symbol_types_map_to_kinds() {
    assert_eq!(symbol_kind(0), SymbolKind::Other);
    assert_eq!(symbol_kind(1), SymbolKind::Data);
    assert_eq!(symbol_kind(2), SymbolKind::Code);
    assert_eq!(symbol_kind(3), SymbolKind::Other);
    assert_eq!(symbol_kind(4), SymbolKind::Other);
    assert_eq!(symbol_kind(5), SymbolKind::Bss);
    assert_eq!(symbol_kind(6), SymbolKind::Data);
    assert_eq!(symbol_kind(10), SymbolKind::Other);
}

#[test]
fn goblin_entries_skip_missing_and_empty_names() {
    let entries = vec![
        raw(Some(""), 0, 0),
        raw(Some("_ZN6System5Layer4InitEv"), 0x12, 40),
        raw(None, 0x11, 8),
        raw(Some("counter"), 0x11, 8),
    ];
    let syms = goblin_symbols_from(&entries);
    assert_eq!(syms.len(), 2);
    assert_eq!(syms[0].name, "_ZN6System5Layer4InitEv");
    assert_eq!(syms[0].demangled, "System::Layer::Init()");
    assert_eq!(syms[0].kind, SymbolKind::Code);
    assert_eq!(syms[0].size, 40);
    assert_eq!(syms[0].address, Some(0x1000));
    assert_eq!(syms[1].kind, SymbolKind::Data);
}

#[test]
fn native_entries_fail_on_unreadable_name() {
    let good = vec![raw(Some(""), 0, 0), raw(Some("main"), 0x12, 16)];
    let syms = native_symbols_from(&good).unwrap();
    assert_eq!(syms.len(), 1);
    assert_eq!(syms[0].name, "main");
    let bad = vec![raw(Some("main"), 0x12, 16), raw(None, 0x11, 8)];
    assert_eq!(native_symbols_from(&bad).unwrap_err(), SymbolReadError::BadSymbolName);
}

#[test]
fn parsers_reject_non_elf_bytes() {
    assert_eq!(NativeParser.get_symbols(b"\x7fELF").unwrap_err(), SymbolReadError::Malformed);
    assert_eq!(GoblinParser.get_symbols(b"nothing").unwrap_err(), SymbolReadError::Malformed);
}

/// A small relocatable ELF64 (little endian) with a symbol table holding
/// `main` (a 16-byte function) and `counter` (an 8-byte object).
fn tiny_elf() -> Vec<u8> {
    fn put(v: &mut Vec<u8>, at: usize, bytes: &[u8]) {
        v[at..at + bytes.len()].copy_from_slice(bytes);
    }
    let mut v = vec![0u8; 440];
    // ELF header
    put(&mut v, 0, &[0x7f, b'E', b'L', b'F', 2, 1, 1, 0]);
    put(&mut v, 16, &1u16.to_le_bytes()); // e_type: REL
    put(&mut v, 18, &62u16.to_le_bytes()); // e_machine: x86-64
    put(&mut v, 20, &1u32.to_le_bytes()); // e_version
    put(&mut v, 40, &184u64.to_le_bytes()); // e_shoff
    put(&mut v, 52, &64u16.to_le_bytes()); // e_ehsize
    put(&mut v, 58, &64u16.to_le_bytes()); // e_shentsize
    put(&mut v, 60, &4u16.to_le_bytes()); // e_shnum
    put(&mut v, 62, &3u16.to_le_bytes()); // e_shstrndx
    // .strtab at 64
    put(&mut v, 64, b"\0main\0counter\0");
    // .symtab at 80: null entry, main, counter
    let sym = |name: u32, info: u8, value: u64, size: u64| {
        let mut e = Vec::new();
        e.extend_from_slice(&name.to_le_bytes());
        e.push(info);
        e.push(0);
        e.extend_from_slice(&1u16.to_le_bytes());
        e.extend_from_slice(&value.to_le_bytes());
        e.extend_from_slice(&size.to_le_bytes());
        e
    };
    put(&mut v, 104, &sym(1, 0x12, 0x1000, 16));
    put(&mut v, 128, &sym(6, 0x11, 0x2000, 8));
    // .shstrtab at 152
    put(&mut v, 152, b"\0.symtab\0.strtab\0.shstrtab\0");
    // section headers at 184
    let sh = |name: u32, ty: u32, offset: u64, size: u64, link: u32, info: u32, align: u64, entsize: u64| {
        let mut e = Vec::new();
        e.extend_from_slice(&name.to_le_bytes());
        e.extend_from_slice(&ty.to_le_bytes());
        e.extend_from_slice(&0u64.to_le_bytes());
        e.extend_from_slice(&0u64.to_le_bytes());
        e.extend_from_slice(&offset.to_le_bytes());
        e.extend_from_slice(&size.to_le_bytes());
        e.extend_from_slice(&link.to_le_bytes());
        e.extend_from_slice(&info.to_le_bytes());
        e.extend_from_slice(&align.to_le_bytes());
        e.extend_from_slice(&entsize.to_le_bytes());
        e
    };
    put(&mut v, 248, &sh(1, 2, 80, 72, 2, 1, 8, 24));
    put(&mut v, 312, &sh(9, 3, 64, 14, 0, 0, 1, 0));
    put(&mut v, 376, &sh(17, 3, 152, 27, 0, 0, 1, 0));
    v
}

#[test]
fn native_parser_reads_a_symbol_table() {
    let syms = NativeParser.get_symbols(&tiny_elf()).unwrap();
    assert_eq!(syms.len(), 2);
    assert_eq!(syms[0].name, "main");
    assert_eq!(syms[0].kind, SymbolKind::Code);
    assert_eq!(syms[0].size, 16);
    assert_eq!(syms[0].address, Some(0x1000));
    assert_eq!(syms[1].name, "counter");
    assert_eq!(syms[1].kind, SymbolKind::Data);
    assert_eq!(syms[1].size, 8);
}

#[test]
fn goblin_parser_reads_a_symbol_table() {
    let syms = GoblinParser.get_symbols(&tiny_elf()).unwrap();
    let names: Vec<&str> = syms.iter().map(|s| s.name.as_str()).collect();
    assert_eq!(names, vec!["main", "counter"]);
    assert_eq!(syms[1].kind, SymbolKind::Data);
}

#[test]
fn diff_of_an_image_with_itself_is_empty() {
    let img = tiny_elf();
    let csv = run_diff(&img, &img, &DiffEngine::Native).unwrap();
    assert_eq!(csv, "Change,Type,Diff,Symbol,Base Size,Size\nTOTAL,,+0,,24,24\n");
    let single = elf_size::elf::diff_engine::run_single(&img, &DiffEngine::Goblin).unwrap();
    assert_eq!(single, "Type,Size,Symbol\nCode,16,main\nData,8,counter\nTOTAL,24,\n");
}
