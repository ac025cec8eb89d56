use elf_size::elf::symbol_diff::{compare_symbols, demangle_name, generate_diff_csv, generate_symbols_csv, sort_by_size};
use elf_size::elf::symbols::{ChangeType, Symbol, SymbolKind};

fn create_sym(name: &str, kind: SymbolKind, size: usize) -> Symbol {
    Symbol {
        name: name.to_string(),
        demangled: name.to_string(),
        kind,
        size,
        address: None,
    }
}

#[test]
fn test_demangle_name() {
    assert_eq!(demangle_name("_ZN6System5Layer4InitEv"), "System::Layer::Init()");
    assert_eq!(demangle_name("not_mangled"), "not_mangled");
}

#[test]
fn test_generate_symbols_csv() {
    let symbols = vec![
        create_sym("foo", SymbolKind::Code, 100),
        create_sym("bar", SymbolKind::Data, 50),
    ];
    let csv = generate_symbols_csv(symbols).unwrap();
    let expected = "Type,Size,Symbol
Code,100,foo
Data,50,bar
TOTAL,150,\n";
    assert_eq!(csv, expected);
}

#[test]
fn test_generate_diff_csv_empty() {
    let report = compare_symbols(vec![], vec![]);
    let csv = generate_diff_csv(&report).unwrap();
    let expected = "Change,Type,Diff,Symbol,Base Size,Size
TOTAL,,+0,,0,0
";
    assert_eq!(csv, expected);
}

#[test]
fn test_generate_diff_csv_added_removed() {
    let from = vec![create_sym("foo", SymbolKind::Code, 100)];
    let to = vec![create_sym("bar", SymbolKind::Data, 50)];
    let report = compare_symbols(from, to);
    let csv = generate_diff_csv(&report).unwrap();
    let expected = "Change,Type,Diff,Symbol,Base Size,Size
REMOVED,Code,-100,foo,100,0
ADDED,Data,50,bar,0,50
TOTAL,,-50,,100,50
";
    let expected_lines: Vec<&str> = expected.trim().split("\n").collect();
    let mut csv_lines: Vec<&str> = csv.trim().split("\n").collect();

    assert_eq!(csv_lines.remove(0), expected_lines[0]); // Header
    assert_eq!(csv_lines.pop(), expected_lines.last().copied()); // TOTAL

    csv_lines.sort();
    let mut expected_data_lines = expected_lines[1..expected_lines.len() - 1].to_vec();
    expected_data_lines.sort();
    assert_eq!(csv_lines, expected_data_lines);
}

#[test]
fn test_generate_diff_csv_changed() {
    let from = vec![create_sym("foo", SymbolKind::Code, 100)];
    let to = vec![create_sym("foo", SymbolKind::Code, 150)];
    let report = compare_symbols(from, to);
    let csv = generate_diff_csv(&report).unwrap();
    let expected = "Change,Type,Diff,Symbol,Base Size,Size
CHANGED,Code,50,foo,100,150
TOTAL,,+50,,100,150
";
    assert_eq!(csv, expected);
}

#[test]
fn test_generate_diff_csv_no_diff() {
    let from = vec![create_sym("foo", SymbolKind::Code, 100)];
    let to = vec![create_sym("foo", SymbolKind::Code, 100)];
    let report = compare_symbols(from, to);
    let csv = generate_diff_csv(&report).unwrap();
    let expected = "Change,Type,Diff,Symbol,Base Size,Size
TOTAL,,+0,,100,100
";
    assert_eq!(csv, expected);
}

#[test]
fn test_compare_symbols_sorting() {
    let from = vec![
        create_sym("a", SymbolKind::Code, 100),
        create_sym("b", SymbolKind::Code, 100),
    ];
    let to = vec![
        create_sym("a", SymbolKind::Code, 50),  // Diff -50
        create_sym("b", SymbolKind::Code, 110), // Diff +10
        create_sym("c", SymbolKind::Data, 20),  // Diff +20
    ];
    let report = compare_symbols(from, to);

    assert_eq!(report.diffs.len(), 3);
    assert_eq!(report.diffs[0].symbol_name, "a");
    assert_eq!(report.diffs[0].diff, -50);
    assert_eq!(report.diffs[1].symbol_name, "b");
    assert_eq!(report.diffs[1].diff, 10);
    assert_eq!(report.diffs[2].symbol_name, "c");
    assert_eq!(report.diffs[2].diff, 20);

    assert_eq!(report.totals.diff, -20);
    assert_eq!(report.totals.base_size, 200);
    assert_eq!(report.totals.size, 180);
}

#[test]
fn test_generate_diff_csv_totals() {
    let from = vec![create_sym("a", SymbolKind::Code, 100)];
    let to = vec![create_sym("b", SymbolKind::Data, 30)];
    let report = compare_symbols(from, to);
    let csv = generate_diff_csv(&report).unwrap();
    // Extract TOTAL line
    let total_line = csv.lines().last().unwrap();
    assert_eq!(total_line, "TOTAL,,-70,,100,30");
}

#[test]
fn compare_orders_equal_changes_by_name() {
    let from = vec![];
    let to = vec![
        create_sym("zeta", SymbolKind::Code, 8),
        create_sym("alpha", SymbolKind::Data, 8),
        create_sym("mid", SymbolKind::Bss, 8),
    ];
    let report = compare_symbols(from, to);
    let names: Vec<&str> = report.diffs.iter().map(|d| d.symbol_name.as_str()).collect();
    assert_eq!(names, vec!["alpha", "mid", "zeta"]);
    assert!(report.diffs.iter().all(|d| d.change_type == ChangeType::Added && d.base_size == 0));
}

#[test]
fn compare_uses_last_symbol_of_a_name() {
    let from = vec![create_sym("x", SymbolKind::Code, 10), create_sym("x", SymbolKind::Code, 30)];
    let to = vec![create_sym("x", SymbolKind::Code, 40)];
    let report = compare_symbols(from, to);
    assert_eq!(report.diffs.len(), 1);
    assert_eq!(report.diffs[0].diff, 10);
    assert_eq!(report.diffs[0].base_size, 30);
    assert_eq!(report.totals.base_size, 30);
}

#[test]
fn compare_shows_baseline_kind_and_demangled_name() {
    let mut old = create_sym("_Z1fv", SymbolKind::Code, 5);
    old.demangled = "f()".to_string();
    let mut new = create_sym("_Z1fv", SymbolKind::Data, 9);
    new.demangled = "other".to_string();
    let report = compare_symbols(vec![old], vec![new]);
    assert_eq!(report.diffs[0].change_type, ChangeType::Changed);
    assert_eq!(report.diffs[0].symbol_kind, SymbolKind::Code);
    assert_eq!(report.diffs[0].symbol_name, "f()");
}

#[test]
fn compare_removed_symbol() {
    let report = compare_symbols(vec![create_sym("gone", SymbolKind::Data, 12)], vec![]);
    assert_eq!(report.diffs[0].change_type, ChangeType::Removed);
    assert_eq!(report.diffs[0].diff, -12);
    assert_eq!(report.diffs[0].size, 0);
    assert_eq!(report.totals.diff, -12);
}

#[test]
fn compare_totals_wrap_like_release_builds() {
    let from = vec![create_sym("a", SymbolKind::Code, 0)];
    let to = vec![create_sym("a", SymbolKind::Code, usize::MAX)];
    let report = compare_symbols(from, to);
    // usize::MAX as i64 is -1 on 64-bit targets.
    assert_eq!(report.diffs[0].diff, (usize::MAX as i64).wrapping_sub(0));
}

#[test]
fn csv_quotes_fields_that_need_it() {
    let from = vec![];
    let to = vec![create_sym("operator,()", SymbolKind::Code, 3), create_sym("say \"hi\"", SymbolKind::Code, 4)];
    let csv = generate_diff_csv(&compare_symbols(from, to)).unwrap();
    assert_eq!(
        csv,
        "Change,Type,Diff,Symbol,Base Size,Size\nADDED,Code,3,\"operator,()\",0,3\nADDED,Code,4,\"say \"\"hi\"\"\",0,4\nTOTAL,,+7,,0,7\n"
    );
}

#[test]
fn symbols_csv_sorts_by_size_keeping_ties_in_order() {
    let symbols = vec![
        create_sym("small", SymbolKind::Code, 1),
        create_sym("tie1", SymbolKind::Data, 5),
        create_sym("big", SymbolKind::Code, 9),
        create_sym("tie2", SymbolKind::Bss, 5),
    ];
    let csv = generate_symbols_csv(symbols).unwrap();
    assert_eq!(csv, "Type,Size,Symbol\nCode,9,big\nData,5,tie1\nBss,5,tie2\nCode,1,small\nTOTAL,20,\n");
}

#[test]
fn symbols_csv_empty() {
    assert_eq!(generate_symbols_csv(vec![]).unwrap(), "Type,Size,Symbol\nTOTAL,0,\n");
}

#[test]
fn sort_by_size_is_stable_descending() {
    let sorted = sort_by_size(vec![
        create_sym("a", SymbolKind::Code, 2),
        create_sym("b", SymbolKind::Code, 7),
        create_sym("c", SymbolKind::Code, 2),
    ]);
    let names: Vec<&str> = sorted.iter().map(|s| s.name.as_str()).collect();
    assert_eq!(names, vec!["b", "a", "c"]);
}

#[test]
fn kind_and_change_labels() {
    assert_eq!(SymbolKind::Unknown.label(), "Unknown");
    assert_eq!(SymbolKind::Other.label(), "Other");
    assert_eq!(ChangeType::Removed.label(), "REMOVED");
}

#[test]
fn compare_in_the_other_direction_reverses_the_report() {
    let a = vec![
        create_sym("x", SymbolKind::Code, 10),
        create_sym("y", SymbolKind::Data, 5),
        create_sym("z", SymbolKind::Bss, 7),
    ];
    let b = vec![create_sym("x", SymbolKind::Code, 4), create_sym("w", SymbolKind::Code, 9), create_sym("z", SymbolKind::Bss, 7)];
    let ab = compare_symbols(a.clone(), b.clone());
    let ba = compare_symbols(b, a);
    assert_eq!(ab.totals.base_size, ba.totals.size);
    assert_eq!(ab.totals.size, ba.totals.base_size);
    assert_eq!(ab.totals.diff, -ba.totals.diff);
    let mut fwd: Vec<(String, i64, usize, usize)> = ab
        .diffs
        .iter()
        .map(|d| (d.symbol_name.clone(), -d.diff, d.size, d.base_size))
        .collect();
    let mut back: Vec<(String, i64, usize, usize)> =
        ba.diffs.iter().map(|d| (d.symbol_name.clone(), d.diff, d.base_size, d.size)).collect();
    fwd.sort();
    back.sort();
    assert_eq!(fwd, back);
    assert_eq!(ab.diffs.iter().filter(|d| d.change_type == ChangeType::Added).count(), 1);
    assert_eq!(ba.diffs.iter().filter(|d| d.change_type == ChangeType::Removed).count(), 1);
}

#[test]
fn compare_ignores_the_order_of_distinct_names() {
    let a = vec![create_sym("p", SymbolKind::Code, 3), create_sym("q", SymbolKind::Code, 8), create_sym("r", SymbolKind::Data, 1)];
    let b = vec![create_sym("q", SymbolKind::Code, 9), create_sym("s", SymbolKind::Data, 2), create_sym("p", SymbolKind::Code, 2)];
    let mut a2 = a.clone();
    a2.reverse();
    let mut b2 = b.clone();
    b2.rotate_left(1);
    let r1 = compare_symbols(a, b);
    let r2 = compare_symbols(a2, b2);
    assert_eq!(r1.diffs, r2.diffs);
    assert_eq!(r1.totals, r2.totals);
}

#[test]
fn large_inputs_sort_stably() {
    let syms: Vec<Symbol> = (0..3000).map(|i| create_sym(&format!("s{:05}", i), SymbolKind::Code, i % 7)).collect();
    let sorted = sort_by_size(syms.clone());
    assert_eq!(sorted.len(), 3000);
    for w in sorted.windows(2) {
        assert!(w[0].size > w[1].size || (w[0].size == w[1].size && w[0].name < w[1].name));
    }
    let base: Vec<Symbol> = (0..3000).map(|i| create_sym(&format!("s{:05}", i), SymbolKind::Code, 10)).collect();
    let report = compare_symbols(base, syms);
    assert_eq!(report.diffs.len(), 3000);
    for w in report.diffs.windows(2) {
        assert!(w[0].diff < w[1].diff || (w[0].diff == w[1].diff && w[0].symbol_name < w[1].symbol_name));
    }
    assert_eq!(report.totals.base_size, 30000);
}

#[test]
fn diff_report_reads_back_with_a_csv_reader() {
    let tricky = "operator,(\"a\"\nb)";
    let from = vec![create_sym(tricky, SymbolKind::Code, 4)];
    let to = vec![create_sym(tricky, SymbolKind::Code, 9), create_sym("", SymbolKind::Data, 2)];
    let csv_text = generate_diff_csv(&compare_symbols(from, to)).unwrap();
    let mut reader = csv::ReaderBuilder::new().has_headers(false).from_reader(csv_text.as_bytes());
    let records: Vec<Vec<String>> = reader
        .records()
        .map(|r| r.unwrap().iter().map(|f| f.to_string()).collect())
        .collect();
    assert_eq!(records.len(), 4);
    assert_eq!(records[0], vec!["Change", "Type", "Diff", "Symbol", "Base Size", "Size"]);
    assert_eq!(records[1], vec!["ADDED", "Data", "2", "", "0", "2"]);
    assert_eq!(records[2], vec!["CHANGED", "Code", "5", tricky, "4", "9"]);
    assert_eq!(records[3], vec!["TOTAL", "", "+7", "", "4", "11"]);
}
