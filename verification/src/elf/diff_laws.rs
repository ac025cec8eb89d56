//! Laws of comparing symbol lists.

use vstd::prelude::*;
use vstd::multiset::Multiset;

use crate::elf::symbol_diff::{
    by_diff, changed_rows, comparison_rows, comparison_totals, diff_row, diff_rows, has_name,
    is_comparison, is_name_order, last_named, lemma_ascending_unique, lemma_filter_none,
    lemma_last_named_some, lemma_stable_diff_sort_unique, name_order, names_of, size_change,
    stably_sorted_by_diff, strictly_ascending, total_base_size, total_diff, total_size, with_diff,
};
use crate::elf::symbol_diff::{stably_sorted_by_size, sum_sizes, with_size};
use crate::elf::symbols::{diff_views, ChangeType, DiffRow, SymbolDiffReport, SymbolView};
use crate::text::{lemma_text_lt_total, lemma_text_lt_transitive, text_lt};

verus! {

/// In an ascending list without `x` there is a place where `x` fits.
proof fn lemma_insert_position(keys: Seq<Seq<char>>, x: Seq<char>) -> (p: int)
    requires
        strictly_ascending(keys),
        !keys.contains(x),
    ensures
        0 <= p <= keys.len(),
        forall|i: int| 0 <= i < p ==> text_lt(#[trigger] keys[i], x),
        forall|i: int| p <= i < keys.len() ==> text_lt(x, #[trigger] keys[i]),
    decreases keys.len(),
{
    if keys.len() == 0 {
        0
    } else {
        let last = keys.last();
        assert(keys[keys.len() - 1] == last);
        lemma_text_lt_total(last, x);
        if text_lt(last, x) {
            assert forall|i: int| 0 <= i < keys.len() implies text_lt(#[trigger] keys[i], x) by {
                if i < keys.len() - 1 {
                    lemma_text_lt_transitive(keys[i], last, x);
                }
            }
            keys.len() as int
        } else {
            let init = keys.drop_last();
            assert(!init.contains(x)) by {
                if init.contains(x) {
                    let j = choose|j: int| 0 <= j < init.len() && init[j] == x;
                    assert(keys[j] == x);
                }
            }
            let p = lemma_insert_position(init, x);
            assert forall|i: int| 0 <= i < p implies text_lt(#[trigger] keys[i], x) by {
                assert(keys[i] == init[i]);
            }
            assert forall|i: int| p <= i < keys.len() implies text_lt(x, #[trigger] keys[i]) by {
                if i < keys.len() - 1 {
                    assert(keys[i] == init[i]);
                }
            }
            p
        }
    }
}

/// Any list of texts can be put in ascending order, each text once.
proof fn lemma_ascending_exists(names: Seq<Seq<char>>) -> (keys: Seq<Seq<char>>)
    ensures
        strictly_ascending(keys),
        forall|k: Seq<char>| #[trigger] keys.contains(k) <==> names.contains(k),
    decreases names.len(),
{
    if names.len() == 0 {
        Seq::empty()
    } else {
        let x = names.last();
        let init = names.drop_last();
        let keys0 = lemma_ascending_exists(init);
        assert forall|k: Seq<char>| names.contains(k) <==> (init.contains(k) || k == x) by {
            if names.contains(k) {
                let j = choose|j: int| 0 <= j < names.len() && names[j] == k;
                if j < names.len() - 1 {
                    assert(init[j] == k);
                }
            }
            if init.contains(k) {
                let j = choose|j: int| 0 <= j < init.len() && init[j] == k;
                assert(names[j] == k);
            }
            if k == x {
                assert(names[names.len() - 1] == k);
            }
        }
        if keys0.contains(x) {
            keys0
        } else {
            let p = lemma_insert_position(keys0, x);
            let keys = keys0.insert(p, x);
            assert forall|i: int, j: int| 0 <= i < j < keys.len() implies text_lt(#[trigger] keys[i], #[trigger] keys[j]) by {
                if j < p {
                } else if j == p {
                } else if i < p {
                    assert(keys[j] == keys0[j - 1]);
                    lemma_text_lt_transitive(keys[i], x, keys[j]);
                } else if i == p {
                    assert(keys[j] == keys0[j - 1]);
                } else {
                    assert(keys[i] == keys0[i - 1]);
                    assert(keys[j] == keys0[j - 1]);
                }
            }
            assert forall|k: Seq<char>| #[trigger] keys.contains(k) <==> names.contains(k) by {
                if keys.contains(k) {
                    let a = choose|a: int| 0 <= a < keys.len() && keys[a] == k;
                    if a < p {
                        assert(keys0[a] == k);
                    } else if a > p {
                        assert(keys0[a - 1] == k);
                    }
                }
                if keys0.contains(k) {
                    let a = choose|a: int| 0 <= a < keys0.len() && keys0[a] == k;
                    if a < p {
                        assert(keys[a] == k);
                    } else {
                        assert(keys[a + 1] == k);
                    }
                }
                if k == x {
                    assert(keys[p] == k);
                }
            }
            keys
        }
    }
}

/// The name order of two symbol lists exists: it lists every name once, ascending.
pub proof fn lemma_name_order_exists(from: Seq<SymbolView>, to: Seq<SymbolView>)
    ensures
        is_name_order(name_order(from, to), from, to),
{
    let names = names_of(from) + names_of(to);
    let keys = lemma_ascending_exists(names);
    assert forall|k: Seq<char>| #[trigger] keys.contains(k) <==> (has_name(from, k) || has_name(to, k)) by {
        if names.contains(k) {
            let j = choose|j: int| 0 <= j < names.len() && names[j] == k;
            if j < from.len() {
                assert(names_of(from)[j] == from[j].name);
                assert(from[j].name == k);
            } else {
                assert(names_of(to)[j - from.len()] == to[j - from.len()].name);
                assert(to[j - from.len()].name == k);
            }
        }
        if has_name(from, k) {
            let j = choose|j: int| 0 <= j < from.len() && #[trigger] from[j].name == k;
            assert(names[j] == k);
        }
        if has_name(to, k) {
            let j = choose|j: int| 0 <= j < to.len() && #[trigger] to[j].name == k;
            assert(names[from.len() + j] == k);
        }
    }
    assert(is_name_order(keys, from, to));
}

/// Law: a row is `ADDED` when its name is only in the new list, `REMOVED`
/// when only in the baseline, `CHANGED` when in both; an added symbol had
/// no base size and a removed one has no new size.
pub proof fn lemma_change_types(from: Seq<SymbolView>, to: Seq<SymbolView>, i: int)
    requires
        0 <= i < diff_rows(from, to).len(),
    ensures
        ({
            let k = name_order(from, to)[i];
            let r = diff_rows(from, to)[i];
            &&& r.change_type == ChangeType::Added <==> (!has_name(from, k) && has_name(to, k))
            &&& r.change_type == ChangeType::Removed <==> (has_name(from, k) && !has_name(to, k))
            &&& r.change_type == ChangeType::Changed <==> (has_name(from, k) && has_name(to, k))
            &&& r.change_type == ChangeType::Added ==> r.base_size == 0
            &&& r.change_type == ChangeType::Removed ==> r.size == 0
        }),
{
    lemma_name_order_exists(from, to);
    let keys = name_order(from, to);
    let k = keys[i];
    assert(keys.contains(k));
    lemma_last_named_some(from, k);
    lemma_last_named_some(to, k);
}

/// Law: a row shows the symbol of its name as the baseline has it (the
/// last one of that name), or as the new list has it when the baseline
/// lacks the name: its demangled name and its kind.
pub proof fn lemma_rows_show_symbols(from: Seq<SymbolView>, to: Seq<SymbolView>, i: int)
    requires
        0 <= i < diff_rows(from, to).len(),
    ensures
        ({
            let k = name_order(from, to)[i];
            let r = diff_rows(from, to)[i];
            let shown = if has_name(from, k) { last_named(from, k).unwrap() } else { last_named(to, k).unwrap() };
            &&& shown.name == k
            &&& r.symbol_name == shown.demangled
            &&& r.symbol_kind == shown.kind
        }),
{
    lemma_name_order_exists(from, to);
    let keys = name_order(from, to);
    let k = keys[i];
    assert(keys.contains(k));
    lemma_last_named_some(from, k);
    lemma_last_named_some(to, k);
}

/// Sums of the base sizes, new sizes and changes as integers.
pub open spec fn base_sum(rows: Seq<DiffRow>) -> int
    decreases rows.len(),
{
    if rows.len() == 0 {
        0
    } else {
        base_sum(rows.drop_last()) + rows.last().base_size
    }
}

pub open spec fn size_sum(rows: Seq<DiffRow>) -> int
    decreases rows.len(),
{
    if rows.len() == 0 {
        0
    } else {
        size_sum(rows.drop_last()) + rows.last().size
    }
}

pub open spec fn change_sum(rows: Seq<DiffRow>) -> int
    decreases rows.len(),
{
    if rows.len() == 0 {
        0
    } else {
        change_sum(rows.drop_last()) + rows.last().diff
    }
}

/// Every row's change is its new size minus its base size.
pub open spec fn rows_consistent(rows: Seq<DiffRow>) -> bool {
    forall|i: int| 0 <= i < rows.len() ==> (#[trigger] rows[i]).diff == size_change(rows[i].base_size, rows[i].size)
}

proof fn lemma_sums_exact(rows: Seq<DiffRow>)
    requires
        rows_consistent(rows),
        base_sum(rows) <= i64::MAX,
        size_sum(rows) <= i64::MAX,
        base_sum(rows) <= usize::MAX,
        size_sum(rows) <= usize::MAX,
    ensures
        total_base_size(rows) as int == base_sum(rows),
        total_size(rows) as int == size_sum(rows),
        total_diff(rows) as int == size_sum(rows) - base_sum(rows),
        change_sum(rows) == size_sum(rows) - base_sum(rows),
        0 <= base_sum(rows),
        0 <= size_sum(rows),
    decreases rows.len(),
{
    if rows.len() > 0 {
        let init = rows.drop_last();
        let r = rows.last();
        assert(rows[rows.len() - 1] == r);
        assert forall|i: int| 0 <= i < init.len() implies (#[trigger] init[i]).diff == size_change(init[i].base_size, init[i].size) by {
            assert(init[i] == rows[i]);
        }
        lemma_sums_nonneg(init);
        lemma_sums_exact(init);
        assert(r.base_size as int <= i64::MAX);
        assert(r.size as int <= i64::MAX);
        assert((r.size as i64) as int == r.size as int);
        assert((r.base_size as i64) as int == r.base_size as int);
    }
}

proof fn lemma_sums_nonneg(rows: Seq<DiffRow>)
    ensures
        0 <= base_sum(rows),
        0 <= size_sum(rows),
    decreases rows.len(),
{
    if rows.len() > 0 {
        lemma_sums_nonneg(rows.drop_last());
    }
}

/// The rows of a comparison: one per name, its change the new size minus the base size.
proof fn lemma_rows_consistent(from: Seq<SymbolView>, to: Seq<SymbolView>)
    ensures
        rows_consistent(diff_rows(from, to)),
        diff_rows(from, to).len() == name_order(from, to).len(),
{
    let rows = diff_rows(from, to);
    assert forall|i: int| 0 <= i < rows.len() implies (#[trigger] rows[i]).diff == size_change(rows[i].base_size, rows[i].size) by {
        assert(rows[i] == diff_row(from, to, name_order(from, to)[i]));
    }
}

/// Law: while the sums of the base sizes and of the new sizes fit in a
/// signed 64-bit number and in `usize`, the totals are those sums and the total change is
/// the new total minus the base total.
pub proof fn lemma_totals_balance(from: Seq<SymbolView>, to: Seq<SymbolView>)
    requires
        base_sum(diff_rows(from, to)) <= i64::MAX,
        size_sum(diff_rows(from, to)) <= i64::MAX,
        base_sum(diff_rows(from, to)) <= usize::MAX,
        size_sum(diff_rows(from, to)) <= usize::MAX,
    ensures
        comparison_totals(from, to).base_size as int == base_sum(diff_rows(from, to)),
        comparison_totals(from, to).size as int == size_sum(diff_rows(from, to)),
        comparison_totals(from, to).diff as int == comparison_totals(from, to).size as int
            - comparison_totals(from, to).base_size as int,
{
    lemma_rows_consistent(from, to);
    lemma_sums_exact(diff_rows(from, to));
}

proof fn lemma_zero_totals(rows: Seq<DiffRow>)
    requires
        forall|i: int| 0 <= i < rows.len() ==> (#[trigger] rows[i]).diff == 0 && rows[i].base_size == rows[i].size,
    ensures
        total_diff(rows) == 0,
        total_base_size(rows) == total_size(rows),
    decreases rows.len(),
{
    if rows.len() > 0 {
        let init = rows.drop_last();
        assert forall|i: int| 0 <= i < init.len() implies (#[trigger] init[i]).diff == 0 && init[i].base_size == init[i].size by {
            assert(init[i] == rows[i]);
        }
        lemma_zero_totals(init);
        assert(rows[rows.len() - 1] == rows.last());
    }
}

/// Law: comparing a symbol list with itself shows no row, a total change of
/// zero, and equal base and new totals.
pub proof fn lemma_compare_with_itself(syms: Seq<SymbolView>)
    ensures
        comparison_rows(syms, syms) == Seq::<DiffRow>::empty(),
        comparison_totals(syms, syms).diff == 0,
        comparison_totals(syms, syms).base_size == comparison_totals(syms, syms).size,
{
    let rows = diff_rows(syms, syms);
    assert forall|i: int| 0 <= i < rows.len() implies (#[trigger] rows[i]).diff == 0 && rows[i].base_size == rows[i].size by {
        let k = name_order(syms, syms)[i];
        assert(rows[i] == diff_row(syms, syms, k));
        let b = rows[i].base_size;
        assert(vstd::wrapping::i64_specs::wrapping_sub(b as i64, b as i64) == 0);
    }
    let pred = |r: DiffRow| r.diff != 0;
    lemma_filter_none(rows, pred);
    assert(changed_rows(rows) == Seq::<DiffRow>::empty());
    let e = Seq::<DiffRow>::empty();
    assert forall|v: i64| #[trigger] with_diff(e, v) == with_diff(e, v) by {}
    assert(stably_sorted_by_diff(e, e));
    let chosen = by_diff(e);
    assert(stably_sorted_by_diff(chosen, e));
    lemma_stable_diff_sort_unique(chosen, e, e);
    lemma_zero_totals(rows);
}

/// Law: comparing in the other direction lists the same names in the same
/// order, swaps base and new sizes, swaps `ADDED` and `REMOVED`, and
/// negates the change of every name whose sizes fit in a signed 64-bit number.
pub proof fn lemma_compare_reversed(a: Seq<SymbolView>, b: Seq<SymbolView>)
    ensures
        name_order(b, a) == name_order(a, b),
        diff_rows(b, a).len() == diff_rows(a, b).len(),
        forall|i: int| 0 <= i < diff_rows(a, b).len() ==> {
            let r = #[trigger] diff_rows(a, b)[i];
            let s = diff_rows(b, a)[i];
            &&& s.base_size == r.size
            &&& s.size == r.base_size
            &&& (r.change_type == ChangeType::Added <==> s.change_type == ChangeType::Removed)
            &&& (r.change_type == ChangeType::Removed <==> s.change_type == ChangeType::Added)
            &&& (r.change_type == ChangeType::Changed <==> s.change_type == ChangeType::Changed)
            &&& (r.base_size <= i64::MAX && r.size <= i64::MAX ==> s.diff == -r.diff)
        },
        comparison_totals(b, a).base_size == comparison_totals(a, b).size,
        comparison_totals(b, a).size == comparison_totals(a, b).base_size,
{
    lemma_name_order_exists(a, b);
    lemma_name_order_exists(b, a);
    let ab = name_order(a, b);
    let ba = name_order(b, a);
    assert forall|k: Seq<char>| #![trigger ab.contains(k)] #![trigger ba.contains(k)] ab.contains(k) <==> ba.contains(k) by {
        assert(ab.contains(k) <==> (has_name(a, k) || has_name(b, k)));
        assert(ba.contains(k) <==> (has_name(b, k) || has_name(a, k)));
    }
    lemma_ascending_unique(ab, ba);
    let rab = diff_rows(a, b);
    let rba = diff_rows(b, a);
    assert forall|i: int| 0 <= i < rab.len() implies {
        let r = #[trigger] rab[i];
        let s = rba[i];
        &&& s.base_size == r.size
        &&& s.size == r.base_size
        &&& (r.change_type == ChangeType::Added <==> s.change_type == ChangeType::Removed)
        &&& (r.change_type == ChangeType::Removed <==> s.change_type == ChangeType::Added)
        &&& (r.change_type == ChangeType::Changed <==> s.change_type == ChangeType::Changed)
        &&& (r.base_size <= i64::MAX && r.size <= i64::MAX ==> s.diff == -r.diff)
    } by {
        let k = ab[i];
        assert(rab[i] == diff_row(a, b, k));
        assert(rba[i] == diff_row(b, a, k));
        assert(ab.contains(k));
        lemma_last_named_some(a, k);
        lemma_last_named_some(b, k);
        let r = rab[i];
        if r.base_size <= i64::MAX && r.size <= i64::MAX {
            assert((r.size as i64) as int == r.size as int);
            assert((r.base_size as i64) as int == r.base_size as int);
        }
    }
    lemma_swapped_totals(rab, rba);
}

proof fn lemma_swapped_totals(r: Seq<DiffRow>, s: Seq<DiffRow>)
    requires
        r.len() == s.len(),
        forall|i: int| 0 <= i < r.len() ==> (#[trigger] r[i]).size == s[i].base_size && r[i].base_size == s[i].size,
    ensures
        total_base_size(s) == total_size(r),
        total_size(s) == total_base_size(r),
    decreases r.len(),
{
    if r.len() > 0 {
        let ri = r.drop_last();
        let si = s.drop_last();
        assert forall|i: int| 0 <= i < ri.len() implies (#[trigger] ri[i]).size == si[i].base_size && ri[i].base_size == si[i].size by {
            assert(ri[i] == r[i]);
            assert(si[i] == s[i]);
        }
        lemma_swapped_totals(ri, si);
        assert(r[r.len() - 1] == r.last());
        assert(s[s.len() - 1] == s.last());
    }
}


/// An element occurs in a sequence as often as in its filter by a predicate it meets.
pub proof fn lemma_filter_count<A>(s: Seq<A>, p: spec_fn(A) -> bool, e: A)
    requires
        p(e),
    ensures
        s.to_multiset().count(e) == s.filter(p).to_multiset().count(e),
    decreases s.len(),
{
    broadcast use vstd::seq_lib::group_to_multiset_ensures, vstd::multiset::group_multiset_axioms;

    if s.len() == 0 {
        reveal(Seq::filter);
        assert(s.filter(p) =~= s);
    } else {
        let init = s.drop_last();
        let last = s.last();
        assert(s =~= init.push(last));
        lemma_filter_count(init, p, e);
        init.lemma_filter_push(last, p);
    }
}

/// Rows sorted stably by change are a rearrangement of the input rows.
proof fn lemma_diff_sort_permutes(x: Seq<DiffRow>, c: Seq<DiffRow>)
    requires
        stably_sorted_by_diff(x, c),
    ensures
        x.to_multiset() =~= c.to_multiset(),
{
    assert forall|e: DiffRow| x.to_multiset().count(e) == c.to_multiset().count(e) by {
        let v = e.diff;
        let p = |r: DiffRow| r.diff == v;
        lemma_filter_count(x, p, e);
        lemma_filter_count(c, p, e);
        assert(with_diff(x, v) == with_diff(c, v));
    }
}

proof fn lemma_change_sum_fold(rows: Seq<DiffRow>)
    ensures
        change_sum(rows) == rows.fold_left(0int, |acc: int, r: DiffRow| acc + r.diff),
    decreases rows.len(),
{
    if rows.len() > 0 {
        lemma_change_sum_fold(rows.drop_last());
    }
}

/// Dropping rows without change keeps the sum of changes.
proof fn lemma_changed_rows_sum(rows: Seq<DiffRow>)
    ensures
        change_sum(changed_rows(rows)) == change_sum(rows),
    decreases rows.len(),
{
    if rows.len() > 0 {
        let init = rows.drop_last();
        let last = rows.last();
        assert(rows =~= init.push(last));
        lemma_changed_rows_sum(init);
        init.lemma_filter_push(last, |r: DiffRow| r.diff != 0);
        let c = changed_rows(init);
        assert(c.push(last).drop_last() =~= c);
    }
}

/// Law: the changes listed in a report add up to the change of all names,
/// shown or not (names without a row did not change).
pub proof fn lemma_listed_changes_sum(from: Seq<SymbolView>, to: Seq<SymbolView>, listed: Seq<DiffRow>)
    requires
        stably_sorted_by_diff(listed, changed_rows(diff_rows(from, to))),
    ensures
        change_sum(listed) == change_sum(diff_rows(from, to)),
{
    let rows = diff_rows(from, to);
    let c = changed_rows(rows);
    lemma_diff_sort_permutes(listed, c);
    let f = |acc: int, r: DiffRow| acc + r.diff;
    assert(vstd::seq_lib::commutative_foldl(f));
    vstd::seq_lib::lemma_fold_left_permutation(listed, c, f, 0int);
    lemma_change_sum_fold(listed);
    lemma_change_sum_fold(c);
    lemma_changed_rows_sum(rows);
}

/// Law: while the size sums fit (see `lemma_totals_balance`), the changes
/// listed in a report add up to the TOTAL change.
pub proof fn lemma_listed_changes_make_total(from: Seq<SymbolView>, to: Seq<SymbolView>, listed: Seq<DiffRow>)
    requires
        stably_sorted_by_diff(listed, changed_rows(diff_rows(from, to))),
        base_sum(diff_rows(from, to)) <= i64::MAX,
        size_sum(diff_rows(from, to)) <= i64::MAX,
        base_sum(diff_rows(from, to)) <= usize::MAX,
        size_sum(diff_rows(from, to)) <= usize::MAX,
    ensures
        change_sum(listed) == comparison_totals(from, to).diff as int,
{
    lemma_listed_changes_sum(from, to, listed);
    lemma_rows_consistent(from, to);
    lemma_sums_exact(diff_rows(from, to));
}

/// Symbols sorted stably by size are a rearrangement of the input symbols.
proof fn lemma_size_sort_permutes(x: Seq<SymbolView>, c: Seq<SymbolView>)
    requires
        stably_sorted_by_size(x, c),
    ensures
        x.to_multiset() =~= c.to_multiset(),
{
    assert forall|e: SymbolView| x.to_multiset().count(e) == c.to_multiset().count(e) by {
        let v = e.size;
        let p = |r: SymbolView| r.size == v;
        lemma_filter_count(x, p, e);
        lemma_filter_count(c, p, e);
        assert(with_size(x, v) == with_size(c, v));
    }
}

proof fn lemma_sum_sizes_fold(syms: Seq<SymbolView>)
    ensures
        sum_sizes(syms) == syms.fold_left(0usize, |acc: usize, s: SymbolView| vstd::wrapping::usize_specs::wrapping_add(acc, s.size)),
    decreases syms.len(),
{
    if syms.len() > 0 {
        lemma_sum_sizes_fold(syms.drop_last());
    }
}

/// Law: the TOTAL of a single-file report is the sum of all symbol sizes,
/// whatever the order the symbols came in.
pub proof fn lemma_size_total_independent_of_order(sorted: Seq<SymbolView>, input: Seq<SymbolView>)
    requires
        stably_sorted_by_size(sorted, input),
    ensures
        sum_sizes(sorted) == sum_sizes(input),
{
    lemma_size_sort_permutes(sorted, input);
    let f = |acc: usize, s: SymbolView| vstd::wrapping::usize_specs::wrapping_add(acc, s.size);
    assert forall|x: SymbolView, y: SymbolView, v: usize| #[trigger] f(f(v, x), y) == f(f(v, y), x) by {
        let m = usize::MAX as int + 1;
        assert(0 <= v < m && 0 <= x.size < m && 0 <= y.size < m);
    }
    assert(vstd::seq_lib::commutative_foldl(f));
    vstd::seq_lib::lemma_fold_left_permutation(sorted, input, f, 0usize);
    lemma_sum_sizes_fold(sorted);
    lemma_sum_sizes_fold(input);
}


/// A row as the comparison in the other direction shows it: base and new
/// sizes swapped, `ADDED` and `REMOVED` exchanged, and the change taken the
/// other way.
pub open spec fn reverse_row(r: DiffRow) -> DiffRow {
    DiffRow {
        change_type: match r.change_type {
            ChangeType::Added => ChangeType::Removed,
            ChangeType::Removed => ChangeType::Added,
            ChangeType::Changed => ChangeType::Changed,
        },
        symbol_kind: r.symbol_kind,
        symbol_name: r.symbol_name,
        diff: size_change(r.size, r.base_size),
        base_size: r.size,
        size: r.base_size,
    }
}

/// Every name that both lists hold has the same kind and shown name in both
/// (taking the last symbol of the name in each).
pub open spec fn shown_alike(a: Seq<SymbolView>, b: Seq<SymbolView>) -> bool {
    forall|k: Seq<char>| has_name(a, k) && has_name(b, k) ==> {
        let x = #[trigger] last_named(a, k);
        let y = last_named(b, k);
        x.unwrap().kind == y.unwrap().kind && x.unwrap().demangled == y.unwrap().demangled
    }
}

/// Law: the reversed change of a row whose sizes fit in a signed 64-bit
/// number is the negated change.
pub proof fn lemma_reverse_row_negates(r: DiffRow)
    requires
        r.diff == size_change(r.base_size, r.size),
        r.base_size <= i64::MAX,
        r.size <= i64::MAX,
    ensures
        reverse_row(r).diff == -r.diff,
{
    assert((r.size as i64) as int == r.size as int);
    assert((r.base_size as i64) as int == r.base_size as int);
}

/// The rows in the other direction are the reversed rows, name by name.
proof fn lemma_reversed_rows(a: Seq<SymbolView>, b: Seq<SymbolView>)
    requires
        shown_alike(a, b),
    ensures
        diff_rows(b, a) == diff_rows(a, b).map_values(|r: DiffRow| reverse_row(r)),
{
    lemma_compare_reversed(a, b);
    let rab = diff_rows(a, b);
    let rba = diff_rows(b, a);
    let ab = name_order(a, b);
    assert forall|i: int| 0 <= i < rab.len() implies #[trigger] rba[i] == reverse_row(rab[i]) by {
        let k = ab[i];
        assert(rab[i] == diff_row(a, b, k));
        assert(rba[i] == diff_row(b, a, k));
        lemma_last_named_some(a, k);
        lemma_last_named_some(b, k);
        if has_name(a, k) && has_name(b, k) {
            assert(last_named(a, k) == last_named(a, k));
        }
    }
    assert(diff_rows(b, a) =~= diff_rows(a, b).map_values(|r: DiffRow| reverse_row(r)));
}

/// A change is zero exactly when the change the other way is.
proof fn lemma_change_zero_symmetric(base: usize, size: usize)
    ensures
        (size_change(base, size) == 0) <==> (size_change(size, base) == 0),
{
    let x = size as i64;
    let y = base as i64;
    assert((vstd::wrapping::i64_specs::wrapping_sub(x, y) == 0) <==> (x == y));
    assert((vstd::wrapping::i64_specs::wrapping_sub(y, x) == 0) <==> (x == y));
}

/// Dropping unchanged rows commutes with reversing them.
proof fn lemma_changed_reversed(rows: Seq<DiffRow>)
    requires
        rows_consistent(rows),
    ensures
        changed_rows(rows.map_values(|r: DiffRow| reverse_row(r)))
            == changed_rows(rows).map_values(|r: DiffRow| reverse_row(r)),
    decreases rows.len(),
{
    let rev = |r: DiffRow| reverse_row(r);
    let p = |r: DiffRow| r.diff != 0;
    if rows.len() == 0 {
        assert(rows.map_values(rev) =~= Seq::<DiffRow>::empty());
        assert(changed_rows(rows) =~= Seq::<DiffRow>::empty()) by {
            reveal(Seq::filter);
        }
        assert(changed_rows(rows.map_values(rev)) =~= Seq::<DiffRow>::empty()) by {
            reveal(Seq::filter);
        }
    } else {
        let init = rows.drop_last();
        let last = rows.last();
        assert forall|i: int| 0 <= i < init.len() implies (#[trigger] init[i]).diff == size_change(init[i].base_size, init[i].size) by {
            assert(init[i] == rows[i]);
        }
        lemma_changed_reversed(init);
        assert(rows[rows.len() - 1] == last);
        lemma_change_zero_symmetric(last.base_size, last.size);
        assert(rows =~= init.push(last));
        assert(rows.map_values(rev) =~= init.map_values(rev).push(reverse_row(last)));
        init.lemma_filter_push(last, p);
        init.map_values(rev).lemma_filter_push(reverse_row(last), p);
        assert((last.diff != 0) <==> (reverse_row(last).diff != 0));
        let c = changed_rows(init);
        assert(c.push(last).map_values(rev) =~= c.map_values(rev).push(reverse_row(last)));
    }
}

/// The multiset of reversed rows, gathered one row at a time.
proof fn lemma_reversed_multiset_fold(s: Seq<DiffRow>)
    ensures
        s.map_values(|r: DiffRow| reverse_row(r)).to_multiset()
            == s.fold_left(Multiset::<DiffRow>::empty(), |m: Multiset<DiffRow>, r: DiffRow| m.insert(reverse_row(r))),
    decreases s.len(),
{
    broadcast use vstd::seq_lib::group_to_multiset_ensures;

    let rev = |r: DiffRow| reverse_row(r);
    if s.len() == 0 {
        assert(s.map_values(rev) =~= Seq::<DiffRow>::empty());
    } else {
        lemma_reversed_multiset_fold(s.drop_last());
        assert(s.map_values(rev) =~= s.drop_last().map_values(rev).push(reverse_row(s.last())));
    }
}

/// Reversing the rows of two rearrangements of one list gives rearrangements.
proof fn lemma_reversed_permutes(x: Seq<DiffRow>, y: Seq<DiffRow>)
    requires
        x.to_multiset() == y.to_multiset(),
    ensures
        x.map_values(|r: DiffRow| reverse_row(r)).to_multiset()
            == y.map_values(|r: DiffRow| reverse_row(r)).to_multiset(),
{
    broadcast use vstd::multiset::group_multiset_axioms;

    let f = |m: Multiset<DiffRow>, r: DiffRow| m.insert(reverse_row(r));
    assert forall|p: DiffRow, q: DiffRow, v: Multiset<DiffRow>| #[trigger] f(f(v, p), q) == f(f(v, q), p) by {
        assert(v.insert(reverse_row(p)).insert(reverse_row(q)) =~= v.insert(reverse_row(q)).insert(reverse_row(p)));
    }
    assert(vstd::seq_lib::commutative_foldl(f));
    vstd::seq_lib::lemma_fold_left_permutation(x, y, f, Multiset::<DiffRow>::empty());
    lemma_reversed_multiset_fold(x);
    lemma_reversed_multiset_fold(y);
}

/// Integer sums of rows with swapped sizes are swapped.
proof fn lemma_swapped_sums(r: Seq<DiffRow>, s: Seq<DiffRow>)
    requires
        r.len() == s.len(),
        forall|i: int| 0 <= i < r.len() ==> (#[trigger] r[i]).size == s[i].base_size && r[i].base_size == s[i].size,
    ensures
        base_sum(s) == size_sum(r),
        size_sum(s) == base_sum(r),
    decreases r.len(),
{
    if r.len() > 0 {
        let ri = r.drop_last();
        let si = s.drop_last();
        assert forall|i: int| 0 <= i < ri.len() implies (#[trigger] ri[i]).size == si[i].base_size && ri[i].base_size == si[i].size by {
            assert(ri[i] == r[i]);
            assert(si[i] == s[i]);
        }
        lemma_swapped_sums(ri, si);
        assert(r[r.len() - 1] == r.last());
        assert(s[s.len() - 1] == s.last());
    }
}

/// Law: comparing in the other direction reverses the report. Its rows are
/// the changed rows reversed (sizes swapped, `ADDED` and `REMOVED`
/// exchanged, the change taken the other way), sorted stably by change; as
/// a multiset they are the rows of the first report, reversed. The base
/// and new totals swap, and while the size sums fit (see
/// `lemma_totals_balance`) the total change is negated. Names that both
/// lists hold must show alike in both, since a row shows the baseline's
/// kind and name.
pub proof fn lemma_reports_reversed(a: Seq<SymbolView>, b: Seq<SymbolView>, r1: SymbolDiffReport, r2: SymbolDiffReport)
    requires
        shown_alike(a, b),
        is_comparison(a, b, r1),
        is_comparison(b, a, r2),
    ensures
        comparison_rows(b, a) == by_diff(changed_rows(diff_rows(a, b)).map_values(|r: DiffRow| reverse_row(r))),
        diff_views(r2.diffs@).to_multiset() == diff_views(r1.diffs@).map_values(|r: DiffRow| reverse_row(r)).to_multiset(),
        r2.totals.base_size == r1.totals.size,
        r2.totals.size == r1.totals.base_size,
        ({
            let rows = diff_rows(a, b);
            base_sum(rows) <= i64::MAX && size_sum(rows) <= i64::MAX && base_sum(rows) <= usize::MAX
                && size_sum(rows) <= usize::MAX
        }) ==> r2.totals.diff as int == -(r1.totals.diff as int),
{
    let rev = |r: DiffRow| reverse_row(r);
    let rab = diff_rows(a, b);
    let rba = diff_rows(b, a);
    lemma_compare_reversed(a, b);
    lemma_reversed_rows(a, b);
    lemma_rows_consistent(a, b);
    lemma_changed_reversed(rab);
    assert(changed_rows(rba) == changed_rows(rab).map_values(rev));
    lemma_diff_sort_permutes(diff_views(r1.diffs@), changed_rows(rab));
    lemma_diff_sort_permutes(diff_views(r2.diffs@), changed_rows(rba));
    lemma_reversed_permutes(diff_views(r1.diffs@), changed_rows(rab));
    if base_sum(rab) <= i64::MAX && size_sum(rab) <= i64::MAX && base_sum(rab) <= usize::MAX
        && size_sum(rab) <= usize::MAX {
        lemma_swapped_sums(rab, rba);
        lemma_totals_balance(a, b);
        lemma_totals_balance(b, a);
    }
}

/// No two symbols of the list share a name.
pub open spec fn distinct_names(s: Seq<SymbolView>) -> bool {
    forall|i: int, j: int| 0 <= i < j < s.len() ==> (#[trigger] s[i]).name != (#[trigger] s[j]).name
}

/// In a list without repeated names, the symbol of a name is the one that carries it.
proof fn lemma_last_named_distinct(s: Seq<SymbolView>, i: int)
    requires
        distinct_names(s),
        0 <= i < s.len(),
    ensures
        last_named(s, s[i].name) == Some(s[i]),
    decreases s.len(),
{
    if i < s.len() - 1 {
        let init = s.drop_last();
        assert(s[s.len() - 1] == s.last());
        assert(s.last().name != s[i].name);
        assert forall|p: int, q: int| 0 <= p < q < init.len() implies (#[trigger] init[p]).name != (#[trigger] init[q]).name by {
            assert(init[p] == s[p]);
            assert(init[q] == s[q]);
        }
        assert(init[i] == s[i]);
        lemma_last_named_distinct(init, i);
    }
}

/// Rearranging a list without repeated names keeps the symbol of every name.
proof fn lemma_permuted_named(s: Seq<SymbolView>, t: Seq<SymbolView>, k: Seq<char>)
    requires
        distinct_names(s),
        distinct_names(t),
        s.to_multiset() == t.to_multiset(),
    ensures
        has_name(s, k) <==> has_name(t, k),
        last_named(s, k) == last_named(t, k),
{
    broadcast use vstd::seq_lib::group_to_multiset_ensures;

    lemma_last_named_some(s, k);
    lemma_last_named_some(t, k);
    if has_name(s, k) {
        let i = choose|i: int| 0 <= i < s.len() && #[trigger] s[i].name == k;
        assert(s.contains(s[i]));
        assert(t.to_multiset().count(s[i]) > 0);
        assert(t.contains(s[i]));
        let j = choose|j: int| 0 <= j < t.len() && t[j] == s[i];
        assert(t[j].name == k);
        lemma_last_named_distinct(s, i);
        lemma_last_named_distinct(t, j);
    }
    if has_name(t, k) {
        let j = choose|j: int| 0 <= j < t.len() && #[trigger] t[j].name == k;
        assert(t.contains(t[j]));
        assert(s.to_multiset().count(t[j]) > 0);
        assert(s.contains(t[j]));
        let i = choose|i: int| 0 <= i < s.len() && s[i] == t[j];
        assert(s[i].name == k);
    }
}

/// Law: when no list repeats a name, rearranging either input changes
/// nothing in the comparison: the same rows in the same order (equal
/// changes in name order) and the same totals.
pub proof fn lemma_compare_permuted(
    from: Seq<SymbolView>,
    to: Seq<SymbolView>,
    from2: Seq<SymbolView>,
    to2: Seq<SymbolView>,
)
    requires
        distinct_names(from),
        distinct_names(to),
        distinct_names(from2),
        distinct_names(to2),
        from2.to_multiset() == from.to_multiset(),
        to2.to_multiset() == to.to_multiset(),
    ensures
        diff_rows(from2, to2) == diff_rows(from, to),
        comparison_rows(from2, to2) == comparison_rows(from, to),
        comparison_totals(from2, to2) == comparison_totals(from, to),
{
    lemma_name_order_exists(from, to);
    lemma_name_order_exists(from2, to2);
    let x = name_order(from, to);
    let y = name_order(from2, to2);
    assert forall|k: Seq<char>| #![trigger x.contains(k)] #![trigger y.contains(k)] x.contains(k) <==> y.contains(k) by {
        lemma_permuted_named(from, from2, k);
        lemma_permuted_named(to, to2, k);
    }
    lemma_ascending_unique(x, y);
    assert forall|i: int| 0 <= i < x.len() implies #[trigger] diff_row(from2, to2, x[i]) == diff_row(from, to, x[i]) by {
        lemma_permuted_named(from, from2, x[i]);
        lemma_permuted_named(to, to2, x[i]);
    }
    assert(diff_rows(from2, to2) =~= diff_rows(from, to));
}

} // verus!
