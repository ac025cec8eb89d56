//! Comparison of two symbol lists and the CSV reports built from symbols.

use vstd::prelude::*;

use crate::elf::symbols::{
    diff_views, symbol_views, ChangeType, DiffResult, DiffRow, DiffTotals, Symbol, SymbolDiffReport,
    SymbolView,
};
use crate::elf::symbols::{change_label, kind_label};
use crate::elf::sort::{merge_sort_by_size, sort_by_diff, sorted_unique_names};
use crate::table::{csv_records, push_record, string_texts, CsvWriteError};
use crate::table_read::{csv_read, lemma_csv_read_back};
use crate::text::{
    chars_equal, chars_of, decimal, decimal_string, explicit_sign_decimal,
    explicit_sign_decimal_string, lemma_text_lt_irreflexive, lemma_text_lt_total,
    lemma_text_lt_transitive, signed_decimal, signed_decimal_string, text_less, text_lt,
};
use crate::text::{digits_value, lemma_decimal_reads_back, lemma_signed_decimal_reads_back, signed_value};

verus! {

/// Whether some symbol of `syms` is named `name`.
pub open spec fn has_name(syms: Seq<SymbolView>, name: Seq<char>) -> bool {
    exists|i: int| 0 <= i < syms.len() && #[trigger] syms[i].name == name
}

/// Texts in strictly ascending order.
pub open spec fn strictly_ascending(keys: Seq<Seq<char>>) -> bool {
    forall|i: int, j: int| 0 <= i < j < keys.len() ==> text_lt(#[trigger] keys[i], #[trigger] keys[j])
}

/// `keys` lists every name of `from` and `to` once, in ascending order.
pub open spec fn is_name_order(keys: Seq<Seq<char>>, from: Seq<SymbolView>, to: Seq<SymbolView>) -> bool {
    &&& strictly_ascending(keys)
    &&& forall|k: Seq<char>| #[trigger] keys.contains(k) <==> (has_name(from, k) || has_name(to, k))
}

/// The names of both inputs, each once, in ascending order.
pub open spec fn name_order(from: Seq<SymbolView>, to: Seq<SymbolView>) -> Seq<Seq<char>> {
    choose|keys: Seq<Seq<char>>| is_name_order(keys, from, to)
}

/// Two ascending sequences with the same elements are equal.
pub proof fn lemma_ascending_unique(x: Seq<Seq<char>>, y: Seq<Seq<char>>)
    requires
        strictly_ascending(x),
        strictly_ascending(y),
        forall|k: Seq<char>| #![trigger x.contains(k)] #![trigger y.contains(k)] x.contains(k) <==> y.contains(k),
    ensures
        x == y,
    decreases x.len(),
{
    if x.len() == 0 {
        if y.len() > 0 {
            assert(y.contains(y[0]));
            assert(x.contains(y[0]));
        }
        assert(x =~= y);
    } else if y.len() == 0 {
        assert(x.contains(x[0]));
        assert(y.contains(x[0]));
    } else {
        assert(x.contains(x[0]));
        assert(y.contains(y[0]));
        assert(y.contains(x[0]));
        assert(x.contains(y[0]));
        let i = choose|i: int| 0 <= i < x.len() && x[i] == y[0];
        let j = choose|j: int| 0 <= j < y.len() && y[j] == x[0];
        if i > 0 && j > 0 {
            assert(text_lt(x[0], x[i]));
            assert(text_lt(y[0], y[j]));
            lemma_text_lt_transitive(x[0], y[0], x[0]);
            lemma_text_lt_irreflexive(x[0]);
        }
        if i > 0 && j == 0 {
            assert(text_lt(x[0], x[i]));
            lemma_text_lt_irreflexive(x[0]);
        }
        if i == 0 && j > 0 {
            assert(text_lt(y[0], y[j]));
            lemma_text_lt_irreflexive(y[0]);
        }
        assert(x[0] == y[0]);
        let xs = x.drop_first();
        let ys = y.drop_first();
        assert forall|k: Seq<char>| #[trigger] xs.contains(k) implies ys.contains(k) by {
            assert(xs.contains(k));
            let a = choose|a: int| 0 <= a < xs.len() && xs[a] == k;
            assert(x[a + 1] == k);
            assert(x.contains(k));
            assert(y.contains(k));
            let b = choose|b: int| 0 <= b < y.len() && y[b] == k;
            if b == 0 {
                assert(text_lt(x[0], x[a + 1]));
                lemma_text_lt_irreflexive(k);
            }
            assert(ys[b - 1] == k);
        }
        assert forall|k: Seq<char>| #[trigger] ys.contains(k) implies xs.contains(k) by {
            let a = choose|a: int| 0 <= a < ys.len() && ys[a] == k;
            assert(y[a + 1] == k);
            assert(y.contains(k));
            assert(x.contains(k));
            let b = choose|b: int| 0 <= b < x.len() && x[b] == k;
            if b == 0 {
                assert(text_lt(y[0], y[a + 1]));
                lemma_text_lt_irreflexive(k);
            }
            assert(xs[b - 1] == k);
        }
        lemma_ascending_unique(xs, ys);
        assert(x.len() == y.len());
        assert forall|i: int| 0 <= i < x.len() implies x[i] == y[i] by {
            if i > 0 {
                assert(x[i] == xs[i - 1]);
                assert(y[i] == ys[i - 1]);
            }
        }
        assert(x =~= y);
    }
}

/// The view of a list of character vectors.
pub open spec fn texts(v: Seq<Vec<char>>) -> Seq<Seq<char>> {
    v.map_values(|c: Vec<char>| c@)
}

/// The number of entries of the ascending list `keys` below `name` (binary search).
fn name_position(keys: &Vec<Vec<char>>, name: &Vec<char>) -> (p: usize)
    requires
        strictly_ascending(texts(keys@)),
    ensures
        p <= keys.len(),
        forall|i: int| 0 <= i < p ==> text_lt(#[trigger] texts(keys@)[i], name@),
        forall|i: int| p <= i < keys.len() ==> !text_lt(#[trigger] texts(keys@)[i], name@),
{
    let ghost t = texts(keys@);
    let mut lo: usize = 0;
    let mut hi: usize = keys.len();
    while lo < hi
        invariant
            t == texts(keys@),
            strictly_ascending(t),
            lo <= hi <= keys.len(),
            forall|i: int| 0 <= i < lo ==> text_lt(#[trigger] t[i], name@),
            forall|i: int| hi <= i < keys.len() ==> !text_lt(#[trigger] t[i], name@),
        decreases hi - lo,
    {
        let mid = lo + (hi - lo) / 2;
        proof {
            assert(t[mid as int] == keys@[mid as int]@);
        }
        if text_less(&keys[mid], name) {
            proof {
                assert forall|i: int| 0 <= i <= mid implies text_lt(#[trigger] t[i], name@) by {
                    if i < mid {
                        lemma_text_lt_transitive(t[i], t[mid as int], name@);
                    }
                }
            }
            lo = mid + 1;
        } else {
            proof {
                assert forall|i: int| mid <= i < keys.len() implies !text_lt(#[trigger] t[i], name@) by {
                    if i > mid && text_lt(t[i], name@) {
                        lemma_text_lt_transitive(t[mid as int], t[i], name@);
                    }
                }
            }
            hi = mid;
        }
    }
    lo
}

/// The last symbol of `syms` named `name`: a later symbol of a name replaces
/// an earlier one.
pub open spec fn last_named(syms: Seq<SymbolView>, name: Seq<char>) -> Option<SymbolView>
    decreases syms.len(),
{
    if syms.len() == 0 {
        None
    } else if syms.last().name == name {
        Some(syms.last())
    } else {
        last_named(syms.drop_last(), name)
    }
}

/// A name has a last symbol exactly when some symbol carries it.
pub proof fn lemma_last_named_some(syms: Seq<SymbolView>, name: Seq<char>)
    ensures
        last_named(syms, name) is Some <==> has_name(syms, name),
        last_named(syms, name) matches Some(s) ==> s.name == name,
    decreases syms.len(),
{
    if syms.len() > 0 {
        lemma_last_named_some(syms.drop_last(), name);
        if has_name(syms, name) && syms.last().name != name {
            let i = choose|i: int| 0 <= i < syms.len() && #[trigger] syms[i].name == name;
            assert(syms.drop_last()[i].name == name);
        }
        if has_name(syms.drop_last(), name) {
            let i = choose|i: int| 0 <= i < syms.len() - 1 && #[trigger] syms.drop_last()[i].name == name;
            assert(syms[i].name == name);
        }
    }
}

/// The names of a sequence of symbols.
pub open spec fn names_of(syms: Seq<SymbolView>) -> Seq<Seq<char>> {
    syms.map_values(|s: SymbolView| s.name)
}

/// For every name of the ascending list `keys`, the index of the last symbol
/// of `syms` with that name.
fn last_indices(names: &Vec<Vec<char>>, keys: &Vec<Vec<char>>, Ghost(syms): Ghost<Seq<SymbolView>>) -> (last: Vec<Option<usize>>)
    requires
        texts(names@) == names_of(syms),
        strictly_ascending(texts(keys@)),
        forall|j: int| 0 <= j < syms.len() ==> texts(keys@).contains(#[trigger] syms[j].name),
    ensures
        last.len() == keys.len(),
        forall|k: int| 0 <= k < keys.len() ==> match #[trigger] last@[k] {
            Some(j) => j < syms.len() && last_named(syms, keys@[k]@) == Some(syms[j as int]),
            None => last_named(syms, keys@[k]@) is None,
        },
{
    let ghost t = texts(keys@);
    let mut last: Vec<Option<usize>> = Vec::new();
    for k in 0..keys.len()
        invariant
            last.len() == k,
            forall|i: int| 0 <= i < k ==> #[trigger] last@[i] is None,
    {
        last.push(None);
    }
    proof {
        assert(texts(names@).len() == names@.len());
        assert(names_of(syms).len() == syms.len());
        assert(syms.take(0) =~= Seq::<SymbolView>::empty());
    }
    for j in 0..names.len()
        invariant
            t == texts(keys@),
            strictly_ascending(t),
            names.len() == syms.len(),
            texts(names@) == names_of(syms),
            forall|j: int| 0 <= j < syms.len() ==> t.contains(#[trigger] syms[j].name),
            last.len() == keys.len(),
            forall|k: int| 0 <= k < keys.len() ==> match #[trigger] last@[k] {
                Some(i) => i < syms.len() && last_named(syms.take(j as int), keys@[k]@) == Some(syms[i as int]),
                None => last_named(syms.take(j as int), keys@[k]@) is None,
            },
    {
        let p = name_position(keys, &names[j]);
        let ghost nm = syms[j as int].name;
        proof {
            assert(texts(names@)[j as int] == names@[j as int]@);
            assert(names_of(syms)[j as int] == nm);
            assert(t.contains(nm));
            let q = choose|q: int| 0 <= q < t.len() && t[q] == nm;
            if q < p {
                lemma_text_lt_irreflexive(nm);
            }
            if q > p {
                assert(text_lt(t[p as int], t[q]));
            }
            assert(q == p);
            assert(t[p as int] == keys@[p as int]@);
        }
        last.set(p, Some(j));
        proof {
            let pre = syms.take(j as int);
            let post = syms.take(j + 1);
            assert(post.drop_last() =~= pre);
            assert(post.last() == syms[j as int]);
            assert forall|k: int| 0 <= k < keys.len() implies match #[trigger] last@[k] {
                Some(i) => i < syms.len() && last_named(post, keys@[k]@) == Some(syms[i as int]),
                None => last_named(post, keys@[k]@) is None,
            } by {
                assert(t[k] == keys@[k]@);
                if k != p {
                    if keys@[k]@ == nm {
                        if k < p {
                            assert(text_lt(t[k], t[p as int]));
                        } else {
                            assert(text_lt(t[p as int], t[k]));
                        }
                        lemma_text_lt_irreflexive(nm);
                    }
                }
            }
        }
    }
    proof {
        assert(syms.take(syms.len() as int) =~= syms);
    }
    last
}

/// A size, or zero when there is no symbol.
pub open spec fn size_or_zero(s: Option<SymbolView>) -> usize {
    match s {
        Some(v) => v.size,
        None => 0,
    }
}

/// The change from `base` to `size`, as 64-bit signed numbers; the
/// subtraction wraps around as release builds do.
pub open spec fn size_change(base: usize, size: usize) -> i64 {
    vstd::wrapping::i64_specs::wrapping_sub(size as i64, base as i64)
}

/// The comparison row of the symbol name `name`.
pub open spec fn diff_row(from: Seq<SymbolView>, to: Seq<SymbolView>, name: Seq<char>) -> DiffRow {
    let a = last_named(from, name);
    let b = last_named(to, name);
    let shown = match a {
        Some(s) => s,
        None => match b {
            Some(s) => s,
            None => SymbolView { name: name, demangled: name, kind: crate::elf::symbols::SymbolKind::Unknown, size: 0, address: None },
        },
    };
    DiffRow {
        change_type: if a is Some && b is Some {
            ChangeType::Changed
        } else if a is Some {
            ChangeType::Removed
        } else {
            ChangeType::Added
        },
        symbol_kind: shown.kind,
        symbol_name: shown.demangled,
        diff: size_change(size_or_zero(a), size_or_zero(b)),
        base_size: size_or_zero(a),
        size: size_or_zero(b),
    }
}

/// One row per symbol name of either input, in ascending name order.
pub open spec fn diff_rows(from: Seq<SymbolView>, to: Seq<SymbolView>) -> Seq<DiffRow> {
    name_order(from, to).map_values(|k: Seq<char>| diff_row(from, to, k))
}

/// The rows whose size changed.
pub open spec fn changed_rows(rows: Seq<DiffRow>) -> Seq<DiffRow> {
    rows.filter(|r: DiffRow| r.diff != 0)
}

/// The rows with change `v`, in their order.
pub open spec fn with_diff(rows: Seq<DiffRow>, v: i64) -> Seq<DiffRow> {
    rows.filter(|r: DiffRow| r.diff == v)
}

/// Rows in ascending order of their change.
pub open spec fn ascending_by_diff(rows: Seq<DiffRow>) -> bool {
    forall|i: int, j: int| 0 <= i < j < rows.len() ==> (#[trigger] rows[i]).diff <= (#[trigger] rows[j]).diff
}

/// `sorted` is `input` sorted by change, rows of equal change keeping their order.
pub open spec fn stably_sorted_by_diff(sorted: Seq<DiffRow>, input: Seq<DiffRow>) -> bool {
    &&& ascending_by_diff(sorted)
    &&& forall|v: i64| #[trigger] with_diff(sorted, v) == with_diff(input, v)
}

/// `input` sorted by ascending change, rows of equal change keeping their order.
pub open spec fn by_diff(input: Seq<DiffRow>) -> Seq<DiffRow> {
    choose|sorted: Seq<DiffRow>| stably_sorted_by_diff(sorted, input)
}

/// Some row of `s` has change `v` when the group of change `v` is not empty.
proof fn lemma_diff_group_member(s: Seq<DiffRow>, v: i64)
    requires
        with_diff(s, v).len() > 0,
    ensures
        exists|i: int| 0 <= i < s.len() && #[trigger] s[i].diff == v,
{
    let pred = |x: DiffRow| x.diff == v;
    s.lemma_filter_pred(pred, 0);
    s.lemma_filter_contains_rev(pred, with_diff(s, v)[0]);
}

/// Law: sorting rows by ascending change while keeping the order of equal
/// changes has exactly one outcome.
pub proof fn lemma_stable_diff_sort_unique(x: Seq<DiffRow>, y: Seq<DiffRow>, input: Seq<DiffRow>)
    requires
        stably_sorted_by_diff(x, input),
        stably_sorted_by_diff(y, input),
    ensures
        x == y,
{
    lemma_same_diff_groups_unique(x, y);
}

#[verifier::spinoff_prover]
proof fn lemma_same_diff_groups_unique(x: Seq<DiffRow>, y: Seq<DiffRow>)
    requires
        ascending_by_diff(x),
        ascending_by_diff(y),
        forall|v: i64| #[trigger] with_diff(x, v) == with_diff(y, v),
    ensures
        x == y,
    decreases x.len(),
{
    if x.len() == 0 {
        if y.len() > 0 {
            let v = y[0].diff;
            lemma_filter_first(y, |s: DiffRow| s.diff == v);
            assert(with_diff(y, v).len() > 0);
            assert(with_diff(x, v) =~= Seq::<DiffRow>::empty()) by {
                reveal(Seq::filter);
            }
        }
        assert(x =~= y);
    } else if y.len() == 0 {
        let v = x[0].diff;
        lemma_filter_first(x, |s: DiffRow| s.diff == v);
        assert(with_diff(x, v).len() > 0);
        assert(with_diff(y, v) =~= Seq::<DiffRow>::empty()) by {
            reveal(Seq::filter);
        }
    } else {
        let kx = x[0].diff;
        let ky = y[0].diff;
        lemma_filter_first(x, |s: DiffRow| s.diff == kx);
        lemma_filter_first(y, |s: DiffRow| s.diff == ky);
        assert(with_diff(x, kx).len() > 0);
        assert(with_diff(y, ky).len() > 0);
        assert(with_diff(x, ky) == with_diff(y, ky));
        assert(with_diff(y, kx) == with_diff(x, kx));
        lemma_diff_group_member(x, ky);
        lemma_diff_group_member(y, kx);
        let i = choose|i: int| 0 <= i < x.len() && #[trigger] x[i].diff == ky;
        let j = choose|j: int| 0 <= j < y.len() && #[trigger] y[j].diff == kx;
        if i > 0 {
            assert(x[0].diff <= x[i].diff);
        }
        if j > 0 {
            assert(y[0].diff <= y[j].diff);
        }
        assert(kx == ky);
        assert(with_diff(x, kx)[0] == x[0]);
        assert(with_diff(y, kx)[0] == y[0]);
        assert(x[0] == y[0]);
        let xs = x.drop_first();
        let ys = y.drop_first();
        assert forall|v: i64| #[trigger] with_diff(xs, v) == with_diff(ys, v) by {
            lemma_filter_first(x, |s: DiffRow| s.diff == v);
            lemma_filter_first(y, |s: DiffRow| s.diff == v);
            assert(with_diff(x, v) == with_diff(y, v));
            if v == kx {
                assert(with_diff(xs, v) =~= with_diff(x, v).drop_first());
                assert(with_diff(ys, v) =~= with_diff(y, v).drop_first());
            }
        }
        assert forall|a: int, b: int| 0 <= a < b < xs.len() implies (#[trigger] xs[a]).diff <= (#[trigger] xs[b]).diff by {
            assert(xs[a] == x[a + 1]);
            assert(xs[b] == x[b + 1]);
        }
        assert forall|a: int, b: int| 0 <= a < b < ys.len() implies (#[trigger] ys[a]).diff <= (#[trigger] ys[b]).diff by {
            assert(ys[a] == y[a + 1]);
            assert(ys[b] == y[b + 1]);
        }
        lemma_same_diff_groups_unique(xs, ys);
        assert(x =~= seq![x[0]] + xs);
        assert(y =~= seq![y[0]] + ys);
    }
}

/// The totals of comparing `from` with `to`.
pub open spec fn comparison_totals(from: Seq<SymbolView>, to: Seq<SymbolView>) -> DiffTotals {
    let rows = diff_rows(from, to);
    DiffTotals { base_size: total_base_size(rows), size: total_size(rows), diff: total_diff(rows) }
}

/// The rows of comparing `from` with `to`, in report order.
pub open spec fn comparison_rows(from: Seq<SymbolView>, to: Seq<SymbolView>) -> Seq<DiffRow> {
    by_diff(changed_rows(diff_rows(from, to)))
}

/// Sum of the base sizes, wrapping around as release builds do.
pub open spec fn total_base_size(rows: Seq<DiffRow>) -> usize
    decreases rows.len(),
{
    if rows.len() == 0 {
        0
    } else {
        vstd::wrapping::usize_specs::wrapping_add(total_base_size(rows.drop_last()), rows.last().base_size)
    }
}

/// Sum of the new sizes, wrapping around as release builds do.
pub open spec fn total_size(rows: Seq<DiffRow>) -> usize
    decreases rows.len(),
{
    if rows.len() == 0 {
        0
    } else {
        vstd::wrapping::usize_specs::wrapping_add(total_size(rows.drop_last()), rows.last().size)
    }
}

/// Sum of the changes, wrapping around as release builds do.
pub open spec fn total_diff(rows: Seq<DiffRow>) -> i64
    decreases rows.len(),
{
    if rows.len() == 0 {
        0
    } else {
        vstd::wrapping::i64_specs::wrapping_add(total_diff(rows.drop_last()), rows.last().diff)
    }
}

/// Filtering a sequence none of whose elements qualifies gives nothing.
pub proof fn lemma_filter_none<A>(s: Seq<A>, pred: spec_fn(A) -> bool)
    requires
        forall|i: int| 0 <= i < s.len() ==> !pred(#[trigger] s[i]),
    ensures
        s.filter(pred) == Seq::<A>::empty(),
    decreases s.len(),
{
    reveal(Seq::filter);
    if s.len() > 0 {
        lemma_filter_none(s.drop_last(), pred);
        assert(!pred(s[s.len() - 1]));
    }
    assert(s.filter(pred) =~= Seq::<A>::empty());
}

/// The names of `syms` as character vectors.
fn name_chars(syms: &Vec<Symbol>) -> (names: Vec<Vec<char>>)
    ensures
        texts(names@) == names_of(symbol_views(syms@)),
{
    let mut names: Vec<Vec<char>> = Vec::new();
    for i in 0..syms.len()
        invariant
            texts(names@) == names_of(symbol_views(syms@)).take(i as int),
    {
        let c = chars_of(syms[i].name.as_str());
        let ghost cv = c@;
        let ghost prev = names@;
        names.push(c);
        proof {
            assert(texts(prev).len() == prev.len());
            assert(names_of(symbol_views(syms@)).len() == syms@.len());
            assert(prev.len() == i);
            assert(names@.len() == i + 1);
            assert(names@[i as int]@ == cv);
            assert(symbol_views(syms@)[i as int] == syms@[i as int]@);
            assert(names_of(symbol_views(syms@))[i as int] == syms@[i as int].name@);
            assert(texts(names@)[i as int] == cv);
            assert(texts(prev) == names_of(symbol_views(syms@)).take(i as int));
            assert forall|k: int| 0 <= k < i implies texts(names@)[k] == texts(prev)[k] by {
                assert(names@[k] == prev[k]);
            }
            assert(texts(names@) =~= names_of(symbol_views(syms@)).take(i + 1));
        }
    }
    proof {
        assert(names_of(symbol_views(syms@)).take(syms.len() as int) =~= names_of(symbol_views(syms@)));
    }
    names
}

/// The ascending list of every name of `from` and `to`.
fn collect_names(from_names: &Vec<Vec<char>>, to_names: &Vec<Vec<char>>, Ghost(from): Ghost<Seq<SymbolView>>, Ghost(to): Ghost<Seq<SymbolView>>) -> (keys: Vec<Vec<char>>)
    requires
        texts(from_names@) == names_of(from),
        texts(to_names@) == names_of(to),
    ensures
        is_name_order(texts(keys@), from, to),
{
    let mut all: Vec<Vec<char>> = Vec::new();
    proof {
        assert(texts(from_names@).len() == from_names@.len());
        assert(texts(to_names@).len() == to_names@.len());
        assert(texts(all@) =~= Seq::<Seq<char>>::empty());
    }
    for i in 0..from_names.len()
        invariant
            from_names.len() == from.len(),
            texts(from_names@) == names_of(from),
            texts(all@) == names_of(from).take(i as int),
    {
        let c = chars_of_vec(&from_names[i]);
        let ghost prev = all@;
        all.push(c);
        proof {
            assert(texts(from_names@)[i as int] == from_names@[i as int]@);
            assert(texts(all@) =~= texts(prev).push(from_names@[i as int]@));
            assert(names_of(from).take(i + 1) =~= names_of(from).take(i as int).push(names_of(from)[i as int]));
            assert(texts(all@) =~= names_of(from).take(i + 1));
        }
    }
    for j in 0..to_names.len()
        invariant
            from_names.len() == from.len(),
            to_names.len() == to.len(),
            texts(to_names@) == names_of(to),
            texts(all@) == names_of(from) + names_of(to).take(j as int),
    {
        let c = chars_of_vec(&to_names[j]);
        let ghost prev = all@;
        all.push(c);
        proof {
            assert(texts(to_names@)[j as int] == to_names@[j as int]@);
            assert(texts(all@) =~= texts(prev).push(to_names@[j as int]@));
            assert(names_of(to).take(j + 1) =~= names_of(to).take(j as int).push(names_of(to)[j as int]));
            assert(texts(all@) =~= names_of(from) + names_of(to).take(j + 1));
        }
    }
    let ghost names = texts(all@);
    proof {
        assert(names =~= names_of(from) + names_of(to));
    }
    let keys = sorted_unique_names(all);
    proof {
        assert forall|k: Seq<char>| #[trigger] texts(keys@).contains(k) <==> (has_name(from, k) || has_name(to, k)) by {
            if names.contains(k) {
                let j = choose|j: int| 0 <= j < names.len() && names[j] == k;
                if j < from.len() {
                    assert(names_of(from)[j] == from[j].name);
                    assert(from[j].name == k);
                } else {
                    assert(names_of(to)[j - from.len()] == to[j - from.len()].name);
                    assert(to[j - from.len()].name == k);
                }
            }
            if has_name(from, k) {
                let j = choose|j: int| 0 <= j < from.len() && #[trigger] from[j].name == k;
                assert(names[j] == k);
            }
            if has_name(to, k) {
                let j = choose|j: int| 0 <= j < to.len() && #[trigger] to[j].name == k;
                assert(names[from.len() + j] == k);
            }
        }
    }
    keys
}

/// A copy of a character vector.
fn chars_of_vec(v: &Vec<char>) -> (r: Vec<char>)
    ensures
        r@ == v@,
{
    let mut r: Vec<char> = Vec::new();
    for i in 0..v.len()
        invariant
            r@ == v@.take(i as int),
    {
        r.push(v[i]);
        proof {
            assert(r@ =~= v@.take(i + 1));
        }
    }
    proof {
        assert(r@ =~= v@);
    }
    r
}

/// The names order exists and is the one that was computed.
proof fn lemma_name_order_is(keys: Seq<Seq<char>>, from: Seq<SymbolView>, to: Seq<SymbolView>)
    requires
        is_name_order(keys, from, to),
    ensures
        name_order(from, to) == keys,
{
    let chosen = name_order(from, to);
    assert(is_name_order(chosen, from, to));
    assert forall|k: Seq<char>| #![trigger keys.contains(k)] #![trigger chosen.contains(k)] keys.contains(k) <==> chosen.contains(k) by {
        assert(keys.contains(k) <==> (has_name(from, k) || has_name(to, k)));
        assert(chosen.contains(k) <==> (has_name(from, k) || has_name(to, k)));
    }
    lemma_ascending_unique(keys, chosen);
}

/// The outcome of comparing `from` with `to`: the changed rows sorted by
/// change (rows of equal change in name order), and totals over every name.
pub open spec fn is_comparison(from: Seq<SymbolView>, to: Seq<SymbolView>, report: SymbolDiffReport) -> bool {
    let rows = diff_rows(from, to);
    &&& stably_sorted_by_diff(diff_views(report.diffs@), changed_rows(rows))
    &&& report.totals.base_size == total_base_size(rows)
    &&& report.totals.size == total_size(rows)
    &&& report.totals.diff == total_diff(rows)
}

/// Compares two symbol lists.
///
/// Symbols are matched by name; of several symbols with one name the last
/// counts. Each name whose size differs gives a row (added, removed or
/// changed); the rows are sorted in ascending order of the change, rows with
/// the same change in ascending name order. The totals cover every name of
/// both lists, including those without a row.
pub fn compare_symbols(from_symbols: Vec<Symbol>, to_symbols: Vec<Symbol>) -> (report: SymbolDiffReport)
    ensures
        is_comparison(symbol_views(from_symbols@), symbol_views(to_symbols@), report),
        diff_views(report.diffs@) == comparison_rows(symbol_views(from_symbols@), symbol_views(to_symbols@)),
        report.totals == comparison_totals(symbol_views(from_symbols@), symbol_views(to_symbols@)),
{
    let ghost from = symbol_views(from_symbols@);
    let ghost to = symbol_views(to_symbols@);
    let from_names = name_chars(&from_symbols);
    let to_names = name_chars(&to_symbols);
    let keys = collect_names(&from_names, &to_names, Ghost(from), Ghost(to));
    proof {
        lemma_name_order_is(texts(keys@), from, to);
        assert forall|j: int| 0 <= j < from.len() implies texts(keys@).contains(#[trigger] from[j].name) by {
            assert(has_name(from, from[j].name));
        }
        assert forall|j: int| 0 <= j < to.len() implies texts(keys@).contains(#[trigger] to[j].name) by {
            assert(has_name(to, to[j].name));
        }
    }
    let from_last = last_indices(&from_names, &keys, Ghost(from));
    let to_last = last_indices(&to_names, &keys, Ghost(to));
    let ghost rows = diff_rows(from, to);
    let mut diffs: Vec<DiffResult> = Vec::new();
    let mut total_base: usize = 0;
    let mut total_new: usize = 0;
    let mut total_change: i64 = 0;
    proof {
        assert(rows.len() == keys.len());
        assert(rows.take(0) =~= Seq::<DiffRow>::empty());
        reveal_with_fuel(Seq::filter, 1);
        assert(diff_views(diffs@) =~= Seq::<DiffRow>::empty());
        assert(changed_rows(rows.take(0)) =~= Seq::<DiffRow>::empty());
    }
    for ki in 0..keys.len()
        invariant
            from == symbol_views(from_symbols@),
            to == symbol_views(to_symbols@),
            texts(from_names@) == names_of(from),
            texts(to_names@) == names_of(to),
            rows == diff_rows(from, to),
            name_order(from, to) == texts(keys@),
            rows.len() == keys.len(),
            from_last.len() == keys.len(),
            to_last.len() == keys.len(),
            forall|k: int| 0 <= k < keys.len() ==> match #[trigger] from_last@[k] {
                Some(j) => j < from.len() && last_named(from, keys@[k]@) == Some(from[j as int]),
                None => last_named(from, keys@[k]@) is None,
            },
            forall|k: int| 0 <= k < keys.len() ==> match #[trigger] to_last@[k] {
                Some(j) => j < to.len() && last_named(to, keys@[k]@) == Some(to[j as int]),
                None => last_named(to, keys@[k]@) is None,
            },
            diff_views(diffs@) == changed_rows(rows.take(ki as int)),
            total_base == total_base_size(rows.take(ki as int)),
            total_new == total_size(rows.take(ki as int)),
            total_change == total_diff(rows.take(ki as int)),
    {
        let a = from_last[ki];
        let b = to_last[ki];
        proof {
            assert(from_last@[ki as int] == a);
            assert(to_last@[ki as int] == b);
        }
        let ghost row = rows[ki as int];
        proof {
            assert(texts(keys@)[ki as int] == keys@[ki as int]@);
            assert(row == diff_row(from, to, keys@[ki as int]@));
        }
        let size1: usize = match a {
            Some(j) => from_symbols[j].size,
            None => 0,
        };
        let size2: usize = match b {
            Some(j) => to_symbols[j].size,
            None => 0,
        };
        let diff: i64 = (size2 as i64).wrapping_sub(size1 as i64);
        total_base = total_base.wrapping_add(size1);
        total_new = total_new.wrapping_add(size2);
        total_change = total_change.wrapping_add(diff);
        let ghost before = rows.take(ki as int);
        proof {
            assert(rows.take(ki + 1).drop_last() =~= before);
            assert(rows.take(ki + 1).last() == row);
            assert(row.diff == diff);
            assert(row.base_size == size1);
            assert(row.size == size2);
        }
        if diff != 0 {
            let change_type = match (a, b) {
                (Some(_), Some(_)) => ChangeType::Changed,
                (None, Some(_)) => ChangeType::Added,
                _ => ChangeType::Removed,
            };
            let shown: &Symbol = match a {
                Some(j) => &from_symbols[j],
                None => match b {
                    Some(j) => &to_symbols[j],
                    None => &from_symbols[0],
                },
            };
            let result = DiffResult {
                change_type,
                symbol_kind: shown.kind,
                symbol_name: shown.demangled.clone(),
                diff,
                base_size: size1,
                size: size2,
            };
            proof {
                assert(result@ == row);
            }
            let ghost prev = diffs@;
            diffs.push(result);
            proof {
                assert(diff_views(diffs@) =~= diff_views(prev).push(row));
            }
        }
        proof {
            let pred = |r: DiffRow| r.diff != 0;
            before.lemma_filter_push(row, pred);
            assert(rows.take(ki + 1) =~= before.push(row));
        }
    }
    let diffs = sort_by_diff(diffs);
    proof {
        assert(rows.take(keys.len() as int) =~= rows);
        let chosen = by_diff(changed_rows(rows));
        assert(stably_sorted_by_diff(chosen, changed_rows(rows)));
        lemma_stable_diff_sort_unique(diff_views(diffs@), chosen, changed_rows(rows));
    }
    SymbolDiffReport {
        diffs,
        totals: DiffTotals { base_size: total_base, size: total_new, diff: total_change },
    }
}


/// The header record of a comparison report.
pub open spec fn diff_header() -> Seq<Seq<char>> {
    seq!["Change"@, "Type"@, "Diff"@, "Symbol"@, "Base Size"@, "Size"@]
}

/// The record of one comparison row.
pub open spec fn diff_fields(r: DiffRow) -> Seq<Seq<char>> {
    seq![
        change_label(r.change_type),
        kind_label(r.symbol_kind),
        signed_decimal(r.diff as int),
        r.symbol_name,
        decimal(r.base_size as nat),
        decimal(r.size as nat),
    ]
}

/// The closing record with the totals; the total change always carries its sign.
pub open spec fn totals_fields(t: DiffTotals) -> Seq<Seq<char>> {
    seq![
        "TOTAL"@,
        ""@,
        explicit_sign_decimal(t.diff as int),
        ""@,
        decimal(t.base_size as nat),
        decimal(t.size as nat),
    ]
}

/// The records of a comparison report: header, one per row, totals.
pub open spec fn diff_records(diffs: Seq<DiffRow>, totals: DiffTotals) -> Seq<Seq<Seq<char>>> {
    seq![diff_header()] + diffs.map_values(|r: DiffRow| diff_fields(r)) + seq![totals_fields(totals)]
}

/// Law: reading a comparison report with a CSV reader gives back its
/// records: the header, then for each row, in order, its six fields (the
/// change type, kind, change, name, base size and size, whatever the name
/// holds), then the TOTAL record.
pub proof fn lemma_diff_report_reads_back(diffs: Seq<DiffRow>, totals: DiffTotals)
    ensures
        csv_read(csv_records(diff_records(diffs, totals))) == diff_records(diffs, totals),
        diff_records(diffs, totals).len() == diffs.len() + 2,
        forall|i: int| 0 <= i < diffs.len() ==> #[trigger] diff_records(diffs, totals)[i + 1] == diff_fields(diffs[i]),
{
    let recs = diff_records(diffs, totals);
    assert forall|i: int| 0 <= i < recs.len() implies (#[trigger] recs[i]).len() > 0 by {
        if i == 0 {
        } else if i <= diffs.len() {
            assert(recs[i] == diff_fields(diffs[i - 1]));
        } else {
            assert(recs[i] == totals_fields(totals));
        }
    }
    lemma_csv_read_back(recs);
}

/// Law: reading a single-file report with a CSV reader gives back its
/// records: the header, one record of three fields per symbol in report
/// order, then the TOTAL record.
pub proof fn lemma_symbols_report_reads_back(sorted: Seq<SymbolView>)
    ensures
        csv_read(csv_records(symbols_records(sorted))) == symbols_records(sorted),
{
    let recs = symbols_records(sorted);
    assert forall|i: int| 0 <= i < recs.len() implies (#[trigger] recs[i]).len() > 0 by {
        if i > 0 && i <= sorted.len() {
            assert(recs[i] == symbol_fields(sorted[i - 1]));
        }
    }
    lemma_csv_read_back(recs);
}

/// Law: each record of a comparison report, read back with a CSV reader,
/// shows its row: record `i + 1` holds the change type's label, the
/// kind's label, text that reads back as the change, the row's symbol
/// name, and texts that read back as the base size and the new size. The
/// TOTAL record's texts read back as the total change, base size and size.
pub proof fn lemma_diff_report_fields(diffs: Seq<DiffRow>, totals: DiffTotals)
    ensures
        ({
            let recs = csv_read(csv_records(diff_records(diffs, totals)));
            &&& recs.len() == diffs.len() + 2
            &&& forall|i: int| 0 <= i < diffs.len() ==> {
                let f = #[trigger] recs[i + 1];
                &&& f.len() == 6
                &&& f[0] == change_label(diffs[i].change_type)
                &&& f[1] == kind_label(diffs[i].symbol_kind)
                &&& signed_value(f[2]) == diffs[i].diff
                &&& f[3] == diffs[i].symbol_name
                &&& digits_value(f[4]) == diffs[i].base_size
                &&& digits_value(f[5]) == diffs[i].size
            }
            &&& recs[diffs.len() + 1int].len() == 6
            &&& recs[diffs.len() + 1int][0] == "TOTAL"@
            &&& signed_value(recs[diffs.len() + 1int][2]) == totals.diff
            &&& digits_value(recs[diffs.len() + 1int][4]) == totals.base_size
            &&& digits_value(recs[diffs.len() + 1int][5]) == totals.size
        }),
{
    lemma_diff_report_reads_back(diffs, totals);
    let recs = diff_records(diffs, totals);
    assert forall|i: int| 0 <= i < diffs.len() implies {
        let f = #[trigger] recs[i + 1];
        &&& f.len() == 6
        &&& f[0] == change_label(diffs[i].change_type)
        &&& f[1] == kind_label(diffs[i].symbol_kind)
        &&& signed_value(f[2]) == diffs[i].diff
        &&& f[3] == diffs[i].symbol_name
        &&& digits_value(f[4]) == diffs[i].base_size
        &&& digits_value(f[5]) == diffs[i].size
    } by {
        assert(recs[i + 1] == diff_fields(diffs[i]));
        lemma_signed_decimal_reads_back(diffs[i].diff as int);
        lemma_decimal_reads_back(diffs[i].base_size as nat);
        lemma_decimal_reads_back(diffs[i].size as nat);
    }
    assert(recs[diffs.len() + 1int] == totals_fields(totals));
    lemma_signed_decimal_reads_back(totals.diff as int);
    lemma_decimal_reads_back(totals.base_size as nat);
    lemma_decimal_reads_back(totals.size as nat);
}

/// Law: each record of a single-file report, read back with a CSV reader,
/// shows one symbol of the size order: record `i + 1` holds the kind's
/// label, text that reads back as the symbol's size, and the symbol's
/// demangled name; the TOTAL record's size reads back as the sum of all
/// sizes.
pub proof fn lemma_symbols_report_fields(syms: Seq<SymbolView>)
    ensures
        ({
            let sorted = by_size(syms);
            let recs = csv_read(csv_records(symbols_records(sorted)));
            &&& recs.len() == sorted.len() + 2
            &&& forall|i: int| 0 <= i < sorted.len() ==> {
                let f = #[trigger] recs[i + 1];
                &&& f.len() == 3
                &&& f[0] == kind_label(sorted[i].kind)
                &&& digits_value(f[1]) == sorted[i].size
                &&& f[2] == sorted[i].demangled
            }
            &&& recs[sorted.len() + 1int][0] == "TOTAL"@
            &&& digits_value(recs[sorted.len() + 1int][1]) == sum_sizes(sorted)
        }),
{
    let sorted = by_size(syms);
    lemma_symbols_report_reads_back(sorted);
    let recs = symbols_records(sorted);
    assert forall|i: int| 0 <= i < sorted.len() implies {
        let f = #[trigger] recs[i + 1];
        &&& f.len() == 3
        &&& f[0] == kind_label(sorted[i].kind)
        &&& digits_value(f[1]) == sorted[i].size
        &&& f[2] == sorted[i].demangled
    } by {
        assert(recs[i + 1] == symbol_fields(sorted[i]));
        lemma_decimal_reads_back(sorted[i].size as nat);
    }
    assert(recs[sorted.len() + 1int] == seq!["TOTAL"@, decimal(sum_sizes(sorted) as nat), ""@]);
    lemma_decimal_reads_back(sum_sizes(sorted) as nat);
}

/// Adding one record at the end of a list of records adds its text at the end.
proof fn lemma_csv_records_push(records: Seq<Seq<Seq<char>>>, r: Seq<Seq<char>>)
    ensures
        csv_records(records.push(r)) == csv_records(records) + crate::table::csv_record(r),
{
    assert(records.push(r).drop_last() =~= records);
}

/// The CSV report of a comparison: header, one record per row in the
/// report's order, and a final TOTAL record.
pub fn generate_diff_csv(report: &SymbolDiffReport) -> (res: Result<String, CsvWriteError>)
    ensures
        res is Ok,
        res.unwrap()@ == csv_records(diff_records(diff_views(report.diffs@), report.totals)),
{
    let ghost rows = diff_views(report.diffs@);
    let mut out = String::new();
    let header = vec![
        String::from_str("Change"),
        String::from_str("Type"),
        String::from_str("Diff"),
        String::from_str("Symbol"),
        String::from_str("Base Size"),
        String::from_str("Size"),
    ];
    proof {
        assert(string_texts(header@) =~= diff_header());
    }
    push_record(&mut out, &header)?;
    proof {
        lemma_csv_records_push(Seq::empty(), diff_header());
        assert(seq![diff_header()] =~= Seq::<Seq<Seq<char>>>::empty().push(diff_header()));
        assert(out@ =~= csv_records(seq![diff_header()] + rows.take(0).map_values(|r: DiffRow| diff_fields(r))));
    }
    for i in 0..report.diffs.len()
        invariant
            rows == diff_views(report.diffs@),
            out@ == csv_records(seq![diff_header()] + rows.take(i as int).map_values(|r: DiffRow| diff_fields(r))),
    {
        let d = &report.diffs[i];
        let fields = vec![
            d.change_type.label(),
            d.symbol_kind.label(),
            signed_decimal_string(d.diff),
            d.symbol_name.clone(),
            decimal_string(d.base_size as u64),
            decimal_string(d.size as u64),
        ];
        proof {
            assert(rows[i as int] == d@);
            assert(string_texts(fields@) =~= diff_fields(d@));
        }
        push_record(&mut out, &fields)?;
        proof {
            let before = seq![diff_header()] + rows.take(i as int).map_values(|r: DiffRow| diff_fields(r));
            lemma_csv_records_push(before, diff_fields(d@));
            assert(seq![diff_header()] + rows.take(i + 1).map_values(|r: DiffRow| diff_fields(r)) =~= before.push(diff_fields(d@)));
        }
    }
    let t = report.totals;
    let total_fields = vec![
        String::from_str("TOTAL"),
        String::from_str(""),
        explicit_sign_decimal_string(t.diff),
        String::from_str(""),
        decimal_string(t.base_size as u64),
        decimal_string(t.size as u64),
    ];
    proof {
        assert(string_texts(total_fields@) =~= totals_fields(t));
    }
    push_record(&mut out, &total_fields)?;
    proof {
        let before = seq![diff_header()] + rows.take(rows.len() as int).map_values(|r: DiffRow| diff_fields(r));
        assert(rows.take(rows.len() as int) =~= rows);
        lemma_csv_records_push(before, totals_fields(t));
        assert(diff_records(rows, t) =~= before.push(totals_fields(t)));
    }
    Ok(out)
}


/// The symbols of size `v`, in their order.
pub open spec fn with_size(syms: Seq<SymbolView>, v: usize) -> Seq<SymbolView> {
    syms.filter(|s: SymbolView| s.size == v)
}

/// Symbols in descending order of size.
pub open spec fn descending_by_size(syms: Seq<SymbolView>) -> bool {
    forall|i: int, j: int| 0 <= i < j < syms.len() ==> (#[trigger] syms[i]).size >= (#[trigger] syms[j]).size
}

/// `sorted` is `input` sorted by descending size, symbols of equal size
/// keeping their order.
pub open spec fn stably_sorted_by_size(sorted: Seq<SymbolView>, input: Seq<SymbolView>) -> bool {
    &&& descending_by_size(sorted)
    &&& forall|v: usize| #[trigger] with_size(sorted, v) == with_size(input, v)
}

/// `input` sorted by descending size, symbols of equal size in their order.
pub open spec fn by_size(input: Seq<SymbolView>) -> Seq<SymbolView> {
    choose|sorted: Seq<SymbolView>| stably_sorted_by_size(sorted, input)
}

/// Filtering a sequence whose first element qualifies keeps that element first.
pub proof fn lemma_filter_first<A>(s: Seq<A>, pred: spec_fn(A) -> bool)
    requires
        s.len() > 0,
    ensures
        s.filter(pred) == if pred(s[0]) {
            seq![s[0]] + s.drop_first().filter(pred)
        } else {
            s.drop_first().filter(pred)
        },
{
    assert(s =~= seq![s[0]] + s.drop_first());
    Seq::filter_distributes_over_add(seq![s[0]], s.drop_first(), pred);
    reveal_with_fuel(Seq::filter, 2);
    assert(seq![s[0]].drop_last() =~= Seq::<A>::empty());
    if pred(s[0]) {
        assert(seq![s[0]].filter(pred) =~= seq![s[0]]);
    } else {
        assert(seq![s[0]].filter(pred) =~= Seq::<A>::empty());
        assert(Seq::<A>::empty() + s.drop_first().filter(pred) =~= s.drop_first().filter(pred));
    }
}

/// Some element of `s` has size `v` when the size group `v` is not empty.
proof fn lemma_size_group_member(s: Seq<SymbolView>, v: usize)
    requires
        with_size(s, v).len() > 0,
    ensures
        exists|i: int| 0 <= i < s.len() && #[trigger] s[i].size == v,
{
    let pred = |x: SymbolView| x.size == v;
    s.lemma_filter_pred(pred, 0);
    s.lemma_filter_contains_rev(pred, with_size(s, v)[0]);
}

/// Law: sorting by descending size while keeping the order of equal sizes
/// has exactly one outcome.
pub proof fn lemma_stable_size_sort_unique(x: Seq<SymbolView>, y: Seq<SymbolView>, input: Seq<SymbolView>)
    requires
        stably_sorted_by_size(x, input),
        stably_sorted_by_size(y, input),
    ensures
        x == y,
    decreases x.len(),
{
    lemma_same_groups_unique(x, y);
}

proof fn lemma_same_groups_unique(x: Seq<SymbolView>, y: Seq<SymbolView>)
    requires
        descending_by_size(x),
        descending_by_size(y),
        forall|v: usize| #[trigger] with_size(x, v) == with_size(y, v),
    ensures
        x == y,
    decreases x.len(),
{
    if x.len() == 0 {
        if y.len() > 0 {
            let v = y[0].size;
            lemma_filter_first(y, |s: SymbolView| s.size == v);
            assert(with_size(y, v).len() > 0);
            assert(with_size(x, v) =~= Seq::<SymbolView>::empty()) by {
                reveal(Seq::filter);
            }
        }
        assert(x =~= y);
    } else if y.len() == 0 {
        let v = x[0].size;
        lemma_filter_first(x, |s: SymbolView| s.size == v);
        assert(with_size(x, v).len() > 0);
        assert(with_size(y, v) =~= Seq::<SymbolView>::empty()) by {
            reveal(Seq::filter);
        }
    } else {
        let kx = x[0].size;
        let ky = y[0].size;
        lemma_filter_first(x, |s: SymbolView| s.size == kx);
        lemma_filter_first(y, |s: SymbolView| s.size == ky);
        assert(with_size(x, kx).len() > 0);
        assert(with_size(y, ky).len() > 0);
        assert(with_size(x, ky) == with_size(y, ky));
        assert(with_size(y, kx) == with_size(x, kx));
        lemma_size_group_member(x, ky);
        lemma_size_group_member(y, kx);
        let i = choose|i: int| 0 <= i < x.len() && #[trigger] x[i].size == ky;
        let j = choose|j: int| 0 <= j < y.len() && #[trigger] y[j].size == kx;
        if i > 0 {
            assert(x[0].size >= x[i].size);
        }
        if j > 0 {
            assert(y[0].size >= y[j].size);
        }
        assert(kx == ky);
        assert(with_size(x, kx)[0] == x[0]);
        assert(with_size(y, kx)[0] == y[0]);
        assert(x[0] == y[0]);
        let xs = x.drop_first();
        let ys = y.drop_first();
        assert forall|v: usize| #[trigger] with_size(xs, v) == with_size(ys, v) by {
            lemma_filter_first(x, |s: SymbolView| s.size == v);
            lemma_filter_first(y, |s: SymbolView| s.size == v);
            assert(with_size(x, v) == with_size(y, v));
            if v == kx {
                assert(with_size(xs, v) =~= with_size(x, v).drop_first());
                assert(with_size(ys, v) =~= with_size(y, v).drop_first());
            }
        }
        assert forall|a: int, b: int| 0 <= a < b < xs.len() implies (#[trigger] xs[a]).size >= (#[trigger] xs[b]).size by {
            assert(xs[a] == x[a + 1]);
            assert(xs[b] == x[b + 1]);
        }
        assert forall|a: int, b: int| 0 <= a < b < ys.len() implies (#[trigger] ys[a]).size >= (#[trigger] ys[b]).size by {
            assert(ys[a] == y[a + 1]);
            assert(ys[b] == y[b + 1]);
        }
        lemma_same_groups_unique(xs, ys);
        assert(x =~= seq![x[0]] + xs);
        assert(y =~= seq![y[0]] + ys);
    }
}

/// The symbols sorted by descending size, symbols of equal size keeping their order.
pub fn sort_by_size(symbols: Vec<Symbol>) -> (sorted: Vec<Symbol>)
    ensures
        stably_sorted_by_size(symbol_views(sorted@), symbol_views(symbols@)),
        symbol_views(sorted@) == by_size(symbol_views(symbols@)),
{
    let ghost input = symbol_views(symbols@);
    let sorted = merge_sort_by_size(symbols);
    proof {
        let chosen = by_size(input);
        assert(stably_sorted_by_size(chosen, input));
        lemma_stable_size_sort_unique(symbol_views(sorted@), chosen, input);
    }
    sorted
}


/// Sum of the symbols' sizes, wrapping around as release builds do.
pub open spec fn sum_sizes(syms: Seq<SymbolView>) -> usize
    decreases syms.len(),
{
    if syms.len() == 0 {
        0
    } else {
        vstd::wrapping::usize_specs::wrapping_add(sum_sizes(syms.drop_last()), syms.last().size)
    }
}

/// The header record of a single-file report.
pub open spec fn symbols_header() -> Seq<Seq<char>> {
    seq!["Type"@, "Size"@, "Symbol"@]
}

/// The record of one symbol.
pub open spec fn symbol_fields(s: SymbolView) -> Seq<Seq<char>> {
    seq![kind_label(s.kind), decimal(s.size as nat), s.demangled]
}

/// The records of a single-file report of `sorted`: header, one per symbol, total.
pub open spec fn symbols_records(sorted: Seq<SymbolView>) -> Seq<Seq<Seq<char>>> {
    seq![symbols_header()] + sorted.map_values(|s: SymbolView| symbol_fields(s)) + seq![
        seq!["TOTAL"@, decimal(sum_sizes(sorted) as nat), ""@],
    ]
}

/// Generates a CSV report of symbol sizes for a single ELF file: the symbols
/// from largest to smallest (symbols of equal size in their order), then
/// the TOTAL of all sizes.
pub fn generate_symbols_csv(symbols: Vec<Symbol>) -> (res: Result<String, CsvWriteError>)
    ensures
        res is Ok,
        res.unwrap()@ == csv_records(symbols_records(by_size(symbol_views(symbols@)))),
{
    let sorted_symbols = sort_by_size(symbols);
    let ghost sv = symbol_views(sorted_symbols@);
    let mut out = String::new();
    let header = vec![String::from_str("Type"), String::from_str("Size"), String::from_str("Symbol")];
    proof {
        assert(string_texts(header@) =~= symbols_header());
    }
    push_record(&mut out, &header)?;
    proof {
        lemma_csv_records_push(Seq::empty(), symbols_header());
        assert(seq![symbols_header()] =~= Seq::<Seq<Seq<char>>>::empty().push(symbols_header()));
        assert(out@ =~= csv_records(seq![symbols_header()] + sv.take(0).map_values(|s: SymbolView| symbol_fields(s))));
    }
    let mut total_size: usize = 0;
    for i in 0..sorted_symbols.len()
        invariant
            sv == symbol_views(sorted_symbols@),
            out@ == csv_records(seq![symbols_header()] + sv.take(i as int).map_values(|s: SymbolView| symbol_fields(s))),
            total_size == sum_sizes(sv.take(i as int)),
    {
        let sym = &sorted_symbols[i];
        total_size = total_size.wrapping_add(sym.size);
        let fields = vec![sym.kind.label(), decimal_string(sym.size as u64), sym.demangled.clone()];
        proof {
            assert(sv[i as int] == sym@);
            assert(string_texts(fields@) =~= symbol_fields(sym@));
            assert(sv.take(i + 1).drop_last() =~= sv.take(i as int));
        }
        push_record(&mut out, &fields)?;
        proof {
            let before = seq![symbols_header()] + sv.take(i as int).map_values(|s: SymbolView| symbol_fields(s));
            lemma_csv_records_push(before, symbol_fields(sym@));
            assert(seq![symbols_header()] + sv.take(i + 1).map_values(|s: SymbolView| symbol_fields(s)) =~= before.push(symbol_fields(sym@)));
        }
    }
    let total_fields = vec![String::from_str("TOTAL"), decimal_string(total_size as u64), String::from_str("")];
    proof {
        assert(sv.take(sv.len() as int) =~= sv);
        assert(string_texts(total_fields@) =~= seq!["TOTAL"@, decimal(sum_sizes(sv) as nat), ""@]);
    }
    push_record(&mut out, &total_fields)?;
    proof {
        let before = seq![symbols_header()] + sv.map_values(|s: SymbolView| symbol_fields(s));
        lemma_csv_records_push(before, seq!["TOTAL"@, decimal(sum_sizes(sv) as nat), ""@]);
        assert(symbols_records(sv) =~= before.push(seq!["TOTAL"@, decimal(sum_sizes(sv) as nat), ""@]));
    }
    Ok(out)
}


/// What `cpp_demangle` makes of a symbol name: the demangled text, or
/// nothing when the name does not parse as a mangled C++ name or cannot be
/// demangled.
pub uninterp spec fn cpp_demangled(name: Seq<char>) -> Option<Seq<char>>;

/// Demangles `name` with `cpp_demangle` (`Symbol::new` on the name's bytes,
/// then `demangle` with the default options); either failure gives `None`.
/// Claimed: the outcome depends on the name alone, and is named `cpp_demangled`.
#[verifier::external_body]
fn try_demangle(name: &str) -> (res: Option<String>)
    ensures
        match res {
            Some(s) => cpp_demangled(name@) == Some(s@),
            None => cpp_demangled(name@) is None,
        },
{
    match cpp_demangle::Symbol::new(name.as_bytes()) {
        Ok(symbol) => symbol.demangle().ok(),
        Err(_) => None,
    }
}

/// The name shown for a symbol: its demangled form, or the name itself.
pub open spec fn display_name(name: Seq<char>) -> Seq<char> {
    match cpp_demangled(name) {
        Some(d) => d,
        None => name,
    }
}

/// The name to show given the demangler's outcome: the demangled text when
/// there is one, else the name itself.
pub fn shown_name(name: &str, demangled: Option<String>) -> (r: String)
    ensures
        r@ == match demangled {
            Some(d) => d@,
            None => name@,
        },
{
    match demangled {
        Some(d) => d,
        None => name.to_owned(),
    }
}

/// Demangles a C++ symbol name; a name that does not demangle is returned as it is.
pub fn demangle_name(name: &str) -> (r: String)
    ensures
        r@ == display_name(name@),
{
    let demangled = try_demangle(name);
    shown_name(name, demangled)
}

} // verus!
