//! Merge sorts: comparison rows by ascending change and symbols by
//! descending size (both stable), and names into ascending order, each once.

use vstd::prelude::*;

use crate::elf::symbol_diff::{
    ascending_by_diff, descending_by_size, lemma_filter_first, stably_sorted_by_diff,
    stably_sorted_by_size, strictly_ascending, texts, with_diff, with_size,
};
use crate::text::{chars_equal, lemma_text_lt_total, lemma_text_lt_transitive, text_less, text_lt};
use crate::elf::symbols::{diff_views, symbol_views, DiffResult, DiffRow, Symbol, SymbolView};

verus! {

/// Filtering `seq![e] + t` keeps `e` in front when it qualifies.
proof fn lemma_filter_prepend<A>(e: A, t: Seq<A>, pred: spec_fn(A) -> bool)
    ensures
        (seq![e] + t).filter(pred) == if pred(e) {
            seq![e] + t.filter(pred)
        } else {
            t.filter(pred)
        },
{
    let s = seq![e] + t;
    assert(s[0] == e);
    assert(s.drop_first() =~= t);
    lemma_filter_first(s, pred);
}

/// The rows of `l` and then `r`, each group of equal change in that order.
spec fn merged_groups(l: Seq<DiffRow>, r: Seq<DiffRow>, tail: Seq<DiffRow>, v: i64) -> Seq<DiffRow> {
    with_diff(l, v) + with_diff(r, v) + with_diff(tail, v)
}

/// Merges two lists sorted by change; of rows with equal change, those of
/// `left` come first, each list keeping its order.
fn merge_by_diff(left: Vec<DiffResult>, right: Vec<DiffResult>) -> (m: Vec<DiffResult>)
    requires
        ascending_by_diff(diff_views(left@)),
        ascending_by_diff(diff_views(right@)),
    ensures
        ascending_by_diff(diff_views(m@)),
        forall|v: i64| #[trigger] with_diff(diff_views(m@), v)
            == with_diff(diff_views(left@), v) + with_diff(diff_views(right@), v),
{
    let ghost l0 = diff_views(left@);
    let ghost r0 = diff_views(right@);
    let mut l = left;
    let mut r = right;
    // The merged rows taken so far, last row first: the end of the result.
    let mut acc: Vec<DiffResult> = Vec::new();
    let ghost mut tail: Seq<DiffRow> = Seq::empty();
    proof {
        assert(diff_views(acc@) =~= tail.reverse());
        assert forall|v: i64| #[trigger] with_diff(l0, v) + with_diff(r0, v) == merged_groups(diff_views(l@), diff_views(r@), tail, v) by {
            reveal(Seq::filter);
            assert(with_diff(tail, v) =~= Seq::<DiffRow>::empty());
            assert(with_diff(l0, v) + with_diff(r0, v) + Seq::<DiffRow>::empty() =~= with_diff(l0, v) + with_diff(r0, v));
        }
    }
    while l.len() > 0 || r.len() > 0
        invariant
            ascending_by_diff(diff_views(l@)),
            ascending_by_diff(diff_views(r@)),
            ascending_by_diff(tail),
            diff_views(acc@) == tail.reverse(),
            forall|i: int, j: int| 0 <= i < l.len() && 0 <= j < tail.len() ==> (#[trigger] diff_views(l@)[i]).diff <= (#[trigger] tail[j]).diff,
            forall|i: int, j: int| 0 <= i < r.len() && 0 <= j < tail.len() ==> (#[trigger] diff_views(r@)[i]).diff <= (#[trigger] tail[j]).diff,
            forall|v: i64| #[trigger] with_diff(l0, v) + with_diff(r0, v) == merged_groups(diff_views(l@), diff_views(r@), tail, v),
        decreases l.len() + r.len(),
    {
        let ghost lv = diff_views(l@);
        let ghost rv = diff_views(r@);
        let take_right = if r.len() == 0 {
            false
        } else if l.len() == 0 {
            true
        } else {
            l[l.len() - 1].diff <= r[r.len() - 1].diff
        };
        let e = if take_right {
            r.pop().unwrap()
        } else {
            l.pop().unwrap()
        };
        let ghost x = e@;
        let ghost old_tail = tail;
        proof {
            tail = seq![x] + old_tail;
        }
        let ghost prev_acc = acc@;
        acc.push(e);
        proof {
            let nl = diff_views(l@);
            let nr = diff_views(r@);
            assert(diff_views(acc@) =~= diff_views(prev_acc).push(x));
            assert(diff_views(prev_acc) == old_tail.reverse());
            assert(tail.reverse() =~= old_tail.reverse().push(x));
            assert(diff_views(acc@) =~= tail.reverse());
            if take_right {
                assert(rv[rv.len() - 1] == x);
                assert(nr =~= rv.drop_last());
                assert(nl == lv);
                assert forall|i: int| 0 <= i < nr.len() implies (#[trigger] nr[i]).diff <= x.diff by {
                    assert(nr[i] == rv[i]);
                }
                assert forall|i: int| 0 <= i < nl.len() implies (#[trigger] nl[i]).diff <= x.diff by {
                    assert(lv[i].diff <= lv[lv.len() - 1].diff);
                }
            } else {
                assert(lv[lv.len() - 1] == x);
                assert(nl =~= lv.drop_last());
                assert(nr == rv);
                assert forall|i: int| 0 <= i < nl.len() implies (#[trigger] nl[i]).diff <= x.diff by {
                    assert(nl[i] == lv[i]);
                }
                assert forall|i: int| 0 <= i < nr.len() implies (#[trigger] nr[i]).diff < x.diff by {
                    assert(rv[i].diff <= rv[rv.len() - 1].diff);
                }
            }
            assert forall|i: int, j: int| 0 <= i < j < tail.len() implies (#[trigger] tail[i]).diff <= (#[trigger] tail[j]).diff by {
                if i == 0 {
                    assert(tail[j] == old_tail[j - 1]);
                    if take_right {
                        assert(rv[rv.len() - 1].diff <= old_tail[j - 1].diff);
                    } else {
                        assert(lv[lv.len() - 1].diff <= old_tail[j - 1].diff);
                    }
                } else {
                    assert(tail[i] == old_tail[i - 1]);
                    assert(tail[j] == old_tail[j - 1]);
                }
            }
            assert forall|i: int, j: int| 0 <= i < nl.len() && 0 <= j < tail.len() implies (#[trigger] nl[i]).diff <= (#[trigger] tail[j]).diff by {
                if j > 0 {
                    assert(tail[j] == old_tail[j - 1]);
                    if take_right {
                        assert(nl[i] == lv[i]);
                    } else {
                        assert(nl[i] == lv[i]);
                    }
                }
            }
            assert forall|i: int, j: int| 0 <= i < nr.len() && 0 <= j < tail.len() implies (#[trigger] nr[i]).diff <= (#[trigger] tail[j]).diff by {
                if j > 0 {
                    assert(tail[j] == old_tail[j - 1]);
                    assert(nr[i] == rv[i]);
                }
            }
            assert forall|v: i64| #[trigger] with_diff(l0, v) + with_diff(r0, v) == merged_groups(nl, nr, tail, v) by {
                let pred = |d: DiffRow| d.diff == v;
                assert(with_diff(l0, v) + with_diff(r0, v) == merged_groups(lv, rv, old_tail, v));
                lemma_filter_prepend(x, old_tail, pred);
                if take_right {
                    assert(rv =~= nr.push(x));
                    nr.lemma_filter_push(x, pred);
                    if x.diff == v {
                        assert(merged_groups(nl, nr, tail, v) =~= merged_groups(lv, rv, old_tail, v));
                    } else {
                        assert(merged_groups(nl, nr, tail, v) =~= merged_groups(lv, rv, old_tail, v));
                    }
                } else {
                    assert(lv =~= nl.push(x));
                    nl.lemma_filter_push(x, pred);
                    if x.diff == v {
                        assert forall|i: int| 0 <= i < nr.len() implies !pred(#[trigger] nr[i]) by {}
                        crate::elf::symbol_diff::lemma_filter_none(nr, pred);
                        assert(with_diff(nr, v) =~= Seq::<DiffRow>::empty());
                        assert(merged_groups(nl, nr, tail, v) =~= merged_groups(lv, rv, old_tail, v));
                    } else {
                        assert(merged_groups(nl, nr, tail, v) =~= merged_groups(lv, rv, old_tail, v));
                    }
                }
            }
        }
    }
    let ghost fin = tail;
    proof {
        assert forall|v: i64| #[trigger] with_diff(fin, v) == with_diff(l0, v) + with_diff(r0, v) by {
            reveal(Seq::filter);
            assert(diff_views(l@) =~= Seq::<DiffRow>::empty());
            assert(diff_views(r@) =~= Seq::<DiffRow>::empty());
            assert(with_diff(diff_views(l@), v) =~= Seq::<DiffRow>::empty());
            assert(with_diff(diff_views(r@), v) =~= Seq::<DiffRow>::empty());
            assert(merged_groups(diff_views(l@), diff_views(r@), fin, v) =~= with_diff(fin, v));
        }
    }
    // Reverse `acc` into the result.
    let mut m: Vec<DiffResult> = Vec::new();
    proof {
        assert(diff_views(m@) + diff_views(acc@).reverse() =~= fin);
    }
    while acc.len() > 0
        invariant
            diff_views(m@) + diff_views(acc@).reverse() == fin,
        decreases acc.len(),
    {
        let ghost av = diff_views(acc@);
        let ghost mv = diff_views(m@);
        let e = acc.pop().unwrap();
        proof {
            assert(av[av.len() - 1] == e@);
            assert(diff_views(acc@) =~= av.drop_last());
        }
        m.push(e);
        proof {
            assert(av.reverse() =~= seq![e@] + av.drop_last().reverse());
            assert(diff_views(m@) =~= mv.push(e@));
            assert(diff_views(m@) + diff_views(acc@).reverse() =~= mv + av.reverse());
        }
    }
    proof {
        assert(diff_views(acc@).reverse() =~= Seq::<DiffRow>::empty());
        assert(diff_views(m@) =~= fin);
    }
    m
}

/// The rows sorted by ascending change, rows of equal change keeping their
/// order (a merge sort).
pub fn sort_by_diff(rows: Vec<DiffResult>) -> (sorted: Vec<DiffResult>)
    ensures
        stably_sorted_by_diff(diff_views(sorted@), diff_views(rows@)),
    decreases rows.len(),
{
    if rows.len() <= 1 {
        return rows;
    }
    let ghost all = diff_views(rows@);
    let mut left = rows;
    let mid = left.len() / 2;
    let right = left.split_off(mid);
    let ghost lv = diff_views(left@);
    let ghost rv = diff_views(right@);
    proof {
        assert(all =~= lv + rv);
    }
    let l = sort_by_diff(left);
    let r = sort_by_diff(right);
    let m = merge_by_diff(l, r);
    proof {
        assert forall|v: i64| #[trigger] with_diff(diff_views(m@), v) == with_diff(all, v) by {
            Seq::filter_distributes_over_add(lv, rv, |d: DiffRow| d.diff == v);
        }
    }
    m
}

/// The symbols of `l` and then `r`, each group of equal size in that order.
spec fn merged_size_groups(l: Seq<SymbolView>, r: Seq<SymbolView>, tail: Seq<SymbolView>, v: usize) -> Seq<SymbolView> {
    with_size(l, v) + with_size(r, v) + with_size(tail, v)
}

/// Merges two lists sorted by descending size; of symbols with equal size,
/// those of `left` come first, each list keeping its order.
fn merge_by_size(left: Vec<Symbol>, right: Vec<Symbol>) -> (m: Vec<Symbol>)
    requires
        descending_by_size(symbol_views(left@)),
        descending_by_size(symbol_views(right@)),
    ensures
        descending_by_size(symbol_views(m@)),
        forall|v: usize| #[trigger] with_size(symbol_views(m@), v)
            == with_size(symbol_views(left@), v) + with_size(symbol_views(right@), v),
{
    let ghost l0 = symbol_views(left@);
    let ghost r0 = symbol_views(right@);
    let mut l = left;
    let mut r = right;
    // The merged symbols taken so far, last first: the end of the result.
    let mut acc: Vec<Symbol> = Vec::new();
    let ghost mut tail: Seq<SymbolView> = Seq::empty();
    proof {
        assert(symbol_views(acc@) =~= tail.reverse());
        assert forall|v: usize| #[trigger] with_size(l0, v) + with_size(r0, v) == merged_size_groups(symbol_views(l@), symbol_views(r@), tail, v) by {
            reveal(Seq::filter);
            assert(with_size(tail, v) =~= Seq::<SymbolView>::empty());
            assert(with_size(l0, v) + with_size(r0, v) + Seq::<SymbolView>::empty() =~= with_size(l0, v) + with_size(r0, v));
        }
    }
    while l.len() > 0 || r.len() > 0
        invariant
            descending_by_size(symbol_views(l@)),
            descending_by_size(symbol_views(r@)),
            descending_by_size(tail),
            symbol_views(acc@) == tail.reverse(),
            forall|i: int, j: int| 0 <= i < l.len() && 0 <= j < tail.len() ==> (#[trigger] symbol_views(l@)[i]).size >= (#[trigger] tail[j]).size,
            forall|i: int, j: int| 0 <= i < r.len() && 0 <= j < tail.len() ==> (#[trigger] symbol_views(r@)[i]).size >= (#[trigger] tail[j]).size,
            forall|v: usize| #[trigger] with_size(l0, v) + with_size(r0, v) == merged_size_groups(symbol_views(l@), symbol_views(r@), tail, v),
        decreases l.len() + r.len(),
    {
        let ghost lv = symbol_views(l@);
        let ghost rv = symbol_views(r@);
        let take_right = if r.len() == 0 {
            false
        } else if l.len() == 0 {
            true
        } else {
            r[r.len() - 1].size <= l[l.len() - 1].size
        };
        let e = if take_right {
            r.pop().unwrap()
        } else {
            l.pop().unwrap()
        };
        let ghost x = e@;
        let ghost old_tail = tail;
        proof {
            tail = seq![x] + old_tail;
        }
        let ghost prev_acc = acc@;
        acc.push(e);
        proof {
            let nl = symbol_views(l@);
            let nr = symbol_views(r@);
            assert(symbol_views(acc@) =~= symbol_views(prev_acc).push(x));
            assert(symbol_views(prev_acc) == old_tail.reverse());
            assert(tail.reverse() =~= old_tail.reverse().push(x));
            assert(symbol_views(acc@) =~= tail.reverse());
            if take_right {
                assert(rv[rv.len() - 1] == x);
                assert(nr =~= rv.drop_last());
                assert(nl == lv);
                assert forall|i: int| 0 <= i < nr.len() implies (#[trigger] nr[i]).size >= x.size by {
                    assert(nr[i] == rv[i]);
                }
                assert forall|i: int| 0 <= i < nl.len() implies (#[trigger] nl[i]).size >= x.size by {
                    assert(lv[i].size >= lv[lv.len() - 1].size);
                }
            } else {
                assert(lv[lv.len() - 1] == x);
                assert(nl =~= lv.drop_last());
                assert(nr == rv);
                assert forall|i: int| 0 <= i < nl.len() implies (#[trigger] nl[i]).size >= x.size by {
                    assert(nl[i] == lv[i]);
                }
                assert forall|i: int| 0 <= i < nr.len() implies (#[trigger] nr[i]).size > x.size by {
                    assert(rv[i].size >= rv[rv.len() - 1].size);
                }
            }
            assert forall|i: int, j: int| 0 <= i < j < tail.len() implies (#[trigger] tail[i]).size >= (#[trigger] tail[j]).size by {
                if i == 0 {
                    assert(tail[j] == old_tail[j - 1]);
                    if take_right {
                        assert(rv[rv.len() - 1].size >= old_tail[j - 1].size);
                    } else {
                        assert(lv[lv.len() - 1].size >= old_tail[j - 1].size);
                    }
                } else {
                    assert(tail[i] == old_tail[i - 1]);
                    assert(tail[j] == old_tail[j - 1]);
                }
            }
            assert forall|i: int, j: int| 0 <= i < nl.len() && 0 <= j < tail.len() implies (#[trigger] nl[i]).size >= (#[trigger] tail[j]).size by {
                if j > 0 {
                    assert(tail[j] == old_tail[j - 1]);
                    if take_right {
                        assert(nl[i] == lv[i]);
                    } else {
                        assert(nl[i] == lv[i]);
                    }
                }
            }
            assert forall|i: int, j: int| 0 <= i < nr.len() && 0 <= j < tail.len() implies (#[trigger] nr[i]).size >= (#[trigger] tail[j]).size by {
                if j > 0 {
                    assert(tail[j] == old_tail[j - 1]);
                    assert(nr[i] == rv[i]);
                }
            }
            assert forall|v: usize| #[trigger] with_size(l0, v) + with_size(r0, v) == merged_size_groups(nl, nr, tail, v) by {
                let pred = |d: SymbolView| d.size == v;
                assert(with_size(l0, v) + with_size(r0, v) == merged_size_groups(lv, rv, old_tail, v));
                lemma_filter_prepend(x, old_tail, pred);
                if take_right {
                    assert(rv =~= nr.push(x));
                    nr.lemma_filter_push(x, pred);
                    if x.size == v {
                        assert(merged_size_groups(nl, nr, tail, v) =~= merged_size_groups(lv, rv, old_tail, v));
                    } else {
                        assert(merged_size_groups(nl, nr, tail, v) =~= merged_size_groups(lv, rv, old_tail, v));
                    }
                } else {
                    assert(lv =~= nl.push(x));
                    nl.lemma_filter_push(x, pred);
                    if x.size == v {
                        assert forall|i: int| 0 <= i < nr.len() implies !pred(#[trigger] nr[i]) by {}
                        crate::elf::symbol_diff::lemma_filter_none(nr, pred);
                        assert(with_size(nr, v) =~= Seq::<SymbolView>::empty());
                        assert(merged_size_groups(nl, nr, tail, v) =~= merged_size_groups(lv, rv, old_tail, v));
                    } else {
                        assert(merged_size_groups(nl, nr, tail, v) =~= merged_size_groups(lv, rv, old_tail, v));
                    }
                }
            }
        }
    }
    let ghost fin = tail;
    proof {
        assert forall|v: usize| #[trigger] with_size(fin, v) == with_size(l0, v) + with_size(r0, v) by {
            reveal(Seq::filter);
            assert(symbol_views(l@) =~= Seq::<SymbolView>::empty());
            assert(symbol_views(r@) =~= Seq::<SymbolView>::empty());
            assert(with_size(symbol_views(l@), v) =~= Seq::<SymbolView>::empty());
            assert(with_size(symbol_views(r@), v) =~= Seq::<SymbolView>::empty());
            assert(merged_size_groups(symbol_views(l@), symbol_views(r@), fin, v) =~= with_size(fin, v));
        }
    }
    // Reverse `acc` into the result.
    let mut m: Vec<Symbol> = Vec::new();
    proof {
        assert(symbol_views(m@) + symbol_views(acc@).reverse() =~= fin);
    }
    while acc.len() > 0
        invariant
            symbol_views(m@) + symbol_views(acc@).reverse() == fin,
        decreases acc.len(),
    {
        let ghost av = symbol_views(acc@);
        let ghost mv = symbol_views(m@);
        let e = acc.pop().unwrap();
        proof {
            assert(av[av.len() - 1] == e@);
            assert(symbol_views(acc@) =~= av.drop_last());
        }
        m.push(e);
        proof {
            assert(av.reverse() =~= seq![e@] + av.drop_last().reverse());
            assert(symbol_views(m@) =~= mv.push(e@));
            assert(symbol_views(m@) + symbol_views(acc@).reverse() =~= mv + av.reverse());
        }
    }
    proof {
        assert(symbol_views(acc@).reverse() =~= Seq::<SymbolView>::empty());
        assert(symbol_views(m@) =~= fin);
    }
    m
}

/// The symbols sorted by descending size, symbols of equal size keeping
/// their order (a merge sort).
pub fn merge_sort_by_size(rows: Vec<Symbol>) -> (sorted: Vec<Symbol>)
    ensures
        stably_sorted_by_size(symbol_views(sorted@), symbol_views(rows@)),
    decreases rows.len(),
{
    if rows.len() <= 1 {
        return rows;
    }
    let ghost all = symbol_views(rows@);
    let mut left = rows;
    let mid = left.len() / 2;
    let right = left.split_off(mid);
    let ghost lv = symbol_views(left@);
    let ghost rv = symbol_views(right@);
    proof {
        assert(all =~= lv + rv);
    }
    let l = merge_sort_by_size(left);
    let r = merge_sort_by_size(right);
    let m = merge_by_size(l, r);
    proof {
        assert forall|v: usize| #[trigger] with_size(symbol_views(m@), v) == with_size(all, v) by {
            Seq::filter_distributes_over_add(lv, rv, |d: SymbolView| d.size == v);
        }
    }
    m
}

/// Merges two strictly ascending lists of names into the strictly ascending
/// list of the names of either.
fn merge_names(left: Vec<Vec<char>>, right: Vec<Vec<char>>) -> (m: Vec<Vec<char>>)
    requires
        strictly_ascending(texts(left@)),
        strictly_ascending(texts(right@)),
    ensures
        strictly_ascending(texts(m@)),
        forall|k: Seq<char>| #[trigger] texts(m@).contains(k) <==> (texts(left@).contains(k) || texts(right@).contains(k)),
{
    let ghost l0 = texts(left@);
    let ghost r0 = texts(right@);
    let mut l = left;
    let mut r = right;
    // The merged names taken so far, last name first: the end of the result.
    let mut acc: Vec<Vec<char>> = Vec::new();
    let ghost mut tail: Seq<Seq<char>> = Seq::empty();
    proof {
        assert(texts(acc@) =~= tail.reverse());
    }
    while l.len() > 0 || r.len() > 0
        invariant
            strictly_ascending(texts(l@)),
            strictly_ascending(texts(r@)),
            strictly_ascending(tail),
            texts(acc@) == tail.reverse(),
            forall|i: int, j: int| 0 <= i < l.len() && 0 <= j < tail.len() ==> text_lt(#[trigger] texts(l@)[i], #[trigger] tail[j]),
            forall|i: int, j: int| 0 <= i < r.len() && 0 <= j < tail.len() ==> text_lt(#[trigger] texts(r@)[i], #[trigger] tail[j]),
            forall|k: Seq<char>| (#[trigger] l0.contains(k) || r0.contains(k)) <==> (texts(l@).contains(k) || texts(r@).contains(k) || tail.contains(k)),
        decreases l.len() + r.len(),
    {
        let ghost lv = texts(l@);
        let ghost rv = texts(r@);
        // 0: take the last of `left`; 1: of `right`; 2: the same name ends both.
        let choice: u8 = if r.len() == 0 {
            0
        } else if l.len() == 0 {
            1
        } else if chars_equal(&l[l.len() - 1], &r[r.len() - 1]) {
            2
        } else if text_less(&l[l.len() - 1], &r[r.len() - 1]) {
            1
        } else {
            0
        };
        proof {
            if l.len() > 0 {
                assert(lv[lv.len() - 1] == l@[l.len() - 1]@);
            }
            if r.len() > 0 {
                assert(rv[rv.len() - 1] == r@[r.len() - 1]@);
            }
            if l.len() > 0 && r.len() > 0 && choice == 0 {
                lemma_text_lt_total(lv[lv.len() - 1], rv[rv.len() - 1]);
            }
        }
        let e = if choice == 0 {
            l.pop().unwrap()
        } else if choice == 1 {
            r.pop().unwrap()
        } else {
            let _ = r.pop();
            l.pop().unwrap()
        };
        let ghost x = e@;
        let ghost old_tail = tail;
        proof {
            tail = seq![x] + old_tail;
        }
        let ghost prev_acc = acc@;
        acc.push(e);
        proof {
            let nl = texts(l@);
            let nr = texts(r@);
            assert(texts(acc@) =~= texts(prev_acc).push(x));
            assert(tail.reverse() =~= old_tail.reverse().push(x));
            if choice == 0 || choice == 2 {
                assert(lv[lv.len() - 1] == x);
                assert(nl =~= lv.drop_last());
            } else {
                assert(nl == lv);
            }
            if choice == 1 {
                assert(rv[rv.len() - 1] == x);
                assert(nr =~= rv.drop_last());
            } else if choice == 2 {
                assert(nr =~= rv.drop_last());
                assert(rv[rv.len() - 1] == x);
            } else {
                assert(nr == rv);
            }
            assert forall|i: int| 0 <= i < nl.len() implies text_lt(#[trigger] nl[i], x) by {
                assert(nl[i] == lv[i]);
                if choice == 1 {
                    if i < lv.len() - 1 {
                        lemma_text_lt_transitive(lv[i], lv[lv.len() - 1], x);
                    }
                }
            }
            assert forall|i: int| 0 <= i < nr.len() implies text_lt(#[trigger] nr[i], x) by {
                assert(nr[i] == rv[i]);
                if choice == 0 {
                    if i < rv.len() - 1 {
                        lemma_text_lt_transitive(rv[i], rv[rv.len() - 1], x);
                    }
                }
            }
            assert forall|i: int, j: int| 0 <= i < j < tail.len() implies text_lt(#[trigger] tail[i], #[trigger] tail[j]) by {
                if i == 0 {
                    assert(tail[j] == old_tail[j - 1]);
                    if choice == 1 {
                        assert(text_lt(rv[rv.len() - 1], old_tail[j - 1]));
                    } else {
                        assert(text_lt(lv[lv.len() - 1], old_tail[j - 1]));
                    }
                } else {
                    assert(tail[i] == old_tail[i - 1]);
                    assert(tail[j] == old_tail[j - 1]);
                }
            }
            assert forall|i: int, j: int| 0 <= i < nl.len() && 0 <= j < tail.len() implies text_lt(#[trigger] nl[i], #[trigger] tail[j]) by {
                if j > 0 {
                    assert(tail[j] == old_tail[j - 1]);
                    assert(nl[i] == lv[i]);
                }
            }
            assert forall|i: int, j: int| 0 <= i < nr.len() && 0 <= j < tail.len() implies text_lt(#[trigger] nr[i], #[trigger] tail[j]) by {
                if j > 0 {
                    assert(tail[j] == old_tail[j - 1]);
                    assert(nr[i] == rv[i]);
                }
            }
            assert forall|k: Seq<char>| (#[trigger] l0.contains(k) || r0.contains(k)) <==> (nl.contains(k) || nr.contains(k) || tail.contains(k)) by {
                assert((l0.contains(k) || r0.contains(k)) <==> (lv.contains(k) || rv.contains(k) || old_tail.contains(k)));
                if lv.contains(k) {
                    let a = choose|a: int| 0 <= a < lv.len() && lv[a] == k;
                    if a < nl.len() {
                        assert(nl[a] == k);
                    } else {
                        assert(tail[0] == k);
                    }
                }
                if rv.contains(k) {
                    let a = choose|a: int| 0 <= a < rv.len() && rv[a] == k;
                    if a < nr.len() {
                        assert(nr[a] == k);
                    } else {
                        assert(tail[0] == k);
                    }
                }
                if old_tail.contains(k) {
                    let a = choose|a: int| 0 <= a < old_tail.len() && old_tail[a] == k;
                    assert(tail[a + 1] == k);
                }
                if nl.contains(k) {
                    let a = choose|a: int| 0 <= a < nl.len() && nl[a] == k;
                    assert(lv[a] == k);
                }
                if nr.contains(k) {
                    let a = choose|a: int| 0 <= a < nr.len() && nr[a] == k;
                    assert(rv[a] == k);
                }
                if tail.contains(k) {
                    let a = choose|a: int| 0 <= a < tail.len() && tail[a] == k;
                    if a == 0 {
                        if choice == 1 {
                            assert(rv[rv.len() - 1] == k);
                        } else {
                            assert(lv[lv.len() - 1] == k);
                        }
                    } else {
                        assert(old_tail[a - 1] == k);
                    }
                }
            }
        }
    }
    let ghost fin = tail;
    proof {
        assert(texts(l@) =~= Seq::<Seq<char>>::empty());
        assert(texts(r@) =~= Seq::<Seq<char>>::empty());
    }
    let mut m: Vec<Vec<char>> = Vec::new();
    proof {
        assert(texts(m@) + texts(acc@).reverse() =~= fin);
    }
    while acc.len() > 0
        invariant
            texts(m@) + texts(acc@).reverse() == fin,
        decreases acc.len(),
    {
        let ghost av = texts(acc@);
        let ghost mv = texts(m@);
        let e = acc.pop().unwrap();
        proof {
            assert(av[av.len() - 1] == e@);
            assert(texts(acc@) =~= av.drop_last());
        }
        m.push(e);
        proof {
            assert(av.reverse() =~= seq![e@] + av.drop_last().reverse());
            assert(texts(m@) =~= mv.push(e@));
            assert(texts(m@) + texts(acc@).reverse() =~= mv + av.reverse());
        }
    }
    proof {
        assert(texts(acc@).reverse() =~= Seq::<Seq<char>>::empty());
        assert(texts(m@) =~= fin);
    }
    m
}

/// The names of `names` in strictly ascending order, each once (a merge sort).
pub fn sorted_unique_names(names: Vec<Vec<char>>) -> (keys: Vec<Vec<char>>)
    ensures
        strictly_ascending(texts(keys@)),
        forall|k: Seq<char>| #[trigger] texts(keys@).contains(k) <==> texts(names@).contains(k),
    decreases names.len(),
{
    if names.len() <= 1 {
        return names;
    }
    let ghost all = texts(names@);
    let mut left = names;
    let mid = left.len() / 2;
    let right = left.split_off(mid);
    let ghost lv = texts(left@);
    let ghost rv = texts(right@);
    proof {
        assert(all =~= lv + rv);
    }
    let l = sorted_unique_names(left);
    let r = sorted_unique_names(right);
    let m = merge_names(l, r);
    proof {
        assert forall|k: Seq<char>| #[trigger] texts(m@).contains(k) <==> all.contains(k) by {
            if all.contains(k) {
                let a = choose|a: int| 0 <= a < all.len() && all[a] == k;
                if a < lv.len() {
                    assert(lv[a] == k);
                } else {
                    assert(rv[a - lv.len()] == k);
                }
            }
            if lv.contains(k) {
                let a = choose|a: int| 0 <= a < lv.len() && lv[a] == k;
                assert(all[a] == k);
            }
            if rv.contains(k) {
                let a = choose|a: int| 0 <= a < rv.len() && rv[a] == k;
                assert(all[lv.len() + a] == k);
            }
        }
    }
    m
}

} // verus!
