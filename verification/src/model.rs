//! Mathematical model of the fusion.
//!
//! The accumulator is modelled as a sequence of `(item, score)` entries in
//! first-encounter order with no item repeated; the fused result as the
//! stable descending sort of that sequence under the score key. The
//! executable code in [`crate::state`] is proved to compute exactly these
//! functions.

use vstd::prelude::*;
use vstd::multiset::Multiset;
use vstd::std_specs::cmp::PartialEqSpec;

use crate::score::{add_spec, mul_spec, one_minus_spec, sort_key, ONE_BITS};

verus! {

/// The item type's `==` agrees with logical equality: what the
/// accumulator needs so that two occurrences of the same item across
/// lists are recognised as one entry.
pub open spec fn eq_reflects<I: PartialEq>() -> bool {
    &&& <I as PartialEqSpec>::obeys_eq_spec()
    &&& forall|a: I, b: I| #[trigger] a.eq_spec(&b) <==> a == b
}

/// Weight assigned to a zero-based rank: `weight(0)` is one minus the
/// persistence, and each deeper rank carries the previous weight times
/// the persistence.
pub open spec fn schedule_weight(p: u64, r: nat) -> u64
    decreases r,
{
    if r == 0 {
        one_minus_spec(p)
    } else {
        mul_spec(schedule_weight(p, (r - 1) as nat), p)
    }
}

/// Contribution of one observation: the rank's weight, scaled by the run
/// weight when one is supplied.
pub open spec fn contribution(p: u64, r: nat, rw: Option<u64>) -> u64 {
    match rw {
        None => schedule_weight(p, r),
        Some(w) => mul_spec(schedule_weight(p, r), w),
    }
}

/// Index of the first entry holding `item`, or `-1` when there is none.
pub open spec fn find_index<I>(s: Seq<(I, u64)>, item: I) -> int
    decreases s.len(),
{
    if s.len() == 0 {
        -1
    } else if s[0].0 == item {
        0
    } else {
        let rest = find_index(s.drop_first(), item);
        if rest < 0 {
            -1
        } else {
            rest + 1
        }
    }
}

pub proof fn lemma_find_index_props<I>(s: Seq<(I, u64)>, item: I)
    ensures
        find_index(s, item) < 0 ==> forall|j: int| 0 <= j < s.len() ==> s[j].0 != item,
        find_index(s, item) >= 0 ==> {
            &&& find_index(s, item) < s.len()
            &&& s[find_index(s, item)].0 == item
        },
    decreases s.len(),
{
    if s.len() > 0 && !(s[0].0 == item) {
        lemma_find_index_props(s.drop_first(), item);
        if find_index(s, item) < 0 {
            assert forall|j: int| 0 <= j < s.len() implies s[j].0 != item by {
                if j > 0 {
                    assert(s.drop_first()[j - 1] == s[j]);
                }
            }
        } else {
            assert(s[find_index(s, item)] == s.drop_first()[find_index(s, item) - 1]);
        }
    }
}

/// A scan that saw no match before `i` and a match at `i` (or none at
/// all) pins down `find_index`.
pub proof fn lemma_find_index_from_scan<I>(s: Seq<(I, u64)>, item: I, i: int)
    requires
        0 <= i <= s.len(),
        forall|j: int| 0 <= j < i ==> s[j].0 != item,
        i < s.len() ==> s[i].0 == item,
    ensures
        i < s.len() ==> find_index(s, item) == i,
        i == s.len() ==> find_index(s, item) == -1,
    decreases s.len(),
{
    if s.len() > 0 {
        if i == 0 {
        } else {
            assert(s[0].0 != item);
            assert forall|j: int| 0 <= j < i - 1 implies s.drop_first()[j].0 != item by {
                assert(s.drop_first()[j] == s[j + 1]);
            }
            if i < s.len() {
                assert(s.drop_first()[i - 1] == s[i]);
            }
            lemma_find_index_from_scan(s.drop_first(), item, i - 1);
        }
    }
}

/// One observation folded into the accumulator: the contribution is added
/// to the entry already holding the item, or a new entry is appended.
pub open spec fn acc_update<I>(s: Seq<(I, u64)>, item: I, c: u64) -> Seq<(I, u64)> {
    let i = find_index(s, item);
    if i >= 0 {
        s.update(i, (s[i].0, add_spec(s[i].1, c)))
    } else {
        s.push((item, c))
    }
}

/// A whole list folded into the accumulator, its first item at rank
/// `start`, all contributions scaled by the list's run weight.
pub open spec fn acc_list<I>(s: Seq<(I, u64)>, l: Seq<I>, p: u64, start: nat, rw: Option<u64>) -> Seq<(I, u64)>
    decreases l.len(),
{
    if l.len() == 0 {
        s
    } else {
        acc_list(acc_update(s, l[0], contribution(p, start, rw)), l.drop_first(), p, start + 1, rw)
    }
}

/// All lists folded into the accumulator, each paired with its run weight.
pub open spec fn acc_lists<I>(s: Seq<(I, u64)>, ls: Seq<Seq<I>>, ws: Seq<Option<u64>>, p: u64) -> Seq<(I, u64)>
    decreases ls.len(),
{
    if ls.len() == 0 {
        s
    } else {
        acc_lists(acc_list(s, ls[0], p, 0, ws[0]), ls.drop_first(), ws.drop_first(), p)
    }
}

/// Stable insertion of an entry into a sequence ranked by descending
/// score: the entry goes after every entry whose score key is at least
/// its own.
pub open spec fn insert_desc<I>(s: Seq<(I, u64)>, x: (I, u64)) -> Seq<(I, u64)>
    decreases s.len(),
{
    if s.len() == 0 {
        seq![x]
    } else if sort_key(s[0].1) < sort_key(x.1) {
        seq![x] + s
    } else {
        seq![s[0]] + insert_desc(s.drop_first(), x)
    }
}

/// Stable descending sort by score key: entries are inserted left to
/// right, so entries with equal scores keep their accumulator order.
pub open spec fn sort_desc<I>(s: Seq<(I, u64)>) -> Seq<(I, u64)>
    decreases s.len(),
{
    if s.len() == 0 {
        Seq::empty()
    } else {
        insert_desc(sort_desc(s.drop_last()), s.last())
    }
}

/// Run weights all absent.
pub open spec fn none_weights(n: nat) -> Seq<Option<u64>> {
    Seq::new(n, |i: int| None::<u64>)
}

/// The views of a vector of ranked lists.
pub open spec fn lists_view<I>(ls: Seq<Vec<I>>) -> Seq<Seq<I>> {
    ls.map_values(|l: Vec<I>| l@)
}

/// Accumulated entries for the given lists and run weights, starting from
/// an empty accumulator.
pub open spec fn fused_entries<I>(ls: Seq<Seq<I>>, ws: Seq<Option<u64>>, p: u64) -> Seq<(I, u64)> {
    acc_lists(Seq::empty(), ls, ws, p)
}

/// The fused ranking for the given lists and run weights.
pub open spec fn fused_model<I>(ls: Seq<Seq<I>>, ws: Seq<Option<u64>>, p: u64) -> Seq<(I, u64)> {
    sort_desc(fused_entries(ls, ws, p))
}

/// The fused ranking of the unweighted entry points.
pub open spec fn rbc_model<I>(ls: Seq<Seq<I>>, p: u64) -> Seq<(I, u64)> {
    fused_model(ls, none_weights(ls.len()), p)
}

/// The fused ranking of the weighted entry point.
pub open spec fn rbc_weighted_model<I>(ls: Seq<Seq<I>>, rws: Seq<u64>, p: u64) -> Seq<(I, u64)> {
    fused_model(ls, rws.map_values(|w: u64| Some(w)), p)
}

/// The run weights that the weighted entry point accepts: one per list,
/// each finite.
pub open spec fn valid_run_weights(rws: Seq<u64>, n_lists: nat) -> bool {
    &&& rws.len() == n_lists
    &&& forall|k: int| 0 <= k < rws.len() ==> crate::score::is_finite_bits(#[trigger] rws[k])
}

/// Every run weight is exactly one.
pub open spec fn all_unit_weights(ws: Seq<Option<u64>>) -> bool {
    forall|k: int| 0 <= k < ws.len() ==> ws[k] == Some(ONE_BITS)
}

/// Every run weight is absent.
pub open spec fn all_none_weights(ws: Seq<Option<u64>>) -> bool {
    forall|k: int| 0 <= k < ws.len() ==> ws[k] is None
}

/// Every score is at least zero (and not a NaN).
pub open spec fn entries_ge_zero<I>(s: Seq<(I, u64)>) -> bool {
    forall|k: int| 0 <= k < s.len() ==> crate::score::ge_zero_bits((#[trigger] s[k]).1)
}

/// The items of a sequence of entries, scores stripped, order kept.
pub open spec fn items_of<I>(s: Seq<(I, u64)>) -> Seq<I> {
    s.map_values(|e: (I, u64)| e.0)
}

/// The set of items held by the accumulator entries.
pub open spec fn entry_items<I>(s: Seq<(I, u64)>) -> Set<I> {
    Set::new(|x: I| exists|j: int| 0 <= j < s.len() && (#[trigger] s[j]).0 == x)
}

/// No item occurs in two entries.
pub open spec fn distinct_items<I>(s: Seq<(I, u64)>) -> bool {
    forall|i: int, j: int| 0 <= i < j < s.len() ==> (#[trigger] s[i]).0 != (#[trigger] s[j]).0
}

/// The set of items appearing in at least one of the lists.
pub open spec fn list_items<I>(ls: Seq<Seq<I>>) -> Set<I>
    decreases ls.len(),
{
    if ls.len() == 0 {
        Set::empty()
    } else {
        ls[0].to_set() + list_items(ls.drop_first())
    }
}

/// Ranked from highest to lowest score key.
pub open spec fn sorted_desc<I>(s: Seq<(I, u64)>) -> bool {
    forall|i: int, j: int|
        0 <= i < j < s.len() ==> sort_key((#[trigger] s[i]).1) >= sort_key((#[trigger] s[j]).1)
}

/// Prepending one entry to a sequence inserts it into the multiset.
proof fn lemma_prepend_multiset<I>(x: (I, u64), s: Seq<(I, u64)>)
    ensures
        (seq![x] + s).to_multiset() == s.to_multiset().insert(x),
{
    broadcast use vstd::seq_lib::group_to_multiset_ensures;
    broadcast use vstd::multiset::group_multiset_axioms;

    let t = seq![x] + s;
    assert(t.remove(0) =~= s);
    assert(t.remove(0).to_multiset() == t.to_multiset().remove(t[0]));
    assert(t.contains(x));
    assert(t.to_multiset().count(x) > 0);
    assert(t.to_multiset().remove(x).insert(x) =~= t.to_multiset());
}

proof fn lemma_insert_desc_props<I>(s: Seq<(I, u64)>, x: (I, u64))
    ensures
        insert_desc(s, x).len() == s.len() + 1,
        insert_desc(s, x).to_multiset() == s.to_multiset().insert(x),
        sorted_desc(s) ==> sorted_desc(insert_desc(s, x)),
        entry_items(insert_desc(s, x)) == entry_items(s).insert(x.0),
        distinct_items(s) && !entry_items(s).contains(x.0) ==> distinct_items(insert_desc(s, x)),
    decreases s.len(),
{
    broadcast use vstd::seq_lib::group_to_multiset_ensures;
    broadcast use vstd::multiset::group_multiset_axioms;

    let t = insert_desc(s, x);
    if s.len() == 0 {
        assert(seq![x] =~= Seq::<(I, u64)>::empty().push(x));
        assert(Seq::<(I, u64)>::empty().to_multiset() =~= Multiset::<(I, u64)>::empty()) by {
            let e = Seq::<(I, u64)>::empty();
            assert forall|a: (I, u64)| #[trigger] e.to_multiset().count(a)
                == Multiset::<(I, u64)>::empty().count(a) by {
                assert(!e.contains(a));
            }
        }
        assert(s.to_multiset() =~= Multiset::<(I, u64)>::empty());
        assert(entry_items(t) =~= entry_items(s).insert(x.0)) by {
            assert(t[0] == x);
        }
    } else if sort_key(s[0].1) < sort_key(x.1) {
        lemma_prepend_multiset(x, s);
        assert(entry_items(t) =~= entry_items(s).insert(x.0)) by {
            assert forall|y: I| entry_items(t).contains(y)
                implies entry_items(s).insert(x.0).contains(y) by {
                let j = choose|j: int| 0 <= j < t.len() && (#[trigger] t[j]).0 == y;
                if j > 0 {
                    assert(s[j - 1] == t[j]);
                }
            }
            assert forall|y: I| entry_items(s).insert(x.0).contains(y)
                implies entry_items(t).contains(y) by {
                if y == x.0 {
                    assert(t[0].0 == y);
                } else {
                    let j = choose|j: int| 0 <= j < s.len() && (#[trigger] s[j]).0 == y;
                    assert(t[j + 1] == s[j]);
                }
            }
        }
        if sorted_desc(s) {
            assert forall|i: int, j: int| 0 <= i < j < t.len()
                implies sort_key(t[i].1) >= sort_key(t[j].1) by {
                if i > 0 {
                    assert(t[i] == s[i - 1] && t[j] == s[j - 1]);
                } else {
                    assert(t[j] == s[j - 1]);
                    if j > 1 {
                        assert(sort_key(s[0].1) >= sort_key(s[j - 1].1));
                    }
                }
            }
        }
        if distinct_items(s) && !entry_items(s).contains(x.0) {
            assert forall|i: int, j: int| 0 <= i < j < t.len()
                implies t[i].0 != t[j].0 by {
                assert(t[j] == s[j - 1]);
                if i > 0 {
                    assert(t[i] == s[i - 1]);
                } else {
                    assert(entry_items(s).contains(s[j - 1].0));
                }
            }
        }
    } else {
        let rest = insert_desc(s.drop_first(), x);
        lemma_insert_desc_props(s.drop_first(), x);
        lemma_prepend_multiset(s[0], rest);
        lemma_prepend_multiset(s[0], s.drop_first());
        assert(seq![s[0]] + s.drop_first() =~= s);
        assert(t.to_multiset() == s.to_multiset().insert(x)) by {
            assert(t.to_multiset() == rest.to_multiset().insert(s[0]));
            assert(rest.to_multiset() == s.drop_first().to_multiset().insert(x));
            assert(s.to_multiset() == s.drop_first().to_multiset().insert(s[0]));
            assert(s.drop_first().to_multiset().insert(x).insert(s[0])
                =~= s.drop_first().to_multiset().insert(s[0]).insert(x));
        }
        assert(entry_items(t) =~= entry_items(s).insert(x.0)) by {
            assert(entry_items(rest) == entry_items(s.drop_first()).insert(x.0));
            assert forall|y: I| entry_items(t).contains(y)
                implies entry_items(s).insert(x.0).contains(y) by {
                let j = choose|j: int| 0 <= j < t.len() && (#[trigger] t[j]).0 == y;
                if j == 0 {
                    assert(s[0].0 == y);
                } else {
                    assert(rest[j - 1] == t[j]);
                    assert(entry_items(rest).contains(y));
                    if y != x.0 {
                        let k = choose|k: int|
                            0 <= k < s.drop_first().len() && (#[trigger] s.drop_first()[k]).0 == y;
                        assert(s[k + 1] == s.drop_first()[k]);
                    }
                }
            }
            assert forall|y: I| entry_items(s).insert(x.0).contains(y)
                implies entry_items(t).contains(y) by {
                if y == x.0 {
                    assert(entry_items(rest).contains(y));
                    let k = choose|k: int| 0 <= k < rest.len() && (#[trigger] rest[k]).0 == y;
                    assert(t[k + 1] == rest[k]);
                } else {
                    let j = choose|j: int| 0 <= j < s.len() && (#[trigger] s[j]).0 == y;
                    if j == 0 {
                        assert(t[0].0 == y);
                    } else {
                        assert(entry_items(s.drop_first()).contains(y)) by {
                            assert(s.drop_first()[j - 1] == s[j]);
                        }
                        assert(entry_items(rest).contains(y));
                        let k = choose|k: int| 0 <= k < rest.len() && (#[trigger] rest[k]).0 == y;
                        assert(t[k + 1] == rest[k]);
                    }
                }
            }
        }
        if sorted_desc(s) {
            assert(sorted_desc(s.drop_first())) by {
                assert forall|i: int, j: int| 0 <= i < j < s.drop_first().len()
                    implies sort_key(s.drop_first()[i].1) >= sort_key(s.drop_first()[j].1) by {
                    assert(s.drop_first()[i] == s[i + 1] && s.drop_first()[j] == s[j + 1]);
                }
            }
            assert forall|i: int, j: int| 0 <= i < j < t.len()
                implies sort_key(t[i].1) >= sort_key(t[j].1) by {
                assert(t[j] == rest[j - 1]);
                if i > 0 {
                    assert(t[i] == rest[i - 1]);
                } else {
                    assert(rest.to_multiset().count(rest[j - 1]) > 0);
                    assert(rest.contains(rest[j - 1]));
                    if rest[j - 1] == x {
                        assert(sort_key(s[0].1) >= sort_key(x.1));
                    } else {
                        assert(s.drop_first().to_multiset().count(rest[j - 1]) > 0);
                        assert(s.drop_first().contains(rest[j - 1]));
                        let k = choose|k: int|
                            0 <= k < s.drop_first().len() && s.drop_first()[k] == rest[j - 1];
                        assert(s[k + 1] == s.drop_first()[k]);
                        assert(sort_key(s[0].1) >= sort_key(s[k + 1].1));
                    }
                }
            }
        }
        if distinct_items(s) && !entry_items(s).contains(x.0) {
            assert(distinct_items(s.drop_first())) by {
                assert forall|i: int, j: int| 0 <= i < j < s.drop_first().len()
                    implies s.drop_first()[i].0 != s.drop_first()[j].0 by {
                    assert(s.drop_first()[i] == s[i + 1] && s.drop_first()[j] == s[j + 1]);
                }
            }
            assert(!entry_items(s.drop_first()).contains(x.0)) by {
                if entry_items(s.drop_first()).contains(x.0) {
                    let k = choose|k: int|
                        0 <= k < s.drop_first().len() && (#[trigger] s.drop_first()[k]).0 == x.0;
                    assert(s[k + 1] == s.drop_first()[k]);
                    assert(entry_items(s).contains(x.0));
                }
            }
            assert(distinct_items(rest));
            assert forall|i: int, j: int| 0 <= i < j < t.len()
                implies t[i].0 != t[j].0 by {
                assert(t[j] == rest[j - 1]);
                if i > 0 {
                    assert(t[i] == rest[i - 1]);
                } else {
                    assert(entry_items(rest).contains(rest[j - 1].0));
                    if rest[j - 1].0 == x.0 {
                        assert(!entry_items(s).contains(x.0));
                        assert(entry_items(s).contains(s[0].0)) by {
                            assert(s[0].0 == s[0].0);
                        }
                    } else {
                        assert(entry_items(s.drop_first()).contains(rest[j - 1].0));
                        let k = choose|k: int|
                            0 <= k < s.drop_first().len()
                                && (#[trigger] s.drop_first()[k]).0 == rest[j - 1].0;
                        assert(s[k + 1] == s.drop_first()[k]);
                    }
                }
            }
        }
    }
}

proof fn lemma_sort_desc_props<I>(s: Seq<(I, u64)>)
    ensures
        sort_desc(s).len() == s.len(),
        sort_desc(s).to_multiset() == s.to_multiset(),
        sorted_desc(sort_desc(s)),
        entry_items(sort_desc(s)) == entry_items(s),
        distinct_items(s) ==> distinct_items(sort_desc(s)),
    decreases s.len(),
{
    broadcast use vstd::seq_lib::group_to_multiset_ensures;
    broadcast use vstd::multiset::group_multiset_axioms;

    if s.len() == 0 {
        assert(entry_items(sort_desc(s)) =~= entry_items(s));
        assert(sort_desc(s).to_multiset() =~= s.to_multiset()) by {
            assert forall|a: (I, u64)| #[trigger] s.to_multiset().count(a)
                == sort_desc(s).to_multiset().count(a) by {
                assert(!s.contains(a) && !sort_desc(s).contains(a));
            }
        }
    } else {
        let pre = s.drop_last();
        lemma_sort_desc_props(pre);
        lemma_insert_desc_props(sort_desc(pre), s.last());
        assert(s =~= pre.push(s.last()));
        assert(s.to_multiset() == pre.to_multiset().insert(s.last()));
        assert(entry_items(sort_desc(s)) == entry_items(pre).insert(s.last().0));
        assert(entry_items(s) =~= entry_items(pre).insert(s.last().0)) by {
            assert forall|y: I| entry_items(s).contains(y)
                implies entry_items(pre).insert(s.last().0).contains(y) by {
                let j = choose|j: int| 0 <= j < s.len() && (#[trigger] s[j]).0 == y;
                if j < s.len() - 1 {
                    assert(pre[j] == s[j]);
                }
            }
            assert forall|y: I| entry_items(pre).insert(s.last().0).contains(y)
                implies entry_items(s).contains(y) by {
                if y == s.last().0 {
                    assert(s[s.len() - 1].0 == y);
                } else {
                    let j = choose|j: int| 0 <= j < pre.len() && (#[trigger] pre[j]).0 == y;
                    assert(s[j] == pre[j]);
                }
            }
        }
        if distinct_items(s) {
            assert(distinct_items(pre)) by {
                assert forall|i: int, j: int| 0 <= i < j < pre.len()
                    implies pre[i].0 != pre[j].0 by {
                    assert(pre[i] == s[i] && pre[j] == s[j]);
                }
            }
            assert(!entry_items(pre).contains(s.last().0)) by {
                if entry_items(pre).contains(s.last().0) {
                    let k = choose|k: int|
                        0 <= k < pre.len() && (#[trigger] pre[k]).0 == s.last().0;
                    assert(s[k] == pre[k]);
                    assert(s[k].0 == s[s.len() - 1].0);
                }
            }
        }
    }
}

proof fn lemma_acc_update_props<I>(s: Seq<(I, u64)>, item: I, c: u64)
    ensures
        entry_items(acc_update(s, item, c)) == entry_items(s).insert(item),
        distinct_items(s) ==> distinct_items(acc_update(s, item, c)),
{
    lemma_find_index_props(s, item);
    let i = find_index(s, item);
    let u = acc_update(s, item, c);
    if i >= 0 {
        assert(entry_items(u) =~= entry_items(s).insert(item)) by {
            assert forall|y: I| entry_items(u).contains(y)
                implies entry_items(s).insert(item).contains(y) by {
                let j = choose|j: int| 0 <= j < u.len() && (#[trigger] u[j]).0 == y;
                assert(s[j].0 == u[j].0);
            }
            assert forall|y: I| entry_items(s).insert(item).contains(y)
                implies entry_items(u).contains(y) by {
                if y == item {
                    assert(u[i].0 == y);
                } else {
                    let j = choose|j: int| 0 <= j < s.len() && (#[trigger] s[j]).0 == y;
                    assert(u[j].0 == s[j].0);
                }
            }
        }
        if distinct_items(s) {
            assert forall|a: int, b: int| 0 <= a < b < u.len()
                implies u[a].0 != u[b].0 by {
                assert(u[a].0 == s[a].0 && u[b].0 == s[b].0);
            }
        }
    } else {
        assert(entry_items(u) =~= entry_items(s).insert(item)) by {
            assert forall|y: I| entry_items(u).contains(y)
                implies entry_items(s).insert(item).contains(y) by {
                let j = choose|j: int| 0 <= j < u.len() && (#[trigger] u[j]).0 == y;
                if j < s.len() {
                    assert(s[j].0 == y);
                }
            }
            assert forall|y: I| entry_items(s).insert(item).contains(y)
                implies entry_items(u).contains(y) by {
                if y == item {
                    assert(u[s.len() as int].0 == y);
                } else {
                    let j = choose|j: int| 0 <= j < s.len() && (#[trigger] s[j]).0 == y;
                    assert(u[j].0 == s[j].0);
                }
            }
        }
        if distinct_items(s) {
            assert forall|a: int, b: int| 0 <= a < b < u.len()
                implies u[a].0 != u[b].0 by {
                if b < s.len() {
                    assert(u[a].0 == s[a].0 && u[b].0 == s[b].0);
                } else {
                    assert(u[a].0 == s[a].0 && u[b].0 == item);
                }
            }
        }
    }
}

proof fn lemma_acc_list_props<I>(s: Seq<(I, u64)>, l: Seq<I>, p: u64, start: nat, rw: Option<u64>)
    ensures
        entry_items(acc_list(s, l, p, start, rw)) == entry_items(s) + l.to_set(),
        distinct_items(s) ==> distinct_items(acc_list(s, l, p, start, rw)),
    decreases l.len(),
{
    if l.len() == 0 {
        assert(entry_items(s) + l.to_set() =~= entry_items(s)) by {
            assert(forall|y: I| !l.contains(y));
        }
    } else {
        let s1 = acc_update(s, l[0], contribution(p, start, rw));
        lemma_acc_update_props(s, l[0], contribution(p, start, rw));
        lemma_acc_list_props(s1, l.drop_first(), p, start + 1, rw);
        assert(entry_items(s).insert(l[0]) + l.drop_first().to_set()
            =~= entry_items(s) + l.to_set()) by {
            assert forall|y: I| l.drop_first().contains(y) implies l.contains(y) by {
                let j = choose|j: int| 0 <= j < l.drop_first().len() && l.drop_first()[j] == y;
                assert(l[j + 1] == y);
            }
            assert(l.contains(l[0]));
            assert forall|y: I| l.contains(y) && y != l[0]
                implies l.drop_first().contains(y) by {
                let j = choose|j: int| 0 <= j < l.len() && l[j] == y;
                assert(l.drop_first()[j - 1] == y);
            }
        }
    }
}

proof fn lemma_acc_lists_props<I>(s: Seq<(I, u64)>, ls: Seq<Seq<I>>, ws: Seq<Option<u64>>, p: u64)
    ensures
        entry_items(acc_lists(s, ls, ws, p)) == entry_items(s) + list_items(ls),
        distinct_items(s) ==> distinct_items(acc_lists(s, ls, ws, p)),
    decreases ls.len(),
{
    if ls.len() == 0 {
        assert(entry_items(s) + list_items(ls) =~= entry_items(s));
    } else {
        let s1 = acc_list(s, ls[0], p, 0, ws[0]);
        lemma_acc_list_props(s, ls[0], p, 0, ws[0]);
        lemma_acc_lists_props(s1, ls.drop_first(), ws.drop_first(), p);
        assert((entry_items(s) + ls[0].to_set()) + list_items(ls.drop_first())
            =~= entry_items(s) + list_items(ls));
    }
}

/// The fused ranking holds exactly the distinct items of the input lists:
/// one entry for each item that appears in at least one list, and no
/// entry for anything else.
pub proof fn lemma_fused_model_items<I>(ls: Seq<Seq<I>>, ws: Seq<Option<u64>>, p: u64)
    ensures
        entry_items(fused_model(ls, ws, p)) == list_items(ls),
        distinct_items(fused_model(ls, ws, p)),
{
    let e = fused_entries(ls, ws, p);
    lemma_acc_lists_props(Seq::empty(), ls, ws, p);
    assert(distinct_items(Seq::<(I, u64)>::empty()));
    assert(entry_items(Seq::<(I, u64)>::empty()) + list_items(ls) =~= list_items(ls)) by {
        assert(forall|y: I| !entry_items(Seq::<(I, u64)>::empty()).contains(y));
    }
    lemma_sort_desc_props(e);
}

/// The fused ranking is ordered by descending score key and is a
/// permutation of the accumulated entries.
pub proof fn lemma_fused_model_sorted<I>(ls: Seq<Seq<I>>, ws: Seq<Option<u64>>, p: u64)
    ensures
        sorted_desc(fused_model(ls, ws, p)),
        fused_model(ls, ws, p).to_multiset() == fused_entries(ls, ws, p).to_multiset(),
        fused_model(ls, ws, p).len() == fused_entries(ls, ws, p).len(),
{
    lemma_sort_desc_props(fused_entries(ls, ws, p));
}

/// An empty collection of lists fuses to an empty ranking, weighted or
/// not.
pub proof fn lemma_empty_input<I>(rws: Seq<u64>, p: u64)
    requires
        rws.len() == 0,
    ensures
        rbc_model(Seq::<Seq<I>>::empty(), p) == Seq::<(I, u64)>::empty(),
        rbc_weighted_model(Seq::<Seq<I>>::empty(), rws, p) == Seq::<(I, u64)>::empty(),
{
    assert(rws.map_values(|w: u64| Some(w)).len() == 0);
}

/// The weight schedule follows the geometric recurrence: rank zero
/// carries one minus the persistence, and each deeper rank carries the
/// previous weight times the persistence.
pub proof fn lemma_schedule_recurrence(p: u64, r: nat)
    ensures
        schedule_weight(p, 0) == one_minus_spec(p),
        schedule_weight(p, r + 1) == mul_spec(schedule_weight(p, r), p),
{
}

/// Sorting keeps every score: when every accumulated score is at least
/// zero, so is every score of the sorted ranking.
pub proof fn lemma_sort_desc_preserves_ge_zero<I>(s: Seq<(I, u64)>)
    requires
        entries_ge_zero(s),
    ensures
        entries_ge_zero(sort_desc(s)),
{
    broadcast use vstd::seq_lib::group_to_multiset_ensures;
    broadcast use vstd::multiset::group_multiset_axioms;

    lemma_sort_desc_props(s);
    let t = sort_desc(s);
    assert forall|k: int| 0 <= k < t.len()
        implies crate::score::ge_zero_bits((#[trigger] t[k]).1) by {
        assert(t.contains(t[k]));
        assert(t.to_multiset().count(t[k]) > 0);
        assert(s.to_multiset().count(t[k]) > 0);
        assert(s.contains(t[k]));
        let j = choose|j: int| 0 <= j < s.len() && s[j] == t[k];
        assert(crate::score::ge_zero_bits(s[j].1));
    }
}

/// For one collection of lists and one persistence value, the plain
/// fused ranking and the scored fused ranking order the items
/// identically: a ranking without scores equal to the model's item
/// projection is exactly a ranking with scores equal to the model,
/// stripped of its scores.
pub proof fn lemma_plain_ranking_is_projection<I>(
    ls: Seq<Seq<I>>,
    p: u64,
    plain: Seq<I>,
    scored: Seq<(I, u64)>,
)
    requires
        plain == items_of(rbc_model(ls, p)),
        scored == rbc_model(ls, p),
    ensures
        plain == items_of(scored),
{
}

/// Inserting at the first position whose score key is strictly below the
/// new entry's is exactly the stable descending insertion.
pub proof fn lemma_insert_desc_at<I>(s: Seq<(I, u64)>, x: (I, u64), j: int)
    requires
        0 <= j <= s.len(),
        forall|t: int| 0 <= t < j ==> sort_key((#[trigger] s[t]).1) >= sort_key(x.1),
        j < s.len() ==> sort_key(s[j].1) < sort_key(x.1),
    ensures
        insert_desc(s, x) == s.insert(j, x),
    decreases s.len(),
{
    if s.len() == 0 {
        assert(insert_desc(s, x) =~= s.insert(0, x));
    } else if sort_key(s[0].1) < sort_key(x.1) {
        assert(j == 0);
        assert(seq![x] + s =~= s.insert(0, x));
    } else {
        assert(j >= 1);
        assert forall|t: int| 0 <= t < j - 1
            implies sort_key((#[trigger] s.drop_first()[t]).1) >= sort_key(x.1) by {
            assert(s.drop_first()[t] == s[t + 1]);
        }
        if j - 1 < s.drop_first().len() {
            assert(s.drop_first()[j - 1] == s[j]);
        }
        lemma_insert_desc_at(s.drop_first(), x, j - 1);
        assert(seq![s[0]] + s.drop_first().insert(j - 1, x) =~= s.insert(j, x));
    }
}

} // verus!
