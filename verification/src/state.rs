//! The fusion engine: weight schedule, accumulator and finalizer.

use std::fmt::Debug;
use std::hash::Hash;
use vstd::prelude::*;

use crate::model::{
    acc_update, contribution, entries_ge_zero, eq_reflects, insert_desc, items_of,
    lemma_find_index_from_scan, lemma_insert_desc_at, schedule_weight, sort_desc,
};
use crate::score::{
    add_bits, ge_zero_bits, is_finite_bits, lemma_valid_persistence_abs, mul_bits, mul_spec,
    one_minus_bits, persistence_in_range, sort_key, sort_key_of, valid_persistence_bits, ONE_BITS,
};
use crate::RbcError;

verus! {

/// Working state of one fusion computation: the lazily extended weight
/// schedule and the per-item accumulator, in first-encounter order.
pub(crate) struct RbcState<Item: Eq + Hash + Debug> {
    /// Cached weights, indexed by zero-based rank.
    pub(crate) weights: Vec<u64>,
    /// Accumulated `(item, score)` entries, keyed by item identity.
    pub(crate) entries: Vec<(Item, u64)>,
    /// The validated persistence parameter, as binary64 bits.
    pub(crate) persistence: u64,
}

impl<Item: Eq + Hash + Debug> RbcState<Item> {
    /// The persistence is validated, and the schedule is a non-empty,
    /// finite prefix of the geometric weight sequence.
    pub(crate) open spec fn wf(self) -> bool {
        &&& valid_persistence_bits(self.persistence)
        &&& self.weights@.len() >= 1
        &&& forall|i: int|
            0 <= i < self.weights@.len() ==> (#[trigger] self.weights@[i]) == schedule_weight(
                self.persistence,
                i as nat,
            )
        &&& forall|i: int|
            0 <= i < self.weights@.len() ==> is_finite_bits(#[trigger] self.weights@[i])
        &&& forall|i: int|
            0 <= i < self.weights@.len() ==> ge_zero_bits(#[trigger] self.weights@[i])
    }

    /// Start a fusion with persistence `p` (binary64 bits), rejecting
    /// any value outside `[0, 1)`.
    pub(crate) fn with_persistence(p: u64) -> (r: Result<Self, RbcError>)
        ensures
            valid_persistence_bits(p) ==> {
                &&& r is Ok
                &&& r->Ok_0.wf()
                &&& r->Ok_0.persistence == p
                &&& r->Ok_0.entries@ == Seq::<(Item, u64)>::empty()
                &&& r->Ok_0.weights@.len() == 1
            },
            !valid_persistence_bits(p) ==> r == Err::<Self, RbcError>(RbcError::InvalidPersistence),
    {
        if !persistence_in_range(p) {
            return Err(RbcError::InvalidPersistence);
        }
        let w0 = one_minus_bits(p);
        let mut weights: Vec<u64> = Vec::new();
        weights.push(w0);
        Ok(RbcState { weights, entries: Vec::new(), persistence: p })
    }

    /// Fold one observation into the accumulator: the weight of `rank`,
    /// scaled by the run weight when one is supplied, is added to the
    /// entry holding `item`, which is created on first encounter. The
    /// schedule is a cache that only ever grows: ranks beyond it extend
    /// it by continuing the recurrence, exactly up to `rank`, and the
    /// weights already materialized keep their values.
    pub(crate) fn update(&mut self, rank: usize, item: Item, run_weight: Option<u64>)
        requires
            old(self).wf(),
            eq_reflects::<Item>(),
        ensures
            final(self).wf(),
            final(self).persistence == old(self).persistence,
            final(self).weights@.len() == vstd::math::max(
                old(self).weights@.len() as int,
                rank + 1,
            ),
            forall|i: int|
                0 <= i < old(self).weights@.len() ==> final(self).weights@[i] == old(
                    self,
                ).weights@[i],
            final(self).entries@ == acc_update(
                old(self).entries@,
                item,
                contribution(old(self).persistence, rank as nat, run_weight),
            ),
            run_weight == Some(ONE_BITS) ==> contribution(
                old(self).persistence,
                rank as nat,
                run_weight,
            ) == contribution(old(self).persistence, rank as nat, None::<u64>),
            run_weight is None && entries_ge_zero(old(self).entries@) ==> entries_ge_zero(
                final(self).entries@,
            ),
    {
        let p = self.persistence;
        proof {
            lemma_valid_persistence_abs(p);
        }
        while self.weights.len() <= rank
            invariant
                self.wf(),
                p == self.persistence,
                self.persistence == old(self).persistence,
                self.entries@ == old(self).entries@,
                self.weights@.len() >= old(self).weights@.len(),
                self.weights@.len() <= rank + 1 || self.weights@.len() == old(
                    self,
                ).weights@.len(),
                forall|i: int|
                    0 <= i < old(self).weights@.len() ==> self.weights@[i] == old(
                        self,
                    ).weights@[i],
            decreases rank + 1 - self.weights@.len(),
        {
            let n = self.weights.len();
            let last = self.weights[n - 1];
            proof {
                lemma_valid_persistence_abs(self.persistence);
            }
            let next = mul_bits(last, p);
            self.weights.push(next);
            proof {
                assert(schedule_weight(p, n as nat) == mul_spec(
                    schedule_weight(p, (n - 1) as nat),
                    p,
                ));
            }
        }
        let w = self.weights[rank];
        let c: u64 = match run_weight {
            Some(rw) => mul_bits(w, rw),
            None => w,
        };
        proof {
            assert(w == schedule_weight(p, rank as nat));
            assert(c == contribution(p, rank as nat, run_weight));
        }
        let mut i: usize = 0;
        while i < self.entries.len()
            invariant
                self.wf(),
                eq_reflects::<Item>(),
                self.persistence == old(self).persistence,
                self.entries@ == old(self).entries@,
                self.weights@.len() == vstd::math::max(old(self).weights@.len() as int, rank + 1),
                forall|i2: int|
                    0 <= i2 < old(self).weights@.len() ==> self.weights@[i2] == old(
                        self,
                    ).weights@[i2],
                i <= self.entries@.len(),
                c == contribution(self.persistence, rank as nat, run_weight),
                run_weight is None ==> ge_zero_bits(c),
                run_weight == Some(ONE_BITS) ==> contribution(
                    self.persistence,
                    rank as nat,
                    run_weight,
                ) == contribution(self.persistence, rank as nat, None::<u64>),
                forall|j: int| 0 <= j < i ==> (#[trigger] self.entries@[j]).0 != item,
            decreases self.entries@.len() - i,
        {
            if self.entries[i].0 == item {
                proof {
                    lemma_find_index_from_scan(self.entries@, item, i as int);
                }
                let (it, sc) = self.entries.remove(i);
                let sum = add_bits(sc, c);
                self.entries.insert(i, (it, sum));
                proof {
                    assert(self.entries@ =~= old(self).entries@.update(
                        i as int,
                        (old(self).entries@[i as int].0, crate::score::add_spec(sc, c)),
                    ));
                }
                return;
            }
            i += 1;
        }
        proof {
            lemma_find_index_from_scan(self.entries@, item, i as int);
        }
        self.entries.push((item, c));
    }

    /// Finalize: hand the accumulated entries over as a ranking, ordered
    /// by descending score; entries with equal scores keep their
    /// first-encounter order.
    pub(crate) fn into_result(self) -> (r: RbcRankedList<Item>)
        ensures
            r@ == sort_desc(self.entries@),
    {
        let RbcState { weights: _weights, entries: mut rest, persistence: _persistence } = self;
        let ghost orig = rest@;
        let mut out: Vec<(Item, u64)> = Vec::new();
        proof {
            assert(orig.take(0) =~= Seq::<(Item, u64)>::empty());
            assert(orig.skip(0) =~= orig);
        }
        while rest.len() > 0
            invariant
                rest@.len() <= orig.len(),
                rest@ == orig.skip(orig.len() - rest@.len()),
                out@ == sort_desc(orig.take(orig.len() - rest@.len())),
            decreases rest@.len(),
        {
            let ghost k = orig.len() - rest@.len();
            let x = rest.remove(0);
            proof {
                assert(x == orig[k]);
                assert(rest@ =~= orig.skip(k + 1));
            }
            let keyx = sort_key_of(x.1);
            let j = insert_position(&out, keyx);
            proof {
                lemma_insert_desc_at(out@, x, j as int);
                assert(orig.take(k + 1).drop_last() =~= orig.take(k));
                assert(orig.take(k + 1).last() == orig[k]);
                assert(sort_desc(orig.take(k + 1)) == insert_desc(sort_desc(orig.take(k)), x));
            }
            out.insert(j, x);
        }
        proof {
            assert(orig.take(orig.len() as int) =~= orig);
        }
        RbcRankedList { items: out }
    }
}

/// First position in `out` whose score key is strictly below `key`, or
/// the length when there is none.
fn insert_position<Item: Eq + Hash + Debug>(out: &Vec<(Item, u64)>, key: u64) -> (j: usize)
    ensures
        j <= out@.len(),
        forall|t: int| 0 <= t < j ==> sort_key((#[trigger] out@[t]).1) >= key,
        j < out@.len() ==> sort_key(out@[j as int].1) < key,
{
    let mut j: usize = 0;
    while j < out.len()
        invariant
            j <= out@.len(),
            forall|t: int| 0 <= t < j ==> sort_key((#[trigger] out@[t]).1) >= key,
        decreases out@.len() - j,
    {
        if sort_key_of(out[j].1) < key {
            return j;
        }
        j += 1;
    }
    j
}

/// The fused ranking: items ordered by descending accumulated score,
/// scores carried as binary64 bit patterns.
#[derive(Debug)]
pub struct RbcRankedList<Item: Eq + Hash + Debug> {
    items: Vec<(Item, u64)>,
}

impl<Item: Eq + Hash + Debug> View for RbcRankedList<Item> {
    type V = Seq<(Item, u64)>;

    closed spec fn view(&self) -> Seq<(Item, u64)> {
        self.items@
    }
}

impl<Item: Eq + Hash + Debug> RbcRankedList<Item> {
    /// The fused ranking without scores: exactly the items of the scored
    /// ranking, in the same order.
    pub fn into_ranked_list(self) -> (r: Vec<Item>)
        ensures
            r@ == items_of(self@),
    {
        let RbcRankedList { items: mut rest } = self;
        let ghost orig = rest@;
        let mut r: Vec<Item> = Vec::new();
        proof {
            assert(r@ =~= items_of(orig.take(0)));
            assert(orig.skip(0) =~= orig);
        }
        while rest.len() > 0
            invariant
                rest@.len() <= orig.len(),
                rest@ == orig.skip(orig.len() - rest@.len()),
                r@ == items_of(orig.take(orig.len() - rest@.len())),
            decreases rest@.len(),
        {
            let ghost k = orig.len() - rest@.len();
            let x = rest.remove(0);
            proof {
                assert(x == orig[k]);
                assert(rest@ =~= orig.skip(k + 1));
            }
            r.push(x.0);
            proof {
                assert(r@ =~= items_of(orig.take(k + 1)));
            }
        }
        proof {
            assert(orig.take(orig.len() as int) =~= orig);
        }
        r
    }

    /// The fused ranking with scores.
    pub fn into_ranked_list_with_scores(self) -> (r: Vec<(Item, u64)>)
        ensures
            r@ == self@,
    {
        let RbcRankedList { items } = self;
        items
    }
}

} // verus!
