//! Rank-Biased Centroids (RBC) rank fusion.
//!
//! Merges several ranked lists of items into one consensus ranking. Each
//! item receives, for every list it appears in, a geometrically decaying
//! weight `(1 - p) * p^rank` governed by a persistence parameter `p` in
//! `[0, 1)`; the fused ranking orders items by their total accumulated
//! weight, descending. A weighted variant scales every contribution of a
//! list by a per-list run weight.
//!
//! All weights and scores are carried as IEEE 754 binary64 bit patterns
//! in `u64` values (see [`score`]); the fused ranking an entry point
//! returns is proved equal to the mathematical model in [`model`].

pub mod model;
pub mod score;
mod state;

use vstd::prelude::*;

use crate::model::{
    acc_list, acc_lists, all_none_weights, all_unit_weights, entries_ge_zero, eq_reflects,
    lemma_sort_desc_preserves_ge_zero, lists_view, none_weights, rbc_model, rbc_weighted_model,
    valid_run_weights,
};
use crate::score::{is_finite_bits, valid_persistence_bits, weight_is_finite, ONE_BITS};
use crate::state::RbcState;

pub use state::RbcRankedList;

verus! {

/// Error surface of the fusion entry points.
#[derive(Debug, Clone, Copy, PartialEq, Eq, Structural)]
pub enum RbcError {
    /// The persistence parameter lies outside `[0, 1)` or is a NaN.
    InvalidPersistence,
    /// The run weights do not number one per list, or one is not finite.
    InvalidRunWeights,
}

/// Fold every list into the accumulator, pairing each with its run
/// weight; when every run weight is exactly one, the outcome is the
/// outcome of the unweighted fold.
fn fold_lists<I: Eq + std::hash::Hash + std::fmt::Debug>(
    st: &mut RbcState<I>,
    lists: Vec<Vec<I>>,
    ws: Vec<Option<u64>>,
)
    requires
        old(st).wf(),
        eq_reflects::<I>(),
        ws@.len() == lists@.len(),
    ensures
        final(st).wf(),
        final(st).persistence == old(st).persistence,
        final(st).entries@ == acc_lists(
            old(st).entries@,
            lists_view(lists@),
            ws@,
            old(st).persistence,
        ),
        all_unit_weights(ws@) ==> final(st).entries@ == acc_lists(
            old(st).entries@,
            lists_view(lists@),
            none_weights(ws@.len()),
            old(st).persistence,
        ),
        all_none_weights(ws@) && entries_ge_zero(old(st).entries@) ==> entries_ge_zero(
            final(st).entries@,
        ),
{
    let ghost lists0 = lists_view(lists@);
    let ghost ws0 = ws@;
    let ghost e0 = old(st).entries@;
    let ghost p0 = old(st).persistence;
    let mut lists = lists;
    let mut ws = ws;
    while lists.len() > 0
        invariant
            st.wf(),
            eq_reflects::<I>(),
            st.persistence == p0,
            ws@.len() == lists@.len(),
            acc_lists(st.entries@, lists_view(lists@), ws@, p0) == acc_lists(e0, lists0, ws0, p0),
            all_unit_weights(ws0) ==> {
                &&& all_unit_weights(ws@)
                &&& acc_lists(st.entries@, lists_view(lists@), none_weights(lists@.len()), p0)
                    == acc_lists(e0, lists0, none_weights(lists0.len()), p0)
            },
            all_none_weights(ws0) && entries_ge_zero(e0) ==> {
                &&& all_none_weights(ws@)
                &&& entries_ge_zero(st.entries@)
            },
        decreases lists@.len(),
    {
        let ghost pre_l = lists@;
        let ghost pre_w = ws@;
        let ghost pre_e = st.entries@;
        let l = lists.remove(0);
        let rw = ws.remove(0);
        proof {
            assert(lists_view(pre_l)[0] == l@);
            assert(lists_view(lists@) =~= lists_view(pre_l).drop_first());
            assert(ws@ =~= pre_w.drop_first());
            assert(none_weights(pre_l.len()).drop_first() =~= none_weights(lists@.len()));
        }
        let mut cur = l;
        let ghost l0 = cur@;
        let count = cur.len();
        proof {
            assert(l0.len() == count as int);
        }
        let mut rank: usize = 0;
        while cur.len() > 0
            invariant
                st.wf(),
                eq_reflects::<I>(),
                st.persistence == p0,
                l0.len() <= usize::MAX,
                rank == l0.len() - cur@.len(),
                acc_list(st.entries@, cur@, p0, rank as nat, rw) == acc_list(
                    pre_e,
                    l0,
                    p0,
                    0,
                    rw,
                ),
                all_unit_weights(ws0) && all_unit_weights(pre_w) ==> {
                    &&& rw == Some(ONE_BITS)
                    &&& acc_list(st.entries@, cur@, p0, rank as nat, None::<u64>) == acc_list(
                        pre_e,
                        l0,
                        p0,
                        0,
                        None::<u64>,
                    )
                },
                all_unit_weights(ws0) ==> all_unit_weights(pre_w),
                all_none_weights(ws0) && entries_ge_zero(e0) ==> {
                    &&& rw is None
                    &&& entries_ge_zero(st.entries@)
                },
            decreases cur@.len(),
        {
            let ghost pre_cur = cur@;
            let item = cur.remove(0);
            proof {
                assert(item == pre_cur[0]);
                assert(cur@ =~= pre_cur.drop_first());
            }
            st.update(rank, item, rw);
            rank += 1;
        }
    }
}

/// Fuse the ranked lists under persistence `p` (given as IEEE 754
/// binary64 bits). Every item of every list contributes the weight of
/// its zero-based rank to its accumulated score; the result ranks the
/// distinct items by descending score.
///
/// Returns `InvalidPersistence` exactly when the encoded `p` does not
/// satisfy `0 <= p < 1`; otherwise the fused ranking, equal to
/// [`rbc_model`] on the lists, and every fused score is at least zero.
pub fn rbc<I: Eq + std::hash::Hash + std::fmt::Debug>(input_rankings: Vec<Vec<I>>, p: u64) -> (r:
    Result<RbcRankedList<I>, RbcError>)
    requires
        eq_reflects::<I>(),
    ensures
        valid_persistence_bits(p) ==> {
            &&& r is Ok
            &&& r->Ok_0@ == rbc_model(lists_view(input_rankings@), p)
            &&& entries_ge_zero(r->Ok_0@)
        },
        !valid_persistence_bits(p) ==> r == Err::<RbcRankedList<I>, RbcError>(
            RbcError::InvalidPersistence,
        ),
{
    let n = input_rankings.len();
    let mut st = match RbcState::<I>::with_persistence(p) {
        Ok(s) => s,
        Err(e) => {
            return Err(e);
        },
    };
    let mut ws: Vec<Option<u64>> = Vec::new();
    let mut k: usize = 0;
    while k < n
        invariant
            k <= n,
            ws@.len() == k,
            forall|t: int| 0 <= t < k ==> ws@[t] == None::<u64>,
        decreases n - k,
    {
        ws.push(None);
        k += 1;
    }
    proof {
        assert(ws@ =~= none_weights(n as nat));
    }
    fold_lists(&mut st, input_rankings, ws);
    proof {
        lemma_sort_desc_preserves_ge_zero(st.entries@);
    }
    Ok(st.into_result())
}

/// Fuse the ranked lists under persistence `p`, scaling every
/// contribution of a list by its run weight (both given as IEEE 754
/// binary64 bits).
///
/// Returns `InvalidPersistence` exactly when the encoded `p` does not
/// satisfy `0 <= p < 1`; otherwise `InvalidRunWeights` exactly when the
/// run weights do not number one per list or one of them is infinite or
/// NaN; otherwise the fused ranking, equal to [`rbc_weighted_model`] on
/// the lists and weights. Run weights of exactly one reproduce the
/// unweighted ranking of [`rbc`], bit for bit.
pub fn rbc_with_weights<I: Eq + std::hash::Hash + std::fmt::Debug>(
    input_rankings: Vec<Vec<I>>,
    run_weights: Vec<u64>,
    p: u64,
) -> (r: Result<RbcRankedList<I>, RbcError>)
    requires
        eq_reflects::<I>(),
    ensures
        !valid_persistence_bits(p) ==> r == Err::<RbcRankedList<I>, RbcError>(
            RbcError::InvalidPersistence,
        ),
        valid_persistence_bits(p) && !valid_run_weights(run_weights@, input_rankings@.len())
            ==> r == Err::<RbcRankedList<I>, RbcError>(RbcError::InvalidRunWeights),
        valid_persistence_bits(p) && valid_run_weights(run_weights@, input_rankings@.len()) ==> {
            &&& r is Ok
            &&& r->Ok_0@ == rbc_weighted_model(lists_view(input_rankings@), run_weights@, p)
        },
        valid_persistence_bits(p) && valid_run_weights(run_weights@, input_rankings@.len())
            && (forall|t: int|
            0 <= t < run_weights@.len() ==> run_weights@[t] == ONE_BITS) ==> r->Ok_0@ == rbc_model(
            lists_view(input_rankings@),
            p,
        ),
{
    let mut st = match RbcState::<I>::with_persistence(p) {
        Ok(s) => s,
        Err(e) => {
            return Err(e);
        },
    };
    if run_weights.len() != input_rankings.len() {
        return Err(RbcError::InvalidRunWeights);
    }
    let n = run_weights.len();
    let mut ws: Vec<Option<u64>> = Vec::new();
    let mut k: usize = 0;
    while k < n
        invariant
            k <= n,
            n == run_weights@.len(),
            valid_persistence_bits(p),
            n == input_rankings@.len(),
            ws@.len() == k,
            forall|t: int| 0 <= t < k ==> ws@[t] == Some(run_weights@[t]),
            forall|t: int| 0 <= t < k ==> is_finite_bits(#[trigger] run_weights@[t]),
        decreases n - k,
    {
        let w = run_weights[k];
        if !weight_is_finite(w) {
            return Err(RbcError::InvalidRunWeights);
        }
        ws.push(Some(w));
        k += 1;
    }
    proof {
        assert(ws@ =~= run_weights@.map_values(|w: u64| Some(w)));
    }
    fold_lists(&mut st, input_rankings, ws);
    Ok(st.into_result())
}

} // verus!

