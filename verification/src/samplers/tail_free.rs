//! Tail free sampling.
use crate::types::{
    first_stop, lemma_first_stop, lemma_first_stop_unique, lemma_keeps_prefix_refl,
    lemma_keeps_prefix_trans, lemma_softmaxed_keeps, lemma_stale_survivors,
    lemma_sum_of_zeros, lemma_truncated_keeps, logits_of, min_keep_floor, prefix_sum, probs_of,
    renormalised_probs, token_ids_of, CanLogit, LogitsBuffer, LogitsView, Sampler, SamplerError,
};
use vstd::prelude::*;

verus! {

/// Tail free sampling
///
/// Cuts the buffer at the elbow of the probability curve: the place where
/// the absolute second differences of the probabilities, normalised to add
/// up to one, have accumulated to more than `z`. A cut leaves the
/// probabilities marked stale.
#[derive(Debug, PartialEq, Eq)]
pub struct SampleTailFree<T: CanLogit> {
    z: T,
    min_keep: usize,
}

impl<T: CanLogit> Clone for SampleTailFree<T> {
    fn clone(&self) -> (r: Self)
        ensures
            r == *self,
    {
        *self
    }
}

impl<T: CanLogit> Copy for SampleTailFree<T> {

}

/// `probs[i] - probs[i + 1]` for every adjacent pair.
pub open spec fn first_diffs<L: CanLogit>(probs: Seq<L>) -> Seq<L> {
    Seq::new(
        if probs.len() >= 1 {
            (probs.len() - 1) as nat
        } else {
            0
        },
        |i: int| probs[i].sub_spec(probs[i + 1]),
    )
}

/// `|d[i] - d[i + 1]|` for every adjacent pair of first differences `d`.
pub open spec fn second_diffs<L: CanLogit>(probs: Seq<L>) -> Seq<L> {
    let d = first_diffs(probs);
    Seq::new(
        if d.len() >= 1 {
            (d.len() - 1) as nat
        } else {
            0
        },
        |i: int| d[i].sub_spec(d[i + 1]).abs_spec(),
    )
}

/// The left-to-right sum of the second differences.
pub open spec fn total_curvature<L: CanLogit>(probs: Seq<L>) -> L {
    let s = second_diffs(probs);
    prefix_sum(s, s.len() as int)
}

/// The second differences, each divided by their sum.
pub open spec fn curvature_weights<L: CanLogit>(probs: Seq<L>) -> Seq<L> {
    let s = second_diffs(probs);
    let total = total_curvature(probs);
    Seq::new(s.len(), |i: int| s[i].div_spec(total))
}

/// Whether the walk stops at index `idx`: the weights up to and including
/// `idx` add up to more than `z`, and `idx` is at least `min_keep`.
pub open spec fn tail_free_stops_at<L: CanLogit>(
    weights: Seq<L>,
    z: L,
    min_keep: usize,
    idx: int,
) -> bool {
    prefix_sum(weights, idx + 1).gt_spec(z) && idx >= min_keep
}

/// `tail_free_stops_at` as a predicate on the index.
pub open spec fn tail_free_stops<L: CanLogit>(weights: Seq<L>, z: L, min_keep: usize) -> spec_fn(
    int,
) -> bool {
    |idx: int| tail_free_stops_at(weights, z, min_keep, idx)
}

/// How many entries survive: the first stopping index itself, or all of
/// them if the walk never stops.
pub open spec fn tail_free_keep<L: CanLogit>(probs: Seq<L>, z: L, min_keep: usize) -> int {
    let weights = curvature_weights(probs);
    let idx = first_stop(tail_free_stops(weights, z, min_keep), 0, weights.len() as int);
    if idx < weights.len() {
        idx
    } else {
        probs.len() as int
    }
}

/// The sampler leaves the buffer alone: `z` is one or more, or there are
/// too few entries to have a second difference.
pub open spec fn tail_free_is_noop<TID, L: CanLogit>(view: LogitsView<TID, L>, z: L) -> bool {
    z.ge_spec(L::one_spec()) || view.entries.len() < 3
}

/// The sampler fails: it has work to do, and the second differences of the
/// current probabilities add up to a zero, so no weight is defined.
pub open spec fn tail_free_fails<TID, L: CanLogit>(view: LogitsView<TID, L>, z: L) -> bool {
    !tail_free_is_noop(view, z) && total_curvature(
        probs_of(view.softmaxed().entries),
    ).is_zero_spec()
}

/// The buffer that tail free sampling leaves when it does not fail:
/// untouched if there is nothing to do; otherwise probabilities made
/// current, then the surviving prefix. If entries were removed the
/// probabilities are marked stale, since they are no longer the softmax
/// over the entries that are left.
pub open spec fn tail_free_filtered<TID, L: CanLogit>(
    view: LogitsView<TID, L>,
    z: L,
    min_keep: usize,
) -> LogitsView<TID, L> {
    if tail_free_is_noop(view, z) {
        view
    } else {
        let current = view.softmaxed();
        let keep = tail_free_keep(probs_of(current.entries), z, min_keep);
        if keep != current.entries.len() {
            current.truncated(keep).flagged(false)
        } else {
            current
        }
    }
}

/// The text of the error for second differences that add up to a zero.
pub open spec fn zero_curvature_message() -> Seq<char> {
    "second derivatives of the probabilities sum to zero"@
}

/// The surviving count is within the buffer and never below the
/// `min_keep` floor.
pub proof fn lemma_tail_free_keep_bounds<L: CanLogit>(probs: Seq<L>, z: L, min_keep: usize)
    ensures
        0 <= tail_free_keep(probs, z, min_keep) <= probs.len(),
        tail_free_keep(probs, z, min_keep) >= min_keep_floor(min_keep, probs.len()),
{
    let weights = curvature_weights(probs);
    lemma_first_stop(tail_free_stops(weights, z, min_keep), 0, weights.len() as int);
}

/// The outcome of a first pass is settled: the pass had nothing to do, or
/// it removed nothing, or it left fewer than three entries, or, among the
/// renormalised probabilities of the survivors, the second differences do
/// not add up to a zero and their weights stop no walk.
pub open spec fn tail_free_settles<TID, L: CanLogit>(
    view: LogitsView<TID, L>,
    z: L,
    min_keep: usize,
) -> bool {
    let current = view.softmaxed();
    let keep = tail_free_keep(probs_of(current.entries), z, min_keep);
    let renormalised = renormalised_probs(view, keep);
    tail_free_is_noop(view, z) || keep == current.entries.len() || keep < 3 || (!total_curvature(
        renormalised,
    ).is_zero_spec() && forall|idx: int|
        0 <= idx < keep - 2 ==> !(#[trigger] tail_free_stops(
            curvature_weights(renormalised),
            z,
            min_keep,
        )(idx)))
}

/// What a second pass sees after a first pass that removed entries: the
/// survivors are stale, and making their probabilities current
/// renormalises them over the survivors alone.
proof fn lemma_tail_free_second_pass<TID, L: CanLogit>(
    view: LogitsView<TID, L>,
    z: L,
    min_keep: usize,
)
    requires
        !tail_free_is_noop(view, z),
        tail_free_keep(probs_of(view.softmaxed().entries), z, min_keep)
            != view.softmaxed().entries.len(),
    ensures
        ({
            let keep = tail_free_keep(probs_of(view.softmaxed().entries), z, min_keep);
            let once = tail_free_filtered(view, z, min_keep);
            &&& 0 <= keep < view.entries.len()
            &&& once.entries.len() == keep
            &&& !once.softmax_valid
            &&& probs_of(once.softmaxed().entries) == renormalised_probs(view, keep)
        }),
{
    let current = view.softmaxed();
    let keep = tail_free_keep(probs_of(current.entries), z, min_keep);
    lemma_tail_free_keep_bounds(probs_of(current.entries), z, min_keep);
    lemma_softmaxed_keeps(view);
    lemma_stale_survivors(view, keep);
}

/// Applying tail free sampling to its own output removes nothing more, for
/// every input whose first pass succeeds and is settled: the second pass
/// succeeds and leaves the same entries, by token identifier and by score.
pub proof fn lemma_tail_free_idempotent<TID, L: CanLogit>(
    view: LogitsView<TID, L>,
    z: L,
    min_keep: usize,
)
    requires
        !tail_free_fails(view, z),
        tail_free_settles(view, z, min_keep),
    ensures
        ({
            let once = tail_free_filtered(view, z, min_keep);
            let twice = tail_free_filtered(once, z, min_keep);
            &&& !tail_free_fails(once, z)
            &&& twice.entries.len() == once.entries.len()
            &&& token_ids_of(twice.entries) == token_ids_of(once.entries)
            &&& logits_of(twice.entries) == logits_of(once.entries)
        }),
{
    let current = view.softmaxed();
    let keep = tail_free_keep(probs_of(current.entries), z, min_keep);
    let once = tail_free_filtered(view, z, min_keep);
    if !tail_free_is_noop(once, z) {
        lemma_softmaxed_keeps(view);
        if keep == current.entries.len() {
            assert(once.softmaxed() == once);
        } else {
            lemma_tail_free_second_pass(view, z, min_keep);
            let q = renormalised_probs(view, keep);
            let weights = curvature_weights(q);
            lemma_first_stop(tail_free_stops(weights, z, min_keep), 0, weights.len() as int);
            let r = first_stop(tail_free_stops(weights, z, min_keep), 0, weights.len() as int);
            if r < weights.len() {
                assert(tail_free_stops(weights, z, min_keep)(r));
            }
            assert(tail_free_keep(q, z, min_keep) == keep);
            lemma_softmaxed_keeps(once);
        }
    }
}

/// Where a successful first pass is not settled, the second pass fails or
/// removes entries, so the settled inputs are exactly those on which tail
/// free sampling is idempotent.
pub proof fn lemma_tail_free_unsettled_changes<TID, L: CanLogit>(
    view: LogitsView<TID, L>,
    z: L,
    min_keep: usize,
)
    requires
        !tail_free_fails(view, z),
        !tail_free_settles(view, z, min_keep),
    ensures
        tail_free_fails(tail_free_filtered(view, z, min_keep), z) || tail_free_filtered(
            tail_free_filtered(view, z, min_keep),
            z,
            min_keep,
        ).entries.len() < tail_free_filtered(view, z, min_keep).entries.len(),
{
    let current = view.softmaxed();
    let keep = tail_free_keep(probs_of(current.entries), z, min_keep);
    let once = tail_free_filtered(view, z, min_keep);
    lemma_tail_free_second_pass(view, z, min_keep);
    let q = renormalised_probs(view, keep);
    if !total_curvature(q).is_zero_spec() {
        let weights = curvature_weights(q);
        let idx = choose|idx: int|
            0 <= idx < keep - 2 && #[trigger] tail_free_stops(weights, z, min_keep)(idx);
        lemma_first_stop(tail_free_stops(weights, z, min_keep), 0, weights.len() as int);
        let r = first_stop(tail_free_stops(weights, z, min_keep), 0, weights.len() as int);
        if idx < r {
            assert(!tail_free_stops(weights, z, min_keep)(idx));
        }
        assert(tail_free_keep(q, z, min_keep) == r);
        lemma_truncated_keeps(once.softmaxed(), r);
    }
}

/// A buffer that needs filtering and whose current probabilities have
/// second differences that are all zero is rejected: their sum is a zero,
/// so tail free sampling fails instead of cutting anywhere.
pub proof fn lemma_tail_free_rejects_flat<TID, L: CanLogit>(view: LogitsView<TID, L>, z: L)
    requires
        !tail_free_is_noop(view, z),
        forall|i: int|
            0 <= i < second_diffs(probs_of(view.softmaxed().entries)).len() ==> (
            #[trigger] second_diffs(probs_of(view.softmaxed().entries))[i]).is_zero_spec(),
    ensures
        tail_free_fails(view, z),
{
    let s = second_diffs(probs_of(view.softmaxed().entries));
    lemma_sum_of_zeros(s, s.len() as int);
}

/// Every probability differs from the next by the same amount.
pub open spec fn is_arithmetic_progression<L: CanLogit>(probs: Seq<L>) -> bool {
    forall|i: int|
        0 <= i < first_diffs(probs).len() ==> #[trigger] first_diffs(probs)[i] == first_diffs(
            probs,
        )[0]
}

/// The common difference of an arithmetic progression, taken from itself,
/// has a magnitude of zero. Exact scalars meet this for every value;
/// rounding scalars meet it for every finite one.
pub open spec fn step_cancels<L: CanLogit>(probs: Seq<L>) -> bool {
    first_diffs(probs)[0].sub_spec(first_diffs(probs)[0]).abs_spec().is_zero_spec()
}

/// A buffer that needs filtering and whose current probabilities form an
/// exact arithmetic progression is rejected.
pub proof fn lemma_tail_free_rejects_arithmetic_progression<TID, L: CanLogit>(
    view: LogitsView<TID, L>,
    z: L,
)
    requires
        !tail_free_is_noop(view, z),
        is_arithmetic_progression(probs_of(view.softmaxed().entries)),
        step_cancels(probs_of(view.softmaxed().entries)),
    ensures
        tail_free_fails(view, z),
{
    let probs = probs_of(view.softmaxed().entries);
    let d = first_diffs(probs);
    let s = second_diffs(probs);
    assert forall|i: int| 0 <= i < s.len() implies (#[trigger] s[i]).is_zero_spec() by {
        assert(d[i] == d[0]);
        assert(d[i + 1] == d[0]);
    }
    lemma_tail_free_rejects_flat(view, z);
}

impl<T: CanLogit> SampleTailFree<T> {
    /// The cumulative weight at which the tail is cut.
    pub closed spec fn z_spec(self) -> T {
        self.z
    }

    /// The least number of entries to keep.
    pub closed spec fn min_keep_spec(self) -> usize {
        self.min_keep
    }

    /// A sampler that cuts at cumulative weight `z` and keeps at least
    /// `min_keep` entries.
    pub fn new(z: T, min_keep: usize) -> (r: Self)
        ensures
            r.z_spec() == z,
            r.min_keep_spec() == min_keep,
    {
        Self { z, min_keep }
    }
}

impl<TID, L: CanLogit> Sampler<TID, L> for SampleTailFree<L> {
    open spec fn keeps_at_least(&self) -> usize {
        self.min_keep_spec()
    }

    /// Leaves the buffer untouched if `z` is one or more or if there are
    /// fewer than three entries. Otherwise makes the probabilities current,
    /// weighs their absolute second differences against their sum, walks
    /// the weights in order and truncates the buffer to the first index at
    /// which the running sum exceeds `z` and the index is at least
    /// `min_keep`. A buffer that never gets there is kept whole, with
    /// current probabilities. Where entries were removed the probabilities
    /// are marked stale: a later stage that needs them renormalises over
    /// what is left. Second differences that add up to a zero are an
    /// internal error; the buffer then keeps all its entries, with current
    /// probabilities.
    fn sample<'a>(&mut self, logits: &'a mut LogitsBuffer<TID, L>) -> (r: Result<
        &'a mut LogitsBuffer<TID, L>,
        SamplerError,
    >)
        ensures
            *final(self) == *old(self),
            r is Err <==> tail_free_fails(old(logits)@, old(self).z_spec()),
            match r {
                Ok(out) => out@ == tail_free_filtered(
                    old(logits)@,
                    old(self).z_spec(),
                    old(self).min_keep_spec(),
                ),
                Err(e) => final(logits)@ == old(logits)@.softmaxed() && e.message_spec()
                    == zero_curvature_message(),
            },
            tail_free_is_noop(old(logits)@, old(self).z_spec()) ==> (r matches Ok(out) && out@
                == old(logits)@),
            !tail_free_is_noop(old(logits)@, old(self).z_spec()) && (forall|i: int|
                0 <= i < second_diffs(probs_of(old(logits)@.softmaxed().entries)).len()
                    ==> (#[trigger] second_diffs(
                    probs_of(old(logits)@.softmaxed().entries),
                )[i]).is_zero_spec()) ==> r is Err,
            !tail_free_is_noop(old(logits)@, old(self).z_spec()) && is_arithmetic_progression(
                probs_of(old(logits)@.softmaxed().entries),
            ) && step_cancels(probs_of(old(logits)@.softmaxed().entries)) ==> r is Err,
    {
        let z: L = self.z;
        let min_keep: usize = self.min_keep;
        proof {
            if !tail_free_is_noop(logits@, z) && is_arithmetic_progression(
                probs_of(logits@.softmaxed().entries),
            ) && step_cancels(probs_of(logits@.softmaxed().entries)) {
                lemma_tail_free_rejects_arithmetic_progression(logits@, z);
            }
        }
        if z.ge(L::one()) || logits.len() < 3 {
            proof {
                lemma_keeps_prefix_refl(old(logits)@);
            }
            return Ok(logits);
        }
        // With three entries or more there is always something to
        // normalise over, so this cannot fail.
        match logits.ensure_softmax() {
            Ok(()) => {},
            Err(e) => {
                return Err(e);
            },
        }
        let ghost current = logits@;
        let ghost probs = probs_of(current.entries);
        let ghost sdiffs = second_diffs(probs);
        proof {
            lemma_softmaxed_keeps(old(logits)@);
        }
        let n: usize = logits.len();
        let want_sderivs: usize = n - 2;
        let mut sderivs: Vec<L> = Vec::with_capacity(want_sderivs);
        let mut ssum: L = L::zero();
        let mut i: usize = 0;
        while i < want_sderivs
            invariant
                i <= want_sderivs,
                want_sderivs + 2 == n,
                n == probs.len(),
                logits@ == current,
                probs == probs_of(current.entries),
                sdiffs == second_diffs(probs),
                sderivs@.len() == i,
                forall|j: int| 0 <= j < i ==> (#[trigger] sderivs@[j]) == sdiffs[j],
                ssum == prefix_sum(sdiffs, i as int),
            decreases want_sderivs - i,
        {
            let entries = logits.as_slice();
            let fderiv: L = entries[i].prob.sub(entries[i + 1].prob);
            let next_fderiv: L = entries[i + 1].prob.sub(entries[i + 2].prob);
            let sprob: L = fderiv.sub(next_fderiv).abs();
            ssum = ssum.add(sprob);
            sderivs.push(sprob);
            i += 1;
        }
        if ssum.is_zero() {
            return Err(
                SamplerError::InternalError(
                    String::from_str("second derivatives of the probabilities sum to zero"),
                ),
            );
        }
        proof {
            if forall|i: int| 0 <= i < sdiffs.len() ==> (#[trigger] sdiffs[i]).is_zero_spec() {
                lemma_sum_of_zeros(sdiffs, sdiffs.len() as int);
            }
        }
        let ghost weights = curvature_weights(probs);
        let mut k: usize = 0;
        while k < want_sderivs
            invariant
                k <= want_sderivs,
                sderivs@.len() == want_sderivs,
                sdiffs.len() == want_sderivs,
                weights.len() == want_sderivs,
                weights == curvature_weights(probs),
                sdiffs == second_diffs(probs),
                ssum == total_curvature(probs),
                forall|j: int| 0 <= j < k ==> (#[trigger] sderivs@[j]) == weights[j],
                forall|j: int| k <= j < want_sderivs ==> (#[trigger] sderivs@[j]) == sdiffs[j],
            decreases want_sderivs - k,
        {
            let weight: L = sderivs[k].div(ssum);
            sderivs.set(k, weight);
            k += 1;
        }
        let mut cum_sum: L = L::zero();
        let mut last_idx: usize = n;
        let mut idx: usize = 0;
        let mut stopped: bool = false;
        while idx < want_sderivs && !stopped
            invariant
                idx <= want_sderivs,
                want_sderivs + 2 == n,
                n == probs.len(),
                sderivs@.len() == want_sderivs,
                weights.len() == want_sderivs,
                weights == curvature_weights(probs),
                forall|j: int| 0 <= j < want_sderivs ==> (#[trigger] sderivs@[j]) == weights[j],
                !stopped ==> last_idx == n,
                !stopped ==> cum_sum == prefix_sum(weights, idx as int),
                !stopped ==> forall|j: int|
                    0 <= j < idx ==> !(#[trigger] tail_free_stops(weights, z, min_keep)(j)),
                stopped ==> last_idx as int == tail_free_keep(probs, z, min_keep),
                last_idx <= n,
            decreases want_sderivs - idx,
        {
            cum_sum = cum_sum.add(sderivs[idx]);
            if cum_sum.gt(z) && idx >= min_keep {
                proof {
                    lemma_first_stop_unique(
                        tail_free_stops(weights, z, min_keep),
                        0,
                        want_sderivs as int,
                        idx as int,
                    );
                }
                last_idx = idx;
                stopped = true;
            }
            idx += 1;
        }
        proof {
            lemma_first_stop(tail_free_stops(weights, z, min_keep), 0, want_sderivs as int);
            assert(last_idx as int == tail_free_keep(probs, z, min_keep));
            lemma_tail_free_keep_bounds(probs, z, min_keep);
            lemma_truncated_keeps(current, last_idx as int);
            lemma_keeps_prefix_trans(old(logits)@, current, current.truncated(last_idx as int));
        }
        if last_idx != n {
            logits.truncate(last_idx);
            logits.set_softmax(false);
        }
        Ok(logits)
    }
}

} // verus!
