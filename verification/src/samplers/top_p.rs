//! Top-P (nucleus) sampling.
use crate::configure::{
    HasSamplerMetadata, OptionMetadataView, SamplerMetadata, SamplerMetadataView,
    SamplerOptionMetadata, SamplerOptionType, SamplerOptionValue, SamplerOptionValueMut,
    SamplerOptions,
};
use crate::types::{
    first_stop, lemma_first_stop, lemma_first_stop_unique, lemma_keeps_prefix_refl,
    lemma_keeps_prefix_trans, lemma_softmaxed_keeps, lemma_stale_survivors,
    lemma_truncated_keeps, logits_of, min_keep_floor, prefix_sum, probs_of, renormalised_probs,
    token_ids_of, CanLogit, LogitsBuffer, LogitsView, Sampler, SamplerError,
};
use vstd::prelude::*;

verus! {

/// # Top-P sampling
/// This sampler adds up the token probabilities until the value is
/// greater or equal to `p` and at least `min_keep` tokens have been
/// encountered. The remaining tokens are eliminated.
///
/// **Properties**:
/// - Filters logits
///
/// **Parameters**:
/// - `min_keep`: Minimum number of entries to keep. (default: `1`)
/// - `p`: Target value. (default: nine tenths)
#[derive(Debug, PartialEq)]
pub struct SampleTopP<L: CanLogit> {
    pub(crate) p: L,
    pub(crate) min_keep: usize,
}

impl<L: CanLogit> Clone for SampleTopP<L> {
    fn clone(&self) -> (r: Self)
        ensures
            r == *self,
    {
        *self
    }
}

impl<L: CanLogit> Copy for SampleTopP<L> {

}

/// Whether the walk stops at index `i`: the probabilities up to and
/// including `i` add up to at least `p`, and `i + 1` entries are at least
/// `min_keep`.
pub open spec fn top_p_stops_at<L: CanLogit>(probs: Seq<L>, p: L, min_keep: usize, i: int) -> bool {
    prefix_sum(probs, i + 1).ge_spec(p) && i + 1 >= min_keep
}

/// `top_p_stops_at` as a predicate on the index.
pub open spec fn top_p_stops<L: CanLogit>(probs: Seq<L>, p: L, min_keep: usize) -> spec_fn(
    int,
) -> bool {
    |i: int| top_p_stops_at(probs, p, min_keep, i)
}

/// How many entries survive: one more than the first stopping index, or
/// all of them if the walk never stops.
pub open spec fn top_p_keep<L: CanLogit>(probs: Seq<L>, p: L, min_keep: usize) -> int {
    let i = first_stop(top_p_stops(probs, p, min_keep), 0, probs.len() as int);
    if i < probs.len() {
        i + 1
    } else {
        probs.len() as int
    }
}

/// The buffer that top-P sampling leaves: probabilities made current, then
/// the surviving prefix. If entries were removed the probabilities are
/// marked stale, since they no longer add up as a distribution.
pub open spec fn top_p_filtered<TID, L: CanLogit>(
    view: LogitsView<TID, L>,
    p: L,
    min_keep: usize,
) -> LogitsView<TID, L> {
    let current = view.softmaxed();
    let keep = top_p_keep(probs_of(current.entries), p, min_keep);
    if keep != current.entries.len() {
        current.truncated(keep).flagged(false)
    } else {
        current
    }
}

/// The text of the error when probabilities cannot be made current.
pub open spec fn top_p_softmax_message() -> Seq<char> {
    "Failed to ensure softmax before sampling: "@ + crate::types::empty_softmax_message()
}

/// The default target: nine divided by ten in the scalar's arithmetic.
pub open spec fn default_p<L: CanLogit>() -> L {
    L::from_u32_spec(9).div_spec(L::from_u32_spec(10))
}

/// The surviving count is within the buffer, at least one for a buffer that
/// is not empty, and never below the `min_keep` floor.
pub proof fn lemma_top_p_keep_bounds<L: CanLogit>(probs: Seq<L>, p: L, min_keep: usize)
    ensures
        0 <= top_p_keep(probs, p, min_keep) <= probs.len(),
        probs.len() > 0 ==> top_p_keep(probs, p, min_keep) >= 1,
        top_p_keep(probs, p, min_keep) >= min_keep_floor(min_keep, probs.len()),
{
    lemma_first_stop(top_p_stops(probs, p, min_keep), 0, probs.len() as int);
}

/// The outcome of a first pass is settled: either the pass removed nothing,
/// or, among the renormalised probabilities of the survivors, no walk stops
/// before the last of them.
pub open spec fn top_p_settles<TID, L: CanLogit>(
    view: LogitsView<TID, L>,
    p: L,
    min_keep: usize,
) -> bool {
    let current = view.softmaxed();
    let keep = top_p_keep(probs_of(current.entries), p, min_keep);
    keep == current.entries.len() || forall|i: int|
        0 <= i < keep - 1 ==> !(#[trigger] top_p_stops(
            renormalised_probs(view, keep),
            p,
            min_keep,
        )(i))
}

/// What a second pass sees after a first pass that removed entries: the
/// survivors' scores are the leading scores of the input, and their
/// probabilities are renormalised over the survivors alone.
proof fn lemma_top_p_second_pass<TID, L: CanLogit>(view: LogitsView<TID, L>, p: L, min_keep: usize)
    requires
        !view.softmax_fails(),
        top_p_keep(probs_of(view.softmaxed().entries), p, min_keep)
            != view.softmaxed().entries.len(),
    ensures
        ({
            let keep = top_p_keep(probs_of(view.softmaxed().entries), p, min_keep);
            let once = top_p_filtered(view, p, min_keep);
            &&& 1 <= keep < view.entries.len()
            &&& once.entries.len() == keep
            &&& !once.softmax_fails()
            &&& probs_of(once.softmaxed().entries) == renormalised_probs(view, keep)
        }),
{
    let current = view.softmaxed();
    let keep = top_p_keep(probs_of(current.entries), p, min_keep);
    lemma_top_p_keep_bounds(probs_of(current.entries), p, min_keep);
    lemma_softmaxed_keeps(view);
    lemma_stale_survivors(view, keep);
}

/// Applying top-P sampling to its own output removes nothing more, for
/// every input whose first pass is settled: the second pass succeeds and
/// leaves the same entries, by token identifier and by score.
pub proof fn lemma_top_p_idempotent<TID, L: CanLogit>(
    view: LogitsView<TID, L>,
    p: L,
    min_keep: usize,
)
    requires
        !view.softmax_fails(),
        top_p_settles(view, p, min_keep),
    ensures
        ({
            let once = top_p_filtered(view, p, min_keep);
            let twice = top_p_filtered(once, p, min_keep);
            &&& !once.softmax_fails()
            &&& twice.entries.len() == once.entries.len()
            &&& token_ids_of(twice.entries) == token_ids_of(once.entries)
            &&& logits_of(twice.entries) == logits_of(once.entries)
        }),
{
    let current = view.softmaxed();
    let keep = top_p_keep(probs_of(current.entries), p, min_keep);
    let once = top_p_filtered(view, p, min_keep);
    if keep == current.entries.len() {
        assert(once.softmaxed() == once);
    } else {
        lemma_top_p_second_pass(view, p, min_keep);
        let q = renormalised_probs(view, keep);
        lemma_first_stop(top_p_stops(q, p, min_keep), 0, keep);
        let r = first_stop(top_p_stops(q, p, min_keep), 0, keep);
        if r < keep - 1 {
            assert(top_p_stops(q, p, min_keep)(r));
        }
        assert(top_p_keep(q, p, min_keep) == keep);
        lemma_softmaxed_keeps(once);
    }
}

/// Where the first pass is not settled the second pass does remove
/// entries, so the settled inputs are exactly those on which top-P
/// sampling is idempotent.
pub proof fn lemma_top_p_unsettled_shrinks<TID, L: CanLogit>(
    view: LogitsView<TID, L>,
    p: L,
    min_keep: usize,
)
    requires
        !view.softmax_fails(),
        !top_p_settles(view, p, min_keep),
    ensures
        top_p_filtered(top_p_filtered(view, p, min_keep), p, min_keep).entries.len()
            < top_p_filtered(view, p, min_keep).entries.len(),
{
    let current = view.softmaxed();
    let keep = top_p_keep(probs_of(current.entries), p, min_keep);
    let once = top_p_filtered(view, p, min_keep);
    lemma_top_p_second_pass(view, p, min_keep);
    let q = renormalised_probs(view, keep);
    let i = choose|i: int| 0 <= i < keep - 1 && #[trigger] top_p_stops(q, p, min_keep)(i);
    lemma_first_stop(top_p_stops(q, p, min_keep), 0, keep);
    let r = first_stop(top_p_stops(q, p, min_keep), 0, keep);
    if i < r {
        assert(!top_p_stops(q, p, min_keep)(i));
    }
    assert(top_p_keep(q, p, min_keep) == r + 1);
    lemma_truncated_keeps(once.softmaxed(), r + 1);
}

/// A first pass that kept no more than `min_keep` entries is settled: the
/// floor alone keeps a second pass from stopping earlier.
pub proof fn lemma_top_p_settles_at_floor<TID, L: CanLogit>(
    view: LogitsView<TID, L>,
    p: L,
    min_keep: usize,
)
    requires
        top_p_keep(probs_of(view.softmaxed().entries), p, min_keep) <= min_keep,
    ensures
        top_p_settles(view, p, min_keep),
{
}

impl<L: CanLogit> SampleTopP<L> {
    /// The target cumulative probability.
    pub closed spec fn p_spec(self) -> L {
        self.p
    }

    /// The least number of entries to keep.
    pub closed spec fn min_keep_spec(self) -> usize {
        self.min_keep
    }

    /// A sampler with target `p` that keeps at least `min_keep` entries.
    pub fn new(p: L, min_keep: usize) -> (r: Self)
        ensures
            r.p_spec() == p,
            r.min_keep_spec() == min_keep,
    {
        Self { p, min_keep }
    }

    /// The same sampler with `min_keep` replaced by `val`.
    pub fn min_keep(self, val: usize) -> (r: Self)
        ensures
            r.p_spec() == self.p_spec(),
            r.min_keep_spec() == val,
    {
        Self { p: self.p, min_keep: val }
    }

    /// The same sampler with the target replaced by `val`.
    pub fn p(self, val: L) -> (r: Self)
        ensures
            r.p_spec() == val,
            r.min_keep_spec() == self.min_keep_spec(),
    {
        Self { p: val, min_keep: self.min_keep }
    }
}

impl<L: CanLogit> Default for SampleTopP<L> {
    /// A target of nine tenths, keeping at least one entry.
    fn default() -> (r: Self)
        ensures
            r.p_spec() == default_p::<L>(),
            r.min_keep_spec() == 1,
    {
        Self { p: L::from_u32(9).div(L::from_u32(10)), min_keep: 1 }
    }
}

impl<TID, L: CanLogit> Sampler<TID, L> for SampleTopP<L> {
    open spec fn keeps_at_least(&self) -> usize {
        self.min_keep_spec()
    }

    /// Makes the probabilities current, walks them in order and cuts the
    /// buffer after the first entry at which the running sum has reached
    /// `p` and at least `min_keep` entries have been seen. A buffer that
    /// never gets there is kept whole. Where entries were removed the
    /// probabilities are marked stale. The only failure is a stale, empty
    /// buffer, which is left as it was.
    fn sample<'a>(&mut self, logits: &'a mut LogitsBuffer<TID, L>) -> (r: Result<
        &'a mut LogitsBuffer<TID, L>,
        SamplerError,
    >)
        ensures
            *final(self) == *old(self),
            r is Err <==> old(logits)@.softmax_fails(),
            match r {
                Ok(out) => out@ == top_p_filtered(
                    old(logits)@,
                    old(self).p_spec(),
                    old(self).min_keep_spec(),
                ),
                Err(e) => final(logits)@ == old(logits)@ && e.message_spec()
                    == top_p_softmax_message(),
            },
    {
        let p: L = self.p;
        let min_keep: usize = self.min_keep;
        match logits.ensure_softmax() {
            Ok(()) => {},
            Err(e) => {
                let msg = String::from_str("Failed to ensure softmax before sampling: ").concat(
                    e.message().as_str(),
                );
                proof {
                    lemma_keeps_prefix_refl(old(logits)@);
                }
                return Err(SamplerError::InternalError(msg));
            },
        }
        let ghost current = logits@;
        let ghost probs = probs_of(current.entries);
        let n: usize = logits.len();
        let mut cum_sum: L = L::zero();
        let mut last_idx: usize = n;
        let mut idx: usize = 0;
        let mut stopped: bool = false;
        while idx < n && !stopped
            invariant
                idx <= n,
                n == probs.len(),
                logits@ == current,
                probs == probs_of(current.entries),
                !stopped ==> last_idx == n,
                !stopped ==> cum_sum == prefix_sum(probs, idx as int),
                !stopped ==> forall|j: int|
                    0 <= j < idx ==> !(#[trigger] top_p_stops(probs, p, min_keep)(j)),
                stopped ==> last_idx as int == top_p_keep(probs, p, min_keep),
                last_idx <= n,
            decreases n - idx,
        {
            cum_sum = cum_sum.add(logits.as_slice()[idx].prob);
            if cum_sum.ge(p) && idx + 1 >= min_keep {
                proof {
                    lemma_first_stop_unique(
                        top_p_stops(probs, p, min_keep),
                        0,
                        n as int,
                        idx as int,
                    );
                }
                last_idx = idx + 1;
                stopped = true;
            }
            idx += 1;
        }
        proof {
            lemma_first_stop(top_p_stops(probs, p, min_keep), 0, n as int);
            assert(last_idx as int == top_p_keep(probs, p, min_keep));
            lemma_top_p_keep_bounds(probs, p, min_keep);
            lemma_softmaxed_keeps(old(logits)@);
            lemma_truncated_keeps(current, last_idx as int);
            lemma_keeps_prefix_trans(old(logits)@, current, current.truncated(last_idx as int));
        }
        if last_idx != n {
            logits.truncate(last_idx);
            logits.set_softmax(false);
        }
        Ok(logits)
    }
}

/// The description of the parameter `p`.
pub open spec fn top_p_option_p() -> OptionMetadataView {
    OptionMetadataView {
        key: "p"@,
        description: Some("Target value for cumulative probabilities."@),
        option_type: SamplerOptionType::Float,
    }
}

/// The description of the parameter `min_keep`.
pub open spec fn top_p_option_min_keep() -> OptionMetadataView {
    OptionMetadataView {
        key: "min_keep"@,
        description: Some(
            "Minimum number of tokens to keep after sampling. Setting this to 0 is not recommended."@,
        ),
        option_type: SamplerOptionType::UInt,
    }
}

/// The description of the top-P sampler: `p` first, `min_keep` second.
pub open spec fn top_p_metadata() -> SamplerMetadataView {
    SamplerMetadataView {
        name: "top-p"@,
        description: Some(
            "This sampler adds up the token probabilities until the value is greater or equal to p and at least min_keep tokens have been encountered. The remaining tokens are eliminated."@,
        ),
        options: seq![top_p_option_p(), top_p_option_min_keep()],
    }
}

fn option_p() -> (r: SamplerOptionMetadata)
    ensures
        r@ == top_p_option_p(),
{
    SamplerOptionMetadata {
        key: "p",
        description: Some("Target value for cumulative probabilities."),
        option_type: SamplerOptionType::Float,
    }
}

fn option_min_keep() -> (r: SamplerOptionMetadata)
    ensures
        r@ == top_p_option_min_keep(),
{
    SamplerOptionMetadata {
        key: "min_keep",
        description: Some(
            "Minimum number of tokens to keep after sampling. Setting this to 0 is not recommended.",
        ),
        option_type: SamplerOptionType::UInt,
    }
}

impl<L: CanLogit> HasSamplerMetadata<L> for SampleTopP<L> {
    open spec fn metadata_spec(&self) -> SamplerMetadataView {
        top_p_metadata()
    }

    fn sampler_metadata(&self) -> (r: SamplerMetadata) {
        let mut options: Vec<SamplerOptionMetadata> = Vec::new();
        options.push(option_p());
        options.push(option_min_keep());
        let r = SamplerMetadata {
            name: "top-p",
            description: Some(
                "This sampler adds up the token probabilities until the value is greater or equal to p and at least min_keep tokens have been encountered. The remaining tokens are eliminated.",
            ),
            options,
        };
        proof {
            assert(r@.options =~= top_p_metadata().options);
        }
        r
    }

    /// The present values: slot 0 holds `p`, slot 1 holds `min_keep`.
    fn sampler_options(&self) -> (r: SamplerOptions<SamplerOptionValue<L>>)
        ensures
            r.options@.len() == 2,
            r.options@[0].1 == Some(SamplerOptionValue::Float(self.p_spec())),
            r.options@[1].1 == Some(SamplerOptionValue::<L>::UInt(self.min_keep_spec())),
    {
        let mut options: Vec<(SamplerOptionMetadata, Option<SamplerOptionValue<L>>)> = Vec::new();
        options.push((option_p(), Some(SamplerOptionValue::Float(self.p))));
        options.push((option_min_keep(), Some(SamplerOptionValue::UInt(self.min_keep))));
        let r = SamplerOptions { options };
        proof {
            assert(r.descriptions() =~= top_p_metadata().options);
        }
        r
    }

    /// Write access: slot 0 points at `p`, slot 1 at `min_keep`. What is
    /// written through a slot is what the sampler holds afterwards.
    fn sampler_options_mut(&mut self) -> (r: SamplerOptions<SamplerOptionValueMut<'_, L>>)
        ensures
            r.options@.len() == 2,
            r.options@[0].1 matches Some(SamplerOptionValueMut::Float(slot)) && *slot == old(
                self,
            ).p_spec() && *final(slot) == final(self).p_spec(),
            r.options@[1].1 matches Some(SamplerOptionValueMut::UInt(slot)) && *slot == old(
                self,
            ).min_keep_spec() && *final(slot) == final(self).min_keep_spec(),
    {
        let mut options: Vec<(SamplerOptionMetadata, Option<SamplerOptionValueMut<'_, L>>)> =
            Vec::new();
        options.push((option_p(), Some(SamplerOptionValueMut::Float(&mut self.p))));
        options.push((option_min_keep(), Some(SamplerOptionValueMut::UInt(&mut self.min_keep))));
        let r = SamplerOptions { options };
        proof {
            assert(r.descriptions() =~= top_p_metadata().options);
        }
        r
    }
}

} // verus!
