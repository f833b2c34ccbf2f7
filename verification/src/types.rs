//! The scalar abstraction, the logits buffer and the sampler interface.
use vstd::prelude::*;

verus! {

/// A scalar that can serve as a logit and as a probability.
///
/// Each operation has a specification function of the same name with the
/// suffix `_spec`; the executable method returns exactly what the
/// specification function denotes. Nothing is assumed of the arithmetic
/// beyond the three laws below, so rounding scalars qualify.
pub trait CanLogit: Copy {
    /// The additive identity.
    spec fn zero_spec() -> Self;

    /// The multiplicative identity: the whole of a probability.
    spec fn one_spec() -> Self;

    /// The scalar that stands for the integer `n`.
    spec fn from_u32_spec(n: u32) -> Self;

    /// `self + rhs`.
    spec fn add_spec(self, rhs: Self) -> Self;

    /// `self - rhs`.
    spec fn sub_spec(self, rhs: Self) -> Self;

    /// `self / rhs`. Total: the scalar says what division by a zero gives.
    spec fn div_spec(self, rhs: Self) -> Self;

    /// The magnitude of `self`.
    spec fn abs_spec(self) -> Self;

    /// The exponential of `self`.
    spec fn exp_spec(self) -> Self;

    /// `self >= rhs` in the scalar's order.
    spec fn ge_spec(self, rhs: Self) -> bool;

    /// `self > rhs` in the scalar's order.
    spec fn gt_spec(self, rhs: Self) -> bool;

    /// Whether the scalar is a zero of the arithmetic.
    spec fn is_zero_spec(self) -> bool;

    /// The order is transitive.
    proof fn lemma_ge_transitive(a: Self, b: Self, c: Self)
        requires
            a.ge_spec(b),
            b.ge_spec(c),
        ensures
            a.ge_spec(c),
    ;

    /// The additive identity is a zero.
    proof fn lemma_zero_is_zero()
        ensures
            Self::zero_spec().is_zero_spec(),
    ;

    /// Adding two zeros gives a zero.
    proof fn lemma_add_zeros(a: Self, b: Self)
        requires
            a.is_zero_spec(),
            b.is_zero_spec(),
        ensures
            a.add_spec(b).is_zero_spec(),
    ;

    fn zero() -> (r: Self)
        ensures
            r == Self::zero_spec(),
    ;

    fn one() -> (r: Self)
        ensures
            r == Self::one_spec(),
    ;

    fn from_u32(n: u32) -> (r: Self)
        ensures
            r == Self::from_u32_spec(n),
    ;

    fn add(self, rhs: Self) -> (r: Self)
        ensures
            r == self.add_spec(rhs),
    ;

    fn sub(self, rhs: Self) -> (r: Self)
        ensures
            r == self.sub_spec(rhs),
    ;

    fn div(self, rhs: Self) -> (r: Self)
        ensures
            r == self.div_spec(rhs),
    ;

    fn abs(self) -> (r: Self)
        ensures
            r == self.abs_spec(),
    ;

    fn exp(self) -> (r: Self)
        ensures
            r == self.exp_spec(),
    ;

    fn ge(self, rhs: Self) -> (r: bool)
        ensures
            r == self.ge_spec(rhs),
    ;

    fn gt(self, rhs: Self) -> (r: bool)
        ensures
            r == self.gt_spec(rhs),
    ;

    fn is_zero(self) -> (r: bool)
        ensures
            r == self.is_zero_spec(),
    ;
}

/// The left-to-right sum of the first `n` scalars of `s`, starting from zero.
pub open spec fn prefix_sum<L: CanLogit>(s: Seq<L>, n: int) -> L
    decreases n,
{
    if n <= 0 {
        L::zero_spec()
    } else {
        prefix_sum(s, n - 1).add_spec(s[n - 1])
    }
}

/// A sum of zeros is a zero.
pub proof fn lemma_sum_of_zeros<L: CanLogit>(s: Seq<L>, n: int)
    requires
        0 <= n <= s.len(),
        forall|i: int| 0 <= i < n ==> (#[trigger] s[i]).is_zero_spec(),
    ensures
        prefix_sum(s, n).is_zero_spec(),
    decreases n,
{
    if n == 0 {
        L::lemma_zero_is_zero();
    } else {
        lemma_sum_of_zeros(s, n - 1);
        L::lemma_add_zeros(prefix_sum(s, n - 1), s[n - 1]);
    }
}

/// What can go wrong while sampling.
#[derive(Debug, PartialEq, Eq)]
pub enum SamplerError {
    /// A condition that a correctly built buffer never meets.
    InternalError(String),
}

impl Clone for SamplerError {
    /// An error of the same kind with the same text.
    fn clone(&self) -> (r: Self)
        ensures
            r.message_spec() == self.message_spec(),
    {
        match self {
            SamplerError::InternalError(msg) => SamplerError::InternalError(msg.clone()),
        }
    }
}

impl SamplerError {
    /// The text carried by the error.
    pub open spec fn message_spec(self) -> Seq<char> {
        match self {
            SamplerError::InternalError(msg) => msg@,
        }
    }

    /// The text carried by the error.
    pub fn message(&self) -> (r: String)
        ensures
            r@ == self.message_spec(),
    {
        match self {
            SamplerError::InternalError(msg) => msg.clone(),
        }
    }
}

/// One candidate token: its identifier, its raw score and its probability.
///
/// The probability means something only while the buffer that owns the
/// entry reports its probabilities as current.
#[derive(Debug, PartialEq)]
pub struct LogitEntry<TID, L> {
    pub token_id: TID,
    pub logit: L,
    pub prob: L,
}

impl<TID: Copy, L: Copy> Clone for LogitEntry<TID, L> {
    fn clone(&self) -> (r: Self)
        ensures
            r == *self,
    {
        *self
    }
}

impl<TID: Copy, L: Copy> Copy for LogitEntry<TID, L> {

}

/// The mathematical content of a [`LogitsBuffer`].
pub struct LogitsView<TID, L> {
    pub entries: Seq<LogitEntry<TID, L>>,
    pub softmax_valid: bool,
}

/// The raw scores of a sequence of entries, in order.
pub open spec fn logits_of<TID, L>(entries: Seq<LogitEntry<TID, L>>) -> Seq<L> {
    Seq::new(entries.len(), |i: int| entries[i].logit)
}

/// The probabilities of a sequence of entries, in order.
pub open spec fn probs_of<TID, L>(entries: Seq<LogitEntry<TID, L>>) -> Seq<L> {
    Seq::new(entries.len(), |i: int| entries[i].prob)
}

/// The token identifiers of a sequence of entries, in order.
pub open spec fn token_ids_of<TID, L>(entries: Seq<LogitEntry<TID, L>>) -> Seq<TID> {
    Seq::new(entries.len(), |i: int| entries[i].token_id)
}

/// The same entries with their probabilities replaced by `probs`.
pub open spec fn with_probs<TID, L>(entries: Seq<LogitEntry<TID, L>>, probs: Seq<L>) -> Seq<
    LogitEntry<TID, L>,
> {
    Seq::new(
        entries.len(),
        |i: int| LogitEntry { token_id: entries[i].token_id, logit: entries[i].logit, prob: probs[i] },
    )
}

/// Each score is at least the score that follows it.
pub open spec fn sorted_descending<L: CanLogit>(logits: Seq<L>) -> bool {
    forall|i: int| 0 <= i && i + 1 < logits.len() ==> (#[trigger] logits[i]).ge_spec(logits[i + 1])
}

/// In scores in descending order the leading score is at least every score
/// after it.
pub proof fn lemma_leading_is_greatest<L: CanLogit>(logits: Seq<L>, i: int)
    requires
        sorted_descending(logits),
        0 < i < logits.len(),
    ensures
        logits[0].ge_spec(logits[i]),
    decreases i,
{
    assert(logits[i - 1].ge_spec(logits[i - 1 + 1]));
    if i > 1 {
        lemma_leading_is_greatest(logits, i - 1);
        L::lemma_ge_transitive(logits[0], logits[i - 1], logits[i]);
    }
}

/// `exp(logit - leading logit)` for every score. In a sorted buffer the
/// leading score is the greatest, which keeps the exponent from growing.
pub open spec fn softmax_weights<L: CanLogit>(logits: Seq<L>) -> Seq<L> {
    Seq::new(logits.len(), |i: int| logits[i].sub_spec(logits[0]).exp_spec())
}

/// Every weight divided by the left-to-right sum of all weights.
pub open spec fn softmax_probs<L: CanLogit>(logits: Seq<L>) -> Seq<L> {
    let weights = softmax_weights(logits);
    let total = prefix_sum(weights, weights.len() as int);
    Seq::new(logits.len(), |i: int| weights[i].div_spec(total))
}

impl<TID, L: CanLogit> LogitsView<TID, L> {
    /// The scores are in descending order.
    pub open spec fn is_sorted(self) -> bool {
        sorted_descending(logits_of(self.entries))
    }

    /// The buffer with current probabilities: unchanged if they are current
    /// already, recomputed from the scores of the present entries otherwise.
    pub open spec fn softmaxed(self) -> Self {
        if self.softmax_valid {
            self
        } else {
            LogitsView {
                entries: with_probs(self.entries, softmax_probs(logits_of(self.entries))),
                softmax_valid: true,
            }
        }
    }

    /// The first `n` entries, with the same flag; everything if `n` is not
    /// smaller than the length.
    pub open spec fn truncated(self, n: int) -> Self {
        if 0 <= n < self.entries.len() {
            LogitsView { entries: self.entries.take(n), softmax_valid: self.softmax_valid }
        } else {
            self
        }
    }

    /// The same entries with the flag set to `valid`.
    pub open spec fn flagged(self, valid: bool) -> Self {
        LogitsView { entries: self.entries, softmax_valid: valid }
    }

    /// The flag tells the truth: if it says that the probabilities are
    /// current, they are the softmax over the scores of the present entries.
    pub open spec fn probs_current(self) -> bool {
        self.softmax_valid ==> probs_of(self.entries) == softmax_probs(logits_of(self.entries))
    }

    /// Probabilities cannot be made current: they are stale and there is
    /// no entry to normalise over.
    pub open spec fn softmax_fails(self) -> bool {
        !self.softmax_valid && self.entries.len() == 0
    }
}

/// The text of the error for a softmax over no entries.
pub open spec fn empty_softmax_message() -> Seq<char> {
    "cannot compute softmax over an empty set of logits"@
}

/// The text of the error for entries that are not in descending order.
pub open spec fn unsorted_message() -> Seq<char> {
    "logits are not sorted in descending order"@
}

/// An ordered collection of candidate tokens, sorted by descending score,
/// with a flag that tells whether the stored probabilities are current.
#[derive(Debug, PartialEq)]
pub struct LogitsBuffer<TID, L: CanLogit> {
    entries: Vec<LogitEntry<TID, L>>,
    softmax_valid: bool,
}

impl<TID, L: CanLogit> View for LogitsBuffer<TID, L> {
    type V = LogitsView<TID, L>;

    closed spec fn view(&self) -> LogitsView<TID, L> {
        LogitsView { entries: self.entries@, softmax_valid: self.softmax_valid }
    }
}

impl<TID: Copy, L: CanLogit> Clone for LogitsBuffer<TID, L> {
    /// A buffer with the same entries and the same flag.
    fn clone(&self) -> (r: Self)
        ensures
            r@ == self@,
    {
        proof {
            use_type_invariant(self);
        }
        let n: usize = self.entries.len();
        let mut entries: Vec<LogitEntry<TID, L>> = Vec::with_capacity(n);
        let mut i: usize = 0;
        while i < n
            invariant
                i <= n,
                n == self.entries@.len(),
                entries@ == self.entries@.take(i as int),
            decreases n - i,
        {
            entries.push(self.entries[i]);
            proof {
                assert(entries@ =~= self.entries@.take(i + 1));
            }
            i += 1;
        }
        proof {
            assert(entries@ =~= self.entries@);
        }
        LogitsBuffer { entries, softmax_valid: self.softmax_valid }
    }
}

impl<TID, L: CanLogit> LogitsBuffer<TID, L> {
    /// The buffer's invariant: the scores are in descending order.
    #[verifier::type_invariant]
    spec fn ordered(self) -> bool {
        sorted_descending(logits_of(self.entries@))
    }

    /// An empty buffer. Its probabilities are not current.
    pub fn new() -> (r: Self)
        ensures
            r@.entries.len() == 0,
            !r@.softmax_valid,
    {
        LogitsBuffer { entries: Vec::new(), softmax_valid: false }
    }

    /// A buffer over `entries`, which must be in descending order of score.
    /// `softmax_valid` says whether the probabilities they carry are current.
    /// Entries out of order are refused with an internal error.
    pub fn from_entries(entries: Vec<LogitEntry<TID, L>>, softmax_valid: bool) -> (r: Result<
        Self,
        SamplerError,
    >)
        ensures
            r is Ok <==> sorted_descending(logits_of(entries@)),
            r matches Ok(buf) ==> buf@ == (LogitsView {
                entries: entries@,
                softmax_valid,
            }),
            r matches Err(e) ==> e.message_spec() == unsorted_message(),
    {
        let n: usize = entries.len();
        let mut i: usize = 1;
        while i < n
            invariant
                1 <= i,
                n == entries@.len(),
                forall|j: int|
                    0 <= j && j + 1 < i ==> (#[trigger] logits_of(entries@)[j]).ge_spec(
                        logits_of(entries@)[j + 1],
                    ),
            decreases n - i,
        {
            if !entries[i - 1].logit.ge(entries[i].logit) {
                proof {
                    let logits = logits_of(entries@);
                    if sorted_descending(logits) {
                        assert(logits[i - 1].ge_spec(logits[i - 1 + 1]));
                    }
                }
                return Err(
                    SamplerError::InternalError(
                        String::from_str("logits are not sorted in descending order"),
                    ),
                );
            }
            i += 1;
        }
        Ok(LogitsBuffer { entries, softmax_valid })
    }

    /// Makes the probabilities current. If they are current already nothing
    /// changes. Otherwise every probability becomes
    /// `exp(logit - leading logit)` divided by the sum of those terms over
    /// the present entries, and the flag is set. The leading score is at
    /// least every other score of the buffer. With stale probabilities and
    /// no entry there is nothing to normalise over: an internal error.
    pub fn ensure_softmax(&mut self) -> (r: Result<(), SamplerError>)
        ensures
            r is Err <==> old(self)@.softmax_fails(),
            r is Ok ==> final(self)@ == old(self)@.softmaxed(),
            r matches Err(e) ==> final(self)@ == old(self)@ && e.message_spec()
                == empty_softmax_message(),
            old(self)@.probs_current() ==> final(self)@.probs_current(),
            forall|i: int|
                0 < i < old(self)@.entries.len() ==> old(self)@.entries[0].logit.ge_spec(
                    (#[trigger] old(self)@.entries[i]).logit,
                ),
    {
        proof {
            use_type_invariant(&*self);
            if self@.probs_current() {
                lemma_softmaxed_is_current(self@);
            }
            assert forall|i: int| 0 < i < self@.entries.len() implies self@.entries[0].logit.ge_spec(
                (#[trigger] self@.entries[i]).logit,
            ) by {
                lemma_leading_is_greatest(logits_of(self@.entries), i);
            }
        }
        if self.softmax_valid {
            return Ok(());
        }
        let n: usize = self.entries.len();
        if n == 0 {
            return Err(
                SamplerError::InternalError(
                    String::from_str("cannot compute softmax over an empty set of logits"),
                ),
            );
        }
        // The entries are worked on outside the buffer, which holds none
        // meanwhile, so that the buffer is in order at every step.
        let mut entries: Vec<LogitEntry<TID, L>> = Vec::new();
        core::mem::swap(&mut self.entries, &mut entries);
        let ghost before = entries@;
        let ghost weights = softmax_weights(logits_of(before));
        let max_logit: L = entries[0].logit;
        let mut total: L = L::zero();
        let mut i: usize = 0;
        while i < n
            invariant
                i <= n,
                n == before.len(),
                entries@.len() == n,
                weights == softmax_weights(logits_of(before)),
                max_logit == before[0].logit,
                total == prefix_sum(weights, i as int),
                forall|j: int|
                    0 <= j < n ==> (#[trigger] entries@[j]).token_id == before[j].token_id
                        && entries@[j].logit == before[j].logit,
                forall|j: int| 0 <= j < i ==> (#[trigger] entries@[j]).prob == weights[j],
            decreases n - i,
        {
            let weight: L = entries[i].logit.sub(max_logit).exp();
            entries[i].prob = weight;
            total = total.add(weight);
            i += 1;
        }
        let ghost probs = softmax_probs(logits_of(before));
        let mut k: usize = 0;
        while k < n
            invariant
                k <= n,
                n == before.len(),
                entries@.len() == n,
                weights == softmax_weights(logits_of(before)),
                probs == softmax_probs(logits_of(before)),
                total == prefix_sum(weights, n as int),
                forall|j: int|
                    0 <= j < n ==> (#[trigger] entries@[j]).token_id == before[j].token_id
                        && entries@[j].logit == before[j].logit,
                forall|j: int| 0 <= j < k ==> (#[trigger] entries@[j]).prob == probs[j],
                forall|j: int| k <= j < n ==> (#[trigger] entries@[j]).prob == weights[j],
            decreases n - k,
        {
            let prob: L = entries[k].prob.div(total);
            entries[k].prob = prob;
            k += 1;
        }
        proof {
            assert(entries@ =~= with_probs(before, probs));
            assert(logits_of(entries@) =~= logits_of(before));
        }
        core::mem::swap(&mut self.entries, &mut entries);
        self.softmax_valid = true;
        Ok(())
    }

    /// Number of entries.
    pub fn len(&self) -> (r: usize)
        ensures
            r == self@.entries.len(),
    {
        self.entries.len()
    }

    /// Whether the buffer holds no entry.
    pub fn is_empty(&self) -> (r: bool)
        ensures
            r == (self@.entries.len() == 0),
    {
        self.entries.len() == 0
    }

    /// The entry at `index`, if there is one.
    pub fn get(&self, index: usize) -> (r: Option<&LogitEntry<TID, L>>)
        ensures
            index < self@.entries.len() ==> r == Some(&self@.entries[index as int]),
            index >= self@.entries.len() ==> r is None,
    {
        if index < self.entries.len() {
            Some(&self.entries[index])
        } else {
            None
        }
    }

    /// All entries in order, for reading. Their scores are descending.
    pub fn as_slice(&self) -> (r: &[LogitEntry<TID, L>])
        ensures
            r@ == self@.entries,
            sorted_descending(logits_of(r@)),
    {
        proof {
            use_type_invariant(self);
        }
        self.entries.as_slice()
    }

    /// Whether the stored probabilities are current.
    pub fn softmax_valid(&self) -> (r: bool)
        ensures
            r == self@.softmax_valid,
    {
        self.softmax_valid
    }

    /// Marks the stored probabilities as current or stale.
    pub fn set_softmax(&mut self, valid: bool)
        ensures
            final(self)@ == old(self)@.flagged(valid),
    {
        proof {
            use_type_invariant(&*self);
        }
        self.softmax_valid = valid;
    }

    /// Keeps the first `n` entries and drops the rest; does nothing if `n`
    /// is not smaller than the length. The flag is left as it is: a caller
    /// that removes entries this way marks the probabilities stale itself.
    pub fn truncate(&mut self, n: usize)
        ensures
            final(self)@ == old(self)@.truncated(n as int),
    {
        proof {
            use_type_invariant(&*self);
            lemma_take_keeps_order(
                self.entries@,
                if n < self.entries@.len() {
                    n as int
                } else {
                    self.entries@.len() as int
                },
            );
            assert(self.entries@.take(self.entries@.len() as int) =~= self.entries@);
        }
        // The vector is shortened outside the buffer, which holds an empty
        // one meanwhile, so that the buffer is in order at every step.
        let mut entries: Vec<LogitEntry<TID, L>> = Vec::new();
        core::mem::swap(&mut self.entries, &mut entries);
        entries.truncate(n);
        core::mem::swap(&mut self.entries, &mut entries);
        proof {
            assert(self@.entries =~= old(self)@.truncated(n as int).entries);
        }
    }
}

/// A prefix of entries in descending order is in descending order.
pub proof fn lemma_take_keeps_order<TID, L: CanLogit>(entries: Seq<LogitEntry<TID, L>>, n: int)
    requires
        sorted_descending(logits_of(entries)),
        0 <= n <= entries.len(),
    ensures
        sorted_descending(logits_of(entries.take(n))),
        logits_of(entries.take(n)) == logits_of(entries).take(n),
        probs_of(entries.take(n)) == probs_of(entries).take(n),
        token_ids_of(entries.take(n)) == token_ids_of(entries).take(n),
{
    assert(logits_of(entries.take(n)) =~= logits_of(entries).take(n));
    assert(probs_of(entries.take(n)) =~= probs_of(entries).take(n));
    assert(token_ids_of(entries.take(n)) =~= token_ids_of(entries).take(n));
    let all = logits_of(entries);
    let kept = logits_of(entries.take(n));
    assert forall|i: int| 0 <= i && i + 1 < kept.len() implies (#[trigger] kept[i]).ge_spec(
        kept[i + 1],
    ) by {
        assert(all[i].ge_spec(all[i + 1]));
    }
}

/// The least index in `[from, len)` at which `stops` holds, or `len` if it
/// holds at none of them.
pub open spec fn first_stop(stops: spec_fn(int) -> bool, from: int, len: int) -> int
    decreases len - from,
{
    if from >= len {
        len
    } else if stops(from) {
        from
    } else {
        first_stop(stops, from + 1, len)
    }
}

/// `first_stop` returns an index at which `stops` holds and before which it
/// does not, or `len` when it holds nowhere in the range.
pub proof fn lemma_first_stop(stops: spec_fn(int) -> bool, from: int, len: int)
    requires
        from <= len,
    ensures
        from <= first_stop(stops, from, len) <= len,
        first_stop(stops, from, len) < len ==> stops(first_stop(stops, from, len)),
        forall|j: int| from <= j < first_stop(stops, from, len) ==> !(#[trigger] stops(j)),
    decreases len - from,
{
    if from < len && !stops(from) {
        lemma_first_stop(stops, from + 1, len);
    }
}

/// An index with the two properties of the least stopping index is the
/// value of `first_stop`.
pub proof fn lemma_first_stop_unique(stops: spec_fn(int) -> bool, from: int, len: int, r: int)
    requires
        from <= r <= len,
        r < len ==> stops(r),
        forall|j: int| from <= j < r ==> !(#[trigger] stops(j)),
    ensures
        first_stop(stops, from, len) == r,
    decreases len - from,
{
    if from < r {
        lemma_first_stop_unique(stops, from + 1, len, r);
    }
}

/// The smaller of a sampler's `min_keep` and the number of entries it is
/// given: no sampler leaves fewer entries than this.
pub open spec fn min_keep_floor(min_keep: usize, len: nat) -> nat {
    if min_keep <= len {
        min_keep as nat
    } else {
        len
    }
}

/// `after` holds the first entries of `before`, in the same order, with the
/// same token identifiers and scores.
pub open spec fn keeps_prefix<TID, L>(before: LogitsView<TID, L>, after: LogitsView<TID, L>) -> bool {
    &&& after.entries.len() <= before.entries.len()
    &&& token_ids_of(after.entries) == token_ids_of(before.entries).take(
        after.entries.len() as int,
    )
    &&& logits_of(after.entries) == logits_of(before.entries).take(after.entries.len() as int)
}

/// Every buffer keeps a prefix of itself: all of it.
pub proof fn lemma_keeps_prefix_refl<TID, L>(view: LogitsView<TID, L>)
    ensures
        keeps_prefix(view, view),
{
    assert(token_ids_of(view.entries).take(view.entries.len() as int) =~= token_ids_of(
        view.entries,
    ));
    assert(logits_of(view.entries).take(view.entries.len() as int) =~= logits_of(view.entries));
}

/// A prefix of a prefix is a prefix.
pub proof fn lemma_keeps_prefix_trans<TID, L>(
    a: LogitsView<TID, L>,
    b: LogitsView<TID, L>,
    c: LogitsView<TID, L>,
)
    requires
        keeps_prefix(a, b),
        keeps_prefix(b, c),
    ensures
        keeps_prefix(a, c),
{
    let n = c.entries.len() as int;
    let m = b.entries.len() as int;
    assert(token_ids_of(a.entries).take(m).take(n) =~= token_ids_of(a.entries).take(n));
    assert(logits_of(a.entries).take(m).take(n) =~= logits_of(a.entries).take(n));
}

/// Making probabilities current changes no token identifier, no score and
/// no position.
pub proof fn lemma_softmaxed_keeps<TID, L: CanLogit>(view: LogitsView<TID, L>)
    ensures
        view.softmaxed().entries.len() == view.entries.len(),
        token_ids_of(view.softmaxed().entries) == token_ids_of(view.entries),
        logits_of(view.softmaxed().entries) == logits_of(view.entries),
        keeps_prefix(view, view.softmaxed()),
        view.is_sorted() ==> view.softmaxed().is_sorted(),
{
    assert(token_ids_of(view.softmaxed().entries) =~= token_ids_of(view.entries));
    assert(logits_of(view.softmaxed().entries) =~= logits_of(view.entries));
    lemma_keeps_prefix_refl(view);
}

/// Making probabilities current keeps the flag truthful, and makes it
/// truthful where the probabilities were stale.
pub proof fn lemma_softmaxed_is_current<TID, L: CanLogit>(view: LogitsView<TID, L>)
    requires
        view.probs_current(),
    ensures
        view.softmaxed().probs_current(),
        view.softmaxed().softmax_valid,
{
    assert(logits_of(view.softmaxed().entries) =~= logits_of(view.entries));
    if !view.softmax_valid {
        assert(probs_of(view.softmaxed().entries) =~= softmax_probs(logits_of(view.entries)));
    }
}

/// Truncation leaves a prefix, in order.
pub proof fn lemma_truncated_keeps<TID, L: CanLogit>(view: LogitsView<TID, L>, n: int)
    ensures
        keeps_prefix(view, view.truncated(n)),
        view.is_sorted() ==> view.truncated(n).is_sorted(),
        view.truncated(n).entries.len() == if 0 <= n < view.entries.len() {
            n
        } else {
            view.entries.len() as int
        },
{
    if 0 <= n < view.entries.len() {
        assert(token_ids_of(view.entries.take(n)) =~= token_ids_of(view.entries).take(n));
        assert(logits_of(view.entries.take(n)) =~= logits_of(view.entries).take(n));
        if view.is_sorted() {
            lemma_take_keeps_order(view.entries, n);
        }
    } else {
        lemma_keeps_prefix_refl(view);
    }
}

/// The probabilities that a later pass works on after an earlier pass kept
/// the first `keep` entries, removed the rest and marked the probabilities
/// stale: the softmax over the scores of the survivors alone.
pub open spec fn renormalised_probs<TID, L: CanLogit>(view: LogitsView<TID, L>, keep: int) -> Seq<
    L,
> {
    softmax_probs(logits_of(view.entries).take(keep))
}

/// What a pass sees after an earlier pass cut the buffer to `keep` entries
/// and marked the probabilities stale: the survivors carry the leading
/// scores of the input, and making their probabilities current
/// renormalises them over the survivors alone.
pub proof fn lemma_stale_survivors<TID, L: CanLogit>(view: LogitsView<TID, L>, keep: int)
    requires
        0 <= keep < view.entries.len(),
    ensures
        ({
            let cut = view.softmaxed().truncated(keep).flagged(false);
            &&& cut.entries.len() == keep
            &&& cut.entries == view.softmaxed().entries.take(keep)
            &&& logits_of(cut.entries) == logits_of(view.entries).take(keep)
            &&& token_ids_of(cut.entries) == token_ids_of(view.entries).take(keep)
            &&& probs_of(cut.softmaxed().entries) == renormalised_probs(view, keep)
        }),
{
    let current = view.softmaxed();
    let cut = current.truncated(keep).flagged(false);
    lemma_softmaxed_keeps(view);
    assert(cut.entries =~= current.entries.take(keep));
    assert(logits_of(cut.entries) =~= logits_of(view.entries).take(keep));
    assert(token_ids_of(cut.entries) =~= token_ids_of(view.entries).take(keep));
    assert(probs_of(cut.softmaxed().entries) =~= renormalised_probs(view, keep));
}

/// A transform of a logits buffer. A sampler works on the buffer in place
/// and hands the same buffer back for the next stage.
///
/// Whatever a sampler does, it never lengthens the buffer and never
/// reorders it: what is left is a prefix of what was given, by token
/// identifier and by score. Nor does it leave fewer entries than the floor
/// it is configured with, unless it was given fewer. And it keeps the flag
/// truthful: a sampler that removes entries marks the probabilities stale,
/// or renormalises them.
pub trait Sampler<TID, L: CanLogit> {
    /// The least number of entries that the sampler leaves in a buffer
    /// that holds at least that many. A sampler without such a floor
    /// answers zero.
    spec fn keeps_at_least(&self) -> usize;

    /// Filters `logits` in place. On success the result is `logits`
    /// itself, for the next stage to work on.
    fn sample<'a>(&mut self, logits: &'a mut LogitsBuffer<TID, L>) -> (r: Result<
        &'a mut LogitsBuffer<TID, L>,
        SamplerError,
    >)
        ensures
            match r {
                Ok(out) => {
                    &&& *final(out) == *final(logits)
                    &&& keeps_prefix(old(logits)@, out@)
                    &&& out@.entries.len() >= min_keep_floor(
                        old(self).keeps_at_least(),
                        old(logits)@.entries.len(),
                    )
                    &&& old(logits)@.probs_current() ==> out@.probs_current()
                },
                Err(_) => {
                    &&& keeps_prefix(old(logits)@, final(logits)@)
                    &&& final(logits)@.entries.len() >= min_keep_floor(
                        old(self).keeps_at_least(),
                        old(logits)@.entries.len(),
                    )
                    &&& old(logits)@.probs_current() ==> final(logits)@.probs_current()
                },
            },
    ;
}

} // verus!
