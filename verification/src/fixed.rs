//! A fixed-point scalar: a signed count of billionths.
//!
//! Every operation is exact integer arithmetic with a stated rounding, so
//! the samplers' contracts can be evaluated to concrete numbers with it.
//! Results that do not fit are clamped to the nearest representable value.
use crate::types::CanLogit;
use vstd::prelude::*;

verus! {

/// How many units make one.
pub const SCALE: i64 = 1_000_000_000;

/// The natural logarithm of two, in units, rounded up.
pub const LN2: i64 = 693_147_181;

/// How many terms of the exponential series are evaluated after the
/// leading one.
pub const EXP_TERMS: i64 = 12;

/// The number of halvings after which nothing is left of one.
pub const EXP_MAX_HALVINGS: i64 = 30;

/// A signed fixed-point number with nine decimal places: `raw` counts
/// billionths.
#[derive(Clone, Copy, Debug, PartialEq, Eq, Structural)]
pub struct Fixed {
    pub raw: i64,
}

/// `v` if it fits in sixty-four bits, the nearest bound otherwise.
pub open spec fn clamped(v: int) -> i64 {
    if v < i64::MIN {
        i64::MIN
    } else if v > i64::MAX {
        i64::MAX
    } else {
        v as i64
    }
}

/// The absolute value of an integer.
pub open spec fn magnitude(v: int) -> int {
    if v < 0 {
        -v
    } else {
        v
    }
}

/// The quotient of two counts of units, as a count of units: magnitudes
/// are divided rounding towards zero and the sign is put back. Division by
/// zero gives the bound on the side of the dividend's sign, and zero for a
/// zero dividend.
pub open spec fn quotient(a: int, b: int) -> i64 {
    if b == 0 {
        if a > 0 {
            i64::MAX
        } else if a < 0 {
            i64::MIN
        } else {
            0
        }
    } else {
        let q = (magnitude(a) * SCALE) / magnitude(b);
        if (a < 0) != (b < 0) {
            clamped(-q)
        } else {
            clamped(q)
        }
    }
}

/// The exponential series of `-r` in nested form, from term `n` inwards:
/// `1 - r/n * (1 - r/(n+1) * (...))`, every division rounding down.
pub open spec fn exp_series(r: int, n: int) -> int
    decreases EXP_TERMS + 1 - n,
{
    if n > EXP_TERMS {
        SCALE as int
    } else {
        SCALE - (r * exp_series(r, n + 1)) / (n * SCALE)
    }
}

/// `t` halved `k` times, rounding down each time.
pub open spec fn halved(t: int, k: int) -> int
    decreases k,
{
    if k <= 0 {
        t
    } else {
        halved(t / 2, k - 1)
    }
}

/// The exponential of a count of units `x <= 0`, as a count of units.
/// With `-x = k * ln 2 + r` it is the series of `-r` halved `k` times.
pub open spec fn exp_of_nonpositive(x: int) -> int {
    let k = (-x) / (LN2 as int);
    let r = (-x) % (LN2 as int);
    if k >= EXP_MAX_HALVINGS {
        0
    } else {
        halved(exp_series(r, 1), k)
    }
}

/// The series stays between zero and one for an argument below one.
pub proof fn lemma_exp_series_bounds(r: int, n: int)
    requires
        0 <= r < SCALE,
        1 <= n,
    ensures
        0 <= exp_series(r, n) <= SCALE,
    decreases EXP_TERMS + 1 - n,
{
    if n <= EXP_TERMS {
        lemma_exp_series_bounds(r, n + 1);
        let inner = exp_series(r, n + 1);
        assert(0 <= r * inner <= SCALE * SCALE) by (nonlinear_arith)
            requires
                0 <= r < SCALE,
                0 <= inner <= SCALE,
        ;
        assert(0 <= (r * inner) / (n * SCALE) <= SCALE) by (nonlinear_arith)
            requires
                0 <= r * inner <= SCALE * SCALE,
                1 <= n,
        ;
    }
}

/// Halving keeps a value between zero and where it started.
pub proof fn lemma_halved_bounds(t: int, k: int)
    requires
        0 <= t,
    ensures
        0 <= halved(t, k) <= t,
    decreases k,
{
    if k > 0 {
        lemma_halved_bounds(t / 2, k - 1);
    }
}

/// The exponential of a value that is not positive lies between zero and
/// one, and the exponential of zero is one.
pub proof fn lemma_exp_of_nonpositive_bounds(x: int)
    requires
        x <= 0,
    ensures
        0 <= exp_of_nonpositive(x) <= SCALE,
        exp_of_nonpositive(0) == SCALE,
{
    let r = (-x) % (LN2 as int);
    lemma_exp_series_bounds(r, 1);
    lemma_halved_bounds(exp_series(r, 1), (-x) / (LN2 as int));
    lemma_exp_series_zero(1);
}

/// The series of zero is one.
pub proof fn lemma_exp_series_zero(n: int)
    requires
        1 <= n,
    ensures
        exp_series(0, n) == SCALE,
    decreases EXP_TERMS + 1 - n,
{
    if n <= EXP_TERMS {
        lemma_exp_series_zero(n + 1);
        assert((0 * exp_series(0, n + 1)) / (n * SCALE) == 0) by (nonlinear_arith)
            requires
                1 <= n,
        ;
    }
}

/// Any value taken from itself leaves a zero, whose magnitude is a zero.
pub proof fn lemma_difference_with_itself(x: Fixed)
    ensures
        x.sub_spec(x).abs_spec().is_zero_spec(),
{
}

fn clamp_wide(v: i128) -> (r: i64)
    ensures
        r == clamped(v as int),
{
    if v < i64::MIN as i128 {
        i64::MIN
    } else if v > i64::MAX as i128 {
        i64::MAX
    } else {
        v as i64
    }
}

fn magnitude_wide(v: i64) -> (r: i128)
    ensures
        r == magnitude(v as int),
        0 <= r <= 0x8000_0000_0000_0000,
{
    if v < 0 {
        -(v as i128)
    } else {
        v as i128
    }
}

fn exp_nonpositive(x: i64) -> (r: i64)
    requires
        x <= 0,
    ensures
        r == exp_of_nonpositive(x as int),
        0 <= r <= SCALE,
{
    let y: i128 = -(x as i128);
    let k: i128 = y / (LN2 as i128);
    let rem: i128 = y % (LN2 as i128);
    proof {
        lemma_exp_of_nonpositive_bounds(x as int);
    }
    if k >= EXP_MAX_HALVINGS as i128 {
        return 0;
    }
    let mut t: i128 = SCALE as i128;
    let mut n: i128 = EXP_TERMS as i128;
    while n >= 1
        invariant
            0 <= n <= EXP_TERMS,
            0 <= rem < LN2,
            0 <= t <= SCALE,
            t == exp_series(rem as int, n + 1),
        decreases n,
    {
        proof {
            lemma_exp_series_bounds(rem as int, n as int);
            assert(0 <= rem * t <= SCALE * SCALE) by (nonlinear_arith)
                requires
                    0 <= rem < SCALE,
                    0 <= t <= SCALE,
            ;
            assert(1 <= n * SCALE <= EXP_TERMS * SCALE) by (nonlinear_arith)
                requires
                    1 <= n <= EXP_TERMS,
            ;
        }
        t = SCALE as i128 - (rem * t) / (n * SCALE as i128);
        n -= 1;
    }
    let ghost series = t as int;
    let mut done: i128 = 0;
    while done < k
        invariant
            0 <= done <= k,
            0 <= t <= SCALE,
            halved(t as int, k - done) == halved(series, k as int),
        decreases k - done,
    {
        t = t / 2;
        done += 1;
    }
    t as i64
}

impl Fixed {
    /// The scalar that counts `raw` billionths.
    pub fn from_raw(raw: i64) -> (r: Self)
        ensures
            r.raw == raw,
    {
        Fixed { raw }
    }

    /// How many billionths the scalar counts.
    pub fn raw(self) -> (r: i64)
        ensures
            r == self.raw,
    {
        self.raw
    }
}

impl CanLogit for Fixed {
    open spec fn zero_spec() -> Self {
        Fixed { raw: 0 }
    }

    open spec fn one_spec() -> Self {
        Fixed { raw: SCALE }
    }

    open spec fn from_u32_spec(n: u32) -> Self {
        Fixed { raw: (n * SCALE) as i64 }
    }

    open spec fn add_spec(self, rhs: Self) -> Self {
        Fixed { raw: clamped(self.raw + rhs.raw) }
    }

    open spec fn sub_spec(self, rhs: Self) -> Self {
        Fixed { raw: clamped(self.raw - rhs.raw) }
    }

    open spec fn div_spec(self, rhs: Self) -> Self {
        Fixed { raw: quotient(self.raw as int, rhs.raw as int) }
    }

    open spec fn abs_spec(self) -> Self {
        Fixed { raw: clamped(magnitude(self.raw as int)) }
    }

    open spec fn exp_spec(self) -> Self {
        if self.raw <= 0 {
            Fixed { raw: exp_of_nonpositive(self.raw as int) as i64 }
        } else {
            Fixed {
                raw: quotient(SCALE as int, exp_of_nonpositive(-(self.raw as int))),
            }
        }
    }

    open spec fn ge_spec(self, rhs: Self) -> bool {
        self.raw >= rhs.raw
    }

    open spec fn gt_spec(self, rhs: Self) -> bool {
        self.raw > rhs.raw
    }

    open spec fn is_zero_spec(self) -> bool {
        self.raw == 0
    }

    proof fn lemma_ge_transitive(a: Self, b: Self, c: Self) {
    }

    proof fn lemma_zero_is_zero() {
    }

    proof fn lemma_add_zeros(a: Self, b: Self) {
    }

    fn zero() -> (r: Self) {
        Fixed { raw: 0 }
    }

    fn one() -> (r: Self) {
        Fixed { raw: SCALE }
    }

    fn from_u32(n: u32) -> (r: Self) {
        Fixed { raw: (n as i64) * SCALE }
    }

    fn add(self, rhs: Self) -> (r: Self) {
        Fixed { raw: clamp_wide(self.raw as i128 + rhs.raw as i128) }
    }

    fn sub(self, rhs: Self) -> (r: Self) {
        Fixed { raw: clamp_wide(self.raw as i128 - rhs.raw as i128) }
    }

    fn div(self, rhs: Self) -> (r: Self) {
        if rhs.raw == 0 {
            if self.raw > 0 {
                Fixed { raw: i64::MAX }
            } else if self.raw < 0 {
                Fixed { raw: i64::MIN }
            } else {
                Fixed { raw: 0 }
            }
        } else {
            let a: i128 = magnitude_wide(self.raw);
            let b: i128 = magnitude_wide(rhs.raw);
            assert(0 <= a * SCALE <= 0x8000_0000_0000_0000 * SCALE) by (nonlinear_arith)
                requires
                    0 <= a <= 0x8000_0000_0000_0000,
            ;
            let q: i128 = (a * SCALE as i128) / b;
            if (self.raw < 0) != (rhs.raw < 0) {
                Fixed { raw: clamp_wide(-q) }
            } else {
                Fixed { raw: clamp_wide(q) }
            }
        }
    }

    fn abs(self) -> (r: Self) {
        Fixed { raw: clamp_wide(magnitude_wide(self.raw)) }
    }

    fn exp(self) -> (r: Self) {
        if self.raw <= 0 {
            Fixed { raw: exp_nonpositive(self.raw) }
        } else {
            let denominator: i64 = exp_nonpositive(-self.raw);
            Fixed::one().div(Fixed { raw: denominator })
        }
    }

    fn ge(self, rhs: Self) -> (r: bool) {
        self.raw >= rhs.raw
    }

    fn gt(self, rhs: Self) -> (r: bool) {
        self.raw > rhs.raw
    }

    fn is_zero(self) -> (r: bool) {
        self.raw == 0
    }
}

} // verus!
