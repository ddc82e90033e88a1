//! Fixed-point price arithmetic of the oracle indexer: weighted aggregates of
//! price feeds and the incremental means of interval buckets.
//!
//! An amount is an `i64` count of units of 10^-8 (eight fractional digits).
//! Divisions truncate toward zero, as the canonical eight-digit text does.
use vstd::prelude::*;

verus! {

/// Freshness window of a price feed, in seconds.
pub const FEED_FRESHNESS: i64 = 3600;

/// Number of fractional digits of an amount.
pub const AMOUNT_SCALE: u32 = 8;

/// Division truncating toward zero, for a positive divisor.
pub open spec fn trunc_div(a: int, d: int) -> int {
    if a >= 0 {
        a / d
    } else {
        -((-a) / d)
    }
}

pub open spec fn fits_i64(x: int) -> bool {
    i64::MIN <= x <= i64::MAX
}

pub open spec fn fits_i32(x: int) -> bool {
    i32::MIN <= x <= i32::MAX
}

/// `x` brought into the `i64` range.
pub open spec fn clamp_i64(x: int) -> int {
    if x > i64::MAX {
        i64::MAX as int
    } else if x < i64::MIN {
        i64::MIN as int
    } else {
        x
    }
}

/// The mean after a value joins a mean of `n` values.
pub open spec fn forward_mean(mean: int, x: int, n: int) -> int {
    trunc_div(mean * n + x, n + 1)
}

/// The mean after a value leaves a mean of `n` values.
pub open spec fn backward_mean(mean: int, x: int, n: int) -> int {
    trunc_div(mean * n - x, n - 1)
}

proof fn lemma_trunc_div_bounds(a: int, d: int, lo: int, hi: int)
    requires
        d > 0,
        lo <= 0 <= hi,
        lo * d <= a <= hi * d,
    ensures
        lo <= trunc_div(a, d) <= hi,
{
    if a >= 0 {
        assert(a / d <= hi) by (nonlinear_arith)
            requires
                d > 0,
                0 <= a <= hi * d,
        ;
        assert(a / d >= 0) by (nonlinear_arith)
            requires
                d > 0,
                0 <= a,
        ;
    } else {
        assert((-lo) * d == -(lo * d)) by (nonlinear_arith);
        assert((-a) / d <= -lo) by (nonlinear_arith)
            requires
                d > 0,
                0 < -a <= (-lo) * d,
        ;
        assert((-a) / d >= 0) by (nonlinear_arith)
            requires
                d > 0,
                0 <= -a,
        ;
    }
}

/// The truncation error of a division: `q * d` lies within `d - 1` of `a`.
proof fn lemma_trunc_div_error(a: int, d: int)
    requires
        d > 0,
    ensures
        a - d < trunc_div(a, d) * d <= a || a <= trunc_div(a, d) * d < a + d,
        a >= 0 ==> trunc_div(a, d) * d <= a,
        a < 0 ==> a <= trunc_div(a, d) * d,
{
    if a >= 0 {
        assert(a - d < (a / d) * d <= a) by (nonlinear_arith)
            requires
                d > 0,
                a >= 0,
        ;
    } else {
        let b = -a;
        assert(b - d < (b / d) * d <= b) by (nonlinear_arith)
            requires
                d > 0,
                b > 0,
        ;
        assert(trunc_div(a, d) * d == -((b / d) * d)) by (nonlinear_arith)
            requires
                trunc_div(a, d) == -(b / d),
        ;
    }
}

proof fn lemma_trunc_div_exact(k: int, d: int)
    requires
        d > 0,
    ensures
        trunc_div(k * d, d) == k,
{
    if k >= 0 {
        assert((k * d) / d == k) by (nonlinear_arith)
            requires
                d > 0,
                k >= 0,
        ;
        assert(k * d >= 0) by (nonlinear_arith)
            requires
                d > 0,
                k >= 0,
        ;
    } else {
        assert((-(k * d)) / d == -k) by (nonlinear_arith)
            requires
                d > 0,
                k < 0,
        ;
        assert(k * d < 0) by (nonlinear_arith)
            requires
                d > 0,
                k < 0,
        ;
    }
}

/// Truncating division of an `i128` by a positive `i128`.
fn trunc_div_i128(a: i128, d: i128) -> (r: i128)
    requires
        d > 0,
        a > i128::MIN,
    ensures
        r == trunc_div(a as int, d as int),
{
    if a >= 0 {
        a / d
    } else {
        let q = (-a) / d;
        -q
    }
}

/// The mean of `count` values, with `new_value` joining it:
/// `(last_value * count + new_value) / (count + 1)`.
pub fn forward_aggregate_value(last_value: i64, new_value: i64, count: i32) -> (r: i64)
    requires
        count >= 0,
    ensures
        r as int == forward_mean(last_value as int, new_value as int, count as int),
{
    let n = count as i128;
    proof {
        assert(-0x8000_0000_0000_0000 * count <= last_value * count <= 0x7fff_ffff_ffff_ffff
            * count) by (nonlinear_arith)
            requires
                count >= 0,
                -0x8000_0000_0000_0000 <= last_value <= 0x7fff_ffff_ffff_ffff,
        ;
        lemma_trunc_div_bounds(
            last_value * count + new_value,
            count + 1,
            i64::MIN as int,
            i64::MAX as int,
        );
    }
    let total = (last_value as i128) * n + (new_value as i128);
    let q = trunc_div_i128(total, n + 1);
    q as i64
}

/// The mean of `count` values, with `removed` leaving it:
/// `(last_value * count - removed) / (count - 1)`, brought into the `i64` range.
pub fn backward_aggregate_value(last_value: i64, removed: i64, count: u32) -> (r: i64)
    requires
        count >= 2,
    ensures
        r as int == clamp_i64(backward_mean(last_value as int, removed as int, count as int)),
{
    let n = count as i128;
    proof {
        assert(-0x8000_0000_0000_0000 * count <= last_value * count <= 0x7fff_ffff_ffff_ffff
            * count) by (nonlinear_arith)
            requires
                count >= 0,
                -0x8000_0000_0000_0000 <= last_value <= 0x7fff_ffff_ffff_ffff,
        ;
    }
    let total = (last_value as i128) * n - (removed as i128);
    let q = trunc_div_i128(total, n - 1);
    if q > i64::MAX as i128 {
        i64::MAX
    } else if q < i64::MIN as i128 {
        i64::MIN
    } else {
        q as i64
    }
}

/// The integer mean of `count` values, with `new_value` joining it. The result
/// always fits; were it not to, it would saturate to `i32::MAX`.
pub fn forward_aggregate_number(last_value: i32, new_value: i32, count: i32) -> (r: i32)
    requires
        count >= 0,
    ensures
        r as int == forward_mean(last_value as int, new_value as int, count as int),
{
    proof {
        assert(-0x8000_0000 * count <= last_value * count <= 0x7fff_ffff * count)
            by (nonlinear_arith)
            requires
                count >= 0,
                -0x8000_0000 <= last_value <= 0x7fff_ffff,
        ;
        lemma_trunc_div_bounds(
            last_value * count + new_value,
            count + 1,
            i32::MIN as int,
            i32::MAX as int,
        );
    }
    let n = count as i128;
    let total = (last_value as i128) * n + (new_value as i128);
    let q = trunc_div_i128(total, n + 1);
    if q > i32::MAX as i128 || q < i32::MIN as i128 {
        i32::MAX
    } else {
        q as i32
    }
}

/// The integer mean of `count` values, with `removed` leaving it; a result out
/// of the `i32` range gives 0.
pub fn backward_aggregate_number(last_value: i32, removed: i32, count: u32) -> (r: i32)
    requires
        count >= 2,
    ensures
        fits_i32(backward_mean(last_value as int, removed as int, count as int)) ==> r as int
            == backward_mean(last_value as int, removed as int, count as int),
        !fits_i32(backward_mean(last_value as int, removed as int, count as int)) ==> r == 0,
{
    proof {
        assert(-0x8000_0000 * count <= last_value * count <= 0x7fff_ffff * count)
            by (nonlinear_arith)
            requires
                count >= 0,
                -0x8000_0000 <= last_value <= 0x7fff_ffff,
        ;
    }
    let n = count as i128;
    let total = (last_value as i128) * n - (removed as i128);
    let q = trunc_div_i128(total, n - 1);
    if q > i32::MAX as i128 || q < i32::MIN as i128 {
        0
    } else {
        q as i32
    }
}

/// A weighted mean of `i64` values fits in an `i64`.
pub proof fn lemma_trunc_div_fits(total: int, weight: int)
    requires
        weight > 0,
        i64::MIN * weight <= total <= i64::MAX * weight,
    ensures
        fits_i64(trunc_div(total, weight)),
{
    lemma_trunc_div_bounds(total, weight, i64::MIN as int, i64::MAX as int);
}

/// A forward mean of values within a range stays within it.
pub proof fn lemma_forward_mean_fits(mean: int, x: int, n: int, lo: int, hi: int)
    requires
        n >= 0,
        lo <= 0 <= hi,
        lo <= mean <= hi,
        lo <= x <= hi,
    ensures
        lo <= forward_mean(mean, x, n) <= hi,
{
    assert(lo * n <= mean * n <= hi * n) by (nonlinear_arith)
        requires
            n >= 0,
            lo <= mean <= hi,
    ;
    assert(lo * (n + 1) == lo * n + lo && hi * (n + 1) == hi * n + hi) by (nonlinear_arith);
    lemma_trunc_div_bounds(mean * n + x, n + 1, lo, hi);
}

/// A forward step followed by the backward step of the same value returns to
/// within one unit of the mean it started from, and exactly to it when the
/// forward division left no remainder.
pub proof fn lemma_forward_backward_mean(mean: int, x: int, n: int)
    requires
        n >= 1,
    ensures
        mean - 1 <= backward_mean(forward_mean(mean, x, n), x, n + 1) <= mean + 1,
        (mean * n + x) % (n + 1) == 0 ==> backward_mean(forward_mean(mean, x, n), x, n + 1)
            == mean,
{
    let a = mean * n + x;
    let f = forward_mean(mean, x, n);
    lemma_trunc_div_error(a, n + 1);
    let e = f * (n + 1) - a;
    assert(-n <= e <= n);
    assert(f * (n + 1) - x == mean * n + e) by (nonlinear_arith)
        requires
            e == f * (n + 1) - a,
            a == mean * n + x,
    ;
    let b = mean * n + e;
    assert((mean - 1) * n <= b <= (mean + 1) * n) by (nonlinear_arith)
        requires
            b == mean * n + e,
            -n <= e <= n,
            n >= 1,
    ;
    lemma_trunc_div_monotone(b, n, mean);
    if a % (n + 1) == 0 {
        let k = a / (n + 1);
        assert(a == k * (n + 1)) by (nonlinear_arith)
            requires
                a % (n + 1) == 0,
                k == a / (n + 1),
                n >= 1,
        ;
        lemma_trunc_div_exact(k, n + 1);
        assert(f == k);
        assert(e == 0) by (nonlinear_arith)
            requires
                e == f * (n + 1) - a,
                a == k * (n + 1),
                f == k,
        ;
        assert(b == mean * n);
        lemma_trunc_div_exact(mean, n);
    }
}

/// Truncating division by `n` of a value within `n` of `m * n` lies within one of `m`.
proof fn lemma_trunc_div_monotone(b: int, n: int, m: int)
    requires
        n >= 1,
        (m - 1) * n <= b <= (m + 1) * n,
    ensures
        m - 1 <= trunc_div(b, n) <= m + 1,
{
    lemma_trunc_div_exact(m - 1, n);
    lemma_trunc_div_exact(m + 1, n);
    lemma_trunc_div_mono(( m - 1) * n, b, n);
    lemma_trunc_div_mono(b, (m + 1) * n, n);
}

proof fn lemma_trunc_div_mono(a: int, b: int, d: int)
    requires
        d > 0,
        a <= b,
    ensures
        trunc_div(a, d) <= trunc_div(b, d),
{
    if a >= 0 {
        assert(a / d <= b / d) by (nonlinear_arith)
            requires
                d > 0,
                0 <= a <= b,
        ;
    } else if b >= 0 {
        assert((-a) / d >= 0) by (nonlinear_arith)
            requires
                d > 0,
                -a > 0,
        ;
        assert(b / d >= 0) by (nonlinear_arith)
            requires
                d > 0,
                b >= 0,
        ;
    } else {
        assert((-b) / d <= (-a) / d) by (nonlinear_arith)
            requires
                d > 0,
                0 < -b <= -a,
        ;
    }
}

/// The canonical text of an amount of units of 10^-8: sign, whole part, a
/// point and eight fractional digits.
pub uninterp spec fn decimal_text_of(units: int) -> Seq<char>;

/// Relies on rust_decimal::Decimal::new(units, 8) and its Display, which
/// writes every digit of the scale.
#[verifier::external_body]
pub(crate) fn amount_text(units: i64) -> (r: String)
    ensures
        r@ == decimal_text_of(units as int),
{
    rust_decimal::Decimal::new(units, AMOUNT_SCALE).to_string()
}

} // verus!
