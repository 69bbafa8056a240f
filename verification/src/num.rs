//! Exact fixed-point arithmetic on metric values.
//!
//! A metric value is a signed count of micro-units: `SCALE` micro-units make
//! one whole unit, so six decimal places of a wire literal are kept exactly.

use vstd::prelude::*;

verus! {

/// Micro-units per whole unit of a metric value.
pub const SCALE: u64 = 1_000_000;

/// Largest magnitude, in micro-units, a parsed value literal may have.
pub const MAX_UNITS: i64 = 999_999_999_999_999;

/// Largest integer part a wire value literal may carry.
pub const MAX_INT_PART: u64 = 999_999_999;

/// Ten to the `k`th power.
pub open spec fn pow10(k: nat) -> nat
    decreases k,
{
    if k == 0 {
        1
    } else {
        10 * pow10((k - 1) as nat)
    }
}

/// The concrete powers of ten the library works with.
pub proof fn lemma_pow10_vals()
    ensures
        pow10(0) == 1,
        pow10(1) == 10,
        pow10(2) == 100,
        pow10(3) == 1000,
        pow10(4) == 10000,
        pow10(5) == 100000,
        pow10(6) == 1000000,
{
    reveal_with_fuel(pow10, 7);
}

/// Powers of ten grow with the exponent.
pub proof fn lemma_pow10_mono(a: nat, b: nat)
    requires
        a <= b,
    ensures
        pow10(a) <= pow10(b),
    decreases b,
{
    if a < b {
        lemma_pow10_mono(a, (b - 1) as nat);
    }
}

/// The number denoted by a sequence of decimal digit bytes, most significant
/// first; the empty sequence denotes zero.
pub open spec fn digits_val(s: Seq<u8>) -> nat
    decreases s.len(),
{
    if s.len() == 0 {
        0
    } else {
        10 * digits_val(s.drop_last()) + (s.last() - 48) as nat
    }
}

/// A decimal digit byte (`'0'` to `'9'`).
pub open spec fn is_digit(b: u8) -> bool {
    48 <= b <= 57
}

/// A run of digits of length `k` denotes a number below `10^k`.
pub proof fn lemma_digits_val_bound(s: Seq<u8>)
    requires
        forall|i: int| 0 <= i < s.len() ==> is_digit(#[trigger] s[i]),
    ensures
        digits_val(s) < pow10(s.len()),
    decreases s.len(),
{
    if s.len() > 0 {
        lemma_digits_val_bound(s.drop_last());
    }
}

/// Digit runs denote no less than any of their prefixes.
pub proof fn lemma_digits_val_prefix_le(s: Seq<u8>, k: int)
    requires
        0 <= k <= s.len(),
    ensures
        digits_val(s.subrange(0, k)) <= digits_val(s),
    decreases s.len() - k,
{
    if k < s.len() {
        lemma_digits_val_prefix_le(s, k + 1);
        assert(s.subrange(0, k + 1).drop_last() =~= s.subrange(0, k));
        assert(digits_val(s.subrange(0, k)) <= digits_val(s.subrange(0, k + 1)));
    } else {
        assert(s.subrange(0, k) =~= s);
    }
}

/// `x` clamped to the `i64` range.
pub open spec fn clamp_i64(x: int) -> int {
    if x > i64::MAX {
        i64::MAX as int
    } else if x < i64::MIN {
        i64::MIN as int
    } else {
        x
    }
}

/// `x` clamped from above to the `u128` range (for non-negative `x`).
pub open spec fn clamp_u128(x: int) -> int {
    if x > u128::MAX {
        u128::MAX as int
    } else {
        x
    }
}

/// Saturating addition within the `i64` range.
pub open spec fn sat_add_spec(a: int, b: int) -> int {
    clamp_i64(a + b)
}

/// Division by a positive divisor, truncating toward zero.
pub open spec fn div_trunc(a: int, b: int) -> int
    recommends
        b > 0,
{
    if a >= 0 {
        a / b
    } else {
        -((-a) / b)
    }
}

/// Saturating `i64` addition.
pub fn sat_add_i64(a: i64, b: i64) -> (r: i64)
    ensures
        r == sat_add_spec(a as int, b as int),
{
    let s: i128 = a as i128 + b as i128;
    if s > i64::MAX as i128 {
        i64::MAX
    } else if s < i64::MIN as i128 {
        i64::MIN
    } else {
        s as i64
    }
}

/// Truncating division of a signed value by a positive divisor.
pub fn div_trunc_i64(a: i64, b: u64) -> (r: i64)
    requires
        b >= 1,
        i64::MIN < a,
    ensures
        r == div_trunc(a as int, b as int),
{
    if a >= 0 {
        ((a as u64) / b) as i64
    } else {
        let m: u64 = (-a) as u64;
        let q: u64 = m / b;
        assert(q <= m);
        -(q as i64)
    }
}

/// The integer square root: the largest `r` with `r * r <= x`.
pub open spec fn isqrt_spec(x: nat) -> nat
    decreases x,
{
    if x == 0 {
        0
    } else {
        let r = isqrt_spec((x - 1) as nat);
        if (r + 1) * (r + 1) <= x {
            r + 1
        } else {
            r
        }
    }
}

pub proof fn lemma_isqrt_bounds(x: nat)
    ensures
        isqrt_spec(x) * isqrt_spec(x) <= x,
        x < (isqrt_spec(x) + 1) * (isqrt_spec(x) + 1),
    decreases x,
{
    if x == 0 {
        assert(isqrt_spec(x) == 0);
        assert(isqrt_spec(x) * isqrt_spec(x) <= x && x < (isqrt_spec(x) + 1) * (isqrt_spec(x)
            + 1)) by (nonlinear_arith)
            requires
                x == 0,
                isqrt_spec(x) == 0,
        ;
    } else {
        lemma_isqrt_bounds((x - 1) as nat);
        let r = isqrt_spec((x - 1) as nat);
        assert(r * r <= x - 1 && x - 1 < (r + 1) * (r + 1));
        if (r + 1) * (r + 1) <= x {
            assert(isqrt_spec(x) == r + 1);
            assert(isqrt_spec(x) * isqrt_spec(x) <= x) by (nonlinear_arith)
                requires
                    isqrt_spec(x) == r + 1,
                    (r + 1) * (r + 1) <= x,
            ;
            assert(x < (isqrt_spec(x) + 1) * (isqrt_spec(x) + 1)) by (nonlinear_arith)
                requires
                    isqrt_spec(x) == r + 1,
                    x <= (r + 1) * (r + 1),
            ;
        } else {
            assert(isqrt_spec(x) == r);
            assert(isqrt_spec(x) * isqrt_spec(x) <= x) by (nonlinear_arith)
                requires
                    isqrt_spec(x) == r,
                    r * r <= x - 1,
            ;
            assert(x < (isqrt_spec(x) + 1) * (isqrt_spec(x) + 1)) by (nonlinear_arith)
                requires
                    isqrt_spec(x) == r,
                    !((r + 1) * (r + 1) <= x),
            ;
        }
    }
}

/// Any `r` in the square-root bracket is the integer square root.
pub proof fn lemma_isqrt_unique(x: nat, r: nat)
    requires
        r * r <= x,
        x < (r + 1) * (r + 1),
    ensures
        r == isqrt_spec(x),
{
    lemma_isqrt_bounds(x);
    let s = isqrt_spec(x);
    if r < s {
        assert((r + 1) * (r + 1) <= s * s) by (nonlinear_arith)
            requires
                r + 1 <= s,
        ;
    }
    if s < r {
        assert((s + 1) * (s + 1) <= r * r) by (nonlinear_arith)
            requires
                s + 1 <= r,
        ;
    }
}

/// Integer square root of a `u128`, by bisection.
pub fn isqrt_u128(x: u128) -> (r: u64)
    ensures
        r as nat == isqrt_spec(x as nat),
{
    let mut lo: u128 = 0;
    let mut hi: u128 = 0x1_0000_0000_0000_0000;
    proof {
        assert(lo * lo <= x && hi * hi > x) by (nonlinear_arith)
            requires
                lo == 0,
                hi == 0x1_0000_0000_0000_0000u128,
                x <= 0xffff_ffff_ffff_ffff_ffff_ffff_ffff_ffffu128,
        ;
    }
    while lo + 1 < hi
        invariant
            lo < hi <= 0x1_0000_0000_0000_0000u128,
            lo * lo <= x,
            hi * hi > x,
        decreases hi - lo,
    {
        let mid: u128 = lo + (hi - lo) / 2;
        assert(lo < mid < hi);
        assert(mid * mid <= 0xffff_ffff_ffff_ffff_ffff_ffff_ffff_ffffu128) by (nonlinear_arith)
            requires
                0 <= mid <= 0xffff_ffff_ffff_ffff_u128,
        ;
        if mid * mid <= x {
            lo = mid;
        } else {
            hi = mid;
        }
    }
    proof {
        assert(hi == lo + 1);
        assert(x < (lo + 1) * (lo + 1)) by (nonlinear_arith)
            requires
                hi == lo + 1,
                hi * hi > x,
        ;
        lemma_isqrt_unique(x as nat, lo as nat);
    }
    lo as u64
}

} // verus!
