//! Integer fixed-point arithmetic for the exploration term of the selection value.
use vstd::prelude::*;
use vstd::arithmetic::div_mod::lemma_div_denominator;
use vstd::arithmetic::div_mod::lemma_div_pos_is_pos;

verus! {

/// Fixed-point scale: the real number `x` is held as `x * SCALE`.
pub const SCALE: u64 = 1048576;

/// `ln 2` in fixed point, rounded down.
pub const LN2_FIXED: u64 = 726817;

pub open spec fn pow2(k: nat) -> nat
    decreases k,
{
    if k == 0 { 1 } else { 2 * pow2((k - 1) as nat) }
}

/// The position of the highest set bit of `n` (`0` for `n <= 1`).
pub open spec fn floor_log2(n: nat) -> nat
    decreases n,
{
    if n <= 1 { 0 } else { 1 + floor_log2(n / 2) }
}

/// Base-2 logarithm of `n >= 1` in fixed point: the integer part is exact, the
/// fraction is interpolated linearly between the two neighbouring powers of two.
/// Since `log2(1 + f) >= f` on `[0, 1]`, this never exceeds the true value and falls
/// short of it by at most `1 - 1 / ln 2 - log2(ln 2)`, about 0.086 (about 0.06 once
/// scaled to the natural logarithm), plus the rounding of the fixed point.
pub open spec fn log2_fixed(n: nat) -> nat {
    let k = floor_log2(n);
    let p = pow2(k);
    k * (SCALE as nat) + ((n - p) * (SCALE as nat) / (p as int)) as nat
}

/// Natural logarithm of `n` in fixed point (`0` for `n == 0`).
pub open spec fn ln_fixed(n: nat) -> nat {
    if n == 0 { 0 } else { log2_fixed(n) * (LN2_FIXED as nat) / (SCALE as nat) }
}

/// The greatest `r` with `r * r <= x`.
pub open spec fn is_isqrt(x: nat, r: nat) -> bool {
    r * r <= x && x < (r + 1) * (r + 1)
}

/// The integer square root of `x`.
pub open spec fn isqrt_spec(x: nat) -> nat {
    choose|r: nat| is_isqrt(x, r)
}

proof fn lemma_isqrt_unique(x: nat, a: nat, b: nat)
    requires
        is_isqrt(x, a),
        is_isqrt(x, b),
    ensures
        a == b,
{
    if a < b {
        assert((a + 1) * (a + 1) <= b * b) by (nonlinear_arith)
            requires a + 1 <= b;
    } else if b < a {
        assert((b + 1) * (b + 1) <= a * a) by (nonlinear_arith)
            requires b + 1 <= a;
    }
}

proof fn lemma_pow2_pos(k: nat)
    ensures
        pow2(k) >= 1,
    decreases k,
{
    if k > 0 {
        lemma_pow2_pos((k - 1) as nat);
    }
}

proof fn lemma_pow2_monotone(a: nat, b: nat)
    requires
        a <= b,
    ensures
        pow2(a) <= pow2(b),
    decreases b,
{
    if a < b {
        lemma_pow2_monotone(a, (b - 1) as nat);
        lemma_pow2_pos((b - 1) as nat);
    }
}

proof fn lemma_pow2_bound(k: nat)
    requires
        pow2(k + 1) <= u64::MAX,
    ensures
        k + 1 < 64,
{
    if k + 1 >= 64 {
        lemma_pow2_monotone(64, k + 1);
        reveal_with_fuel(pow2, 65);
        assert(pow2(64) == 0x1_0000_0000_0000_0000nat);
    }
}

/// Computes `log2_fixed(n)` for `n >= 1`.
pub fn log2_fixed_exec(n: u64) -> (r: u64)
    requires
        n >= 1,
    ensures
        r == log2_fixed(n as nat),
        r <= 64 * SCALE,
{
    let mut m: u64 = n;
    let mut p: u64 = 1;
    let mut k: u64 = 0;
    while m > 1
        invariant
            1 <= m <= n,
            1 <= p <= n,
            k < 64,
            p == pow2(k as nat),
            m == n / p,
            floor_log2(n as nat) == k + floor_log2(m as nat),
            p * m <= n < p * (m + 1),
        decreases m,
    {
        proof {
            lemma_div_denominator(n as int, p as int, 2);
            assert(p * 2 * (m / 2) <= p * m) by (nonlinear_arith)
                requires m >= 2;
            assert(n < p * 2 * (m / 2 + 1)) by (nonlinear_arith)
                requires n < p * (m + 1), m >= 0;
            assert(p * 2 <= n) by (nonlinear_arith)
                requires p * m <= n, m >= 2, p >= 1;
            assert(pow2((k + 1) as nat) == p * 2);
            lemma_pow2_bound(k as nat);
        }
        m = m / 2;
        p = p * 2;
        k = k + 1;
    }
    proof {
        assert(m == 1);
        assert(p <= n < 2 * p) by (nonlinear_arith)
            requires p * m <= n < p * (m + 1), m == 1;
        assert((n - p) * SCALE < p * SCALE) by (nonlinear_arith)
            requires n < 2 * p, p >= 1, n >= p;
    }
    let frac: u128 = ((n - p) as u128) * (SCALE as u128) / (p as u128);
    proof {
        vstd::arithmetic::div_mod::lemma_div_by_multiple_is_strongly_ordered(
            ((n - p) * SCALE) as int, (p * SCALE) as int, SCALE as int, p as int);
        vstd::arithmetic::div_mod::lemma_div_multiples_vanish(SCALE as int, p as int);
    }
    k * SCALE + frac as u64
}

/// Computes `ln_fixed(n)`.
pub fn ln_fixed_exec(n: u64) -> (r: u64)
    ensures
        r == ln_fixed(n as nat),
        r <= 64 * LN2_FIXED,
{
    if n == 0 {
        0
    } else {
        let l = log2_fixed_exec(n);
        proof {
            assert(l * LN2_FIXED <= 64 * SCALE * LN2_FIXED) by (nonlinear_arith)
                requires l <= 64 * SCALE;
            vstd::arithmetic::div_mod::lemma_div_is_ordered(
                (l * LN2_FIXED) as int, (64 * SCALE * LN2_FIXED) as int, SCALE as int);
        }
        l * LN2_FIXED / SCALE
    }
}

/// The integer square root of `x`.
fn isqrt(x: u64) -> (r: u64)
    requires
        x < 0x1_0000_0000_0000,
    ensures
        r == isqrt_spec(x as nat),
        r < 0x100_0000,
{
    let mut lo: u64 = 0;
    let mut hi: u64 = 0x100_0000;
    while hi - lo > 1
        invariant
            lo < hi <= 0x100_0000,
            lo * lo <= x,
            x < hi * hi,
        decreases hi - lo,
    {
        let mid: u64 = lo + (hi - lo) / 2;
        proof {
            assert(mid * mid <= 0x100_0000 * 0x100_0000) by (nonlinear_arith)
                requires mid <= 0x100_0000;
        }
        if mid * mid <= x {
            lo = mid;
        } else {
            hi = mid;
        }
    }
    proof {
        assert(hi == lo + 1);
        assert(is_isqrt(x as nat, lo as nat));
        let c = isqrt_spec(x as nat);
        lemma_isqrt_unique(x as nat, c, lo as nat);
    }
    lo
}

/// The exploration bonus `sqrt(2) * sqrt(ln(total) / visits)` in fixed point.
pub open spec fn exploration_fixed(total: nat, visits: nat) -> nat {
    isqrt_spec(2 * (SCALE as nat) * ln_fixed(total) / visits)
}

/// Computes the exploration bonus of a child visited `visits` times under a node
/// searched `total` times.
pub fn exploration_bonus(total: u64, visits: u64) -> (r: u64)
    requires
        visits >= 1,
    ensures
        r == exploration_fixed(total as nat, visits as nat),
        r < 0x100_0000,
{
    let l = ln_fixed_exec(total);
    proof {
        assert(2 * SCALE * l <= 2 * SCALE * (64 * LN2_FIXED)) by (nonlinear_arith)
            requires l <= 64 * LN2_FIXED;
        assert(SCALE == 1048576 && LN2_FIXED == 726817);
        assert(2 * 1048576 * (64 * 726817) < 0x1_0000_0000_0000nat) by (nonlinear_arith);
    }
    let num: u64 = 2 * SCALE * l;
    proof {
        vstd::arithmetic::div_mod::lemma_div_is_ordered_by_denominator(num as int, 1, visits as int);
    }
    isqrt(num / visits)
}

} // verus!
