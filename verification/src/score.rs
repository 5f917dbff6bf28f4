//! A fixed-point entropy measure over learned weight vectors.
//!
//! The entropy solver ranks branch points by the Shannon entropy of the
//! normalized weights of their candidate values. Exact entropy needs real
//! logarithms; this module defines an integer measure that orders weight
//! vectors the same way up to fixed-point precision: base-2 logarithms
//! scaled by [`LOG_SCALE`] and interpolated linearly between neighbouring
//! powers of two, saturating instead of overflowing.

use vstd::prelude::*;

verus! {

/// Fixed-point scale: a value of [`log2_scaled`] is a base-2 logarithm
/// multiplied by this factor.
pub const LOG_SCALE: u64 = 65536;

/// The exponent of the largest power of two that is at most `w` (and 0 for
/// `w <= 1`).
pub open spec fn floor_log2(w: int) -> int
    decreases w,
{
    if w <= 1 {
        0
    } else {
        1 + floor_log2(w / 2)
    }
}

/// Two to the power `b` (and 1 for `b <= 0`).
pub open spec fn pow2(b: int) -> int
    decreases b,
{
    if b <= 0 {
        1
    } else {
        2 * pow2(b - 1)
    }
}

/// `LOG_SCALE` times the base-2 logarithm of `w`, approximated by linear
/// interpolation between neighbouring powers of two; 0 for `w <= 0`.
pub open spec fn log2_scaled(w: int) -> int {
    if w <= 0 {
        0
    } else {
        LOG_SCALE * floor_log2(w) + ((w - pow2(floor_log2(w))) * LOG_SCALE) / pow2(
            floor_log2(w),
        )
    }
}

/// The sum of a weight vector, saturating at `u64::MAX`.
pub open spec fn weight_sum(ws: Seq<u64>) -> int
    decreases ws.len(),
{
    if ws.len() == 0 {
        0
    } else {
        let t = weight_sum(ws.drop_last()) + ws.last();
        if t > u64::MAX {
            u64::MAX as int
        } else {
            t
        }
    }
}

/// The sum of `w * log2_scaled(w)` over a weight vector, saturating at
/// `u128::MAX`.
pub open spec fn weighted_log_sum(ws: Seq<u64>) -> int
    decreases ws.len(),
{
    if ws.len() == 0 {
        0
    } else {
        let t = weighted_log_sum(ws.drop_last()) + ws.last() * log2_scaled(ws.last() as int);
        if t > u128::MAX {
            u128::MAX as int
        } else {
            t
        }
    }
}

/// The fixed-point entropy of a weight vector: the scaled base-2 entropy of
/// the distribution obtained by normalizing the weights,
/// `log2(S) - (Σ w·log2(w)) / S` where `S` is the weight sum, clamped below
/// at zero. A vector without entries has measure 0.
pub open spec fn entropy_score(ws: Seq<u64>) -> int {
    let s = weight_sum(ws);
    if s == 0 {
        0
    } else {
        let num = s * log2_scaled(s);
        let wls = weighted_log_sum(ws);
        if num <= wls {
            0
        } else {
            (num - wls) / s
        }
    }
}

/// `pow2` is positive.
pub proof fn lemma_pow2_pos(b: int)
    ensures
        pow2(b) >= 1,
    decreases b,
{
    if b > 0 {
        lemma_pow2_pos(b - 1);
    }
}

/// `pow2` grows with its exponent.
pub proof fn lemma_pow2_increases(a: int, b: int)
    requires
        a <= b,
    ensures
        pow2(a) <= pow2(b),
    decreases b - a,
{
    if a < b {
        lemma_pow2_increases(a, b - 1);
        lemma_pow2_pos(b - 1);
    }
}

/// The value of `pow2` at 64.
pub proof fn lemma_pow2_64()
    ensures
        pow2(64) == 0x1_0000_0000_0000_0000,
{
    reveal_with_fuel(pow2, 65);
}

/// A value bracketed by consecutive powers of two pins down its logarithm.
pub proof fn lemma_floor_log2_bounds(w: int, b: int)
    requires
        0 <= b,
        pow2(b) <= w,
        w < 2 * pow2(b),
    ensures
        floor_log2(w) == b,
    decreases b,
{
    if b == 0 {
    } else {
        lemma_pow2_pos(b - 1);
        lemma_floor_log2_bounds(w / 2, b - 1);
    }
}

/// The logarithm of a weight sum fits in 6 bits, so scaled logarithms stay
/// below `LOG_SCALE * 64`.
pub proof fn lemma_log2_scaled_range(w: int)
    requires
        0 <= w <= u64::MAX,
    ensures
        0 <= log2_scaled(w) < 4194304,
{
    if w <= 0 {
    } else {
        let b = floor_log2(w);
        lemma_floor_log2_range(w);
        let p = pow2(b);
        lemma_pow2_pos(b);
        lemma_floor_log2_above(w);
        assert(w - p >= 0);
        assert(((w - p) * (LOG_SCALE as int)) / p >= 0) by (nonlinear_arith)
            requires
                w - p >= 0,
                p >= 1,
        ;
        lemma_floor_log2_below(w);
        assert(((w - p) * (LOG_SCALE as int)) / p < LOG_SCALE as int) by (nonlinear_arith)
            requires
                0 <= w - p < p,
                p >= 1,
        ;
        assert(LOG_SCALE * b <= LOG_SCALE * 63) by (nonlinear_arith)
            requires
                0 <= b <= 63,
        ;
    }
}

/// For a positive 64-bit value, the logarithm exponent lies in `[0, 63]`.
pub proof fn lemma_floor_log2_range(w: int)
    requires
        1 <= w <= u64::MAX,
    ensures
        0 <= floor_log2(w) <= 63,
{
    lemma_floor_log2_nonneg(w);
    lemma_floor_log2_above(w);
    if floor_log2(w) > 63 {
        lemma_pow2_increases(64, floor_log2(w));
        lemma_pow2_64();
    }
}

/// `floor_log2` is non-negative.
pub proof fn lemma_floor_log2_nonneg(w: int)
    ensures
        floor_log2(w) >= 0,
    decreases w,
{
    if w > 1 {
        lemma_floor_log2_nonneg(w / 2);
    }
}

/// The power of two at the logarithm exponent is at most the value.
pub proof fn lemma_floor_log2_above(w: int)
    requires
        w >= 1,
    ensures
        pow2(floor_log2(w)) <= w,
    decreases w,
{
    if w > 1 {
        lemma_floor_log2_above(w / 2);
        lemma_floor_log2_nonneg(w / 2);
    }
}

/// The next power of two is above the value.
pub proof fn lemma_floor_log2_below(w: int)
    requires
        w >= 1,
    ensures
        w < 2 * pow2(floor_log2(w)),
    decreases w,
{
    if w > 1 {
        lemma_floor_log2_below(w / 2);
        lemma_floor_log2_nonneg(w / 2);
    }
}

/// Computes `log2_scaled` on a 64-bit value.
#[verifier::loop_isolation(false)]
pub fn log2_scaled_exec(w: u64) -> (r: u64)
    ensures
        r as int == log2_scaled(w as int),
        r < 4194304,
{
    proof {
        lemma_log2_scaled_range(w as int);
    }
    if w == 0 {
        return 0;
    }
    let mut b: u64 = 0;
    let mut p: u64 = 1;
    while p <= w / 2
        invariant
            p as int == pow2(b as int),
            1 <= p <= w,
            b <= 63,
        decreases w - p,
    {
        proof {
            if b as int + 1 > 63 {
                lemma_pow2_64();
                assert(pow2(b as int + 1) > w);
            }
        }
        p = p * 2;
        b = b + 1;
    }
    proof {
        lemma_floor_log2_bounds(w as int, b as int);
    }
    let frac128: u128 = (((w - p) as u128) * (LOG_SCALE as u128)) / (p as u128);
    proof {
        assert(((w - p) as int * (LOG_SCALE as int)) / (p as int) < LOG_SCALE as int)
            by (nonlinear_arith)
            requires
                0 <= (w - p) as int,
                ((w - p) as int) < p as int,
                p as int >= 1,
        ;
    }
    let frac: u64 = frac128 as u64;
    LOG_SCALE * b + frac
}

/// Computes the saturating weight sum of a vector.
#[verifier::loop_isolation(false)]
pub fn weight_sum_exec(ws: &Vec<u64>) -> (r: u64)
    ensures
        r as int == weight_sum(ws@),
{
    let mut s: u64 = 0;
    let mut i: usize = 0;
    while i < ws.len()
        invariant
            i <= ws.len(),
            s as int == weight_sum(ws@.take(i as int)),
        decreases ws.len() - i,
    {
        let ghost pre = ws@.take(i as int);
        let w = ws[i];
        proof {
            assert(ws@.take(i as int + 1).drop_last() =~= pre);
            assert(ws@.take(i as int + 1).last() == w);
        }
        s = if s > u64::MAX - w {
            u64::MAX
        } else {
            s + w
        };
        i = i + 1;
    }
    proof {
        assert(ws@.take(ws@.len() as int) =~= ws@);
    }
    s
}

/// Computes the fixed-point entropy of a weight vector.
#[verifier::loop_isolation(false)]
pub fn entropy_score_exec(ws: &Vec<u64>) -> (r: u64)
    ensures
        r as int == entropy_score(ws@),
{
    let s = weight_sum_exec(ws);
    if s == 0 {
        return 0;
    }
    let ls = log2_scaled_exec(s);
    proof {
        assert((s as int) * (ls as int) < 0x1_0000_0000_0000_0000 * 4194304)
            by (nonlinear_arith)
            requires
                0 <= s as int,
                (s as int) < 0x1_0000_0000_0000_0000,
                0 <= ls as int,
                (ls as int) < 4194304,
        ;
    }
    let num: u128 = (s as u128) * (ls as u128);
    let mut wls: u128 = 0;
    let mut i: usize = 0;
    while i < ws.len()
        invariant
            i <= ws.len(),
            wls as int == weighted_log_sum(ws@.take(i as int)),
        decreases ws.len() - i,
    {
        let ghost pre = ws@.take(i as int);
        let w = ws[i];
        proof {
            assert(ws@.take(i as int + 1).drop_last() =~= pre);
            assert(ws@.take(i as int + 1).last() == w);
            lemma_log2_scaled_range(w as int);
            assert((w as int) * log2_scaled(w as int) < 0x1_0000_0000_0000_0000 * 4194304)
                by (nonlinear_arith)
                requires
                    0 <= w as int,
                    (w as int) < 0x1_0000_0000_0000_0000,
                    0 <= log2_scaled(w as int) < 4194304,
            ;
        }
        let term: u128 = (w as u128) * (log2_scaled_exec(w) as u128);
        wls = if wls > u128::MAX - term {
            u128::MAX
        } else {
            wls + term
        };
        i = i + 1;
    }
    proof {
        assert(ws@.take(ws@.len() as int) =~= ws@);
    }
    if num <= wls {
        return 0;
    }
    let t: u128 = (num - wls) / (s as u128);
    proof {
        assert((num as int - wls as int) / (s as int) <= num as int / (s as int))
            by (nonlinear_arith)
            requires
                s as int >= 1,
                wls as int >= 0,
                num as int >= 0,
        ;
        assert(num as int / (s as int) == ls as int) by (nonlinear_arith)
            requires
                s as int >= 1,
                num as int == (s as int) * (ls as int),
        ;
    }
    t as u64
}

} // verus!
