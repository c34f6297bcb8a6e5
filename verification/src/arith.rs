//! Exact fixed-point fraction arithmetic. Fractions are held as parts per
//! billion; every multiplication rounds down, and a ratio clamps at one, so
//! a share computed through these functions never exceeds the whole.

use vstd::prelude::*;

verus! {

/// One whole, in parts per billion.
pub const SCALE: u64 = 1_000_000_000;

/// The parts per billion that the ratio `p / q` amounts to, rounded down
/// and clamped to one whole; a zero denominator counts as one.
pub open spec fn ratio_parts(p: u64, q: u64) -> int {
    let d: int = if q == 0 { 1 } else { q as int };
    let raw: int = p as int * (SCALE as int) / d;
    if raw > SCALE as int {
        SCALE as int
    } else {
        raw
    }
}

/// `parts` per billion of `b`, rounded down.
pub open spec fn parts_of(parts: u64, b: u64) -> int {
    parts as int * (b as int) / (SCALE as int)
}

/// Computes the parts-per-billion ratio of `p` to `q`, rounded down and
/// clamped to one whole.
pub fn fraction_from_rational(p: u64, q: u64) -> (r: u64)
    ensures
        r as int == ratio_parts(p, q),
        r <= SCALE,
        p <= q ==> r as int == p as int * (SCALE as int) / (if q == 0 { 1int } else { q as int }),
{
    let d: u64 = if q == 0 { 1 } else { q };
    let wide: u128 = (p as u128) * (SCALE as u128) / (d as u128);
    proof {
        assert(p as int * (SCALE as int) <= u64::MAX as int * (SCALE as int)) by (nonlinear_arith)
            requires p <= u64::MAX;
        assert(wide as int == p as int * (SCALE as int) / (d as int)) by (nonlinear_arith)
            requires
                wide as int == (p as u128) as int * (SCALE as u128) as int / (d as u128) as int,
                (p as u128) as int == p as int,
                (SCALE as u128) as int == SCALE as int,
                (d as u128) as int == d as int,
                d >= 1;
        if p <= q {
            assert(p as int * (SCALE as int) / (d as int) <= SCALE as int) by (nonlinear_arith)
                requires p as int <= d as int, d >= 1;
        }
    }
    if wide > SCALE as u128 {
        SCALE
    } else {
        wide as u64
    }
}

/// Applies a parts-per-billion fraction to a balance, rounding down; the
/// result never exceeds the balance.
pub fn fraction_mul(parts: u64, b: u64) -> (r: u64)
    requires
        parts <= SCALE,
    ensures
        r as int == parts_of(parts, b),
        r <= b,
{
    proof {
        assert(parts as int * (b as int) <= SCALE as int * (u64::MAX as int)) by (nonlinear_arith)
            requires parts <= SCALE, b <= u64::MAX;
    }
    let wide: u128 = (parts as u128) * (b as u128) / (SCALE as u128);
    proof {
        assert(parts as int * (b as int) <= SCALE as int * (b as int)) by (nonlinear_arith)
            requires parts <= SCALE, b >= 0;
        assert(SCALE as int * (b as int) / (SCALE as int) == b as int) by (nonlinear_arith);
        assert(parts as int * (b as int) / (SCALE as int) <= SCALE as int * (b as int) / (SCALE as int))
            by (nonlinear_arith)
            requires parts as int * (b as int) <= SCALE as int * (b as int);
        assert(wide as int == parts as int * (b as int) / (SCALE as int)) by (nonlinear_arith)
            requires
                wide as int == (parts as u128) as int * (b as u128) as int / (SCALE as u128) as int,
                (parts as u128) as int == parts as int,
                (b as u128) as int == b as int,
                (SCALE as u128) as int == SCALE as int;
        assert(parts as int * (b as int) / (SCALE as int) >= 0) by (nonlinear_arith)
            requires parts >= 0, b >= 0;
    }
    wide as u64
}

/// A ratio always lands between zero and one whole.
pub proof fn lemma_ratio_parts_bounds(p: u64, q: u64)
    ensures
        0 <= ratio_parts(p, q) <= SCALE,
{
    let d: int = if q == 0 { 1 } else { q as int };
    assert(p as int * (SCALE as int) / d >= 0) by (nonlinear_arith)
        requires p >= 0, d >= 1;
}

/// Applying a fraction of at most one whole never grows the balance.
pub proof fn lemma_parts_of_bounds(parts: u64, b: u64)
    requires
        parts <= SCALE,
    ensures
        0 <= parts_of(parts, b) <= b,
{
    assert(parts as int * (b as int) / (SCALE as int) >= 0) by (nonlinear_arith)
        requires parts >= 0, b >= 0;
    assert(parts as int * (b as int) / (SCALE as int) <= b as int) by (nonlinear_arith)
        requires 0 <= parts as int <= SCALE as int, b >= 0, SCALE as int > 0;
}

/// The proportional share that `fraction_mul` hands to a part `x` of a whole
/// `t` stays under the exact fraction: `t * share <= x * b`.
pub proof fn lemma_proportional_share_bound(x: u64, t: u64, b: u64)
    requires
        x <= t,
        t > 0,
    ensures
        t as int * parts_of(ratio_parts(x, t) as u64, b) <= x as int * (b as int),
        ratio_parts(x, t) <= SCALE as int,
        ratio_parts(x, t) >= 0,
{
    let s = SCALE as int;
    let xi = x as int;
    let ti = t as int;
    let bi = b as int;
    let r = xi * s / ti;
    assert(r <= s && r >= 0) by (nonlinear_arith)
        requires r == xi * s / ti, 0 <= xi <= ti, ti > 0, s > 0;
    assert(ratio_parts(x, t) == r);
    let share = r * bi / s;
    assert(parts_of(ratio_parts(x, t) as u64, b) == share) by {
        assert((r as u64) as int == r);
    }
    // t * r <= x * SCALE, since r rounds x * SCALE / t down.
    assert(ti * r <= xi * s) by (nonlinear_arith)
        requires r == xi * s / ti, ti > 0, xi >= 0, s > 0;
    // SCALE * share <= r * b, since share rounds r * b / SCALE down.
    assert(s * share <= r * bi) by (nonlinear_arith)
        requires share == r * bi / s, s > 0, r >= 0, bi >= 0;
    assert(ti * share <= xi * bi) by (nonlinear_arith)
        requires
            ti * r <= xi * s,
            s * share <= r * bi,
            ti > 0,
            s > 0,
            bi >= 0,
            r >= 0,
            xi >= 0,
            share >= 0;
}

} // verus!
