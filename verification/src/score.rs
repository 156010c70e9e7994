//! Integer scoring arithmetic for the search statistics.
//!
//! Rewards and mean scores are milli-units: `1000` stands for a reward of
//! `1.0`, `500` for a draw. The UCT exploration term
//! `sqrt(2 * ln(N) / n)` is computed in the same milli-scale with an
//! integer square root and `ln(N)` approximated by
//! `MILLI_LN2 * floor(log2(N))`. The approximation is monotone in `N`,
//! which is what selection fairness rests on.

use vstd::prelude::*;

verus! {

/// One full reward (a win) in milli-units.
pub const REWARD_UNIT: u64 = 1000;

/// ln(2) in milli-units, rounded down.
pub const MILLI_LN2: u64 = 693;

/// floor(log2(n)) for n >= 1 (and 0 for n = 0).
pub open spec fn spec_log2(n: nat) -> nat
    decreases n,
{
    if n < 2 {
        0
    } else {
        1 + spec_log2(n / 2)
    }
}

/// floor(sqrt(x)).
pub open spec fn spec_isqrt(x: nat) -> nat
    decreases x,
{
    if x == 0 {
        0
    } else {
        let s = spec_isqrt((x - 1) as nat);
        if (s + 1) * (s + 1) <= x {
            s + 1
        } else {
            s
        }
    }
}

/// 2^k.
pub open spec fn spec_pow2(k: nat) -> nat
    decreases k,
{
    if k == 0 {
        1
    } else {
        2 * spec_pow2((k - 1) as nat)
    }
}

/// The argument handed to the square root by the exploration bonus:
/// `2 * ln(N) / n`, scaled by `REWARD_UNIT` squared.
pub open spec fn spec_explore_arg(n: nat, parent_n: nat) -> nat {
    ((2 * REWARD_UNIT * MILLI_LN2) as nat) * spec_log2(parent_n) / n
}

/// The UCT score of a child in milli-units: mean score plus exploration
/// bonus, `w/n + sqrt(2 * ln(N) / n)` scaled by `REWARD_UNIT`.
pub open spec fn spec_uct(w: nat, n: nat, parent_n: nat) -> nat {
    w / n + spec_isqrt(spec_explore_arg(n, parent_n))
}

pub proof fn lemma_isqrt_bounds(x: nat)
    ensures
        spec_isqrt(x) * spec_isqrt(x) <= x,
        x < (spec_isqrt(x) + 1) * (spec_isqrt(x) + 1),
    decreases x,
{
    if x == 0 {
        assert(spec_isqrt(x) == 0);
        assert(x < (spec_isqrt(x) + 1) * (spec_isqrt(x) + 1)) by (nonlinear_arith)
            requires x == 0, spec_isqrt(x) == 0;
    } else {
        lemma_isqrt_bounds((x - 1) as nat);
        let s = spec_isqrt((x - 1) as nat);
        assert(s * s <= x - 1);
        assert(x - 1 < (s + 1) * (s + 1));
        if (s + 1) * (s + 1) <= x {
            assert(spec_isqrt(x) == s + 1);
            assert(x == (s + 1) * (s + 1));
            assert(x < (s + 2) * (s + 2)) by (nonlinear_arith)
                requires x == (s + 1) * (s + 1);
            assert(spec_isqrt(x) * spec_isqrt(x) <= x);
            assert(x < (spec_isqrt(x) + 1) * (spec_isqrt(x) + 1));
        } else {
            assert(spec_isqrt(x) == s);
            assert(spec_isqrt(x) * spec_isqrt(x) <= x);
            assert(x < (spec_isqrt(x) + 1) * (spec_isqrt(x) + 1));
        }
    }
}

pub proof fn lemma_isqrt_unique(x: nat, r: nat)
    requires
        r * r <= x,
        x < (r + 1) * (r + 1),
    ensures
        r == spec_isqrt(x),
{
    lemma_isqrt_bounds(x);
    let s = spec_isqrt(x);
    if r < s {
        assert((r + 1) * (r + 1) <= s * s) by (nonlinear_arith)
            requires r + 1 <= s;
    }
    if s < r {
        assert((s + 1) * (s + 1) <= r * r) by (nonlinear_arith)
            requires s + 1 <= r;
    }
}

pub proof fn lemma_isqrt_le(x: nat)
    ensures
        spec_isqrt(x) <= x,
{
    lemma_isqrt_bounds(x);
    let s = spec_isqrt(x);
    if s > x {
        assert(s * s >= s) by (nonlinear_arith);
    }
}

pub proof fn lemma_isqrt_mono(a: nat, b: nat)
    requires
        a <= b,
    ensures
        spec_isqrt(a) <= spec_isqrt(b),
    decreases b - a,
{
    if a < b {
        lemma_isqrt_mono(a, (b - 1) as nat);
    }
}

pub proof fn lemma_log2_mono(a: nat, b: nat)
    requires
        a <= b,
    ensures
        spec_log2(a) <= spec_log2(b),
    decreases a,
{
    if a >= 2 {
        lemma_log2_mono(a / 2, b / 2);
    }
}

pub proof fn lemma_log2_below_pow2(n: nat, k: nat)
    requires
        k >= 1,
        n < spec_pow2(k),
    ensures
        spec_log2(n) < k,
    decreases k,
{
    if n >= 2 {
        assert(spec_pow2(k) == 2 * spec_pow2((k - 1) as nat));
        lemma_log2_below_pow2(n / 2, (k - 1) as nat);
    }
}

pub proof fn lemma_log2_u64_fits(n: nat)
    requires
        n <= u64::MAX,
    ensures
        spec_log2(n) <= 63,
{
    assert(spec_pow2(64) == 0x1_0000_0000_0000_0000) by {
        reveal_with_fuel(spec_pow2, 65);
    }
    lemma_log2_below_pow2(n, 64);
}

/// floor(log2(n)) for a positive machine word.
pub fn floor_log2(n: u64) -> (r: u64)
    requires
        n >= 1,
    ensures
        r == spec_log2(n as nat),
        r <= 63,
{
    proof {
        lemma_log2_u64_fits(n as nat);
    }
    let mut m: u64 = n;
    let mut r: u64 = 0;
    while m >= 2
        invariant
            m >= 1,
            r + spec_log2(m as nat) == spec_log2(n as nat),
            spec_log2(n as nat) <= 63,
        decreases m,
    {
        m = m / 2;
        r = r + 1;
    }
    r
}

/// floor(sqrt(x)), by binary search on the root.
pub fn isqrt(x: u64) -> (r: u64)
    ensures
        r == spec_isqrt(x as nat),
        r * r <= x,
{
    let mut lo: u64 = 0;
    let mut hi: u64 = 0x1_0000_0000;
    assert((0x1_0000_0000 as nat) * (0x1_0000_0000 as nat) == 0x1_0000_0000_0000_0000)
        by (nonlinear_arith);
    while lo + 1 < hi
        invariant
            lo < hi <= 0x1_0000_0000,
            (lo as nat) * (lo as nat) <= x as nat,
            (x as nat) < (hi as nat) * (hi as nat),
        decreases hi - lo,
    {
        let mid: u64 = lo + (hi - lo) / 2;
        assert((mid as nat) * (mid as nat) <= 0x1_0000_0000_0000_0000) by (nonlinear_arith)
            requires mid as nat <= 0x1_0000_0000;
        if (mid as u128) * (mid as u128) <= x as u128 {
            lo = mid;
        } else {
            hi = mid;
        }
    }
    proof {
        lemma_isqrt_unique(x as nat, lo as nat);
    }
    lo
}

/// The UCT score in milli-units for a child with cumulative score `w`
/// over `n` visits, under a parent with `parent_n` visits.
pub fn uct_milli(w: u64, n: u64, parent_n: u64) -> (r: u64)
    requires
        n >= 1,
        parent_n >= 1,
        w <= n * REWARD_UNIT,
    ensures
        r == spec_uct(w as nat, n as nat, parent_n as nat),
        r <= REWARD_UNIT + 2 * REWARD_UNIT * MILLI_LN2 * 63,
{
    let l = floor_log2(parent_n);
    let scale: u64 = 2 * REWARD_UNIT * MILLI_LN2;
    assert(scale == 1386000);
    assert(scale * l <= 1386000 * 63) by (nonlinear_arith)
        requires scale == 1386000, l <= 63;
    let inner: u64 = scale * l / n;
    assert(inner == spec_explore_arg(n as nat, parent_n as nat));
    let explore = isqrt(inner);
    let mean = w / n;
    assert(mean <= REWARD_UNIT) by (nonlinear_arith)
        requires n >= 1, w <= n * REWARD_UNIT, mean == w / n;
    proof {
        lemma_isqrt_le(inner as nat);
    }
    mean + explore
}

/// For a fixed child (same visit count and cumulative score), the UCT
/// score never decreases as the parent's visit count grows.
pub proof fn lemma_uct_monotone_in_parent_visits(w: nat, n: nat, n1: nat, n2: nat)
    requires
        n >= 1,
        n1 <= n2,
    ensures
        spec_uct(w, n, n1) <= spec_uct(w, n, n2),
{
    lemma_log2_mono(n1, n2);
    let c: nat = (2 * REWARD_UNIT * MILLI_LN2) as nat;
    let i1: nat = spec_explore_arg(n, n1);
    let i2: nat = spec_explore_arg(n, n2);
    assert(c * spec_log2(n1) <= c * spec_log2(n2)) by (nonlinear_arith)
        requires spec_log2(n1) <= spec_log2(n2);
    assert(i1 <= i2) by (nonlinear_arith)
        requires
            n >= 1,
            c * spec_log2(n1) <= c * spec_log2(n2),
            i1 == c * spec_log2(n1) / n,
            i2 == c * spec_log2(n2) / n;
    lemma_isqrt_mono(i1, i2);
}

} // verus!
