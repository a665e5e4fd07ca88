//! RGB colors and the truncated Euclidean distance between them.

use vstd::prelude::*;

verus! {

/// An RGB color with 8-bit channels.
#[derive(Clone, Copy, Debug, PartialEq, Eq, Structural)]
pub struct Color {
    pub r: u8,
    pub g: u8,
    pub b: u8,
}

/// Largest distance that two colors can be apart: `int_sqrt(3 * 255 * 255)`.
pub const MAX_DISTANCE: u64 = 441;

/// Absolute difference of two channel values.
pub open spec fn channel_gap(x: u8, y: u8) -> nat {
    if x > y {
        (x - y) as nat
    } else {
        (y - x) as nat
    }
}

/// Sum of the squared channel differences of two colors.
pub open spec fn squared_distance(a: Color, b: Color) -> nat {
    channel_gap(a.r, b.r) * channel_gap(a.r, b.r) + channel_gap(a.g, b.g) * channel_gap(a.g, b.g)
        + channel_gap(a.b, b.b) * channel_gap(a.b, b.b)
}

/// Integer square root: the root of the largest square that does not exceed `n`.
pub open spec fn int_sqrt(n: nat) -> nat
    decreases n,
{
    if n == 0 {
        0
    } else {
        let r = int_sqrt((n - 1) as nat);
        if (r + 1) * (r + 1) <= n {
            r + 1
        } else {
            r
        }
    }
}

/// Euclidean distance between two colors, truncated to an integer.
pub open spec fn color_distance(a: Color, b: Color) -> nat {
    int_sqrt(squared_distance(a, b))
}

/// `int_sqrt(n)` squared does not exceed `n`, and the next square does.
pub proof fn lemma_int_sqrt_bounds(n: nat)
    ensures
        int_sqrt(n) * int_sqrt(n) <= n,
        n < (int_sqrt(n) + 1) * (int_sqrt(n) + 1),
    decreases n,
{
    if n > 0 {
        lemma_int_sqrt_bounds((n - 1) as nat);
        let r = int_sqrt((n - 1) as nat);
        let s = int_sqrt(n);
        if (r + 1) * (r + 1) <= n {
            assert(s * s <= n && n < (s + 1) * (s + 1)) by (nonlinear_arith)
                requires
                    s == r + 1,
                    (r + 1) * (r + 1) <= n,
                    n - 1 < (r + 1) * (r + 1),
            ;
        } else {
            assert(s * s <= n && n < (s + 1) * (s + 1)) by (nonlinear_arith)
                requires
                    s == r,
                    r * r <= n - 1,
                    !((r + 1) * (r + 1) <= n),
            ;
        }
    } else {
        let s = int_sqrt(n);
        assert(s * s <= n && n < (s + 1) * (s + 1)) by (nonlinear_arith)
            requires
                s == 0,
                n == 0,
        ;
    }
}

/// Only one number has its square at or below `n` and the next square above it.
pub proof fn lemma_int_sqrt_unique(n: nat, r: nat)
    requires
        r * r <= n,
        n < (r + 1) * (r + 1),
    ensures
        r == int_sqrt(n),
{
    lemma_int_sqrt_bounds(n);
    let s = int_sqrt(n);
    if r < s {
        assert((r + 1) * (r + 1) <= s * s) by (nonlinear_arith)
            requires
                r + 1 <= s,
        ;
    } else if s < r {
        assert((s + 1) * (s + 1) <= r * r) by (nonlinear_arith)
            requires
                s + 1 <= r,
        ;
    }
}

/// The integer square root does not decrease when its argument grows.
pub proof fn lemma_int_sqrt_monotonic(m: nat, n: nat)
    requires
        m <= n,
    ensures
        int_sqrt(m) <= int_sqrt(n),
{
    lemma_int_sqrt_bounds(m);
    lemma_int_sqrt_bounds(n);
    let a = int_sqrt(m);
    let b = int_sqrt(n);
    if b < a {
        assert((b + 1) * (b + 1) <= a * a) by (nonlinear_arith)
            requires
                b + 1 <= a,
        ;
    }
}

/// The squared distance of two colors is at most `3 * 255 * 255`.
pub proof fn lemma_squared_distance_bound(a: Color, b: Color)
    ensures
        squared_distance(a, b) <= 195075,
{
    let x = channel_gap(a.r, b.r);
    let y = channel_gap(a.g, b.g);
    let z = channel_gap(a.b, b.b);
    assert(x * x <= 65025) by (nonlinear_arith)
        requires
            x <= 255,
    ;
    assert(y * y <= 65025) by (nonlinear_arith)
        requires
            y <= 255,
    ;
    assert(z * z <= 65025) by (nonlinear_arith)
        requires
            z <= 255,
    ;
}

/// No two colors are further apart than `MAX_DISTANCE`.
pub proof fn lemma_distance_bound(a: Color, b: Color)
    ensures
        color_distance(a, b) <= MAX_DISTANCE,
{
    lemma_squared_distance_bound(a, b);
    lemma_int_sqrt_monotonic(squared_distance(a, b), 195075);
    assert(441nat * 441nat <= 195075 < (441nat + 1) * (441nat + 1)) by (nonlinear_arith);
    lemma_int_sqrt_unique(195075, 441);
}

/// The distance does not depend on the order of its arguments.
pub proof fn lemma_distance_symmetric(a: Color, b: Color)
    ensures
        color_distance(a, b) == color_distance(b, a),
{
    assert(squared_distance(a, b) == squared_distance(b, a));
}

/// A color is at distance zero from itself.
pub proof fn lemma_distance_to_self(a: Color)
    ensures
        color_distance(a, a) == 0,
{
    assert(squared_distance(a, a) == 0) by (nonlinear_arith)
        requires
            squared_distance(a, a) == 0nat * 0nat + 0nat * 0nat + 0nat * 0nat,
    ;
}

/// Only equal colors are at distance zero: truncation never takes a positive
/// distance below one.
pub proof fn lemma_distance_zero_iff_equal(a: Color, b: Color)
    ensures
        color_distance(a, b) == 0 <==> a == b,
{
    if a == b {
        lemma_distance_to_self(a);
    } else {
        let x = channel_gap(a.r, b.r);
        let y = channel_gap(a.g, b.g);
        let z = channel_gap(a.b, b.b);
        assert(x >= 1 || y >= 1 || z >= 1);
        assert(x * x + y * y + z * z >= 1) by (nonlinear_arith)
            requires
                x >= 1 || y >= 1 || z >= 1,
        ;
        lemma_int_sqrt_monotonic(1, squared_distance(a, b));
        assert(1nat * 1nat <= 1 < (1nat + 1) * (1nat + 1)) by (nonlinear_arith);
        lemma_int_sqrt_unique(1, 1);
    }
}

/// Absolute difference of two channel values.
fn channel_diff(x: u8, y: u8) -> (d: u64)
    ensures
        d == channel_gap(x, y),
        d <= 255,
{
    if x > y {
        (x - y) as u64
    } else {
        (y - x) as u64
    }
}

/// Integer square root of `n` by bisection, where the root is known to lie
/// below `limit`.
fn root_below(n: u64, limit: u64) -> (r: u64)
    requires
        0 < limit <= 0x1_0000_0000,
        n < limit * limit,
    ensures
        r == int_sqrt(n as nat),
{
    let mut lo: u64 = 0;
    let mut hi: u64 = limit;
    while hi - lo > 1
        invariant
            lo < hi <= 0x1_0000_0000,
            lo * lo <= n,
            n < hi * hi,
        decreases hi - lo,
    {
        let mid: u64 = lo + (hi - lo) / 2;
        assert(mid * mid < 0x1_0000_0000 * 0x1_0000_0000) by (nonlinear_arith)
            requires
                mid < 0x1_0000_0000,
        ;
        if mid * mid <= n {
            lo = mid;
        } else {
            hi = mid;
        }
    }
    proof {
        lemma_int_sqrt_unique(n as nat, lo as nat);
    }
    lo
}

/// Euclidean distance between two colors, truncated (not rounded) to an
/// integer.
pub fn dist(c1: &Color, c2: &Color) -> (d: u64)
    ensures
        d == color_distance(*c1, *c2),
        d <= MAX_DISTANCE,
{
    let d1: u64 = channel_diff(c1.r, c2.r);
    let d2: u64 = channel_diff(c1.g, c2.g);
    let d3: u64 = channel_diff(c1.b, c2.b);
    proof {
        lemma_squared_distance_bound(*c1, *c2);
        lemma_distance_bound(*c1, *c2);
        assert(d1 * d1 <= 65025) by (nonlinear_arith)
            requires
                d1 <= 255,
        ;
        assert(d2 * d2 <= 65025) by (nonlinear_arith)
            requires
                d2 <= 255,
        ;
        assert(d3 * d3 <= 65025) by (nonlinear_arith)
            requires
                d3 <= 255,
        ;
    }
    root_below(d1 * d1 + d2 * d2 + d3 * d3, 442)
}

} // verus!
