//! Exact rational arithmetic: aspect ratios as integer pairs and division
//! rounded to the nearest integer.

use vstd::prelude::*;
use vstd::arithmetic::div_mod::lemma_fundamental_div_mod;
use vstd::arithmetic::div_mod::lemma_fundamental_div_mod_converse;

verus! {

/// `n / d` rounded to the nearest integer, halves rounded up.
pub open spec fn round_div(n: int, d: int) -> int {
    (2 * n + d) / (2 * d)
}

/// A tile's width-to-height ratio, `width : height`.
#[derive(Clone, Copy, Debug, PartialEq, Eq, Structural)]
pub struct AspectRatio {
    pub width: u32,
    pub height: u32,
}

impl AspectRatio {
    /// Both sides are positive, so the ratio is a positive finite number.
    pub open spec fn valid(&self) -> bool {
        self.width > 0 && self.height > 0
    }

    /// Tests whether both sides are positive.
    pub fn is_valid(&self) -> (ok: bool)
        ensures
            ok == self.valid(),
    {
        self.width > 0 && self.height > 0
    }
}

/// The product of two 32-bit values is non-negative and fits in 64 bits.
pub proof fn lemma_mul_u32(a: u32, b: u32)
    ensures
        0 <= a as int * b as int <= 0xffff_fffe_0000_0001,
{
    assert(0 <= a as int * b as int <= 0xffff_ffff * 0xffff_ffff) by (nonlinear_arith)
        requires
            0 <= a <= 0xffff_ffff,
            0 <= b <= 0xffff_ffff,
    ;
}

/// `round_div(n, d)` is the integer nearest to `n / d`: it lies within one
/// half of the exact quotient, and a quotient ending in one half goes up.
pub proof fn lemma_round_div_is_nearest(n: int, d: int)
    requires
        0 <= n,
        0 < d,
    ensures
        0 <= round_div(n, d),
        2 * d * round_div(n, d) <= 2 * n + d < 2 * d * (round_div(n, d) + 1),
{
    let r = round_div(n, d);
    lemma_fundamental_div_mod(2 * n + d, 2 * d);
    assert(0 <= (2 * n + d) % (2 * d) < 2 * d) by (nonlinear_arith)
        requires
            0 < d,
    ;
    assert(2 * d * (r + 1) == 2 * d * r + 2 * d) by (nonlinear_arith);
    assert(0 <= r) by (nonlinear_arith)
        requires
            2 * d * (r + 1) > 2 * n + d,
            0 <= n,
            0 < d,
    ;
}

/// `round_div` never decreases when the numerator grows.
pub proof fn lemma_round_div_monotonic(n1: int, n2: int, d: int)
    requires
        0 <= n1 <= n2,
        0 < d,
    ensures
        round_div(n1, d) <= round_div(n2, d),
{
    lemma_round_div_is_nearest(n1, d);
    lemma_round_div_is_nearest(n2, d);
    let r1 = round_div(n1, d);
    let r2 = round_div(n2, d);
    assert(r1 <= r2) by (nonlinear_arith)
        requires
            2 * d * r1 <= 2 * n1 + d,
            2 * n2 + d < 2 * d * (r2 + 1),
            n1 <= n2,
            0 < d,
    ;
}

/// `round_div` of an exact multiple is the exact quotient.
pub proof fn lemma_round_div_exact(q: int, d: int)
    requires
        0 <= q,
        0 < d,
    ensures
        round_div(q * d, d) == q,
{
    assert(2 * (q * d) + d == q * (2 * d) + d) by (nonlinear_arith);
    lemma_fundamental_div_mod_converse(2 * (q * d) + d, 2 * d, q, d);
}

/// Divides and rounds to the nearest integer, halves up.
pub fn rounded_quotient(n: u128, d: u128) -> (q: u128)
    requires
        d > 0,
    ensures
        q == round_div(n as int, d as int),
{
    let whole: u128 = n / d;
    let rest: u128 = n % d;
    proof {
        lemma_fundamental_div_mod(n as int, d as int);
        let w = whole as int;
        let r = rest as int;
        let dd = d as int;
        if r >= dd - r {
            assert(2 * (n as int) + dd == (w + 1) * (2 * dd) + (2 * r - dd)) by (nonlinear_arith)
                requires
                    n as int == dd * w + r,
            ;
            lemma_fundamental_div_mod_converse(2 * (n as int) + dd, 2 * dd, w + 1, 2 * r - dd);
            assert(w + 1 <= n as int) by (nonlinear_arith)
                requires
                    n as int == dd * w + r,
                    r >= dd - r,
                    0 <= r < dd,
                    0 <= w,
                    dd > 0,
            ;
        } else {
            assert(2 * (n as int) + dd == w * (2 * dd) + (2 * r + dd)) by (nonlinear_arith)
                requires
                    n as int == dd * w + r,
            ;
            lemma_fundamental_div_mod_converse(2 * (n as int) + dd, 2 * dd, w, 2 * r + dd);
        }
    }
    if rest >= d - rest {
        whole + 1
    } else {
        whole
    }
}

} // verus!
