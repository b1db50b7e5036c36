//! Arithmetic facts about splitting a number into a high part, a middle
//! field and a low part, used by the bit-field proofs.

use vstd::prelude::*;

verus! {

use vstd::arithmetic::div_mod::{
    lemma_fundamental_div_mod,
    lemma_fundamental_div_mod_converse,
    lemma_div_denominator,
    lemma_mod_bound,
    lemma_multiply_divide_lt,
    lemma_div_pos_is_pos,
};
use vstd::arithmetic::mul::lemma_mul_strictly_positive;

/// Every `x >= 0` is its high part (above `p * q`), its middle digit in base
/// `q` (after dividing by `p`) scaled by `p`, and its low part (below `p`).
pub proof fn lemma_split(x: int, p: int, q: int)
    requires
        0 <= x,
        0 < p,
        0 < q,
    ensures
        0 < p * q,
        x == (x / (p * q)) * (p * q) + ((x / p) % q) * p + x % p,
        0 <= x / (p * q),
        0 <= (x / p) % q < q,
        0 <= x % p < p,
{
    lemma_mul_strictly_positive(p, q);
    lemma_fundamental_div_mod(x, p);
    lemma_div_pos_is_pos(x, p);
    lemma_fundamental_div_mod(x / p, q);
    lemma_div_denominator(x, p, q);
    lemma_mod_bound(x, p);
    lemma_mod_bound(x / p, q);
    lemma_div_pos_is_pos(x / p, q);
    let h = x / (p * q);
    let f = (x / p) % q;
    let lo = x % p;
    assert(x == (h * (p * q)) + f * p + lo) by (nonlinear_arith)
        requires
            x == p * (x / p) + lo,
            x / p == q * h + f,
    ;
}

/// Putting `b` (a digit below `q`) in place of the middle part of `x`:
/// the low part and the high part stay, and the middle part becomes `b`.
pub proof fn lemma_replace(x: int, p: int, q: int, b: int)
    requires
        0 <= x,
        0 < p,
        0 < q,
        0 <= b < q,
    ensures
        ({
            let r = (x / (p * q)) * (p * q) + b * p + x % p;
            &&& 0 <= r
            &&& r % p == x % p
            &&& (r / p) % q == b
            &&& r / (p * q) == x / (p * q)
            &&& r < (x / (p * q) + 1) * (p * q)
        }),
{
    lemma_split(x, p, q);
    let h = x / (p * q);
    let lo = x % p;
    let r = h * (p * q) + b * p + lo;
    assert(r == (h * q + b) * p + lo && 0 <= h * q + b) by (nonlinear_arith)
        requires
            r == h * (p * q) + b * p + lo,
            0 <= h,
            0 <= b,
            0 < q,
    ;
    lemma_fundamental_div_mod_converse(r, p, h * q + b, lo);
    lemma_fundamental_div_mod_converse(h * q + b, q, h, b);
    lemma_div_denominator(r, p, q);
    assert(r < (h + 1) * (p * q)) by (nonlinear_arith)
        requires
            r == (h * q + b) * p + lo,
            b < q,
            lo < p,
            0 < p,
    ;
}

/// A multiple of `p * q` below `p * q * m` leaves room for one more `p * q`.
pub proof fn lemma_room_above(x: int, pq: int, m: int)
    requires
        0 <= x < pq * m,
        0 < pq,
    ensures
        (x / pq + 1) * pq <= pq * m,
{
    lemma_multiply_divide_lt(x, pq, m);
    assert((x / pq + 1) * pq <= pq * m) by (nonlinear_arith)
        requires
            x / pq < m,
            0 < pq,
    ;
}

/// A digit of `x` below the `p`-part depends only on `x % p`: with
/// `p == p2 * q2 * e`, the `q2`-digit of `x / p2` is that of `(x % p) / p2`.
pub proof fn lemma_digit_below(x: int, p2: int, q2: int, e: int)
    requires
        0 <= x,
        0 < p2,
        0 < q2,
        0 < e,
    ensures
        (x / p2) % q2 == ((x % (p2 * (q2 * e))) / p2) % q2,
{
    let d = q2 * e;
    lemma_mul_strictly_positive(q2, e);
    lemma_mul_strictly_positive(p2, d);
    let p = p2 * d;
    lemma_fundamental_div_mod(x, p);
    lemma_div_pos_is_pos(x, p);
    let a = x / p;
    let lo = x % p;
    lemma_mod_bound(x, p);
    lemma_fundamental_div_mod(lo, p2);
    lemma_mod_bound(lo, p2);
    lemma_div_pos_is_pos(lo, p2);
    assert(x == (d * a + lo / p2) * p2 + lo % p2) by (nonlinear_arith)
        requires
            x == p * a + lo,
            p == p2 * d,
            lo == p2 * (lo / p2) + lo % p2,
    ;
    lemma_fundamental_div_mod_converse(x, p2, d * a + lo / p2, lo % p2);
    assert(d * a + lo / p2 == q2 * (e * a) + lo / p2) by (nonlinear_arith)
        requires
            d == q2 * e,
    ;
    vstd::arithmetic::div_mod::lemma_mod_multiples_vanish(e * a, lo / p2, q2);
}

} // verus!
