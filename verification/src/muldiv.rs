//! Multiplication followed by division, with the product taken over as many bits as it needs.

use vstd::arithmetic::div_mod::{lemma_div_is_ordered, lemma_fundamental_div_mod, lemma_fundamental_div_mod_converse};
use vstd::prelude::*;

verus! {

/// The product of `a` and `b` is `q` times `c` and a remainder `r` below `c`.
pub open spec fn is_quotient(a: int, b: int, c: int, q: int, r: int) -> bool {
    &&& a * b == q * c + r
    &&& 0 <= r < c
}

proof fn lemma_quotient_unique(a: int, b: int, c: int, q: int, r: int)
    requires
        is_quotient(a, b, c, q, r),
    ensures
        q == (a * b) / c,
        r == (a * b) % c,
{
    lemma_fundamental_div_mod_converse(a * b, c, q, r);
}

proof fn lemma_twice(a: int, b: int, c: int, q: int, r: int, carry: int)
    requires
        is_quotient(a, b, c, q, r),
        0 <= 2 * r - carry * c < c,
    ensures
        is_quotient(2 * a, b, c, 2 * q + carry, 2 * r - carry * c),
{
    assert(2 * a * b == (2 * q + carry) * c + (2 * r - carry * c)) by (nonlinear_arith)
        requires
            a * b == q * c + r,
    ;
}

proof fn lemma_once_more(a: int, b: int, c: int, q: int, r: int, carry: int)
    requires
        is_quotient(a, b, c, q, r),
        c > 0,
        0 <= r + b % c - carry * c < c,
    ensures
        is_quotient(a + 1, b, c, q + b / c + carry, r + b % c - carry * c),
{
    lemma_fundamental_div_mod(b, c);
    let bq = b / c;
    let br = b % c;
    assert((a + 1) * b == (q + bq + carry) * c + (r + br - carry * c)) by (nonlinear_arith)
        requires
            a * b == q * c + r,
            b == c * bq + br,
    ;
}

/// The quotient and the remainder of `a * b` by `c`, found bit by bit from the top bit of `a` on.
fn mul_div_rem(a: u128, b: u128, c: u128) -> (res: (u128, u128))
    requires
        c > 0,
        (a * b) / (c as int) <= u128::MAX,
    ensures
        is_quotient(a as int, b as int, c as int, res.0 as int, res.1 as int),
    decreases a,
{
    if a == 0 {
        return (0, 0);
    }
    let half: u128 = a / 2;
    proof {
        assert(half * b <= a * b) by (nonlinear_arith)
            requires
                half <= a,
        ;
        lemma_div_is_ordered(half * b, a * b, c as int);
    }
    let (q, r) = mul_div_rem(half, b, c);
    let (carry, r2): (u128, u128) = if r >= c - r {
        (1, r - (c - r))
    } else {
        (0, r + r)
    };
    proof {
        assert(carry * c == if carry == 1 { c as int } else { 0int }) by (nonlinear_arith)
            requires
                carry == 0 || carry == 1,
        ;
        lemma_twice(half as int, b as int, c as int, q as int, r as int, carry as int);
        lemma_quotient_unique(2 * half, b as int, c as int, 2 * q + carry, r2 as int);
        assert(2 * half * b <= a * b) by (nonlinear_arith)
            requires
                2 * half <= a,
        ;
        lemma_div_is_ordered(2 * half * b, a * b, c as int);
    }
    let q2: u128 = q + q + carry;
    if a % 2 == 0 {
        return (q2, r2);
    }
    let bq: u128 = b / c;
    let br: u128 = b % c;
    let (carry, r3): (u128, u128) = if r2 >= c - br {
        (1, r2 - (c - br))
    } else {
        (0, r2 + br)
    };
    proof {
        assert(carry * c == if carry == 1 { c as int } else { 0int }) by (nonlinear_arith)
            requires
                carry == 0 || carry == 1,
        ;
        lemma_once_more(2 * half, b as int, c as int, q2 as int, r2 as int, carry as int);
        lemma_quotient_unique(a as int, b as int, c as int, q2 + bq + carry, r3 as int);
    }
    (q2 + bq + carry, r3)
}

/// `a * b / c` rounded down, exact for every product, however large.
pub fn mul_div(a: u128, b: u128, c: u128) -> (q: u128)
    requires
        c > 0,
        (a * b) / (c as int) <= u128::MAX,
    ensures
        q == (a * b) / (c as int),
{
    let (q, r) = mul_div_rem(a, b, c);
    proof {
        lemma_quotient_unique(a as int, b as int, c as int, q as int, r as int);
    }
    q
}

} // verus!
