//! Multiplication in GF(2^128) is commutative and associative.
//!
//! Both follow from one fact: multiplying by `x` is the same on either side.
//! That fact rests on the reduction polynomial: on every element, 128 steps
//! of multiplication by `x` do what multiplication by `x^7 + x^2 + x + 1` does.

use crate::field::{
    gf_add, gf_inv, gf_mul, invertible, lemma_mul_by_x, lemma_mul_low_additive, lemma_mul_low_zero,
    lemma_xor_assoc, lemma_xor_swap_inner, lemma_xor_unit, mul_low, squared, squares_product,
    xtime, F128b,
};
use vstd::prelude::*;

verus! {

/// `n` steps of multiplication by `x`.
pub open spec fn xpow(a: u128, n: nat) -> u128
    decreases n,
{
    if n == 0 {
        a
    } else {
        xpow(xtime(a), (n - 1) as nat)
    }
}

/// Multiplication by `x` is additive.
pub proof fn lemma_xtime_linear(a: u128, b: u128)
    ensures
        xtime(a ^ b) == xtime(a) ^ xtime(b),
        xtime(0) == 0,
{
    let top = 0x8000_0000_0000_0000_0000_0000_0000_0000u128;
    assert({
        let xa = if a & top != 0 {
            (a << 1) ^ 0x87u128
        } else {
            a << 1
        };
        let xb = if b & top != 0 {
            (b << 1) ^ 0x87u128
        } else {
            b << 1
        };
        let xab = if (a ^ b) & top != 0 {
            ((a ^ b) << 1) ^ 0x87u128
        } else {
            (a ^ b) << 1
        };
        xab == xa ^ xb && 0u128 & top == 0 && 0u128 << 1 == 0
    }) by (bit_vector)
        requires
            top == 0x8000_0000_0000_0000_0000_0000_0000_0000u128,
    ;
}

/// Steps of multiplication by `x` are additive.
pub proof fn lemma_xpow_linear(a: u128, b: u128, n: nat)
    ensures
        xpow(a ^ b, n) == xpow(a, n) ^ xpow(b, n),
        xpow(0, n) == 0,
    decreases n,
{
    if n > 0 {
        lemma_xtime_linear(a, b);
        lemma_xpow_linear(xtime(a), xtime(b), (n - 1) as nat);
    } else {
        lemma_xor_unit(0);
    }
}

/// A step of multiplication by `x` may be taken first or last.
pub proof fn lemma_xpow_shift(a: u128, n: nat)
    ensures
        xpow(xtime(a), n) == xtime(xpow(a, n)),
    decreases n,
{
    if n > 0 {
        lemma_xpow_shift(xtime(a), (n - 1) as nat);
    }
}

/// Multiplication is additive in its first argument.
pub proof fn lemma_mul_low_additive_left(a: u128, c: u128, b: u128, n: nat)
    ensures
        mul_low(a ^ c, b, n) == mul_low(a, b, n) ^ mul_low(c, b, n),
        mul_low(0, b, n) == 0,
    decreases n,
{
    if n == 0 {
        lemma_xor_unit(0);
    } else {
        let m = (n - 1) as nat;
        lemma_xtime_linear(a, c);
        lemma_mul_low_additive_left(xtime(a), xtime(c), b >> 1, m);
        let ra = mul_low(xtime(a), b >> 1, m);
        let rc = mul_low(xtime(c), b >> 1, m);
        lemma_xor_swap_inner(a, ra, c, rc);
        lemma_xor_unit(0);
    }
}

/// A factor `x` on the left may be taken out of a product.
pub proof fn lemma_mul_low_xtime_left(a: u128, b: u128, n: nat)
    ensures
        mul_low(xtime(a), b, n) == xtime(mul_low(a, b, n)),
    decreases n,
{
    lemma_xtime_linear(0, 0);
    if n > 0 {
        let m = (n - 1) as nat;
        lemma_mul_low_xtime_left(xtime(a), b >> 1, m);
        lemma_xtime_linear(a, mul_low(xtime(a), b >> 1, m));
    }
}

/// One more bit of the second factor adds one more shifted copy of the first.
pub proof fn lemma_mul_low_top(a: u128, b: u128, n: nat)
    requires
        n < 128,
    ensures
        mul_low(a, b, n + 1) == mul_low(a, b, n) ^ (if (b >> (n as u128)) & 1 == 1 {
            xpow(a, n)
        } else {
            0
        }),
    decreases n,
{
    if n == 0 {
        assert(b >> 0u128 == b) by (bit_vector);
        reveal_with_fuel(mul_low, 2);
        lemma_xor_unit(a);
        lemma_xor_unit(0);
    } else {
        let m = (n - 1) as nat;
        lemma_mul_low_top(xtime(a), b >> 1, m);
        let (nu, mu) = (n as u128, m as u128);
        assert(0 < nu < 128 && mu == nu - 1 ==> (b >> 1) >> mu == b >> nu) by (bit_vector);
        let rest = mul_low(xtime(a), b >> 1, m);
        let extra: u128 = if (b >> nu) & 1 == 1 {
            xpow(a, n)
        } else {
            0
        };
        lemma_xor_assoc(a, rest, extra);
    }
}

/// A product with the low `n` bits of the second factor ignores the others.
pub proof fn lemma_mul_low_masked(a: u128, b: u128, n: nat)
    requires
        n <= 127,
    ensures
        mul_low(a, b & (((1u128 << (n as u128)) - 1) as u128), n) == mul_low(a, b, n),
    decreases n,
{
    if n > 0 {
        let m = (n - 1) as nat;
        let (nu, mu) = (n as u128, m as u128);
        lemma_mul_low_masked(xtime(a), b >> 1, m);
        assert(0 < nu <= 127 && mu == nu - 1 ==> {
            let mask = ((1u128 << nu) - 1) as u128;
            let below = ((1u128 << mu) - 1) as u128;
            (b & mask) & 1 == b & 1 && (b & mask) >> 1 == (b >> 1) & below
        }) by (bit_vector);
    }
}

/// The product with `x^7 + x^2 + x + 1`.
pub proof fn lemma_mul_by_reduction(a: u128)
    ensures
        mul_low(a, 0x87, 128) == ((a ^ xpow(a, 1)) ^ xpow(a, 2)) ^ xpow(a, 7),
{
    assert(0x87u128 >> 1 == 0x43 && 0x43u128 >> 1 == 0x21 && 0x21u128 >> 1 == 0x10 && 0x10u128 >> 1
        == 8 && 8u128 >> 1 == 4 && 4u128 >> 1 == 2 && 2u128 >> 1 == 1 && 1u128 >> 1 == 0 && 0x87u128
        & 1 == 1 && 0x43u128 & 1 == 1 && 0x21u128 & 1 == 1 && 0x10u128 & 1 == 0 && 8u128 & 1 == 0
        && 4u128 & 1 == 0 && 2u128 & 1 == 0 && 1u128 & 1 == 1) by (bit_vector);
    let a1 = xtime(a);
    let a2 = xtime(a1);
    let a3 = xtime(a2);
    let a4 = xtime(a3);
    let a5 = xtime(a4);
    let a6 = xtime(a5);
    let a7 = xtime(a6);
    let a8 = xtime(a7);
    assert(mul_low(a7, 1, 121) == a7 ^ mul_low(a8, 0, 120));
    lemma_mul_low_zero(a8, 120);
    lemma_xor_unit(a7);
    assert(mul_low(a6, 2, 122) == a7);
    assert(mul_low(a5, 4, 123) == a7);
    assert(mul_low(a4, 8, 124) == a7);
    assert(mul_low(a3, 0x10, 125) == a7);
    assert(mul_low(a2, 0x21, 126) == a2 ^ a7);
    assert(mul_low(a1, 0x43, 127) == a1 ^ (a2 ^ a7));
    assert(mul_low(a, 0x87, 128) == a ^ (a1 ^ (a2 ^ a7)));
    reveal_with_fuel(xpow, 8);
    assert(xpow(a, 1) == a1);
    assert(xpow(a, 2) == a2);
    assert(xpow(a, 7) == a7);
    lemma_xor_assoc(a, a1, a2 ^ a7);
    lemma_xor_assoc(a ^ a1, a2, a7);
}

/// What holds of zero and one, of sums and of multiples by `x`, holds of
/// every element.
pub proof fn lemma_span(p: spec_fn(u128) -> bool, a: u128)
    requires
        p(0),
        p(1),
        forall|x: u128, y: u128| p(x) && p(y) ==> #[trigger] p(x ^ y),
        forall|x: u128| p(x) ==> #[trigger] p(xtime(x)),
    ensures
        p(a),
    decreases a,
{
    if a != 0 {
        let h = a >> 1;
        assert(a != 0 ==> (a >> 1) < a) by (bit_vector);
        lemma_span(p, h);
        assert((a >> 1) & 0x8000_0000_0000_0000_0000_0000_0000_0000u128 == 0 && a == ((a >> 1) << 1)
            ^ (a & 1) && (a & 1 == 0 || a & 1 == 1)) by (bit_vector);
        assert(p(xtime(h)));
        assert(p(xtime(h) ^ (a & 1)));
    }
}

/// What multiplication by `x^7 + x^2 + x + 1` makes of an element.
pub open spec fn reduced(a: u128) -> u128 {
    ((a ^ xpow(a, 1)) ^ xpow(a, 2)) ^ xpow(a, 7)
}

/// From `x^j`, the remaining steps up to `x^128` give `x^7 + x^2 + x + 1`.
pub proof fn lemma_xpow_of_power(j: nat)
    requires
        j <= 127,
    ensures
        xpow(1u128 << (j as u128), (128 - j) as nat) == 0x87,
    decreases 127 - j,
{
    let ju = j as u128;
    let e = 1u128 << ju;
    if j == 127 {
        assert(ju == 127 ==> {
            let e = 1u128 << ju;
            e & 0x8000_0000_0000_0000_0000_0000_0000_0000u128 != 0 && (e << 1) ^ 0x87u128 == 0x87
        }) by (bit_vector);
        reveal_with_fuel(xpow, 2);
    } else {
        lemma_xpow_of_power(j + 1);
        let ku = (j + 1) as u128;
        assert(ju < 127 && ku == ju + 1 ==> {
            let e = 1u128 << ju;
            e & 0x8000_0000_0000_0000_0000_0000_0000_0000u128 == 0 && e << 1 == 1u128 << ku
        }) by (bit_vector);
    }
}

/// Multiplication by `x^7 + x^2 + x + 1` is additive.
pub proof fn lemma_reduced_linear(a: u128, b: u128)
    ensures
        reduced(a ^ b) == reduced(a) ^ reduced(b),
        reduced(0) == 0,
{
    lemma_xpow_linear(a, b, 1);
    lemma_xpow_linear(a, b, 2);
    lemma_xpow_linear(a, b, 7);
    let (a1, a2, a7) = (xpow(a, 1), xpow(a, 2), xpow(a, 7));
    let (b1, b2, b7) = (xpow(b, 1), xpow(b, 2), xpow(b, 7));
    assert((((a ^ b) ^ (a1 ^ b1)) ^ (a2 ^ b2)) ^ (a7 ^ b7) == (((a ^ a1) ^ a2) ^ a7) ^ (((b ^ b1)
        ^ b2) ^ b7) && ((0u128 ^ 0) ^ 0) ^ 0 == 0) by (bit_vector);
}

/// A step of multiplication by `x` may be taken before or after
/// multiplication by `x^7 + x^2 + x + 1`.
pub proof fn lemma_reduced_shift(a: u128)
    ensures
        reduced(xtime(a)) == xtime(reduced(a)),
{
    lemma_xpow_shift(a, 1);
    lemma_xpow_shift(a, 2);
    lemma_xpow_shift(a, 7);
    let (a1, a2, a7) = (xpow(a, 1), xpow(a, 2), xpow(a, 7));
    lemma_xtime_linear(a, a1);
    lemma_xtime_linear(a ^ a1, a2);
    lemma_xtime_linear((a ^ a1) ^ a2, a7);
}

/// The reduction polynomial at work: 128 steps of multiplication by `x` do
/// what multiplication by `x^7 + x^2 + x + 1` does.
pub proof fn lemma_xpow_reduction(a: u128)
    ensures
        xpow(a, 128) == reduced(a),
{
    let p = |c: u128| xpow(c, 128) == reduced(c);
    assert(p(0)) by {
        lemma_xpow_linear(0, 0, 128);
        lemma_reduced_linear(0, 0);
    }
    assert(p(1)) by {
        lemma_xpow_of_power(0);
        let top = 0x8000_0000_0000_0000_0000_0000_0000_0000u128;
        assert(1u128 << 0u128 == 1 && 1u128 & top == 0 && 2u128 & top == 0 && 4u128 & top == 0
            && 8u128 & top == 0 && 16u128 & top == 0 && 32u128 & top == 0 && 64u128 & top == 0
            && 1u128 << 1 == 2 && 2u128 << 1 == 4 && 4u128 << 1 == 8 && 8u128 << 1 == 16 && 16u128
            << 1 == 32 && 32u128 << 1 == 64 && 64u128 << 1 == 128 && ((1u128 ^ 2) ^ 4) ^ 128
            == 0x87) by (bit_vector)
            requires
                top == 0x8000_0000_0000_0000_0000_0000_0000_0000u128,
        ;
        assert(xtime(1) == 2);
        assert(xtime(2) == 4);
        assert(xtime(4) == 8);
        assert(xtime(8) == 16);
        assert(xtime(16) == 32);
        assert(xtime(32) == 64);
        assert(xtime(64) == 128);
        reveal_with_fuel(xpow, 8);
        assert(xpow(1, 1) == 2);
        assert(xpow(1, 2) == 4);
        assert(xpow(1, 7) == 128);
    }
    assert forall|x: u128, y: u128| p(x) && p(y) implies #[trigger] p(x ^ y) by {
        lemma_xpow_linear(x, y, 128);
        lemma_reduced_linear(x, y);
    }
    assert forall|x: u128| p(x) implies #[trigger] p(xtime(x)) by {
        lemma_xpow_shift(x, 128);
        lemma_reduced_shift(x);
    }
    lemma_span(p, a);
}

/// A factor `x` on the right may be taken out of a product.
pub proof fn lemma_mul_low_xtime_right(a: u128, b: u128)
    ensures
        mul_low(a, xtime(b), 128) == xtime(mul_low(a, b, 128)),
{
    let top = 0x8000_0000_0000_0000_0000_0000_0000_0000u128;
    let sh = b << 1;
    let m = mul_low(a, b, 127);
    // The product with `b` shifted up by one bit.
    assert((b << 1) & 1 == 0 && (b << 1) >> 1 == b & (((1u128 << 127) - 1) as u128)) by (bit_vector);
    lemma_mul_low_masked(xtime(a), b, 127);
    lemma_mul_low_xtime_left(a, b, 127);
    assert(mul_low(a, sh, 128) == xtime(m));
    // The product with `b` itself, by its top bit.
    lemma_mul_low_top(a, b, 127);
    assert((b & top != 0) <==> ((b >> 127) & 1 == 1)) by (bit_vector)
        requires
            top == 0x8000_0000_0000_0000_0000_0000_0000_0000u128,
    ;
    if b & top != 0 {
        lemma_mul_low_additive(a, sh, 0x87, 128);
        lemma_mul_by_reduction(a);
        lemma_xpow_reduction(a);
        lemma_xpow_shift(a, 127);
        lemma_xtime_linear(m, xpow(a, 127));
        assert(xpow(a, 128) == xpow(xtime(a), 127));
    } else {
        lemma_xor_unit(m);
    }
}

/// One is neutral on the left.
pub proof fn lemma_mul_one_left(b: u128)
    ensures
        mul_low(1, b, 128) == b,
{
    let p = |c: u128| mul_low(1, c, 128) == c;
    assert(p(0)) by {
        lemma_mul_low_zero(1, 128);
    }
    assert(p(1)) by {
        lemma_mul_by_x(F128b(1));
    }
    assert forall|x: u128, y: u128| p(x) && p(y) implies #[trigger] p(x ^ y) by {
        lemma_mul_low_additive(1, x, y, 128);
    }
    assert forall|x: u128| p(x) implies #[trigger] p(xtime(x)) by {
        lemma_mul_low_xtime_right(1, x);
    }
    lemma_span(p, b);
}

/// Multiplication is commutative.
pub proof fn lemma_mul_low_commutes(a: u128, b: u128)
    ensures
        mul_low(a, b, 128) == mul_low(b, a, 128),
{
    let p = |c: u128| mul_low(a, c, 128) == mul_low(c, a, 128);
    assert(p(0)) by {
        lemma_mul_low_zero(a, 128);
        lemma_mul_low_additive_left(0, 0, a, 128);
    }
    assert(p(1)) by {
        lemma_mul_by_x(F128b(a));
        lemma_mul_one_left(a);
    }
    assert forall|x: u128, y: u128| p(x) && p(y) implies #[trigger] p(x ^ y) by {
        lemma_mul_low_additive(a, x, y, 128);
        lemma_mul_low_additive_left(x, y, a, 128);
    }
    assert forall|x: u128| p(x) implies #[trigger] p(xtime(x)) by {
        lemma_mul_low_xtime_right(a, x);
        lemma_mul_low_xtime_left(x, a, 128);
    }
    lemma_span(p, b);
}

/// Multiplication is associative.
pub proof fn lemma_mul_low_associates(a: u128, b: u128, c: u128)
    ensures
        mul_low(mul_low(a, b, 128), c, 128) == mul_low(a, mul_low(b, c, 128), 128),
{
    let ab = mul_low(a, b, 128);
    let p = |d: u128| mul_low(ab, d, 128) == mul_low(a, mul_low(b, d, 128), 128);
    assert(p(0)) by {
        lemma_mul_low_zero(ab, 128);
        lemma_mul_low_zero(b, 128);
        lemma_mul_low_zero(a, 128);
    }
    assert(p(1)) by {
        lemma_mul_by_x(F128b(ab));
        lemma_mul_by_x(F128b(b));
    }
    assert forall|x: u128, y: u128| p(x) && p(y) implies #[trigger] p(x ^ y) by {
        lemma_mul_low_additive(ab, x, y, 128);
        lemma_mul_low_additive(b, x, y, 128);
        lemma_mul_low_additive(a, mul_low(b, x, 128), mul_low(b, y, 128), 128);
    }
    assert forall|x: u128| p(x) implies #[trigger] p(xtime(x)) by {
        lemma_mul_low_xtime_right(ab, x);
        lemma_mul_low_xtime_right(b, x);
        lemma_mul_low_xtime_right(a, mul_low(b, x, 128));
    }
    lemma_span(p, c);
}

/// The laws of multiplication: it is commutative and associative, one is
/// neutral, and it distributes over addition on both sides.
pub proof fn lemma_mul_laws(a: F128b, b: F128b, c: F128b)
    ensures
        gf_mul(a, b) == gf_mul(b, a),
        gf_mul(gf_mul(a, b), c) == gf_mul(a, gf_mul(b, c)),
        gf_mul(a, F128b(1)) == a,
        gf_mul(F128b(1), a) == a,
        gf_mul(a, F128b(0)) == F128b(0),
        gf_mul(F128b(0), a) == F128b(0),
        gf_mul(a, gf_add(b, c)) == gf_add(gf_mul(a, b), gf_mul(a, c)),
        gf_mul(gf_add(a, b), c) == gf_add(gf_mul(a, c), gf_mul(b, c)),
{
    lemma_mul_low_commutes(a.0, b.0);
    lemma_mul_low_associates(a.0, b.0, c.0);
    lemma_mul_by_x(a);
    lemma_mul_one_left(a.0);
    lemma_mul_low_zero(a.0, 128);
    lemma_mul_low_additive_left(a.0, b.0, c.0, 128);
    lemma_mul_low_additive_left(0, 0, a.0, 128);
    lemma_mul_low_additive(a.0, b.0, c.0, 128);
}

/// Every repeated square of one is one, and so is their product.
pub proof fn lemma_squares_of_one(k: nat)
    ensures
        squared(F128b(1), k) == F128b(1),
        squares_product(F128b(1), k) == F128b(1),
    decreases k,
{
    if k > 0 {
        lemma_squares_of_one((k - 1) as nat);
        lemma_mul_laws(F128b(1), F128b(1), F128b(1));
    }
}

/// Zero has no inverse, and one is its own.
pub proof fn lemma_inverse_edges()
    ensures
        !invertible(F128b(0)),
        invertible(F128b(1)),
        gf_inv(F128b(1)) == F128b(1),
{
    lemma_mul_laws(gf_inv(F128b(0)), F128b(0), F128b(0));
    lemma_squares_of_one(127);
    lemma_mul_laws(F128b(1), F128b(1), F128b(1));
}

/// An inverse is unique: whatever multiplies an invertible element to one
/// is that power of it.
pub proof fn lemma_inverse_unique(a: F128b, b: F128b)
    requires
        invertible(a),
        gf_mul(a, b) == F128b(1),
    ensures
        b == gf_inv(a),
{
    let i = gf_inv(a);
    // b = (i a) b = i (a b) = i
    lemma_mul_laws(i, a, b);
    lemma_mul_laws(b, i, i);
    lemma_mul_laws(i, b, b);
}

/// `(a b) (c d) = (a c) (b d)`.
pub proof fn lemma_mul_interchange(a: F128b, b: F128b, c: F128b, d: F128b)
    ensures
        gf_mul(gf_mul(a, b), gf_mul(c, d)) == gf_mul(gf_mul(a, c), gf_mul(b, d)),
{
    // (a b) (c d) = a (b (c d)) = a ((b c) d) = a ((c b) d) = a (c (b d)) = (a c) (b d)
    lemma_mul_laws(a, b, gf_mul(c, d));
    lemma_mul_laws(b, c, d);
    lemma_mul_laws(c, b, d);
    lemma_mul_laws(a, c, gf_mul(b, d));
}

/// The repeated squares of a product are the products of the repeated
/// squares, and so are the products of the squares.
pub proof fn lemma_squares_of_product(a: F128b, b: F128b, k: nat)
    ensures
        squared(gf_mul(a, b), k) == gf_mul(squared(a, k), squared(b, k)),
        squares_product(gf_mul(a, b), k) == gf_mul(squares_product(a, k), squares_product(b, k)),
    decreases k,
{
    if k == 0 {
        lemma_mul_laws(F128b(1), F128b(1), F128b(1));
    } else {
        let j = (k - 1) as nat;
        lemma_squares_of_product(a, b, j);
        lemma_mul_interchange(squared(a, j), squared(b, j), squared(a, j), squared(b, j));
        lemma_mul_interchange(
            squares_product(a, j),
            squares_product(b, j),
            squared(a, k),
            squared(b, k),
        );
    }
}

/// The product of two elements with inverses has an inverse.
pub proof fn lemma_product_invertible(a: F128b, b: F128b)
    requires
        invertible(a),
        invertible(b),
    ensures
        invertible(gf_mul(a, b)),
{
    lemma_squares_of_product(a, b, 127);
    lemma_mul_interchange(a, b, gf_inv(a), gf_inv(b));
    lemma_mul_laws(F128b(1), F128b(1), F128b(1));
}

} // verus!
