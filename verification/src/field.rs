//! The binary field GF(2^128) with reduction polynomial x^128 + x^7 + x^2 + x + 1.
//!
//! An element is held as the 128 coefficient bits of its polynomial, bit `i`
//! being the coefficient of `x^i`. Addition is bitwise exclusive or.

use crate::error::Error;
use vstd::bytes::*;
use vstd::prelude::*;
use vstd::slice::*;

verus! {

/// An element of GF(2^128).
#[derive(Clone, Copy, Debug, PartialEq, Eq, Structural, Hash)]
pub struct F128b(pub u128);

/// Number of bytes of the canonical encoding of an element.
pub const FIELD_BYTES: usize = 16;

/// Sum of two elements.
pub open spec fn gf_add(a: F128b, b: F128b) -> F128b {
    F128b(a.0 ^ b.0)
}

/// The polynomial `a` times `x`, reduced.
pub open spec fn xtime(a: u128) -> u128 {
    if a & 0x8000_0000_0000_0000_0000_0000_0000_0000u128 != 0 {
        (a << 1) ^ 0x87u128
    } else {
        a << 1
    }
}

/// `a` times the polynomial made of the low `n` bits of `b`.
pub open spec fn mul_low(a: u128, b: u128, n: nat) -> u128
    decreases n,
{
    if n == 0 {
        0
    } else {
        let rest = mul_low(xtime(a), b >> 1, (n - 1) as nat);
        if b & 1 == 1 {
            a ^ rest
        } else {
            rest
        }
    }
}

/// Product of two elements.
pub open spec fn gf_mul(a: F128b, b: F128b) -> F128b {
    F128b(mul_low(a.0, b.0, 128))
}

/// Sum of the first `n` entries of a vector.
pub open spec fn sum_upto(v: Seq<F128b>, n: int) -> F128b
    decreases n,
{
    if n <= 0 {
        F128b(0)
    } else {
        gf_add(sum_upto(v, n - 1), v[n - 1])
    }
}

/// The sixteen bytes of an element, least significant first.
pub open spec fn field_bytes(a: F128b) -> Seq<u8> {
    spec_u128_to_le_bytes(a.0)
}

/// The element that sixteen bytes stand for.
pub open spec fn field_from_bytes(s: Seq<u8>) -> F128b {
    F128b(spec_u128_from_le_bytes(s))
}

pub proof fn lemma_xor_assoc(a: u128, b: u128, c: u128)
    ensures
        (a ^ b) ^ c == a ^ (b ^ c),
{
    assert((a ^ b) ^ c == a ^ (b ^ c)) by (bit_vector);
}

pub proof fn lemma_xor_comm(a: u128, b: u128)
    ensures
        a ^ b == b ^ a,
{
    assert(a ^ b == b ^ a) by (bit_vector);
}

pub proof fn lemma_xor_unit(a: u128)
    ensures
        a ^ 0 == a,
        0 ^ a == a,
        a ^ a == 0,
{
    assert(a ^ 0 == a && 0 ^ a == a && a ^ a == 0) by (bit_vector);
}

/// `(a ^ b) ^ (c ^ d) == (a ^ c) ^ (b ^ d)`.
pub proof fn lemma_xor_swap_inner(a: u128, b: u128, c: u128, d: u128)
    ensures
        (a ^ b) ^ (c ^ d) == (a ^ c) ^ (b ^ d),
{
    assert((a ^ b) ^ (c ^ d) == (a ^ c) ^ (b ^ d)) by (bit_vector);
}

/// Addition is associative and commutative, zero is its identity, and every
/// element is its own negative.
pub proof fn lemma_add_laws(a: F128b, b: F128b, c: F128b)
    ensures
        gf_add(gf_add(a, b), c) == gf_add(a, gf_add(b, c)),
        gf_add(a, b) == gf_add(b, a),
        gf_add(a, a) == F128b(0),
        gf_add(a, F128b(0)) == a,
        gf_add(F128b(0), a) == a,
{
    lemma_xor_assoc(a.0, b.0, c.0);
    lemma_xor_comm(a.0, b.0);
    lemma_xor_unit(a.0);
}

/// `(a + b) + (c + d) = (a + c) + (b + d)`.
pub proof fn lemma_add_interchange(a: F128b, b: F128b, c: F128b, d: F128b)
    ensures
        gf_add(gf_add(a, b), gf_add(c, d)) == gf_add(gf_add(a, c), gf_add(b, d)),
{
    lemma_xor_swap_inner(a.0, b.0, c.0, d.0);
}

/// `(a + b) + b = a`.
pub proof fn lemma_add_cancel(a: F128b, b: F128b)
    ensures
        gf_add(gf_add(a, b), b) == a,
        gf_add(b, gf_add(b, a)) == a,
        gf_add(gf_add(b, a), b) == a,
{
    lemma_add_laws(a, b, b);
    lemma_add_laws(b, b, a);
    lemma_add_laws(b, a, b);
    lemma_add_laws(a, b, a);
}

/// If `l_child = l_parent + p + y`, the edge between them decodes to `y`,
/// whichever end comes first.
pub proof fn lemma_add_child_decodes(a: F128b, p: F128b, y: F128b)
    ensures
        gf_add(gf_add(a, gf_add(gf_add(a, p), y)), p) == y,
        gf_add(gf_add(gf_add(gf_add(a, p), y), a), p) == y,
{
    let (a, p, y) = (a.0, p.0, y.0);
    assert((a ^ ((a ^ p) ^ y)) ^ p == y && (((a ^ p) ^ y) ^ a) ^ p == y) by (bit_vector);
}

/// Along a tree edge that decodes to `y`, the sum of a cell, its
/// accumulated inner product and its accumulated value stays the same.
pub proof fn lemma_add_tree_step(lw: F128b, lp: F128b, ipl: F128b, y: F128b, iap: F128b, ap: F128b)
    requires
        gf_add(gf_add(lw, lp), ipl) == y || gf_add(gf_add(lp, lw), ipl) == y,
    ensures
        gf_add(gf_add(lw, gf_add(iap, ipl)), gf_add(ap, y)) == gf_add(gf_add(lp, iap), ap),
{
    let (lw, lp, ipl, y, iap, ap) = (lw.0, lp.0, ipl.0, y.0, iap.0, ap.0);
    assert(((lw ^ lp) ^ ipl == y || (lp ^ lw) ^ ipl == y) ==> ((lw ^ (iap ^ ipl)) ^ (ap ^ y)) == ((lp
        ^ iap) ^ ap)) by (bit_vector);
}

/// A back edge whose row is satisfied decodes to its value, when both ends
/// carry the same sum of cell, accumulated inner product and value.
pub proof fn lemma_add_back_edge(
    lu: F128b,
    lv: F128b,
    ipl: F128b,
    y: F128b,
    iau: F128b,
    iav: F128b,
    au: F128b,
    av: F128b,
)
    requires
        gf_add(gf_add(iau, iav), ipl) == gf_add(gf_add(au, av), y),
        gf_add(gf_add(lu, iau), au) == gf_add(gf_add(lv, iav), av),
    ensures
        gf_add(gf_add(lu, lv), ipl) == y,
{
    let (lu, lv, ipl, y, iau, iav, au, av) = (lu.0, lv.0, ipl.0, y.0, iau.0, iav.0, au.0, av.0);
    assert(((iau ^ iav) ^ ipl == (au ^ av) ^ y && (lu ^ iau) ^ au == (lv ^ iav) ^ av) ==> (lu ^ lv)
        ^ ipl == y) by (bit_vector);
}

/// Multiplying by the zero polynomial gives zero.
pub proof fn lemma_mul_low_zero(a: u128, n: nat)
    ensures
        mul_low(a, 0, n) == 0,
    decreases n,
{
    if n > 0 {
        assert(0u128 >> 1 == 0 && 0u128 & 1 == 0) by (bit_vector);
        lemma_mul_low_zero(xtime(a), (n - 1) as nat);
    }
}

/// Multiplication distributes over addition in its second argument.
pub proof fn lemma_mul_low_additive(a: u128, b: u128, c: u128, n: nat)
    ensures
        mul_low(a, b ^ c, n) == mul_low(a, b, n) ^ mul_low(a, c, n),
    decreases n,
{
    if n == 0 {
        lemma_xor_unit(0);
    } else {
        let m = (n - 1) as nat;
        lemma_mul_low_additive(xtime(a), b >> 1, c >> 1, m);
        let rb = mul_low(xtime(a), b >> 1, m);
        let rc = mul_low(xtime(a), c >> 1, m);
        assert((b ^ c) >> 1 == (b >> 1) ^ (c >> 1)) by (bit_vector);
        assert(((b ^ c) & 1 == 1) <==> ((b & 1 == 1) != (c & 1 == 1))) by (bit_vector);
        lemma_xor_assoc(a, rb, rc);
        lemma_xor_comm(rb, a);
        lemma_xor_assoc(rb, a, rc);
        lemma_xor_swap_inner(a, rb, a, rc);
        lemma_xor_unit(a);
        lemma_xor_unit(rb ^ rc);
    }
}

/// Field multiplication distributes over addition: `a(b + c) = ab + ac`.
pub proof fn lemma_mul_distributes(a: F128b, b: F128b, c: F128b)
    ensures
        gf_mul(a, gf_add(b, c)) == gf_add(gf_mul(a, b), gf_mul(a, c)),
        gf_mul(a, F128b(0)) == F128b(0),
{
    lemma_mul_low_additive(a.0, b.0, c.0, 128);
    lemma_mul_low_zero(a.0, 128);
}

/// Multiplying by the polynomial `x` is one reduction step.
pub proof fn lemma_mul_by_x(a: F128b)
    ensures
        gf_mul(a, F128b(2)) == F128b(xtime(a.0)),
        gf_mul(a, F128b(1)) == a,
{
    assert(2u128 >> 1 == 1 && 2u128 & 1 == 0 && 1u128 >> 1 == 0 && 1u128 & 1 == 1) by (bit_vector);
    reveal_with_fuel(mul_low, 3);
    lemma_mul_low_zero(xtime(xtime(a.0)), 126);
    lemma_mul_low_zero(xtime(a.0), 127);
    lemma_xor_unit(xtime(a.0));
    lemma_xor_unit(a.0);
}

impl F128b {
    /// The additive identity.
    pub fn zero() -> (z: F128b)
        ensures
            z == F128b(0),
    {
        F128b(0)
    }

    /// The multiplicative identity.
    pub fn one() -> (z: F128b)
        ensures
            z == F128b(1),
    {
        F128b(1)
    }

    /// The element whose coefficients of `x^0` to `x^63` are the bits of
    /// `lo` and whose coefficients of `x^64` to `x^127` are the bits of `hi`.
    pub fn from_halves(lo: u64, hi: u64) -> (f: F128b)
        ensures
            f.0 & 0xffff_ffff_ffff_ffffu128 == lo,
            f.0 >> 64 == hi,
    {
        let l: u128 = lo as u128;
        let h: u128 = hi as u128;
        assert(((h << 64) | l) & 0xffff_ffff_ffff_ffffu128 == l && ((h << 64) | l) >> 64 == h) by (bit_vector)
            requires
                l <= 0xffff_ffff_ffff_ffffu128,
                h <= 0xffff_ffff_ffff_ffffu128,
        ;
        F128b((h << 64) | l)
    }

    /// Whether this is the additive identity.
    pub fn is_zero(&self) -> (b: bool)
        ensures
            b == (*self == F128b(0)),
    {
        self.0 == 0
    }

    /// Field addition.
    pub fn plus(self, rhs: F128b) -> (s: F128b)
        ensures
            s == gf_add(self, rhs),
    {
        F128b(self.0 ^ rhs.0)
    }

    /// Field subtraction, which in characteristic two is addition.
    pub fn minus(self, rhs: F128b) -> (s: F128b)
        ensures
            s == gf_add(self, rhs),
    {
        F128b(self.0 ^ rhs.0)
    }

    /// Field multiplication.
    pub fn times(self, rhs: F128b) -> (p: F128b)
        ensures
            p == gf_mul(self, rhs),
    {
        let mut acc: u128 = 0;
        let mut cur: u128 = self.0;
        let mut rest: u128 = rhs.0;
        let mut i: u32 = 0;
        proof {
            lemma_xor_unit(mul_low(cur, rest, 128));
        }
        while i < 128
            invariant
                i <= 128,
                mul_low(self.0, rhs.0, 128) == acc ^ mul_low(cur, rest, (128 - i) as nat),
            decreases 128 - i,
        {
            proof {
                let r = mul_low(xtime(cur), rest >> 1, (128 - i - 1) as nat);
                lemma_xor_assoc(acc, cur, r);
            }
            if rest & 1 == 1 {
                acc = acc ^ cur;
            }
            cur = if cur & 0x8000_0000_0000_0000_0000_0000_0000_0000u128 != 0 {
                (cur << 1) ^ 0x87u128
            } else {
                cur << 1
            };
            rest = rest >> 1;
            i = i + 1;
        }
        proof {
            lemma_xor_unit(acc);
        }
        F128b(acc)
    }

    /// The multiplicative inverse, found as the power `2^128 - 2` and kept
    /// only if its product with the element is one.
    pub fn inverse(self) -> (r: Option<F128b>)
        ensures
            r == (if invertible(self) {
                Some(gf_inv(self))
            } else {
                None
            }),
    {
        let mut square = self;
        let mut product = F128b::one();
        let mut k: usize = 0;
        while k < 127
            invariant
                k <= 127,
                square == squared(self, k as nat),
                product == squares_product(self, k as nat),
            decreases 127 - k,
        {
            square = square.times(square);
            product = product.times(square);
            k = k + 1;
        }
        if self.times(product).0 == 1 {
            Some(product)
        } else {
            None
        }
    }

    /// The canonical sixteen bytes, least significant first.
    pub fn to_bytes(&self) -> (bytes: Vec<u8>)
        ensures
            bytes@ == field_bytes(*self),
            bytes@.len() == 16,
    {
        u128_to_le_bytes(self.0)
    }

    /// Decodes sixteen bytes; any other length is a serialization error.
    pub fn from_bytes(bytes: &[u8]) -> (r: Result<F128b, Error>)
        ensures
            bytes@.len() == 16 ==> r == Ok::<F128b, Error>(field_from_bytes(bytes@)),
            bytes@.len() != 16 ==> r == Err::<F128b, Error>(Error::Serialization),
    {
        if bytes.len() != FIELD_BYTES {
            return Err(Error::Serialization);
        }
        Ok(F128b(u128_from_le_bytes(bytes)))
    }
}

/// `a` squared `k` times: the power `a^(2^k)`.
pub open spec fn squared(a: F128b, k: nat) -> F128b
    decreases k,
{
    if k == 0 {
        a
    } else {
        gf_mul(squared(a, (k - 1) as nat), squared(a, (k - 1) as nat))
    }
}

/// The product of the first `k` repeated squares of `a`, from `a^2` on: the
/// power `a^(2^(k+1) - 2)`.
pub open spec fn squares_product(a: F128b, k: nat) -> F128b
    decreases k,
{
    if k == 0 {
        F128b(1)
    } else {
        gf_mul(squares_product(a, (k - 1) as nat), squared(a, k))
    }
}

/// The power `a^(2^128 - 2)`.
pub open spec fn gf_inv(a: F128b) -> F128b {
    squares_product(a, 127)
}

/// Whether that power of `a` is the inverse of `a`.
pub open spec fn invertible(a: F128b) -> bool {
    gf_mul(a, gf_inv(a)) == F128b(1)
}

/// Decoding the encoding of an element gives the element back.
pub proof fn lemma_field_bytes_round_trip(a: F128b)
    ensures
        field_bytes(a).len() == 16,
        field_from_bytes(field_bytes(a)) == a,
{
    lemma_auto_spec_u128_to_from_le_bytes();
    assert(spec_u128_to_le_bytes(a.0).len() == 16);
}

} // verus!
