//! Algebraic laws of multiplication in GF(2^32), proved over the bit-level model of
//! `field32`: linearity, associativity, the uniqueness of inverses, the irreducibility
//! of the modulus, and the invariant of the extended Euclidean algorithm that makes
//! every nonzero element invertible.
use vstd::prelude::*;
use crate::field32::{
    below, bit, clmul_bit, field_mul, field_rel, is_clmul, is_division, lemma_bit_xor,
    lemma_bits_ext, lemma_clmul_exists, lemma_conv_extend, lemma_conv_linear, lemma_conv_zero,
    lemma_field_mul_exists, lemma_leading_term, lemma_modulus_degree, lemma_narrow_bits_u32,
    lemma_nonzero_degree, lemma_reduce_exists, lemma_wide_bits_clear, lemma_clmul_commutative,
    lemma_zero_bits, IRREDUCIBLE_POLYNOMIAL, conv, lemma_conv_one, lemma_conv_zero_right,
    lemma_mul_one, lemma_mul_zero, lemma_mul_commutative, is_degree, lemma_one_bits,
    lemma_bit_xor_shl,
};

verus! {

/// The carry-less product of `a` and `b`, in 64 bits.
pub open spec fn clmul_value(a: u64, b: u64) -> u64 {
    choose|p: u64| is_clmul(a, b, p)
}

/// `r` is the remainder of `x` modulo the irreducible polynomial.
pub open spec fn is_remainder(x: u64, r: u32) -> bool {
    exists|q: u64| below(q, 32) && #[trigger] is_division(x, IRREDUCIBLE_POLYNOMIAL, q, r as u64)
}

/// The remainder of `x` modulo the irreducible polynomial.
pub open spec fn rem_of(x: u64) -> u32 {
    choose|r: u32| is_remainder(x, r)
}

pub(crate) proof fn lemma_clmul_value(a: u64, b: u64)
    ensures
        is_clmul(a, b, clmul_value(a, b)),
{
    let p = lemma_clmul_exists(a, b, 64);
    assert forall|k: int| 0 <= k < 64 implies #[trigger] bit(p, k) == clmul_bit(a, b, k) by {
        lemma_conv_extend(a, b, k, 64);
    }
    assert(is_clmul(a, b, p));
}

pub(crate) proof fn lemma_clmul_unique(a: u64, b: u64, p: u64)
    requires
        is_clmul(a, b, p),
    ensures
        clmul_value(a, b) == p,
{
    lemma_clmul_value(a, b);
    let v = clmul_value(a, b);
    assert forall|k: int| 0 <= k < 64 implies #[trigger] bit(v, k) == bit(p, k) by {
        assert(bit(v, k) == clmul_bit(a, b, k));
        assert(bit(p, k) == clmul_bit(a, b, k));
    }
    lemma_bits_ext(v, p);
}

pub(crate) proof fn lemma_remainder_unique(x: u64, r1: u32, r2: u32)
    requires
        is_remainder(x, r1),
        is_remainder(x, r2),
    ensures
        r1 == r2,
{
    let q1 = choose|q: u64| below(q, 32) && #[trigger] is_division(x, IRREDUCIBLE_POLYNOMIAL, q, r1 as u64);
    let q2 = choose|q: u64| below(q, 32) && #[trigger] is_division(x, IRREDUCIBLE_POLYNOMIAL, q, r2 as u64);
    let d = q1 ^ q2;
    let p = IRREDUCIBLE_POLYNOMIAL;
    assert forall|k: int| 0 <= k < 64 implies #[trigger] clmul_bit(d, p, k) == (bit(
        r1 as u64,
        k,
    ) != bit(r2 as u64, k)) by {
        lemma_conv_linear(q1, q2, p, k, k + 1);
        assert(bit(x, k) == (clmul_bit(q1, p, k) != bit(r1 as u64, k)));
        assert(bit(x, k) == (clmul_bit(q2, p, k) != bit(r2 as u64, k)));
    }
    if d != 0 {
        lemma_nonzero_degree(d);
        let e = 63 - vstd::std_specs::bits::u64_leading_zeros(d);
        assert(e < 32) by {
            if e >= 32 {
                lemma_bit_xor(q1, q2, e as u64);
                assert(!bit(q1, e) && !bit(q2, e));
            }
        }
        lemma_modulus_degree();
        lemma_leading_term(d, p, e, 32, e + 33);
        assert(clmul_bit(d, p, e + 32));
        lemma_wide_bits_clear(r1, (e + 32) as u64);
        lemma_wide_bits_clear(r2, (e + 32) as u64);
        assert(false);
    }
    assert forall|k: int| 0 <= k < 64 implies #[trigger] bit(r1 as u64, k) == bit(r2 as u64, k) by {
        lemma_conv_zero(p, k, k + 1);
        assert(clmul_bit(d, p, k) == (bit(r1 as u64, k) != bit(r2 as u64, k)));
    }
    lemma_bits_ext(r1 as u64, r2 as u64);
}

proof fn lemma_rem_of(x: u64)
    ensures
        is_remainder(x, rem_of(x)),
{
    let (q, r) = lemma_reduce_exists(x, 64);
    lemma_narrow_bits_u32(r);
    let rr = r as u32;
    assert forall|k: int| 0 <= k < 64 implies #[trigger] bit(x, k) == (clmul_bit(
        q,
        IRREDUCIBLE_POLYNOMIAL,
        k,
    ) != bit(rr as u64, k)) by {
        assert(bit(x, k) == (clmul_bit(q, IRREDUCIBLE_POLYNOMIAL, k) != bit(r, k)));
    }
    assert(is_division(x, IRREDUCIBLE_POLYNOMIAL, q, rr as u64));
    assert(is_remainder(x, rr));
}

pub(crate) proof fn lemma_rem_of_is(x: u64, q: u64, r: u32)
    requires
        below(q, 32),
        is_division(x, IRREDUCIBLE_POLYNOMIAL, q, r as u64),
    ensures
        rem_of(x) == r,
{
    assert(is_remainder(x, r));
    lemma_rem_of(x);
    lemma_remainder_unique(x, r, rem_of(x));
}

/// A product in GF(2^32) is the remainder of the carry-less product.
proof fn lemma_field_mul_rem(a: u32, b: u32)
    ensures
        field_mul(a, b) == rem_of(clmul_value(a as u64, b as u64)),
{
    lemma_field_mul_exists(a, b);
    lemma_clmul_value(a as u64, b as u64);
    let x = clmul_value(a as u64, b as u64);
    let r = field_mul(a, b);
    let q = choose|q: u64| field_rel(a, b, q, r);
    assert forall|k: int| 0 <= k < 64 implies #[trigger] bit(x, k) == (clmul_bit(
        q,
        IRREDUCIBLE_POLYNOMIAL,
        k,
    ) != bit(r as u64, k)) by {
        assert(bit(x, k) == clmul_bit(a as u64, b as u64, k));
    }
    lemma_rem_of_is(x, q, r);
}

/// Reduction modulo the irreducible polynomial is linear.
proof fn lemma_rem_of_xor(x: u64, y: u64)
    ensures
        rem_of(x ^ y) == rem_of(x) ^ rem_of(y),
{
    lemma_rem_of(x);
    lemma_rem_of(y);
    let rx = rem_of(x);
    let ry = rem_of(y);
    let qx = choose|q: u64| below(q, 32) && #[trigger] is_division(x, IRREDUCIBLE_POLYNOMIAL, q, rx as u64);
    let qy = choose|q: u64| below(q, 32) && #[trigger] is_division(y, IRREDUCIBLE_POLYNOMIAL, q, ry as u64);
    let r = rx ^ ry;
    assert((rx ^ ry) as u64 == (rx as u64) ^ (ry as u64));
    assert forall|k: int| 0 <= k < 64 implies #[trigger] bit(x ^ y, k) == (clmul_bit(
        qx ^ qy,
        IRREDUCIBLE_POLYNOMIAL,
        k,
    ) != bit(r as u64, k)) by {
        lemma_bit_xor(x, y, k as u64);
        lemma_bit_xor(rx as u64, ry as u64, k as u64);
        lemma_conv_linear(qx, qy, IRREDUCIBLE_POLYNOMIAL, k, k + 1);
        assert(bit(x, k) == (clmul_bit(qx, IRREDUCIBLE_POLYNOMIAL, k) != bit(rx as u64, k)));
        assert(bit(y, k) == (clmul_bit(qy, IRREDUCIBLE_POLYNOMIAL, k) != bit(ry as u64, k)));
    }
    assert forall|j: int| 32 <= j < 64 implies !#[trigger] bit(qx ^ qy, j) by {
        lemma_bit_xor(qx, qy, j as u64);
        assert(!bit(qx, j) && !bit(qy, j));
    }
    lemma_rem_of_is(x ^ y, qx ^ qy, r);
}

proof fn lemma_clmul_linear_right(a: u64, b1: u64, b2: u64)
    ensures
        clmul_value(a, b1 ^ b2) == clmul_value(a, b1) ^ clmul_value(a, b2),
{
    lemma_clmul_value(a, b1);
    lemma_clmul_value(a, b2);
    let v = clmul_value(a, b1) ^ clmul_value(a, b2);
    assert forall|k: int| 0 <= k < 64 implies #[trigger] bit(v, k) == clmul_bit(a, b1 ^ b2, k) by {
        lemma_bit_xor(clmul_value(a, b1), clmul_value(a, b2), k as u64);
        lemma_clmul_commutative(a, b1 ^ b2, k);
        lemma_clmul_commutative(a, b1, k);
        lemma_clmul_commutative(a, b2, k);
        lemma_conv_linear(b1, b2, a, k, k + 1);
        assert(bit(clmul_value(a, b1), k) == clmul_bit(a, b1, k));
        assert(bit(clmul_value(a, b2), k) == clmul_bit(a, b2, k));
    }
    lemma_clmul_unique(a, b1 ^ b2, v);
}

/// Multiplication in GF(2^32) distributes over addition (XOR) in its second factor.
pub proof fn lemma_mul_linear_right(y: u32, c1: u32, c2: u32)
    ensures
        field_mul(y, c1 ^ c2) == field_mul(y, c1) ^ field_mul(y, c2),
{
    lemma_field_mul_rem(y, c1 ^ c2);
    lemma_field_mul_rem(y, c1);
    lemma_field_mul_rem(y, c2);
    assert((c1 ^ c2) as u64 == (c1 as u64) ^ (c2 as u64));
    lemma_clmul_linear_right(y as u64, c1 as u64, c2 as u64);
    lemma_rem_of_xor(clmul_value(y as u64, c1 as u64), clmul_value(y as u64, c2 as u64));
}

proof fn lemma_bit_shl1(z: u64, j: u64)
    requires
        j < 64,
    ensures
        ((z << 1u64) >> j) & 1 == 1 <==> (j >= 1 && (z >> ((j - 1) as u64)) & 1 == 1),
{
    assert(j < 64 ==> (((z << 1u64) >> j) & 1 == 1 <==> (j >= 1 && (z >> ((j - 1) as u64)) & 1
        == 1))) by (bit_vector);
}

proof fn lemma_conv_shift(a: u64, z: u64, k: int, hi: int)
    requires
        1 <= hi <= 64,
    ensures
        conv(a, z << 1u64, k, 0, hi) == conv(a, z, k - 1, 0, hi - 1),
    decreases hi,
{
    let j = hi - 1;
    if 0 <= j < 64 {
        lemma_bit_shl1(z, j as u64);
    }
    assert(bit(z << 1u64, j) == (j >= 1 && bit(z, j - 1)));
    assert(conv(a, z << 1u64, k, 0, hi) == (conv(a, z << 1u64, k, 0, hi - 1) != (bit(
        z << 1u64,
        j,
    ) && bit(a, k - j))));
    if hi > 1 {
        lemma_conv_shift(a, z, k, hi - 1);
        assert(conv(a, z, k - 1, 0, hi - 1) == (conv(a, z, k - 1, 0, hi - 2) != (bit(z, j - 1)
            && bit(a, (k - 1) - (j - 1)))));
    } else {
        assert(!conv(a, z << 1u64, k, 0, 0));
        assert(!conv(a, z, k - 1, 0, 0));
    }
}

/// Multiplying by x shifts the coefficients of a product up by one.
proof fn lemma_clmul_shift(a: u64, z: u64)
    ensures
        clmul_value(a, z << 1u64) == clmul_value(a, z) << 1u64,
{
    lemma_clmul_value(a, z);
    let v = clmul_value(a, z) << 1u64;
    assert forall|k: int| 0 <= k < 64 implies #[trigger] bit(v, k) == clmul_bit(a, z << 1u64, k) by {
        lemma_bit_shl1(clmul_value(a, z), k as u64);
        lemma_conv_shift(a, z, k, k + 1);
        if k >= 1 {
            assert(bit(clmul_value(a, z), k - 1) == clmul_bit(a, z, k - 1));
        }
    }
    lemma_clmul_unique(a, z << 1u64, v);
}

proof fn lemma_clmul_shift_left(q: u64, m: u64, k: int)
    requires
        0 <= k < 64,
    ensures
        clmul_bit(q << 1u64, m, k) == (k >= 1 && clmul_bit(q, m, k - 1)),
{
    lemma_clmul_commutative(q << 1u64, m, k);
    lemma_conv_shift(m, q, k, k + 1);
    if k >= 1 {
        lemma_clmul_commutative(q, m, k - 1);
    }
}

proof fn lemma_rem_of_multiple(q: u64)
    requires
        below(q, 32),
    ensures
        rem_of(clmul_value(q, IRREDUCIBLE_POLYNOMIAL)) == 0,
{
    let x = clmul_value(q, IRREDUCIBLE_POLYNOMIAL);
    lemma_clmul_value(q, IRREDUCIBLE_POLYNOMIAL);
    assert forall|k: int| 0 <= k < 64 implies #[trigger] bit(x, k) == (clmul_bit(
        q,
        IRREDUCIBLE_POLYNOMIAL,
        k,
    ) != bit(0u32 as u64, k)) by {
        lemma_zero_bits(k as u64);
    }
    lemma_rem_of_is(x, q, 0);
}

/// Reducing before or after a multiplication by x gives the same remainder.
proof fn lemma_rem_of_shift(p: u64)
    requires
        below(p, 63),
    ensures
        rem_of(p << 1u64) == rem_of((rem_of(p) as u64) << 1u64),
{
    let pm = IRREDUCIBLE_POLYNOMIAL;
    lemma_rem_of(p);
    let r = rem_of(p);
    let q = choose|q: u64| below(q, 32) && #[trigger] is_division(p, pm, q, r as u64);
    if q != 0 {
        lemma_nonzero_degree(q);
        let e = 63 - vstd::std_specs::bits::u64_leading_zeros(q);
        if e >= 31 {
            lemma_modulus_degree();
            lemma_leading_term(q, pm, e, 32, e + 33);
            lemma_wide_bits_clear(r, (e + 32) as u64);
            assert(bit(p, e + 32) == (clmul_bit(q, pm, e + 32) != bit(r as u64, e + 32)));
            assert(false);
        }
    }
    let q2 = q << 1u64;
    let r2 = (r as u64) << 1u64;
    assert forall|j: int| 32 <= j < 64 implies !#[trigger] bit(q2, j) by {
        lemma_bit_shl1(q, j as u64);
        if q != 0 {
            let e = 63 - vstd::std_specs::bits::u64_leading_zeros(q);
            assert(!bit(q, j - 1));
        } else {
            lemma_zero_bits((j - 1) as u64);
        }
    }
    lemma_clmul_value(q2, pm);
    let x = clmul_value(q2, pm);
    assert forall|k: int| 0 <= k < 64 implies #[trigger] bit(p << 1u64, k) == bit(x ^ r2, k) by {
        lemma_bit_shl1(p, k as u64);
        lemma_bit_shl1(r as u64, k as u64);
        lemma_bit_xor(x, r2, k as u64);
        lemma_clmul_shift_left(q, pm, k);
        assert(bit(x, k) == clmul_bit(q2, pm, k));
        if k >= 1 {
            assert(bit(p, k - 1) == (clmul_bit(q, pm, k - 1) != bit(r as u64, k - 1)));
        }
    }
    lemma_bits_ext(p << 1u64, x ^ r2);
    lemma_rem_of_xor(x, r2);
    lemma_rem_of_multiple(q2);
    let t = rem_of(r2);
    assert(0u32 ^ t == t) by (bit_vector);
}

proof fn lemma_product_below(y: u32, z: u32)
    ensures
        below(clmul_value(y as u64, z as u64), 63),
{
    lemma_clmul_value(y as u64, z as u64);
    assert forall|k: int| 63 <= k < 64 implies !#[trigger] bit(
        clmul_value(y as u64, z as u64),
        k,
    ) by {
        lemma_conv_narrow(y, z, k, k + 1);
    }
}

proof fn lemma_conv_narrow(y: u32, z: u32, k: int, hi: int)
    requires
        k >= 63,
        0 <= hi,
    ensures
        !conv(y as u64, z as u64, k, 0, hi),
    decreases hi,
{
    if hi > 0 {
        lemma_conv_narrow(y, z, k, hi - 1);
        let j = hi - 1;
        if 32 <= j < 64 {
            lemma_wide_bits_clear(z, j as u64);
        }
        if 32 <= k - j < 64 {
            lemma_wide_bits_clear(y, (k - j) as u64);
        }
    }
}

/// Multiplication by x in GF(2^32).
pub open spec fn times_x(z: u32) -> u32 {
    rem_of((z as u64) << 1u64)
}

/// Doubling the second factor multiplies the product by x.
proof fn lemma_mul_shift(y: u32, z: u32)
    requires
        z < 0x8000_0000,
    ensures
        field_mul(y, ((z as u64) << 1u64) as u32) == times_x(field_mul(y, z)),
{
    let w = ((z as u64) << 1u64) as u32;
    assert(z < 0x8000_0000 ==> (w as u64) == (z as u64) << 1u64) by (bit_vector)
        requires
            w == ((z as u64) << 1u64) as u32,
    ;
    lemma_field_mul_rem(y, w);
    lemma_field_mul_rem(y, z);
    lemma_clmul_shift(y as u64, z as u64);
    lemma_product_below(y, z);
    lemma_rem_of_shift(clmul_value(y as u64, z as u64));
}

proof fn lemma_narrow_below(a: u32)
    ensures
        below(a as u64, 32),
{
    assert forall|j: int| 32 <= j < 64 implies !#[trigger] bit(a as u64, j) by {
        lemma_wide_bits_clear(a, j as u64);
    }
}

proof fn lemma_one_value(q: u64)
    requires
        is_degree(q, 0),
    ensures
        q == 1,
{
    assert forall|k: int| 0 <= k < 64 implies #[trigger] bit(q, k) == bit(1u64, k) by {
        lemma_one_bits(k as u64);
    }
    lemma_bits_ext(q, 1u64);
}

/// Multiplying by x commutes with multiplying by `a`.
proof fn lemma_mul_times_x(a: u32, z: u32)
    ensures
        field_mul(a, times_x(z)) == times_x(field_mul(a, z)),
{
    let pm = IRREDUCIBLE_POLYNOMIAL;
    let w = (z as u64) << 1u64;
    lemma_rem_of(w);
    let t = rem_of(w);
    let q = choose|q: u64| below(q, 32) && #[trigger] is_division(w, pm, q, t as u64);
    assert forall|j: int| 33 <= j < 64 implies !#[trigger] bit(w, j) by {
        lemma_bit_shl1(z as u64, j as u64);
        lemma_wide_bits_clear(z, (j - 1) as u64);
    }
    lemma_clmul_value(q, pm);
    let m = clmul_value(q, pm);
    lemma_modulus_degree();
    if q != 0 {
        lemma_nonzero_degree(q);
        let e = 63 - vstd::std_specs::bits::u64_leading_zeros(q);
        if e >= 1 {
            lemma_leading_term(q, pm, e, 32, e + 33);
            lemma_wide_bits_clear(t, (e + 32) as u64);
            assert(bit(w, e + 32) == (clmul_bit(q, pm, e + 32) != bit(t as u64, e + 32)));
            assert(false);
        }
        lemma_one_value(q);
    }
    assert forall|k: int| 0 <= k < 64 implies #[trigger] bit(w, k) == bit(m ^ (t as u64), k) by {
        lemma_bit_xor(m, t as u64, k as u64);
        assert(bit(m, k) == clmul_bit(q, pm, k));
    }
    lemma_bits_ext(w, m ^ (t as u64));
    lemma_clmul_linear_right(a as u64, m, t as u64);
    // The multiple of the modulus vanishes once reduced.
    if q == 0 {
        assert forall|k: int| 0 <= k < 64 implies #[trigger] bit(m, k) == bit(0u64, k) by {
            lemma_conv_zero(pm, k, k + 1);
            lemma_zero_bits(k as u64);
        }
        lemma_bits_ext(m, 0u64);
        lemma_clmul_value(a as u64, 0u64);
        assert forall|k: int| 0 <= k < 64 implies #[trigger] bit(
            clmul_value(a as u64, 0u64),
            k,
        ) == bit(0u64, k) by {
            lemma_conv_zero_right(a as u64, k, k + 1);
            lemma_zero_bits(k as u64);
        }
        lemma_bits_ext(clmul_value(a as u64, 0u64), 0u64);
        assert forall|k: int| 0 <= k < 64 implies #[trigger] bit(0u64, k) == (clmul_bit(0u64, pm, k)
            != bit(0u32 as u64, k)) by {
            lemma_conv_zero(pm, k, k + 1);
            lemma_zero_bits(k as u64);
        }
        assert forall|j: int| 32 <= j < 64 implies !#[trigger] bit(0u64, j) by {
            lemma_zero_bits(j as u64);
        }
        lemma_rem_of_is(0u64, 0u64, 0u32);
    } else {
        assert forall|k: int| 0 <= k < 64 implies #[trigger] bit(m, k) == bit(pm, k) by {
            lemma_clmul_commutative(1u64, pm, k);
            lemma_conv_one(pm, k, k + 1);
        }
        lemma_bits_ext(m, pm);
        lemma_narrow_below(a);
        lemma_rem_of_multiple(a as u64);
        lemma_clmul_value(a as u64, pm);
        assert forall|k: int| 0 <= k < 64 implies #[trigger] bit(clmul_value(a as u64, pm), k)
            == clmul_bit(a as u64, pm, k) by {}
        lemma_clmul_unique(a as u64, pm, clmul_value(a as u64, pm));
    }
    let c0 = clmul_value(a as u64, m);
    let ct = clmul_value(a as u64, t as u64);
    lemma_rem_of_xor(c0, ct);
    let rt = rem_of(ct);
    assert(0u32 ^ rt == rt) by (bit_vector);
    lemma_field_mul_rem(a, t);
    lemma_field_mul_rem(a, z);
    lemma_clmul_shift(a as u64, z as u64);
    lemma_product_below(a, z);
    lemma_rem_of_shift(clmul_value(a as u64, z as u64));
}

/// Multiplication in GF(2^32) is associative: (a * b) * c == a * (b * c).
pub proof fn lemma_mul_associative(a: u32, b: u32, c: u32)
    ensures
        field_mul(field_mul(a, b), c) == field_mul(a, field_mul(b, c)),
    decreases c,
{
    let ab = field_mul(a, b);
    if c == 0 {
        lemma_mul_zero(ab);
        lemma_mul_zero(b);
        lemma_mul_zero(a);
    } else {
        let h = c >> 1u32;
        let c0 = c & 1u32;
        let w = ((h as u64) << 1u64) as u32;
        assert(c == w ^ c0 && h < 0x8000_0000 && h < c && (c0 == 0 || c0 == 1)) by (bit_vector)
            requires
                c != 0,
                h == c >> 1u32,
                c0 == c & 1u32,
                w == ((h as u64) << 1u64) as u32,
        ;
        lemma_mul_associative(a, b, h);
        lemma_mul_linear_right(ab, w, c0);
        lemma_mul_shift(ab, h);
        lemma_mul_linear_right(b, w, c0);
        lemma_mul_shift(b, h);
        let bh = field_mul(b, h);
        let bc0 = field_mul(b, c0);
        lemma_mul_linear_right(a, times_x(bh), bc0);
        lemma_mul_times_x(a, bh);
        if c0 == 0 {
            lemma_mul_zero(ab);
            lemma_mul_zero(b);
            lemma_mul_zero(a);
        } else {
            lemma_mul_one(ab);
            lemma_mul_one(b);
        }
    }
}

/// Inverses are undone by inverting again: if a * b == 1 and b * c == 1, then c == a.
pub proof fn lemma_inverse_of_inverse(a: u32, b: u32, c: u32)
    requires
        field_mul(a, b) == 1,
        field_mul(b, c) == 1,
    ensures
        c == a,
{
    lemma_mul_one(a);
    lemma_mul_associative(a, b, c);
    lemma_mul_commutative(1, c);
    lemma_mul_one(c);
}

/// An element has at most one inverse: if a * b == 1 and a * c == 1, then b == c.
pub proof fn lemma_inverse_unique(a: u32, b: u32, c: u32)
    requires
        field_mul(a, b) == 1,
        field_mul(a, c) == 1,
    ensures
        b == c,
{
    lemma_mul_commutative(a, b);
    lemma_inverse_of_inverse(b, a, c);
}

/// The inverse of a product is the product of the inverses: if a * ia == 1 and
/// b * ib == 1, then (a * b) * (ia * ib) == 1.
pub proof fn lemma_inverse_of_product(a: u32, ia: u32, b: u32, ib: u32)
    requires
        field_mul(a, ia) == 1,
        field_mul(b, ib) == 1,
    ensures
        field_mul(field_mul(a, b), field_mul(ia, ib)) == 1,
{
    let ab = field_mul(a, b);
    lemma_mul_associative(ab, ia, ib);
    lemma_mul_associative(a, b, ia);
    lemma_mul_commutative(b, ia);
    lemma_mul_associative(a, ia, b);
    lemma_mul_commutative(1, b);
    lemma_mul_one(b);
}

/// Term `i` of a carry-less product: `q` shifted by `i` when bit `i` of `d` is set.
pub open spec fn shifted_term(q: u64, d: u64, i: u64) -> u64 {
    if (d >> i) & 1 == 1 {
        q << i
    } else {
        0
    }
}

/// The carry-less product of `q` and a `d` of at most 17 bits, written out.
pub open spec fn product17(q: u64, d: u64) -> u64 {
    0u64 ^ shifted_term(q, d, 0) ^ shifted_term(q, d, 1) ^ shifted_term(q, d, 2) ^ shifted_term(q, d, 3)
        ^ shifted_term(q, d, 4) ^ shifted_term(q, d, 5) ^ shifted_term(q, d, 6) ^ shifted_term(
        q,
        d,
        7,
    ) ^ shifted_term(q, d, 8) ^ shifted_term(q, d, 9) ^ shifted_term(q, d, 10) ^ shifted_term(
        q,
        d,
        11,
    ) ^ shifted_term(q, d, 12) ^ shifted_term(q, d, 13) ^ shifted_term(q, d, 14) ^ shifted_term(
        q,
        d,
        15,
    ) ^ shifted_term(q, d, 16)
}

/// No polynomial of degree 1 to 16 times one of degree below 32 gives the modulus.
#[verifier::rlimit(100)]
proof fn lemma_no_small_factor(q: u64, d: u64)
    by (bit_vector)
    requires
        2 <= d < 0x2_0000,
        q < 0x1_0000_0000,
    ensures
        product17(q, d) != 0x1_0040_0007u64,
{
}

/// The first `i` terms of the carry-less product of `q` and `d`.
pub open spec fn product_upto(q: u64, d: u64, i: nat) -> u64
    decreases i,
{
    if i == 0 {
        0
    } else {
        product_upto(q, d, (i - 1) as nat) ^ shifted_term(q, d, (i - 1) as u64)
    }
}

proof fn lemma_product_upto_bits(q: u64, d: u64, i: nat)
    requires
        i <= 64,
    ensures
        forall|k: int| 0 <= k < 64 ==> #[trigger] bit(product_upto(q, d, i), k) == conv(q, d, k, 0, i as int),
    decreases i,
{
    if i == 0 {
        assert forall|k: int| 0 <= k < 64 implies !#[trigger] bit(0, k) by {
            lemma_zero_bits(k as u64);
        }
    } else {
        let j = (i - 1) as u64;
        lemma_product_upto_bits(q, d, (i - 1) as nat);
        let prev = product_upto(q, d, (i - 1) as nat);
        assert forall|k: int| 0 <= k < 64 implies #[trigger] bit(product_upto(q, d, i), k) == conv(
            q,
            d,
            k,
            0,
            i as int,
        ) by {
            lemma_bit_xor_shl(prev, q, j, k as u64);
            lemma_bit_xor(prev, 0u64, k as u64);
            lemma_zero_bits(k as u64);
            assert(bit(prev, k) == conv(q, d, k, 0, j as int));
            assert(bit(d, j as int) == ((d >> j) & 1 == 1));
            assert(prev ^ 0u64 == prev) by (bit_vector);
        }
    }
}

proof fn lemma_conv_high_zero(q: u64, d: u64, k: int, hi: int)
    requires
        17 <= hi <= 64,
        below(d, 17),
    ensures
        conv(q, d, k, 0, hi) == conv(q, d, k, 0, 17),
    decreases hi,
{
    if hi > 17 {
        lemma_conv_high_zero(q, d, k, hi - 1);
        assert(!bit(d, hi - 1));
    }
}

/// Below `n` in the coefficient sense is below 2^n as a number.
pub(crate) proof fn lemma_below_value(x: u64, n: u64)
    requires
        n < 64,
        below(x, n as int),
    ensures
        x < (1u64 << n),
{
    let y = x & (((1u64 << n) - 1) as u64);
    assert forall|k: int| 0 <= k < 64 implies #[trigger] bit(x, k) == bit(y, k) by {
        let kk = k as u64;
        assert(kk < 64 && n < 64 ==> ((((x & (((1u64 << n) - 1) as u64)) >> kk) & 1 == 1) <==> (kk < n
            && (x >> kk) & 1 == 1))) by (bit_vector);
    }
    lemma_bits_ext(x, y);
    assert(n < 64 ==> x & (((1u64 << n) - 1) as u64) < (1u64 << n)) by (bit_vector);
}

proof fn lemma_value_below(x: u64, n: u64)
    requires
        n < 64,
        x < (1u64 << n),
    ensures
        below(x, n as int),
{
    assert forall|j: int| n <= j < 64 implies !#[trigger] bit(x, j) by {
        let jj = j as u64;
        assert(n <= jj < 64 && x < (1u64 << n) ==> (x >> jj) & 1 == 0) by (bit_vector);
    }
}

proof fn lemma_product17(q: u64, d: u64)
    requires
        below(d, 17),
    ensures
        clmul_value(q, d) == product17(q, d),
{
    reveal_with_fuel(product_upto, 18);
    assert(product_upto(q, d, 17) == product17(q, d));
    lemma_product_upto_bits(q, d, 17);
    assert forall|k: int| 0 <= k < 64 implies #[trigger] bit(product17(q, d), k) == clmul_bit(
        q,
        d,
        k,
    ) by {
        lemma_conv_extend(q, d, k, 64);
        lemma_conv_high_zero(q, d, k, 64);
    }
    lemma_clmul_unique(q, d, product17(q, d));
}

/// The modulus is irreducible: it is no product of a polynomial of degree 1 to 31 and
/// another one.
pub proof fn lemma_irreducible(m: u64, g: u64, e: int)
    requires
        1 <= e <= 31,
        is_degree(g, e),
        below(m, 33 - e),
    ensures
        clmul_value(m, g) != IRREDUCIBLE_POLYNOMIAL,
{
    let pm = IRREDUCIBLE_POLYNOMIAL;
    if e <= 16 {
        lemma_below_value(g, 17);
        lemma_below_value(m, 32);
        assert((1u64 << 17u64) == 0x2_0000 && (1u64 << 32u64) == 0x1_0000_0000) by (bit_vector);
        lemma_value_below(g, 17);
        if g < 2 {
            assert(bit(g, e));
            lemma_zero_bits(e as u64);
            lemma_one_bits(e as u64);
            assert(g == 0 || g == 1);
            assert(false);
        }
        lemma_product17(m, g);
        lemma_no_small_factor(m, g);
    } else {
        lemma_below_value(g, 32);
        lemma_below_value(m, 16);
        assert((1u64 << 16u64) == 0x1_0000 && (1u64 << 32u64) == 0x1_0000_0000) by (bit_vector);
        assert((1u64 << 17u64) == 0x2_0000) by (bit_vector);
        lemma_value_below(m, 17);
        lemma_clmul_value(m, g);
        lemma_clmul_value(g, m);
        assert forall|k: int| 0 <= k < 64 implies #[trigger] bit(clmul_value(m, g), k) == bit(
            clmul_value(g, m),
            k,
        ) by {
            lemma_clmul_commutative(m, g, k);
        }
        lemma_bits_ext(clmul_value(m, g), clmul_value(g, m));
        if m < 2 {
            // A product by 0 or 1 has degree below 32.
            if m == 0 {
                assert forall|k: int| 0 <= k < 64 implies !#[trigger] bit(clmul_value(m, g), k) by {
                    lemma_conv_zero(g, k, k + 1);
                }
            } else {
                assert forall|k: int| 0 <= k < 64 implies #[trigger] bit(clmul_value(m, g), k)
                    == bit(g, k) by {
                    lemma_conv_one(g, k, k + 1);
                    lemma_clmul_commutative(1u64, g, k);
                }
            }
            lemma_modulus_degree();
            assert(bit(pm, 32));
            assert(!bit(clmul_value(m, g), 32));
        } else {
            lemma_product17(g, m);
            lemma_no_small_factor(g, m);
        }
    }
}

proof fn lemma_clmul_zero_right(y: u64)
    ensures
        clmul_value(y, 0) == 0,
{
    lemma_clmul_value(y, 0);
    assert forall|k: int| 0 <= k < 64 implies #[trigger] bit(clmul_value(y, 0), k) == bit(0u64, k) by {
        lemma_conv_zero_right(y, k, k + 1);
        lemma_zero_bits(k as u64);
    }
    lemma_bits_ext(clmul_value(y, 0), 0);
}

proof fn lemma_clmul_one_right(y: u64)
    ensures
        clmul_value(y, 1) == y,
{
    lemma_clmul_value(y, 1);
    assert forall|k: int| 0 <= k < 64 implies #[trigger] bit(clmul_value(y, 1), k) == bit(y, k) by {
        lemma_conv_one(y, k, k + 1);
    }
    lemma_bits_ext(clmul_value(y, 1), y);
}

proof fn lemma_clmul_linear_left(x1: u64, x2: u64, y: u64)
    ensures
        clmul_value(x1 ^ x2, y) == clmul_value(x1, y) ^ clmul_value(x2, y),
{
    lemma_clmul_value(x1, y);
    lemma_clmul_value(x2, y);
    let v = clmul_value(x1, y) ^ clmul_value(x2, y);
    assert forall|k: int| 0 <= k < 64 implies #[trigger] bit(v, k) == clmul_bit(x1 ^ x2, y, k) by {
        lemma_bit_xor(clmul_value(x1, y), clmul_value(x2, y), k as u64);
        lemma_conv_linear(x1, x2, y, k, k + 1);
        assert(bit(clmul_value(x1, y), k) == clmul_bit(x1, y, k));
        assert(bit(clmul_value(x2, y), k) == clmul_bit(x2, y, k));
    }
    lemma_clmul_unique(x1 ^ x2, y, v);
}

/// The carry-less product is associative (on the 64 coefficients kept).
pub proof fn lemma_clmul_associative(x: u64, y: u64, z: u64)
    ensures
        clmul_value(x, clmul_value(y, z)) == clmul_value(clmul_value(x, y), z),
    decreases z,
{
    let xy = clmul_value(x, y);
    if z == 0 {
        lemma_clmul_zero_right(y);
        lemma_clmul_zero_right(x);
        lemma_clmul_zero_right(xy);
    } else {
        let h = z >> 1u64;
        let z0 = z & 1u64;
        assert(z == (h << 1u64) ^ z0 && h < z && (z0 == 0 || z0 == 1)) by (bit_vector)
            requires
                z != 0,
                h == z >> 1u64,
                z0 == z & 1u64,
        ;
        lemma_clmul_associative(x, y, h);
        lemma_clmul_linear_right(y, h << 1u64, z0);
        lemma_clmul_shift(y, h);
        lemma_clmul_linear_right(xy, h << 1u64, z0);
        lemma_clmul_shift(xy, h);
        let yh = clmul_value(y, h);
        let yz0 = clmul_value(y, z0);
        lemma_clmul_linear_right(x, yh << 1u64, yz0);
        lemma_clmul_shift(x, yh);
        if z0 == 0 {
            lemma_clmul_zero_right(y);
            lemma_clmul_zero_right(x);
            lemma_clmul_zero_right(xy);
        } else {
            lemma_clmul_one_right(y);
            lemma_clmul_one_right(xy);
        }
    }
}

proof fn lemma_conv_degree(x: u64, y: u64, m: int, n: int, k: int, hi: int)
    requires
        below(x, m),
        below(y, n),
        k >= m + n - 1,
        0 <= hi,
    ensures
        !conv(x, y, k, 0, hi),
    decreases hi,
{
    if hi > 0 {
        lemma_conv_degree(x, y, m, n, k, hi - 1);
        let j = hi - 1;
        if j < n {
            assert(!bit(x, k - j));
        } else {
            assert(!bit(y, j));
        }
    }
}

/// A product of polynomials of degrees below `m` and below `n` has degree below
/// `m + n - 1`.
proof fn lemma_product_degree(x: u64, y: u64, m: int, n: int)
    requires
        below(x, m),
        below(y, n),
        1 <= m,
        1 <= n,
    ensures
        below(clmul_value(x, y), m + n - 1),
{
    lemma_clmul_value(x, y);
    assert forall|j: int| m + n - 1 <= j < 64 implies !#[trigger] bit(clmul_value(x, y), j) by {
        lemma_conv_degree(x, y, m, n, j, j + 1);
    }
}

proof fn lemma_xor_below(x: u64, y: u64, n: int)
    requires
        0 <= n,
        below(x, n),
        below(y, n),
    ensures
        below(x ^ y, n),
{
    assert forall|j: int| n <= j < 64 implies !#[trigger] bit(x ^ y, j) by {
        lemma_bit_xor(x, y, j as u64);
        assert(!bit(x, j) && !bit(y, j));
    }
}

/// A polynomial of degree below 32 is its own remainder.
pub(crate) proof fn lemma_rem_of_reduced(v: u64)
    requires
        below(v, 32),
    ensures
        rem_of(v) as u64 == v,
{
    lemma_below_value(v, 32);
    assert((1u64 << 32u64) == 0x1_0000_0000) by (bit_vector);
    let w = v as u32;
    assert(w as u64 == v);
    assert forall|k: int| 0 <= k < 64 implies #[trigger] bit(v, k) == (clmul_bit(
        0u64,
        IRREDUCIBLE_POLYNOMIAL,
        k,
    ) != bit(w as u64, k)) by {
        lemma_conv_zero(IRREDUCIBLE_POLYNOMIAL, k, k + 1);
    }
    assert forall|j: int| 32 <= j < 64 implies !#[trigger] bit(0u64, j) by {
        lemma_zero_bits(j as u64);
    }
    lemma_rem_of_is(v, 0, w);
}

/// Reducing a product of degree at most 32 and degree below 32 polynomials: the
/// remainder is the field product of their remainders.
proof fn lemma_rem_of_product(q: u64, c: u32)
    requires
        below(q, 33),
    ensures
        rem_of(clmul_value(q, c as u64)) == field_mul(rem_of(q), c),
{
    let pm = IRREDUCIBLE_POLYNOMIAL;
    lemma_rem_of(q);
    let t = rem_of(q);
    let qq = choose|k: u64| below(k, 32) && #[trigger] is_division(q, pm, k, t as u64);
    lemma_modulus_degree();
    if qq != 0 {
        lemma_nonzero_degree(qq);
        let e = 63 - vstd::std_specs::bits::u64_leading_zeros(qq);
        if e >= 1 {
            lemma_leading_term(qq, pm, e, 32, e + 33);
            lemma_wide_bits_clear(t, (e + 32) as u64);
            assert(bit(q, e + 32) == (clmul_bit(qq, pm, e + 32) != bit(t as u64, e + 32)));
            assert(false);
        }
        lemma_one_value(qq);
    }
    lemma_clmul_value(qq, pm);
    let m = clmul_value(qq, pm);
    assert forall|k: int| 0 <= k < 64 implies #[trigger] bit(q, k) == bit(m ^ (t as u64), k) by {
        lemma_bit_xor(m, t as u64, k as u64);
        assert(bit(m, k) == clmul_bit(qq, pm, k));
    }
    lemma_bits_ext(q, m ^ (t as u64));
    lemma_clmul_linear_left(m, t as u64, c as u64);
    let cm = clmul_value(m, c as u64);
    let ct = clmul_value(t as u64, c as u64);
    lemma_rem_of_xor(cm, ct);
    // The multiple of the modulus vanishes once reduced.
    if qq == 0 {
        assert forall|k: int| 0 <= k < 64 implies #[trigger] bit(m, k) == bit(0u64, k) by {
            lemma_conv_zero(pm, k, k + 1);
            lemma_zero_bits(k as u64);
        }
        lemma_bits_ext(m, 0u64);
        lemma_clmul_value(0u64, c as u64);
        assert forall|k: int| 0 <= k < 64 implies #[trigger] bit(clmul_value(0u64, c as u64), k)
            == bit(0u64, k) by {
            lemma_conv_zero(c as u64, k, k + 1);
            lemma_zero_bits(k as u64);
        }
        lemma_bits_ext(clmul_value(0u64, c as u64), 0u64);
        lemma_rem_of_reduced(0u64);
    } else {
        assert forall|k: int| 0 <= k < 64 implies #[trigger] bit(m, k) == bit(pm, k) by {
            lemma_clmul_commutative(1u64, pm, k);
            lemma_conv_one(pm, k, k + 1);
        }
        lemma_bits_ext(m, pm);
        lemma_clmul_value(pm, c as u64);
        lemma_clmul_value(c as u64, pm);
        assert forall|k: int| 0 <= k < 64 implies #[trigger] bit(clmul_value(pm, c as u64), k)
            == bit(clmul_value(c as u64, pm), k) by {
            lemma_clmul_commutative(pm, c as u64, k);
        }
        lemma_bits_ext(clmul_value(pm, c as u64), clmul_value(c as u64, pm));
        lemma_narrow_below(c);
        lemma_rem_of_multiple(c as u64);
    }
    let rt = rem_of(ct);
    assert(0u32 ^ rt == rt) by (bit_vector);
    lemma_field_mul_rem(t, c);
}

/// The state of the extended Euclidean algorithm run on the modulus and `a`: the pair
/// `(b, c)` of remainders, with `b` of degree `d` and `c` of lower degree; `alpha` and
/// `beta` give the modulus back from the pair, so every common divisor of the pair
/// divides it; and `v1`, `v3` are the coefficients with `v1 * a == b` and `v3 * a == c`
/// in GF(2^32).
pub open spec fn euclid_inv(
    a: u32,
    b: u64,
    c: u64,
    v1: u64,
    v3: u64,
    alpha: u64,
    beta: u64,
    d: int,
) -> bool {
    &&& 0 <= d <= 32
    &&& is_degree(b, d)
    &&& below(c, d)
    &&& below(c, 32)
    &&& (d == 32 ==> c == a as u64)
    &&& clmul_value(alpha, b) ^ clmul_value(beta, c) == IRREDUCIBLE_POLYNOMIAL
    &&& below(alpha, 33 - d)
    &&& below(beta, 32 - d)
    &&& below(v1, 32)
    &&& below(v3, 32)
    &&& field_mul(v1 as u32, a) == rem_of(b)
    &&& field_mul(v3 as u32, a) == rem_of(c)
}

proof fn lemma_narrow_value(v: u64)
    requires
        below(v, 32),
    ensures
        (v as u32) as u64 == v,
{
    lemma_below_value(v, 32);
    assert((1u64 << 32u64) == 0x1_0000_0000) by (bit_vector);
}

/// The algorithm starts from the modulus and `a`.
pub(crate) proof fn lemma_euclid_start(a: u32)
    ensures
        euclid_inv(a, IRREDUCIBLE_POLYNOMIAL, a as u64, 0, 1, 1, 0, 32),
{
    let pm = IRREDUCIBLE_POLYNOMIAL;
    lemma_modulus_degree();
    lemma_narrow_below(a);
    lemma_clmul_value(1u64, pm);
    assert forall|k: int| 0 <= k < 64 implies #[trigger] bit(clmul_value(1u64, pm), k) == bit(
        pm,
        k,
    ) by {
        lemma_clmul_commutative(1u64, pm, k);
        lemma_conv_one(pm, k, k + 1);
    }
    lemma_bits_ext(clmul_value(1u64, pm), pm);
    lemma_clmul_value(0u64, a as u64);
    assert forall|k: int| 0 <= k < 64 implies #[trigger] bit(clmul_value(0u64, a as u64), k)
        == bit(0u64, k) by {
        lemma_conv_zero(a as u64, k, k + 1);
        lemma_zero_bits(k as u64);
    }
    lemma_bits_ext(clmul_value(0u64, a as u64), 0u64);
    assert(pm ^ 0u64 == pm) by (bit_vector);
    assert forall|j: int| 1 <= j < 64 implies !#[trigger] bit(1u64, j) by {
        lemma_one_bits(j as u64);
    }
    assert forall|j: int| 0 <= j < 64 implies !#[trigger] bit(0u64, j) by {
        lemma_zero_bits(j as u64);
    }
    // 0 * a == 0, the remainder of the modulus.
    lemma_mul_commutative(0, a);
    lemma_mul_zero(a);
    assert forall|k: int| 0 <= k < 64 implies #[trigger] bit(pm, k) == (clmul_bit(1u64, pm, k)
        != bit(0u32 as u64, k)) by {
        lemma_clmul_commutative(1u64, pm, k);
        lemma_conv_one(pm, k, k + 1);
        lemma_zero_bits(k as u64);
    }
    lemma_rem_of_is(pm, 1, 0);
    // 1 * a == a, its own remainder.
    lemma_mul_commutative(1, a);
    lemma_mul_one(a);
    lemma_rem_of_reduced(a as u64);
}

/// One step of the algorithm, from `(b, c)` to `(c, r)` where `r` is the remainder of
/// `b` by `c` and `q` the quotient, keeps the state.
pub(crate) proof fn lemma_euclid_step(
    a: u32,
    b: u64,
    c: u64,
    v1: u64,
    v3: u64,
    alpha: u64,
    beta: u64,
    d: int,
    q: u64,
    r: u64,
    qr: u64,
    n1: u64,
) -> (e: int)
    requires
        euclid_inv(a, b, c, v1, v3, alpha, beta, d),
        c != 0,
        is_division(b, c, q, r),
        forall|n: int| #[trigger] is_degree(c, n) ==> below(r, n) && below(q, 64 - n),
        qr == rem_of(q) as u64,
        n1 == rem_of(v1 ^ clmul_value(qr, v3)) as u64,
    ensures
        euclid_inv(a, c, r, v3, n1, clmul_value(alpha, q) ^ beta, alpha, e),
{
    lemma_nonzero_degree(c);
    let e = 63 - vstd::std_specs::bits::u64_leading_zeros(c);
    assert(is_degree(c, e));
    assert(below(r, e) && below(q, 64 - e));
    assert(e < d) by {
        if e >= d {
            assert(!bit(c, e));
        }
    }
    // The quotient has degree at most d - e.
    if q != 0 {
        lemma_nonzero_degree(q);
        let f = 63 - vstd::std_specs::bits::u64_leading_zeros(q);
        assert(f < 64 - e) by {
            if f >= 64 - e {
                assert(!bit(q, f));
            }
        }
        lemma_leading_term(q, c, f, e, f + e + 1);
        assert(clmul_bit(q, c, f + e));
        assert(bit(b, f + e) == (clmul_bit(q, c, f + e) != bit(r, f + e)));
        assert(f + e <= d) by {
            if f + e > d {
                assert(!bit(b, f + e));
            }
        }
    } else {
        assert forall|j: int| 0 <= j < 64 implies !#[trigger] bit(q, j) by {
            lemma_zero_bits(j as u64);
        }
    }
    assert(below(q, d - e + 1));
    // b == q * c + r as values.
    lemma_clmul_value(q, c);
    let qc = clmul_value(q, c);
    assert forall|k: int| 0 <= k < 64 implies #[trigger] bit(b, k) == bit(qc ^ r, k) by {
        lemma_bit_xor(qc, r, k as u64);
        assert(bit(qc, k) == clmul_bit(q, c, k));
    }
    lemma_bits_ext(b, qc ^ r);
    // The modulus from the new pair.
    let aq = clmul_value(alpha, q);
    lemma_clmul_linear_right(alpha, qc, r);
    lemma_clmul_associative(alpha, q, c);
    lemma_clmul_linear_left(aq, beta, c);
    let pm = IRREDUCIBLE_POLYNOMIAL;
    let ab = clmul_value(alpha, b);
    let bc = clmul_value(beta, c);
    let aqc = clmul_value(aq, c);
    let ar = clmul_value(alpha, r);
    let nc = clmul_value(aq ^ beta, c);
    assert(nc ^ ar == pm) by (bit_vector)
        requires
            ab ^ bc == pm,
            ab == aqc ^ ar,
            nc == aqc ^ bc,
    ;
    // Degree bounds of the new coefficients.
    lemma_product_degree(alpha, q, 33 - d, d - e + 1);
    assert(below(beta, 33 - e));
    lemma_xor_below(aq, beta, 33 - e);
    assert(below(alpha, 32 - e));
    // The field coefficients.
    lemma_narrow_value(v1);
    lemma_narrow_value(v3);
    lemma_narrow_value(c);
    let v1u = v1 as u32;
    let v3u = v3 as u32;
    let cu = c as u32;
    let qru = rem_of(q);
    assert(qr == qru as u64);
    let w = clmul_value(qr, v3);
    lemma_rem_of_xor(v1, w);
    lemma_rem_of_reduced(v1);
    assert(rem_of(v1) == v1u);
    lemma_field_mul_rem(qru, v3u);
    let n1u = rem_of(v1 ^ w);
    assert(n1u == v1u ^ field_mul(qru, v3u));
    lemma_rem_of(v1 ^ w);
    assert forall|j: int| 32 <= j < 64 implies !#[trigger] bit(n1u as u64, j) by {
        lemma_wide_bits_clear(n1u, j as u64);
    }
    assert(n1 as u32 == n1u);
    lemma_mul_commutative(n1u, a);
    lemma_mul_linear_right(a, v1u, field_mul(qru, v3u));
    lemma_mul_commutative(a, v1u);
    lemma_mul_commutative(a, field_mul(qru, v3u));
    lemma_mul_associative(qru, v3u, a);
    lemma_rem_of_reduced(c);
    assert(rem_of(c) == cu);
    // The remainder of r == b + q * c.
    assert(r == b ^ qc) by (bit_vector)
        requires
            b == qc ^ r,
    ;
    lemma_rem_of_xor(b, qc);
    lemma_rem_of_product(q, cu);
    e
}

/// When the remainder reaches 0, the last one is 1 (the modulus is irreducible), so `v1`
/// is the inverse of `a`.
pub(crate) proof fn lemma_euclid_end(
    a: u32,
    b: u64,
    v1: u64,
    v3: u64,
    alpha: u64,
    beta: u64,
    d: int,
)
    requires
        a != 0,
        euclid_inv(a, b, 0, v1, v3, alpha, beta, d),
    ensures
        field_mul(v1 as u32, a) == 1,
        below(v1, 32),
{
    let pm = IRREDUCIBLE_POLYNOMIAL;
    assert(d != 32);
    lemma_clmul_zero_right(beta);
    let ab = clmul_value(alpha, b);
    assert(ab ^ 0u64 == ab) by (bit_vector);
    assert(ab == pm);
    if d >= 1 {
        lemma_irreducible(alpha, b, d);
    }
    lemma_one_value(b);
    assert forall|j: int| 1 <= j < 64 implies !#[trigger] bit(1u64, j) by {
        lemma_one_bits(j as u64);
    }
    lemma_rem_of_reduced(1u64);
}

} // verus!
