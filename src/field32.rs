//! Arithmetic in GF(2^32): polynomials over GF(2) of degree below 32, multiplied
//! modulo a fixed irreducible polynomial of degree 32.
use vstd::prelude::*;

verus! {

/// The fixed irreducible polynomial x^32 + x^22 + x^2 + x + 1 that defines GF(2^32).
pub const IRREDUCIBLE_POLYNOMIAL: u64 = 0x1_0040_0007;

/// Coefficient of x^i in the polynomial whose coefficient vector is the bit pattern of `x`.
pub open spec fn bit(x: u64, i: int) -> bool {
    0 <= i < 64 && (x >> (i as u64)) & 1 == 1
}

/// Sum over GF(2) of the products b_j * a_(k-j) for lo <= j < hi.
pub open spec fn conv(a: u64, b: u64, k: int, lo: int, hi: int) -> bool
    decreases hi - lo,
{
    if hi <= lo {
        false
    } else {
        conv(a, b, k, lo, hi - 1) != (bit(b, hi - 1) && bit(a, k - (hi - 1)))
    }
}

/// Coefficient of x^k in the carry-less (GF(2)[x]) product of `a` and `b`.
pub open spec fn clmul_bit(a: u64, b: u64, k: int) -> bool {
    conv(a, b, k, 0, k + 1)
}

/// `r` holds, in its 64 bits, the carry-less product of `a` and `b`.
pub open spec fn is_clmul(a: u64, b: u64, r: u64) -> bool {
    forall|k: int| 0 <= k < 64 ==> #[trigger] bit(r, k) == clmul_bit(a, b, k)
}

/// `x` has no coefficient at x^n or above (its degree is below `n`).
pub open spec fn below(x: u64, n: int) -> bool {
    forall|j: int| n <= j < 64 ==> !#[trigger] bit(x, j)
}

pub(crate) proof fn lemma_bit_xor_shl(r: u64, a: u64, i: u64, k: u64)
    requires
        i < 64,
        k < 64,
    ensures
        ((r ^ (a << i)) >> k) & 1 == 1 <==> (((r >> k) & 1 == 1) != (i <= k && (a >> (
        (k - i) as u64)) & 1 == 1)),
{
    assert(((r ^ (a << i)) >> k) & 1 == 1 <==> (((r >> k) & 1 == 1) != (i <= k && (a >> (
    (k - i) as u64)) & 1 == 1))) by (bit_vector)
        requires
            i < 64,
            k < 64,
    ;
}

pub(crate) proof fn lemma_zero_bits(k: u64)
    ensures
        (0u64 >> k) & 1 == 0,
{
    assert((0u64 >> k) & 1 == 0) by (bit_vector);
}

pub(crate) proof fn lemma_conv_zero(b: u64, k: int, hi: int)
    ensures
        !conv(0, b, k, 0, hi),
    decreases hi,
{
    if hi > 0 {
        lemma_conv_zero(b, k, hi - 1);
        if 0 <= k - (hi - 1) < 64 {
            lemma_zero_bits((k - (hi - 1)) as u64);
        }
    }
}

pub(crate) proof fn lemma_conv_extend(a: u64, b: u64, k: int, hi: int)
    requires
        0 <= k,
        k + 1 <= hi,
    ensures
        conv(a, b, k, 0, hi) == conv(a, b, k, 0, k + 1),
    decreases hi,
{
    if hi > k + 1 {
        lemma_conv_extend(a, b, k, hi - 1);
    }
}

/// The message for an operand wider than 32 bits.
pub open spec fn wide_operand_message() -> Seq<char> {
    "３２ビットまでだぞ"@
}

/// The message for a division by the zero polynomial.
pub open spec fn division_by_zero_message() -> Seq<char> {
    "０で割ってるぞ"@
}

/// The message for the inverse of zero, which has none.
pub open spec fn zero_inverse_message() -> Seq<char> {
    "０の逆元は存在しないぞ"@
}

/// Carry-less multiplication of two polynomials of degree at most 31, without reduction.
pub fn kakezan(a: u64, b: u64) -> (r: Result<u64, String>)
    ensures
        r is Err <==> (a >> 32 != 0 || b >> 32 != 0),
        r matches Err(m) ==> m@ == wide_operand_message(),
        r matches Ok(p) ==> is_clmul(a, b, p),
{
    if ((a >> 32) | (b >> 32)) != 0 {
        assert(((a >> 32) | (b >> 32)) != 0 <==> (a >> 32 != 0 || b >> 32 != 0)) by (bit_vector);
        return Err(String::from_str("３２ビットまでだぞ"));
    }
    assert(((a >> 32) | (b >> 32)) != 0 <==> (a >> 32 != 0 || b >> 32 != 0)) by (bit_vector);
    let mut result: u64 = 0;
    assert forall|k: int| 0 <= k < 64 implies !#[trigger] bit(0, k) by {
        lemma_zero_bits(k as u64);
    }
    for i in 0..64u64
        invariant
            forall|k: int| 0 <= k < 64 ==> #[trigger] bit(result, k) == conv(a, b, k, 0, i as int),
    {
        let old_result = result;
        if (b >> i) & 1 == 1 {
            result = result ^ (a << i);
        }
        assert forall|k: int| 0 <= k < 64 implies #[trigger] bit(result, k) == conv(
            a,
            b,
            k,
            0,
            i + 1,
        ) by {
            assert(bit(old_result, k) == conv(a, b, k, 0, i as int));
            lemma_bit_xor_shl(old_result, a, i, k as u64);
            assert(bit(b, i as int) == ((b >> i) & 1 == 1));
        }
    }
    assert forall|k: int| 0 <= k < 64 implies #[trigger] bit(result, k) == clmul_bit(a, b, k) by {
        lemma_conv_extend(a, b, k, 64);
    }
    Ok(result)
}

/// `x` is the carry-less product of `q` and `d`, plus `r` (addition in GF(2)[x] is XOR).
pub open spec fn is_division(x: u64, d: u64, q: u64, r: u64) -> bool {
    forall|k: int| 0 <= k < 64 ==> #[trigger] bit(x, k) == (clmul_bit(q, d, k) != bit(r, k))
}

/// `x` has degree `n`: its highest coefficient is that of x^n.
pub open spec fn is_degree(x: u64, n: int) -> bool {
    bit(x, n) && below(x, n + 1)
}

pub(crate) proof fn lemma_bit_flip(q: u64, s: u64, j: u64)
    requires
        s < 64,
        j < 64,
    ensures
        ((q ^ (1u64 << s)) >> j) & 1 == 1 <==> (((q >> j) & 1 == 1) != (j == s)),
{
    assert(((q ^ (1u64 << s)) >> j) & 1 == 1 <==> (((q >> j) & 1 == 1) != (j == s)))
        by (bit_vector)
        requires
            s < 64,
            j < 64,
    ;
}

pub(crate) proof fn lemma_conv_flip(q: u64, b: u64, s: u64, k: int, hi: int)
    requires
        s < 64,
        0 <= hi,
    ensures
        conv(q ^ (1u64 << s), b, k, 0, hi) == (conv(q, b, k, 0, hi) != (0 <= k - s < hi && bit(
            b,
            k - s,
        ))),
    decreases hi,
{
    if hi > 0 {
        lemma_conv_flip(q, b, s, k, hi - 1);
        let j = k - (hi - 1);
        if 0 <= j < 64 {
            lemma_bit_flip(q, s, j as u64);
        }
    }
}

pub(crate) proof fn lemma_degree_unique(x: u64, n: int, m: int)
    requires
        is_degree(x, n),
        is_degree(x, m),
    ensures
        n == m,
{
}

/// Long division in GF(2)[x]: the quotient and the remainder of `a` divided by `b`.
pub fn poly_warizan(a: u64, b: u64) -> (r: Result<(u64, u64), String>)
    ensures
        r is Err <==> b == 0,
        r matches Err(m) ==> m@ == division_by_zero_message(),
        r matches Ok((q, m)) ==> {
            &&& is_division(a, b, q, m)
            &&& forall|n: int| #[trigger] is_degree(b, n) ==> below(m, n) && below(q, 64 - n)
        },
{
    if b == 0 {
        return Err(String::from_str("０で割ってるぞ"));
    }
    proof {
        broadcast use vstd::std_specs::bits::axiom_u64_leading_zeros;

    }
    let lz = b.leading_zeros();
    let dim: u64 = 63 - lz as u64;
    assert(is_degree(b, dim as int)) by {
        assert(lz < 64);
        assert((b >> dim) & 1u64 != 0u64);
        let t = b >> dim;
        assert(t & 1u64 != 0u64 ==> t & 1u64 == 1u64) by (bit_vector);
        assert forall|j: int| dim + 1 <= j < 64 implies !#[trigger] bit(b, j) by {
            assert((b >> (j as u64)) & 1u64 == 0u64);
        }
    }
    let mut syou: u64 = 0;
    let mut amari: u64 = a;
    assert forall|k: int| 0 <= k < 64 implies #[trigger] bit(a, k) == (clmul_bit(syou, b, k)
        != bit(amari, k)) by {
        lemma_conv_zero(b, k, k + 1);
    }
    assert forall|k: int| 0 <= k < 64 implies !#[trigger] bit(syou, k) by {
        lemma_zero_bits(k as u64);
    }
    for i in 0..(64 - dim)
        invariant
            dim < 64,
            is_degree(b, dim as int),
            is_division(a, b, syou, amari),
            below(amari, 64 - i),
            below(syou, 64 - dim),
    {
        let s: u64 = 63 - dim - i;
        if (amari >> (63 - i)) & 1 == 1 {
            let old_amari = amari;
            let old_syou = syou;
            amari = amari ^ (b << s);
            syou = syou ^ (1 << s);
            assert forall|k: int| 0 <= k < 64 implies #[trigger] bit(amari, k) == (bit(
                old_amari,
                k,
            ) != (s <= k && bit(b, k - s))) by {
                lemma_bit_xor_shl(old_amari, b, s, k as u64);
            }
            assert forall|k: int| 0 <= k < 64 implies #[trigger] bit(syou, k) == (bit(
                old_syou,
                k,
            ) != (k == s)) by {
                lemma_bit_flip(old_syou, s, k as u64);
            }
            assert forall|k: int| 0 <= k < 64 implies #[trigger] bit(a, k) == (clmul_bit(
                syou,
                b,
                k,
            ) != bit(amari, k)) by {
                assert(bit(a, k) == (clmul_bit(old_syou, b, k) != bit(old_amari, k)));
                lemma_conv_flip(old_syou, b, s, k, k + 1);
            }
            assert(bit(old_amari, 63 - i));
            assert(bit(b, dim as int));
        }
    }
    proof {
        assert forall|n: int| #[trigger] is_degree(b, n) implies below(amari, n) && below(
            syou,
            64 - n,
        ) by {
            lemma_degree_unique(b, n, dim as int);
        }
    }
    Ok((syou, amari))
}

/// An element of GF(2^32): bit i of `value` is the coefficient of x^i.
#[derive(Debug, Clone, Copy)]
pub struct MyNumber {
    pub value: u32,
}

/// `q` and `r` witness that `r` is the product of `a` and `b` in GF(2^32):
/// the carry-less product of `a` and `b` equals `q` times the modulus plus `r`.
pub open spec fn field_rel(a: u32, b: u32, q: u64, r: u32) -> bool {
    &&& below(q, 32)
    &&& forall|k: int|
        0 <= k < 64 ==> #[trigger] clmul_bit(a as u64, b as u64, k) == (clmul_bit(
            q,
            IRREDUCIBLE_POLYNOMIAL,
            k,
        ) != bit(r as u64, k))
}

/// `r` is the product of `a` and `b` in GF(2^32): the remainder of their carry-less
/// product modulo the irreducible polynomial.
pub open spec fn is_field_product(a: u32, b: u32, r: u32) -> bool {
    exists|q: u64| #[trigger] field_rel(a, b, q, r)
}

pub(crate) proof fn lemma_modulus_degree()
    ensures
        is_degree(IRREDUCIBLE_POLYNOMIAL, 32),
{
    assert forall|j: int| 33 <= j < 64 implies !#[trigger] bit(IRREDUCIBLE_POLYNOMIAL, j) by {
        let jj = j as u64;
        assert(33 <= jj < 64 ==> (0x1_0040_0007u64 >> jj) & 1 == 0) by (bit_vector);
    }
    assert((0x1_0040_0007u64 >> 32u64) & 1 == 1) by (bit_vector);
}

pub(crate) proof fn lemma_narrow_bits(x: u64, k: u64)
    requires
        k < 64,
    ensures
        k < 32 ==> (((x as u32) as u64) >> k) & 1 == (x >> k) & 1,
        k >= 32 ==> (((x as u32) as u64) >> k) & 1 == 0,
{
    assert(k < 32 ==> (((x as u32) as u64) >> k) & 1 == (x >> k) & 1) by (bit_vector);
    assert(k < 64 && k >= 32 ==> (((x as u32) as u64) >> k) & 1 == 0) by (bit_vector);
}

pub(crate) proof fn lemma_bit_xor(x: u64, y: u64, j: u64)
    requires
        j < 64,
    ensures
        ((x ^ y) >> j) & 1 == 1 <==> (((x >> j) & 1 == 1) != ((y >> j) & 1 == 1)),
{
    assert(((x ^ y) >> j) & 1 == 1 <==> (((x >> j) & 1 == 1) != ((y >> j) & 1 == 1)))
        by (bit_vector);
}

pub(crate) proof fn lemma_conv_linear(x: u64, y: u64, m: u64, k: int, hi: int)
    requires
        0 <= hi,
    ensures
        conv(x ^ y, m, k, 0, hi) == (conv(x, m, k, 0, hi) != conv(y, m, k, 0, hi)),
    decreases hi,
{
    if hi > 0 {
        lemma_conv_linear(x, y, m, k, hi - 1);
        let j = k - (hi - 1);
        if 0 <= j < 64 {
            lemma_bit_xor(x, y, j as u64);
        }
    }
}

/// The coefficient of x^(e+n) in the product of polynomials of degrees e and n
/// comes from their leading terms alone.
pub(crate) proof fn lemma_leading_term(d: u64, m: u64, e: int, n: int, hi: int)
    requires
        is_degree(d, e),
        is_degree(m, n),
        0 <= hi,
    ensures
        conv(d, m, e + n, 0, hi) == (hi > n),
    decreases hi,
{
    if hi > 0 {
        lemma_leading_term(d, m, e, n, hi - 1);
        let j = hi - 1;
        if j < n {
            assert(!bit(d, e + n - j));
        }
    }
}

pub(crate) proof fn lemma_nonzero_degree(d: u64)
    requires
        d != 0,
    ensures
        is_degree(d, 63 - vstd::std_specs::bits::u64_leading_zeros(d)),
{
    broadcast use vstd::std_specs::bits::axiom_u64_leading_zeros;

    let lz = vstd::std_specs::bits::u64_leading_zeros(d);
    let dim = (63 - lz) as u64;
    assert((d >> dim) & 1u64 != 0u64);
    let t = d >> dim;
    assert(t & 1u64 != 0u64 ==> t & 1u64 == 1u64) by (bit_vector);
    assert forall|j: int| dim + 1 <= j < 64 implies !#[trigger] bit(d, j) by {
        assert((d >> (j as u64)) & 1u64 == 0u64);
    }
}

pub(crate) proof fn lemma_wide_bits_clear(r: u32, k: u64)
    requires
        32 <= k < 64,
    ensures
        ((r as u64) >> k) & 1 == 0,
{
    assert(32 <= k < 64 ==> ((r as u64) >> k) & 1 == 0) by (bit_vector);
}

pub(crate) proof fn lemma_shr_step(x: u64, y: u64, n: u64)
    requires
        1 <= n < 64,
        x >> n == y >> n,
        (x >> ((n - 1) as u64)) & 1 == (y >> ((n - 1) as u64)) & 1,
    ensures
        x >> ((n - 1) as u64) == y >> ((n - 1) as u64),
{
    assert(x >> ((n - 1) as u64) == y >> ((n - 1) as u64)) by (bit_vector)
        requires
            1 <= n < 64,
            x >> n == y >> n,
            (x >> ((n - 1) as u64)) & 1 == (y >> ((n - 1) as u64)) & 1,
    ;
}

pub(crate) proof fn lemma_bits_ext_from(x: u64, y: u64, n: u64)
    requires
        n < 64,
        forall|k: int| 0 <= k < 64 ==> #[trigger] bit(x, k) == bit(y, k),
    ensures
        x >> n == y >> n,
    decreases 64 - n,
{
    if n == 63 {
        assert(x >> 63u64 == (x >> 63u64) & 1 && y >> 63u64 == (y >> 63u64) & 1) by (bit_vector);
        assert(bit(x, 63) == bit(y, 63));
        assert((x >> 63u64) & 1 == 1 || (x >> 63u64) & 1 == 0) by (bit_vector);
        assert((y >> 63u64) & 1 == 1 || (y >> 63u64) & 1 == 0) by (bit_vector);
    } else {
        lemma_bits_ext_from(x, y, (n + 1) as u64);
        assert(bit(x, n as int) == bit(y, n as int));
        assert((x >> n) & 1 == 1 || (x >> n) & 1 == 0) by (bit_vector);
        assert((y >> n) & 1 == 1 || (y >> n) & 1 == 0) by (bit_vector);
        lemma_shr_step(x, y, (n + 1) as u64);
    }
}

/// Two values with the same coefficients are equal.
pub(crate) proof fn lemma_bits_ext(x: u64, y: u64)
    requires
        forall|k: int| 0 <= k < 64 ==> #[trigger] bit(x, k) == bit(y, k),
    ensures
        x == y,
{
    lemma_bits_ext_from(x, y, 0);
    assert(x >> 0u64 == x && y >> 0u64 == y) by (bit_vector);
}

/// The remainder modulo the irreducible polynomial is unique: a product in GF(2^32)
/// has exactly one value.
pub proof fn lemma_product_unique(a: u32, b: u32, q1: u64, r1: u32, q2: u64, r2: u32)
    requires
        field_rel(a, b, q1, r1),
        field_rel(a, b, q2, r2),
    ensures
        r1 == r2,
{
    let x = crate::field_laws::clmul_value(a as u64, b as u64);
    crate::field_laws::lemma_clmul_value(a as u64, b as u64);
    assert forall|k: int| 0 <= k < 64 implies #[trigger] bit(x, k) == (clmul_bit(
        q1,
        IRREDUCIBLE_POLYNOMIAL,
        k,
    ) != bit(r1 as u64, k)) by {
        assert(bit(x, k) == clmul_bit(a as u64, b as u64, k));
    }
    assert forall|k: int| 0 <= k < 64 implies #[trigger] bit(x, k) == (clmul_bit(
        q2,
        IRREDUCIBLE_POLYNOMIAL,
        k,
    ) != bit(r2 as u64, k)) by {
        assert(bit(x, k) == clmul_bit(a as u64, b as u64, k));
    }
    assert(is_division(x, IRREDUCIBLE_POLYNOMIAL, q1, r1 as u64));
    assert(is_division(x, IRREDUCIBLE_POLYNOMIAL, q2, r2 as u64));
    crate::field_laws::lemma_remainder_unique(x, r1, r2);
}

/// The product of `a` and `b` in GF(2^32).
pub open spec fn field_mul(a: u32, b: u32) -> u32 {
    choose|r: u32| is_field_product(a, b, r)
}

pub(crate) proof fn lemma_field_mul(a: u32, b: u32, q: u64, r: u32)
    requires
        field_rel(a, b, q, r),
    ensures
        field_mul(a, b) == r,
{
    assert(is_field_product(a, b, r));
    let s = field_mul(a, b);
    assert(is_field_product(a, b, s));
    let qs = choose|qs: u64| field_rel(a, b, qs, s);
    lemma_product_unique(a, b, q, r, qs, s);
}

pub(crate) proof fn lemma_clmul_exists(a: u64, b: u64, i: u64) -> (p: u64)
    requires
        i <= 64,
    ensures
        forall|k: int| 0 <= k < 64 ==> #[trigger] bit(p, k) == conv(a, b, k, 0, i as int),
    decreases i,
{
    if i == 0 {
        assert forall|k: int| 0 <= k < 64 implies !#[trigger] bit(0, k) by {
            lemma_zero_bits(k as u64);
        }
        0
    } else {
        let j = (i - 1) as u64;
        let prev = lemma_clmul_exists(a, b, j);
        let p = if (b >> j) & 1 == 1 {
            prev ^ (a << j)
        } else {
            prev
        };
        assert forall|k: int| 0 <= k < 64 implies #[trigger] bit(p, k) == conv(
            a,
            b,
            k,
            0,
            i as int,
        ) by {
            lemma_bit_xor_shl(prev, a, j, k as u64);
            assert(bit(prev, k) == conv(a, b, k, 0, j as int));
            assert(bit(b, j as int) == ((b >> j) & 1 == 1));
        }
        p
    }
}

pub(crate) proof fn lemma_reduce_exists(x: u64, n: int) -> (qr: (u64, u64))
    requires
        32 <= n <= 64,
        below(x, n),
    ensures
        is_division(x, IRREDUCIBLE_POLYNOMIAL, qr.0, qr.1),
        below(qr.0, n - 32),
        below(qr.1, 32),
    decreases n,
{
    let p = IRREDUCIBLE_POLYNOMIAL;
    lemma_modulus_degree();
    if n == 32 {
        assert forall|k: int| 0 <= k < 64 implies #[trigger] bit(x, k) == (clmul_bit(0, p, k)
            != bit(x, k)) by {
            lemma_conv_zero(p, k, k + 1);
        }
        assert forall|k: int| 0 <= k < 64 implies !#[trigger] bit(0, k) by {
            lemma_zero_bits(k as u64);
        }
        (0, x)
    } else {
        let top = n - 1;
        let s = (top - 32) as u64;
        let y = if bit(x, top) {
            x ^ (p << s)
        } else {
            x
        };
        assert forall|k: int| 0 <= k < 64 implies #[trigger] bit(y, k) == (bit(x, k) != (bit(
            x,
            top,
        ) && s <= k && bit(p, k - s))) by {
            lemma_bit_xor_shl(x, p, s, k as u64);
        }
        assert(below(y, top));
        let (q0, r) = lemma_reduce_exists(y, top);
        let q = if bit(x, top) {
            q0 ^ (1u64 << s)
        } else {
            q0
        };
        assert forall|k: int| 0 <= k < 64 implies #[trigger] bit(q, k) == (bit(q0, k) != (bit(
            x,
            top,
        ) && k == s)) by {
            lemma_bit_flip(q0, s, k as u64);
        }
        assert forall|k: int| 0 <= k < 64 implies #[trigger] bit(x, k) == (clmul_bit(q, p, k)
            != bit(r, k)) by {
            assert(bit(y, k) == (clmul_bit(q0, p, k) != bit(r, k)));
            lemma_conv_flip(q0, p, s, k, k + 1);
        }
        (q, r)
    }
}

pub(crate) proof fn lemma_narrow_bits_u32(r: u64)
    requires
        below(r, 32),
    ensures
        forall|k: int| 0 <= k < 64 ==> #[trigger] bit((r as u32) as u64, k) == bit(r, k),
{
    assert forall|k: int| 0 <= k < 64 implies #[trigger] bit((r as u32) as u64, k) == bit(r, k) by {
        lemma_narrow_bits(r, k as u64);
    }
}

/// Every pair of field elements has a product in GF(2^32), and `field_mul` gives it.
pub proof fn lemma_field_mul_exists(a: u32, b: u32)
    ensures
        is_field_product(a, b, field_mul(a, b)),
{
    let pr = lemma_clmul_exists(a as u64, b as u64, 64);
    let x = a as u64;
    let y = b as u64;
    assert(x >> 32 == 0 && y >> 32 == 0) by (bit_vector)
        requires
            x == a as u64,
            y == b as u64,
    ;
    assert forall|k: int| 0 <= k < 64 implies #[trigger] bit(pr, k) == clmul_bit(x, y, k) by {
        lemma_conv_extend(x, y, k, 64);
    }
    assert(below(pr, 64));
    let (q, r) = lemma_reduce_exists(pr, 64);
    lemma_narrow_bits_u32(r);
    let rr = r as u32;
    assert forall|k: int| 0 <= k < 64 implies #[trigger] clmul_bit(x, y, k) == (clmul_bit(
        q,
        IRREDUCIBLE_POLYNOMIAL,
        k,
    ) != bit(rr as u64, k)) by {
        assert(bit(pr, k) == clmul_bit(x, y, k));
    }
    assert(field_rel(a, b, q, rr));
    lemma_field_mul(a, b, q, rr);
}

pub(crate) proof fn lemma_conv_front(a: u64, b: u64, k: int, lo: int, hi: int)
    requires
        lo < hi,
    ensures
        conv(a, b, k, lo, hi) == ((bit(b, lo) && bit(a, k - lo)) != conv(a, b, k, lo + 1, hi)),
    decreases hi - lo,
{
    assert(conv(a, b, k, lo, hi) == (conv(a, b, k, lo, hi - 1) != (bit(b, hi - 1) && bit(
        a,
        k - (hi - 1),
    ))));
    if hi - 1 > lo {
        lemma_conv_front(a, b, k, lo, hi - 1);
        assert(conv(a, b, k, lo + 1, hi) == (conv(a, b, k, lo + 1, hi - 1) != (bit(b, hi - 1)
            && bit(a, k - (hi - 1)))));
    } else {
        assert(!conv(a, b, k, lo, lo));
        assert(!conv(a, b, k, lo + 1, hi));
    }
}

pub(crate) proof fn lemma_conv_reverse(a: u64, b: u64, k: int, lo: int, hi: int)
    requires
        0 <= lo,
        hi <= k + 1,
    ensures
        conv(a, b, k, lo, hi) == conv(b, a, k, k + 1 - hi, k + 1 - lo),
    decreases hi - lo,
{
    if hi > lo {
        lemma_conv_reverse(a, b, k, lo, hi - 1);
        lemma_conv_front(b, a, k, k + 1 - hi, k + 1 - lo);
    }
}

/// The carry-less product is commutative, coefficient by coefficient.
pub proof fn lemma_clmul_commutative(a: u64, b: u64, k: int)
    requires
        0 <= k,
    ensures
        clmul_bit(a, b, k) == clmul_bit(b, a, k),
{
    lemma_conv_reverse(a, b, k, 0, k + 1);
}

/// Multiplication in GF(2^32) is commutative: a * b == b * a.
pub proof fn lemma_mul_commutative(a: u32, b: u32)
    ensures
        field_mul(a, b) == field_mul(b, a),
{
    lemma_field_mul_exists(a, b);
    let r = field_mul(a, b);
    let q = choose|q: u64| field_rel(a, b, q, r);
    assert forall|k: int| 0 <= k < 64 implies #[trigger] clmul_bit(b as u64, a as u64, k) == (
    clmul_bit(q, IRREDUCIBLE_POLYNOMIAL, k) != bit(r as u64, k)) by {
        lemma_clmul_commutative(a as u64, b as u64, k);
        assert(clmul_bit(a as u64, b as u64, k) == (clmul_bit(q, IRREDUCIBLE_POLYNOMIAL, k) != bit(
            r as u64,
            k,
        )));
    }
    lemma_field_mul(b, a, q, r);
}

pub(crate) proof fn lemma_one_bits(j: u64)
    requires
        j < 64,
    ensures
        (1u64 >> j) & 1 == 1 <==> j == 0,
{
    assert(j < 64 ==> ((1u64 >> j) & 1 == 1 <==> j == 0)) by (bit_vector);
}

pub(crate) proof fn lemma_conv_one(a: u64, k: int, hi: int)
    requires
        0 <= k,
        1 <= hi,
    ensures
        conv(a, 1, k, 0, hi) == bit(a, k),
    decreases hi,
{
    if hi > 1 {
        lemma_conv_one(a, k, hi - 1);
        if hi - 1 < 64 {
            lemma_one_bits((hi - 1) as u64);
        }
    } else {
        lemma_one_bits(0);
        assert(bit(1, 0));
        assert(!conv(a, 1, k, 0, 0));
    }
}

pub(crate) proof fn lemma_conv_zero_right(a: u64, k: int, hi: int)
    ensures
        !conv(a, 0, k, 0, hi),
    decreases hi,
{
    if hi > 0 {
        lemma_conv_zero_right(a, k, hi - 1);
        if 0 <= hi - 1 < 64 {
            lemma_zero_bits((hi - 1) as u64);
        }
    }
}

/// The element 1 is the multiplicative identity: a * 1 == a.
pub proof fn lemma_mul_one(a: u32)
    ensures
        field_mul(a, 1) == a,
{
    let p = IRREDUCIBLE_POLYNOMIAL;
    assert forall|j: int| 32 <= j < 64 implies !#[trigger] bit(0, j) by {
        lemma_zero_bits(j as u64);
    }
    assert forall|k: int| 0 <= k < 64 implies #[trigger] clmul_bit(a as u64, 1u32 as u64, k) == (
    clmul_bit(0, p, k) != bit(a as u64, k)) by {
        lemma_conv_one(a as u64, k, k + 1);
        lemma_conv_zero(p, k, k + 1);
    }
    lemma_field_mul(a, 1, 0, a);
}

/// The element 0 absorbs: a * 0 == 0.
pub proof fn lemma_mul_zero(a: u32)
    ensures
        field_mul(a, 0) == 0,
{
    let p = IRREDUCIBLE_POLYNOMIAL;
    assert forall|j: int| 0 <= j < 64 implies !#[trigger] bit(0, j) by {
        lemma_zero_bits(j as u64);
    }
    assert forall|k: int| 0 <= k < 64 implies #[trigger] clmul_bit(a as u64, 0u32 as u64, k) == (
    clmul_bit(0, p, k) != bit(0u32 as u64, k)) by {
        lemma_conv_zero_right(a as u64, k, k + 1);
        lemma_conv_zero(p, k, k + 1);
    }
    lemma_field_mul(a, 0, 0, 0);
}

impl vstd::std_specs::ops::MulSpecImpl for MyNumber {
    open spec fn obeys_mul_spec() -> bool {
        true
    }

    open spec fn mul_req(self, rhs: MyNumber) -> bool {
        true
    }

    open spec fn mul_spec(self, rhs: MyNumber) -> MyNumber {
        MyNumber { value: field_mul(self.value, rhs.value) }
    }
}

impl core::ops::Mul for MyNumber {
    type Output = MyNumber;

    /// Product in GF(2^32): carry-less product reduced modulo the irreducible polynomial.
    fn mul(self, other: MyNumber) -> (r: MyNumber)
        ensures
            is_field_product(self.value, other.value, r.value),
            r.value == field_mul(self.value, other.value),
    {
        let x = self.value;
        let y = other.value;
        let a = x as u64;
        let b = y as u64;
        assert(a >> 32 == 0 && b >> 32 == 0) by (bit_vector)
            requires
                a == x as u64,
                b == y as u64,
        ;
        let product = kakezan(a, b).unwrap();
        proof {
            lemma_modulus_degree();
        }
        let (q, rem) = poly_warizan(product, IRREDUCIBLE_POLYNOMIAL).unwrap();
        let result = MyNumber { value: rem as u32 };
        proof {
            assert(below(rem, 32) && below(q, 32));
            assert forall|k: int| 0 <= k < 64 implies #[trigger] bit(result.value as u64, k)
                == bit(rem, k) by {
                lemma_narrow_bits(rem, k as u64);
            }
            assert forall|k: int| 0 <= k < 64 implies #[trigger] clmul_bit(a, b, k) == (clmul_bit(
                q,
                IRREDUCIBLE_POLYNOMIAL,
                k,
            ) != bit(result.value as u64, k)) by {
                assert(bit(product, k) == clmul_bit(a, b, k));
                assert(bit(product, k) == (clmul_bit(q, IRREDUCIBLE_POLYNOMIAL, k) != bit(rem, k)));
            }
            assert(field_rel(x, y, q, result.value));
            lemma_field_mul(x, y, q, result.value);
        }
        result
    }
}

pub(crate) proof fn lemma_below_32(x: u64)
    requires
        below(x, 32),
    ensures
        x >> 32 == 0,
{
    lemma_narrow_bits_u32(x);
    lemma_bits_ext((x as u32) as u64, x);
    let y = (x as u32) as u64;
    assert(y == (x as u32) as u64 ==> y >> 32 == 0) by (bit_vector);
}

/// Remainder of `x` modulo the irreducible polynomial.
fn reduce(x: u64) -> (r: u64)
    ensures
        below(r, 32),
        r >> 32 == 0,
        r == crate::field_laws::rem_of(x) as u64,
{
    proof {
        lemma_modulus_degree();
    }
    let (q, r) = poly_warizan(x, IRREDUCIBLE_POLYNOMIAL).unwrap();
    proof {
        assert(below(r, 32));
        assert(below(q, 32));
        lemma_below_32(r);
        lemma_narrow_bits_u32(r);
        lemma_bits_ext((r as u32) as u64, r);
        assert forall|k: int| 0 <= k < 64 implies #[trigger] bit(x, k) == (clmul_bit(
            q,
            IRREDUCIBLE_POLYNOMIAL,
            k,
        ) != bit((r as u32) as u64, k)) by {}
        crate::field_laws::lemma_rem_of_is(x, q, r as u32);
    }
    r
}

/// Multiplicative inverse in GF(2^32), by the extended Euclidean algorithm on the
/// irreducible polynomial and `a`; zero has none.
pub fn inverse(a: MyNumber) -> (r: Result<MyNumber, String>)
    ensures
        r is Err <==> a.value == 0,
        r matches Err(m) ==> m@ == zero_inverse_message(),
        r matches Ok(b) ==> field_mul(a.value, b.value) == 1,
{
    if a.value == 0 {
        return Err(String::from_str("０の逆元は存在しないぞ"));
    }
    let mut b: u64 = IRREDUCIBLE_POLYNOMIAL;
    let mut c: u64 = a.value as u64;
    let mut v0: u64 = 1;
    let mut v1: u64 = 0;
    let mut v2: u64 = 0;
    let mut v3: u64 = 1;
    let ghost mut alpha: u64 = 1;
    let ghost mut beta: u64 = 0;
    let ghost mut d: int = 32;
    assert(v2 >> 32 == 0 && v3 >> 32 == 0) by (bit_vector)
        requires
            v2 == 0,
            v3 == 1,
    ;
    proof {
        crate::field_laws::lemma_euclid_start(a.value);
    }
    while c != 0
        invariant
            a.value != 0,
            v2 >> 32 == 0,
            v3 >> 32 == 0,
            crate::field_laws::euclid_inv(a.value, b, c, v1, v3, alpha, beta, d),
        decreases 64 - vstd::std_specs::bits::u64_leading_zeros(c),
    {
        let (q, r) = poly_warizan(b, c).unwrap();
        proof {
            broadcast use vstd::std_specs::bits::axiom_u64_leading_zeros;

            lemma_nonzero_degree(c);
            let n = 63 - vstd::std_specs::bits::u64_leading_zeros(c);
            assert(below(r, n));
            if r != 0 {
                lemma_nonzero_degree(r);
            }
        }
        let qr = reduce(q);
        let n0 = reduce(v0 ^ kakezan(qr, v2).unwrap());
        let p3 = kakezan(qr, v3).unwrap();
        let n1 = reduce(v1 ^ p3);
        proof {
            crate::field_laws::lemma_clmul_unique(qr, v3, p3);
            d = crate::field_laws::lemma_euclid_step(
                a.value,
                b,
                c,
                v1,
                v3,
                alpha,
                beta,
                d,
                q,
                r,
                qr,
                n1,
            );
            let next = crate::field_laws::clmul_value(alpha, q) ^ beta;
            beta = alpha;
            alpha = next;
        }
        v0 = v2;
        v1 = v3;
        v2 = n0;
        v3 = n1;
        b = c;
        c = r;
    }
    proof {
        crate::field_laws::lemma_euclid_end(a.value, b, v1, v3, alpha, beta, d);
    }
    let inv = reduce(v1);
    proof {
        crate::field_laws::lemma_rem_of_reduced(v1);
        lemma_mul_commutative(inv as u32, a.value);
    }
    Ok(MyNumber { value: inv as u32 })
}

/// The field element whose bit pattern is `value`.
pub fn create_number(value: u32) -> (r: MyNumber)
    ensures
        r.value == value,
{
    MyNumber { value }
}

/// The superscript form of the decimal digit `d`.
pub open spec fn superscript_digit(d: nat) -> char {
    if d == 0 {
        '⁰'
    } else if d == 1 {
        '¹'
    } else if d == 2 {
        '²'
    } else if d == 3 {
        '³'
    } else if d == 4 {
        '⁴'
    } else if d == 5 {
        '⁵'
    } else if d == 6 {
        '⁶'
    } else if d == 7 {
        '⁷'
    } else if d == 8 {
        '⁸'
    } else {
        '⁹'
    }
}

/// The decimal digits of `n`, most significant first, written as superscripts.
pub open spec fn superscript(n: nat) -> Seq<char>
    decreases n,
{
    if n < 10 {
        seq![superscript_digit(n)]
    } else {
        superscript(n / 10).push(superscript_digit(n % 10))
    }
}

/// The monomial x^i as text: "1", "x", or "x" followed by the superscript exponent.
pub open spec fn monomial(i: nat) -> Seq<char> {
    if i == 0 {
        seq!['1']
    } else if i == 1 {
        seq!['x']
    } else {
        seq!['x'] + superscript(i)
    }
}

/// The monomials of the coefficients of `x` at x^lo and above, in descending order,
/// joined by " + ".
pub open spec fn poly_text(x: u32, lo: nat) -> Seq<char>
    decreases 32 - lo,
{
    if lo >= 32 {
        Seq::empty()
    } else if bit(x as u64, lo as int) {
        let rest = poly_text(x, lo + 1);
        if rest.len() == 0 {
            monomial(lo)
        } else {
            rest + seq![' ', '+', ' '] + monomial(lo)
        }
    } else {
        poly_text(x, lo + 1)
    }
}

/// The polynomial written out: "0" for zero, else its monomials from the highest down.
pub open spec fn poly_string(x: u32) -> Seq<char> {
    if x == 0 {
        seq!['0']
    } else {
        poly_text(x, 0)
    }
}

fn superscript_char(d: u32) -> (r: &'static str)
    requires
        d < 10,
    ensures
        r@ == seq![superscript_digit(d as nat)],
{
    proof {
        reveal_strlit("⁰");
        reveal_strlit("¹");
        reveal_strlit("²");
        reveal_strlit("³");
        reveal_strlit("⁴");
        reveal_strlit("⁵");
        reveal_strlit("⁶");
        reveal_strlit("⁷");
        reveal_strlit("⁸");
        reveal_strlit("⁹");
    }
    match d {
        0 => "⁰",
        1 => "¹",
        2 => "²",
        3 => "³",
        4 => "⁴",
        5 => "⁵",
        6 => "⁶",
        7 => "⁷",
        8 => "⁸",
        _ => "⁹",
    }
}

/// The decimal digits of `n` as superscript characters.
fn to_superscript(n: u32) -> (r: String)
    ensures
        r@ == superscript(n as nat),
    decreases n,
{
    if n < 10 {
        String::from_str(superscript_char(n))
    } else {
        let mut r = to_superscript(n / 10);
        r.append(superscript_char(n % 10));
        r
    }
}

/// Human-readable form of a field element as a sum of monomials, highest exponent first.
pub fn takousiki(a: MyNumber) -> (r: String)
    ensures
        r@ == poly_string(a.value),
{
    proof {
        reveal_strlit("0");
    }
    if a.value == 0 {
        return String::from_str("0");
    }
    let mut poly = String::new();
    let mut i: u32 = 32;
    while i > 0
        invariant
            i <= 32,
            poly@ == poly_text(a.value, i as nat),
        decreases i,
    {
        i = i - 1;
        let x = a.value;
        let set = (x >> i) & 1 == 1;
        assert(set == bit(x as u64, i as int)) by {
            let ii = i as u64;
            assert(ii == i as u64 && ii < 32 ==> (((x as u64) >> ii) & 1 == 1 <==> (x >> i) & 1
                == 1)) by (bit_vector);
        }
        let ghost rest = poly@;
        assert(rest == poly_text(a.value, (i + 1) as nat));
        if set {
            if poly.as_str().unicode_len() > 0 {
                poly.append(" + ");
                proof {
                    reveal_strlit(" + ");
                    assert(" + "@ =~= seq![' ', '+', ' ']);
                }
                assert(poly@ =~= rest + seq![' ', '+', ' ']);
            } else {
                assert(poly@ =~= Seq::<char>::empty());
            }
            let ghost sep = poly@;
            if i == 0 {
                poly.append("1");
                proof {
                    reveal_strlit("1");
                    assert("1"@ =~= seq!['1']);
                }
            } else if i == 1 {
                poly.append("x");
                proof {
                    reveal_strlit("x");
                    assert("x"@ =~= seq!['x']);
                }
            } else {
                poly.append("x");
                proof {
                    reveal_strlit("x");
                    assert("x"@ =~= seq!['x']);
                }
                assert(poly@ =~= sep + seq!['x']);
                let sup = to_superscript(i);
                poly.append(sup.as_str());
                assert(poly@ =~= sep + (seq!['x'] + superscript(i as nat)));
            }
            assert(poly@ =~= sep + monomial(i as nat));
            assert(poly@ =~= poly_text(a.value, i as nat));
        }
    }
    poly
}

} // verus!
