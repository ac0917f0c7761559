use gf32::field32::{create_number, inverse, kakezan, poly_warizan, takousiki, MyNumber, IRREDUCIBLE_POLYNOMIAL};

fn mul(a: u32, b: u32) -> u32 {
    (create_number(a) * create_number(b)).value
}

#[test]
fn carry_less_product_of_five_and_six() {
    assert_eq!(kakezan(5, 6), Ok(30));
}

#[test]
fn carry_less_product_by_zero_and_one() {
    assert_eq!(kakezan(0x1234_5678, 0), Ok(0));
    assert_eq!(kakezan(0x1234_5678, 1), Ok(0x1234_5678));
}

#[test]
fn carry_less_product_of_widest_operands() {
    assert_eq!(kakezan(0xFFFF_FFFF, 0xFFFF_FFFF), Ok(0x5555_5555_5555_5555));
    assert_eq!(kakezan(0x8000_0000, 0x8000_0000), Ok(0x4000_0000_0000_0000));
}

#[test]
fn carry_less_product_rejects_wide_operands() {
    assert_eq!(kakezan(1 << 32, 1), Err("３２ビットまでだぞ".to_string()));
    assert_eq!(kakezan(1 << 32, 1), kakezan(1, 1 << 32));
    assert!(kakezan(1, 1 << 40).is_err());
}

#[test]
fn division_exact() {
    assert_eq!(poly_warizan(30, 6), Ok((5, 0)));
}

#[test]
fn division_with_remainder() {
    assert_eq!(poly_warizan(31, 6), Ok((5, 1)));
}

#[test]
fn division_by_zero_fails() {
    assert_eq!(poly_warizan(0, 0), Err("０で割ってるぞ".to_string()));
    assert!(poly_warizan(31, 0).is_err());
    assert!(poly_warizan(u64::MAX, 0).is_err());
}

#[test]
fn division_of_the_modulus_by_one() {
    assert_eq!(poly_warizan(IRREDUCIBLE_POLYNOMIAL, 1), Ok((IRREDUCIBLE_POLYNOMIAL, 0)));
}

#[test]
fn division_by_the_modulus() {
    assert_eq!(poly_warizan(1 << 32, IRREDUCIBLE_POLYNOMIAL), Ok((1, 0x0040_0007)));
    assert_eq!(poly_warizan(u64::MAX, u64::MAX), Ok((1, 0)));
}

#[test]
fn modulus_constant() {
    assert_eq!(IRREDUCIBLE_POLYNOMIAL, 0x1_0040_0007);
}

#[test]
fn multiply_five_by_seven() {
    assert_eq!(mul(5, 7), 27);
}

#[test]
fn multiply_with_reduction() {
    // x^31 * x = x^32 = x^22 + x^2 + x + 1
    assert_eq!(mul(0x8000_0000, 2), 0x0040_0007);
    // x^31 * x^31 = x^62, reduced
    let r = mul(0x8000_0000, 0x8000_0000);
    assert_eq!(r, mul(mul(0x8000_0000, 2), 0x4000_0000));
}

#[test]
fn multiply_commutes() {
    for &(a, b) in &[(5u32, 7u32), (0xDEAD_BEEF, 0x1234_5678), (0xFFFF_FFFF, 3), (0x8000_0001, 0x8000_0000)] {
        assert_eq!(mul(a, b), mul(b, a));
    }
}

#[test]
fn multiply_by_one_is_identity() {
    for &a in &[0u32, 1, 2, 27, 0xDEAD_BEEF, 0xFFFF_FFFF] {
        assert_eq!(mul(a, 1), a);
    }
}

#[test]
fn multiply_by_zero_is_zero() {
    for &a in &[0u32, 1, 27, 0xDEAD_BEEF, 0xFFFF_FFFF] {
        assert_eq!(mul(a, 0), 0);
    }
}

#[test]
fn inverse_of_zero_fails() {
    assert_eq!(inverse(create_number(0)).unwrap_err(), "０の逆元は存在しないぞ");
}

#[test]
fn inverse_of_one_is_one() {
    assert_eq!(inverse(create_number(1)).unwrap().value, 1);
}

#[test]
fn inverse_times_element_is_one() {
    for &a in &[1u32, 2, 3, 5, 7, 0x8000_0000, 0xDEAD_BEEF, 0xFFFF_FFFF, 0x0040_0007] {
        let b = inverse(create_number(a)).unwrap();
        assert_eq!(mul(a, b.value), 1, "a = {}", a);
    }
}

#[test]
fn inverse_of_inverse_is_element() {
    for &a in &[1u32, 2, 3, 27, 0x8000_0000, 0xDEAD_BEEF, 0xFFFF_FFFF] {
        let b = inverse(create_number(a)).unwrap();
        let c = inverse(b).unwrap();
        assert_eq!(c.value, a);
    }
}

#[test]
fn inverse_of_product_is_product_of_inverses() {
    let (a, b) = (0xDEAD_BEEFu32, 0x1234_5678u32);
    let ia = inverse(create_number(a)).unwrap().value;
    let ib = inverse(create_number(b)).unwrap().value;
    assert_eq!(inverse(create_number(mul(a, b))).unwrap().value, mul(ia, ib));
}

#[test]
fn inverse_of_two() {
    // x * (x^31 + x^21 + x + 1) = x^32 + x^22 + x^2 + x = 1 modulo the modulus
    assert_eq!(inverse(create_number(2)).unwrap().value, 0x8020_0003);
}

#[test]
fn create_keeps_bits() {
    let n: MyNumber = create_number(0xCAFE_BABE);
    assert_eq!(n.value, 0xCAFE_BABE);
}

#[test]
fn format_zero_and_one() {
    assert_eq!(takousiki(create_number(0)), "0");
    assert_eq!(takousiki(create_number(1)), "1");
    assert_eq!(takousiki(create_number(2)), "x");
}

#[test]
fn format_monomials_descending() {
    assert_eq!(takousiki(create_number(7)), "x² + x + 1");
    assert_eq!(takousiki(create_number(27)), "x⁴ + x³ + x + 1");
    assert_eq!(takousiki(create_number(0x8000_0400)), "x³¹ + x¹⁰");
    assert_eq!(takousiki(create_number(0x0040_0007)), "x²² + x² + x + 1");
}

#[test]
fn multiply_associates() {
    let values = [1u32, 2, 7, 0x8000_0000, 0xDEAD_BEEF, 0xFFFF_FFFF, 0x1234_5678];
    for &a in &values {
        for &b in &values {
            for &c in &values {
                assert_eq!(mul(mul(a, b), c), mul(a, mul(b, c)));
            }
        }
    }
}

#[test]
fn multiply_distributes_over_xor() {
    let (a, b, c) = (0xDEAD_BEEFu32, 0x1234_5678u32, 0x8000_0001u32);
    assert_eq!(mul(a, b ^ c), mul(a, b) ^ mul(a, c));
}
