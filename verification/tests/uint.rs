use num_bigint::BigUint;
use redox_ecc::uint::{all_decimal_digits, Int, Uint};

fn u(text: &str) -> Uint {
    Uint::parse_decimal(text).unwrap()
}

#[test]
fn digits_and_values() {
    assert_eq!(Uint::zero().to_decimal(), "0");
    assert_eq!(Uint::one().to_decimal(), "1");
    assert_eq!(Uint::from_u32(4294967295).to_decimal(), "4294967295");
    assert_eq!(Uint::from_digits(vec![0, 1]).to_decimal(), "4294967296");
    assert_eq!(Uint::from_digits(vec![830850304, 26]).to_decimal(), "112500000000");
    assert_eq!(Uint::from_digits(vec![5, 0, 0]).to_decimal(), "5");
    assert!(Uint::from_digits(vec![5, 0, 0]) == Uint::from_u32(5));
    assert!(Uint::from_digits(vec![]) == Uint::zero());
    assert!(Uint::from_digits(vec![0, 0]).is_zero());
    assert!(!Uint::one().is_zero());
    let d = u("112500000000").to_u32_digits();
    assert_eq!(BigUint::new(d), BigUint::from(112500000000u64));
}

#[test]
fn arithmetic() {
    let a = u("340282366920938463463374607431768211455");
    let b = u("18446744073709551616");
    assert_eq!(a.add(&b).to_decimal(), "340282366920938463481821351505477763071");
    assert_eq!(a.mul(&b).to_decimal(), "6277101735386680763835789423207666416083908700390324961280");
    assert_eq!(a.checked_sub(&b).unwrap().to_decimal(), "340282366920938463444927863358058659839");
    assert!(b.checked_sub(&a).is_none());
    assert_eq!(a.checked_sub(&a).unwrap().to_decimal(), "0");
    assert_eq!(a.rem(&b).to_decimal(), "18446744073709551615");
    assert_eq!(a.div(&b).to_decimal(), "18446744073709551615");
    assert_eq!(b.rem(&a).to_decimal(), "18446744073709551616");
    assert_eq!(b.div(&a).to_decimal(), "0");
    assert!(b.lt(&a));
    assert!(!a.lt(&b));
    assert!(!a.lt(&a));
    assert!(a == a.clone());
    assert!(a != b);
}

#[test]
fn modular_power_and_inverse() {
    let m = Uint::from_u32(1000000007);
    assert_eq!(Uint::from_u32(2).pow_mod(&Uint::from_u32(10), &m).to_decimal(), "1024");
    assert_eq!(Uint::from_u32(2).pow_mod(&Uint::from_u32(0), &m).to_decimal(), "1");
    assert_eq!(Uint::from_u32(3).pow_mod(&u("1000000006"), &m).to_decimal(), "1");
    assert_eq!(Uint::from_u32(5).pow_mod(&Uint::from_u32(3), &Uint::one()).to_decimal(), "0");
    assert_eq!(Uint::from_u32(5).pow_mod(&Uint::zero(), &Uint::one()).to_decimal(), "0");
    assert_eq!(Uint::from_u32(5).pow_mod(&Uint::zero(), &Uint::from_u32(2)).to_decimal(), "1");
    assert_eq!(Uint::from_u32(7).pow_mod(&Uint::from_u32(5), &Uint::from_u32(10)).to_decimal(), "7");
    assert_eq!(Uint::zero().inv_mod(&Uint::one()).unwrap().to_decimal(), "0");
    let m = Uint::from_u32(383);
    assert_eq!(Uint::from_u32(271).inv_mod(&m).unwrap().to_decimal(), "106");
    assert!(Uint::zero().inv_mod(&m).is_none());
    assert_eq!(Uint::one().inv_mod(&m).unwrap().to_decimal(), "1");
    assert!(Uint::from_u32(4).inv_mod(&Uint::from_u32(8)).is_none());
    assert_eq!(Uint::from_u32(3).inv_mod(&Uint::from_u32(8)).unwrap().to_decimal(), "3");
}

#[test]
fn bit_lengths() {
    assert_eq!(Uint::zero().bits(), 0);
    assert_eq!(Uint::one().bits(), 1);
    assert_eq!(Uint::from_u32(255).bits(), 8);
    assert_eq!(Uint::from_u32(256).bits(), 9);
    assert_eq!(Uint::from_digits(vec![0, 1]).bits(), 33);
    assert_eq!(Uint::from_digits(vec![0, 1, 0]).bits(), 33);
    assert_eq!(
        u("57896044618658097711785492504343953926634992332820282019728792003956564819949").bits(),
        255
    );
}

#[test]
fn bytes() {
    assert_eq!(Uint::from_bytes_be(&[]).to_decimal(), "0");
    assert_eq!(Uint::from_bytes_be(b"A").to_decimal(), "65");
    assert_eq!(Uint::from_bytes_be(b"AB").to_decimal(), "16706");
    assert_eq!(Uint::from_bytes_be(&[0, 0, 1, 0]).to_decimal(), "256");
    assert_eq!(
        Uint::from_bytes_be(b"Hello world!").to_decimal(),
        "22405534230753963835153736737"
    );
    assert_eq!(u("1125").to_bytes_be(), vec![4, 101]);
    assert_eq!(Uint::zero().to_bytes_be(), vec![0]);
    assert_eq!(u("4294967296").to_bytes_be(), vec![1, 0, 0, 0, 0]);
}

#[test]
fn decimal_numerals() {
    assert_eq!(u("0").to_decimal(), "0");
    assert_eq!(u("000123").to_decimal(), "123");
    assert_eq!(
        u("115792089237316195423570985008687907853269984665640564039457584007908834671663")
            .to_decimal(),
        "115792089237316195423570985008687907853269984665640564039457584007908834671663"
    );
    for bad in ["", "+1", "-1", "1_000", "12a", " 1", "1 ", "0x10", "١٢"] {
        assert!(Uint::parse_decimal(bad).is_none(), "{:?}", bad);
        assert!(!all_decimal_digits(bad));
    }
    assert!(all_decimal_digits("0123456789"));
}

#[test]
fn signed_integers() {
    let k = Int::parse_decimal("-3").unwrap();
    assert!(k.is_negative());
    assert_eq!(k.magnitude().to_decimal(), "3");
    assert_eq!(k.mod_floor(&Uint::from_u32(7)).to_decimal(), "4");
    let k = Int::parse_decimal("10").unwrap();
    assert!(!k.is_negative());
    assert_eq!(k.mod_floor(&Uint::from_u32(7)).to_decimal(), "3");
    let z = Int::parse_decimal("-0").unwrap();
    assert!(!z.is_negative());
    assert_eq!(z.mod_floor(&Uint::from_u32(7)).to_decimal(), "0");
    for bad in ["", "-", "--1", "+1", "1-", "- 1"] {
        assert!(Int::parse_decimal(bad).is_none(), "{:?}", bad);
    }
    let d = Int::difference(&Uint::from_u32(3), &Uint::from_u32(10));
    assert!(d.is_negative());
    assert_eq!(d.magnitude().to_decimal(), "7");
    let d = Int::difference(&Uint::from_u32(10), &Uint::from_u32(3));
    assert!(!d.is_negative());
    assert_eq!(d.magnitude().to_decimal(), "7");
    assert_eq!(Int::negation(&Uint::from_u32(3)).mod_floor(&Uint::from_u32(5)).to_decimal(), "2");
    assert_eq!(Int::from_uint(Uint::from_u32(9)).mod_floor(&Uint::from_u32(5)).to_decimal(), "4");
    assert_eq!(Int::new(true, Uint::from_u32(9)).clone().mod_floor(&Uint::from_u32(5)).to_decimal(), "1");
}

#[test]
fn the_version_is_stated() {
    assert_eq!(redox_ecc::version(), "0.2.0");
}
