use num_bigint::{BigInt, BigUint, Sign};
use num_integer::Integer;
use redox_ecc::error::Error;
use redox_ecc::scalar::Scalar;
use redox_ecc::uint::{Int, Uint};

fn integer(k: i64) -> Int {
    Int::new(k < 0, Uint::from_digits(vec![k.unsigned_abs() as u32, (k.unsigned_abs() >> 32) as u32]))
}

fn scalar(k: i64, r: u32) -> Scalar {
    Scalar::new(integer(k), &Uint::from_u32(r))
}

fn value(s: &Scalar) -> String {
    s.to_string()
}

fn collect(mut it: redox_ecc::scalar::Iterino) -> Vec<bool> {
    let mut bits = Vec::new();
    while let Some(b) = it.next() {
        bits.push(b);
    }
    assert_eq!(it.next(), None);
    bits
}

#[test]
fn new_reduces_with_floored_remainder() {
    assert_eq!(value(&scalar(0, 7)), "0");
    assert_eq!(value(&scalar(6, 7)), "6");
    assert_eq!(value(&scalar(7, 7)), "0");
    assert_eq!(value(&scalar(23, 7)), "2");
    assert_eq!(value(&scalar(-1, 7)), "6");
    assert_eq!(value(&scalar(-7, 7)), "0");
    assert_eq!(value(&scalar(-8, 7)), "6");
    assert_eq!(value(&scalar(-23, 7)), "5");
    assert_eq!(value(&scalar(5, 1)), "0");
    assert_eq!(value(&scalar(-5, 1)), "0");
}

#[test]
fn new_agrees_with_integer_floor_mod() {
    for r in [1u32, 2, 3, 7, 255, 256, 65537, 4294967295] {
        for k in [
            0i64,
            1,
            -1,
            41,
            -41,
            4294967295,
            -4294967296,
            i64::MAX,
            -i64::MAX,
        ] {
            let s = scalar(k, r);
            let expected = BigInt::from(k).mod_floor(&BigInt::from(r));
            assert_eq!(value(&s), expected.to_string(), "k={} r={}", k, r);
            assert!(s.get_value().lt(&s.get_order()));
            assert_eq!(s.get_order().to_decimal(), r.to_string());
        }
    }
}

#[test]
fn new_with_a_large_order() {
    let r = Uint::parse_decimal(
        "7237005577332262213973186563042994240857116359379907606001950938285454250989",
    )
    .unwrap();
    let s = Scalar::new(Int::new(true, Uint::from_u32(5)), &r);
    assert_eq!(
        value(&s),
        "7237005577332262213973186563042994240857116359379907606001950938285454250984"
    );
    let twice = Scalar::new(Int::from_uint(r.add(&r).add(&Uint::from_u32(3))), &r);
    assert_eq!(value(&twice), "3");
}

#[test]
fn arithmetic_is_integer_arithmetic_modulo_the_order() {
    let a = scalar(5, 7);
    let b = scalar(4, 7);
    assert_eq!(value(&a.add_mod(&b).unwrap()), "2");
    assert_eq!(value(&a.sub_mod(&b).unwrap()), "1");
    assert_eq!(value(&b.sub_mod(&a).unwrap()), "6");
    assert_eq!(value(&a.mul_mod(&b).unwrap()), "6");
    assert_eq!(value(&a.neg_mod()), "2");
    assert_eq!(value(&scalar(0, 7).neg_mod()), "0");
    for r in [2u32, 97, 65521] {
        for x in [0i64, 1, 50, 96, 12345] {
            for y in [0i64, 1, 33, 96, 54321] {
                let (a, b) = (scalar(x, r), scalar(y, r));
                let (x, y) = (x.rem_euclid(r as i64), y.rem_euclid(r as i64));
                let m = r as i64;
                assert_eq!(value(&a.add_mod(&b).unwrap()), ((x + y).rem_euclid(m)).to_string());
                assert_eq!(value(&a.sub_mod(&b).unwrap()), ((x - y).rem_euclid(m)).to_string());
                assert_eq!(value(&a.mul_mod(&b).unwrap()), ((x * y).rem_euclid(m)).to_string());
                assert_eq!(value(&a.neg_mod()), ((-x).rem_euclid(m)).to_string());
                assert_eq!(a.add_mod(&b).unwrap().get_order().to_decimal(), r.to_string());
            }
        }
    }
}

#[test]
fn different_orders_do_not_mix() {
    let a = scalar(5, 7);
    let b = scalar(5, 11);
    assert_eq!(a.add_mod(&b).err(), Some(Error::GroupMismatch));
    assert_eq!(a.sub_mod(&b).err(), Some(Error::GroupMismatch));
    assert_eq!(a.mul_mod(&b).err(), Some(Error::GroupMismatch));
    assert_eq!(b.add_mod(&a).err(), Some(Error::GroupMismatch));
    assert!(a != b);
    assert!(a == scalar(12, 7));
    assert!(a != scalar(6, 7));
    assert_eq!(Error::GroupMismatch.message(), "elements of different groups");
}

#[test]
fn bits_from_both_ends() {
    let s = scalar(0b1011, 1000);
    assert_eq!(collect(s.iter_lr()), vec![true, false, true, true]);
    assert_eq!(collect(s.iter_rl()), vec![true, true, false, true]);
    let one = scalar(1, 1000);
    assert_eq!(collect(one.iter_lr()), vec![true]);
    assert_eq!(collect(one.iter_rl()), vec![true]);
    let zero = scalar(0, 1000);
    assert_eq!(collect(zero.iter_lr()), Vec::<bool>::new());
    assert_eq!(collect(zero.iter_rl()), Vec::<bool>::new());
}

#[test]
fn bits_rebuild_the_value() {
    let r = Uint::parse_decimal(
        "181709681073901722637330951972001133588410340171829515070372549795146003961539585716195755291692375963310293709091662304773755859649779",
    )
    .unwrap();
    for text in [
        "0",
        "1",
        "2",
        "4294967295",
        "4294967296",
        "18446744073709551615",
        "18446744073709551616",
        "340282366920938463463374607431768211455",
        "181709681073901722637330951972001133588410340171829515070372549795146003961539585716195755291692375963310293709091662304773755859649778",
    ] {
        let k = Uint::parse_decimal(text).unwrap();
        let s = Scalar::new(Int::from_uint(k), &r);
        let expected = BigUint::parse_bytes(text.as_bytes(), 10).unwrap();
        let lr = collect(s.iter_lr());
        let rl = collect(s.iter_rl());
        assert_eq!(lr.len() as u64, expected.bits());
        assert_eq!(rl.len() as u64, expected.bits());
        let mut from_lr = BigUint::from(0u32);
        for b in lr.iter() {
            from_lr = from_lr * 2u32 + if *b { 1u32 } else { 0u32 };
        }
        assert_eq!(from_lr, expected);
        let mut from_rl = BigUint::from(0u32);
        for b in rl.iter().rev() {
            from_rl = from_rl * 2u32 + if *b { 1u32 } else { 0u32 };
        }
        assert_eq!(from_rl, expected);
        let mut reversed = rl.clone();
        reversed.reverse();
        assert_eq!(lr, reversed);
        if !lr.is_empty() {
            assert!(lr[0]);
        }
    }
}

#[test]
fn cursors_are_independent() {
    let s = scalar(0b110, 1000);
    let mut a = s.iter_lr();
    let mut b = s.iter_lr();
    let mut c = s.iter_rl();
    assert_eq!(a.next(), Some(true));
    assert_eq!(a.next(), Some(true));
    assert_eq!(b.next(), Some(true));
    assert_eq!(c.next(), Some(false));
    assert_eq!(a.next(), Some(false));
    assert_eq!(a.next(), None);
    assert_eq!(a.next(), None);
    assert_eq!(b.next(), Some(true));
    assert_eq!(c.next(), Some(true));
    assert_eq!(c.next(), Some(true));
    assert_eq!(c.next(), None);
    assert_eq!(collect(s.iter_lr()), vec![true, true, false]);
}

#[test]
fn scalar_from_big_integers() {
    let k = BigInt::parse_bytes(b"-123456789012345678901234567890", 10).unwrap();
    let r = BigUint::parse_bytes(b"1000000007", 10).unwrap();
    let (sign, digits) = k.to_u32_digits();
    let s = Scalar::new(
        Int::new(sign == Sign::Minus, Uint::from_digits(digits)),
        &Uint::from_digits(r.to_u32_digits()),
    );
    let expected = k.mod_floor(&BigInt::from(r));
    assert_eq!(s.to_string(), expected.to_string());
    assert_eq!(
        BigUint::new(s.get_value().to_u32_digits()),
        expected.to_biguint().unwrap()
    );
}
