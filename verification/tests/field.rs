use redox_ecc::field::Fp;
use redox_ecc::uint::{Int, Uint};

fn n(x: u32) -> Uint {
    Uint::from_u32(x)
}

fn field(p: u32) -> Fp {
    Fp::new(n(p)).unwrap()
}

fn dec(x: &Uint) -> String {
    x.to_decimal()
}

#[test]
fn moduli() {
    assert!(Fp::new(n(0)).is_none());
    assert!(Fp::new(n(1)).is_none());
    assert!(Fp::new(n(2)).is_some());
    let f = field(23);
    assert_eq!(dec(&f.get_modulus()), "23");
    assert_eq!(dec(&f.clone().get_modulus()), "23");
    assert_eq!(f.size_bytes(), 1);
    assert_eq!(field(255).size_bytes(), 1);
    assert_eq!(field(256).size_bytes(), 2);
    assert_eq!(field(65535).size_bytes(), 2);
    assert_eq!(field(65537).size_bytes(), 3);
    let p521 = Uint::parse_decimal("6864797660130609714981900799081393217269435300143305409394463459185543183397656052122559640661454554977296311391480858037121987999716643812574028291115057151").unwrap();
    assert_eq!(Fp::new(p521).unwrap().size_bytes(), 66);
}

#[test]
fn ring_operations() {
    let f = field(23);
    assert_eq!(dec(&f.zero()), "0");
    assert_eq!(dec(&f.one()), "1");
    assert_eq!(dec(&f.add(&n(20), &n(5))), "2");
    assert_eq!(dec(&f.add(&n(100), &n(100))), "16");
    assert_eq!(dec(&f.sub(&n(5), &n(20))), "8");
    assert_eq!(dec(&f.sub(&n(20), &n(5))), "15");
    assert_eq!(dec(&f.sub(&n(5), &n(5))), "0");
    assert_eq!(dec(&f.sub(&n(0), &n(46))), "0");
    assert_eq!(dec(&f.mul(&n(20), &n(5))), "8");
    assert_eq!(dec(&f.neg(&n(5))), "18");
    assert_eq!(dec(&f.neg(&n(0))), "0");
    assert_eq!(dec(&f.neg(&n(28))), "18");
    assert_eq!(dec(&f.pow(&n(5), &n(22))), "1");
    assert_eq!(dec(&f.pow(&n(5), &n(0))), "1");
    assert_eq!(dec(&f.pow(&n(5), &n(3))), "10");
    assert_eq!(dec(&f.reduce(&n(50))), "4");
    assert!(f.contains(&n(22)));
    assert!(!f.contains(&n(23)));
    assert_eq!(dec(&f.elt(&Int::new(true, n(1)))), "22");
    assert_eq!(dec(&f.elt(&Int::new(false, n(24)))), "1");
    assert_eq!(dec(&f.from_decimal("-3").unwrap()), "20");
    assert_eq!(dec(&f.from_decimal("26").unwrap()), "3");
    assert!(f.from_decimal("three").is_none());
}

#[test]
fn inverses() {
    let f = field(23);
    for a in 1u32..23 {
        let i = f.inverse(&n(a)).unwrap();
        assert_eq!(dec(&f.mul(&n(a), &i)), "1");
        assert!(f.contains(&i));
        assert_eq!(dec(&f.div(&n(a), &n(a)).unwrap()), "1");
    }
    assert!(f.inverse(&n(0)).is_none());
    assert!(f.inverse(&n(23)).is_none());
    assert!(f.div(&n(1), &n(0)).is_none());
    assert_eq!(dec(&f.inverse(&n(24)).unwrap()), "1");
    assert_eq!(dec(&f.div(&n(10), &n(5)).unwrap()), "2");
    assert_eq!(dec(&f.div(&n(1), &n(2)).unwrap()), "12");
    // a modulus that is not prime has elements without inverse
    let g = field(15);
    assert!(g.inverse(&n(3)).is_none());
    assert_eq!(dec(&g.inverse(&n(2)).unwrap()), "8");
}

#[test]
fn square_roots_modulo_3_mod_4() {
    let f = field(23);
    let mut squares = 0;
    for a in 0u32..23 {
        match f.sqrt(&n(a)) {
            Some(r) => {
                squares += 1;
                assert_eq!(dec(&f.mul(&r, &r)), a.to_string());
                assert!(f.contains(&r));
            }
            None => {
                for y in 0u32..23 {
                    assert!(y * y % 23 != a);
                }
            }
        }
    }
    assert_eq!(squares, 12);
    every_square_has_a_root(7);
    every_square_has_a_root(11);
    // 4^((23 + 1) / 4) = 4096 = 2 (mod 23)
    assert_eq!(dec(&f.sqrt(&n(4)).unwrap()), "2");
    assert_eq!(dec(&f.sqrt(&n(27)).unwrap()), "2");
}

fn every_square_has_a_root(p: u32) {
    let f = field(p);
    let mut squares = 0;
    for a in 0..p {
        match f.sqrt(&n(a)) {
            Some(r) => {
                squares += 1;
                assert_eq!(dec(&f.mul(&r, &r)), a.to_string(), "modulo {}", p);
                assert!(f.contains(&r));
            }
            None => {
                for y in 0..p {
                    assert!(y * y % p != a, "{} is a square modulo {}", a, p);
                }
            }
        }
    }
    assert_eq!(squares, (p + 1) / 2);
}

#[test]
fn square_roots_modulo_5_mod_8() {
    every_square_has_a_root(5);
    every_square_has_a_root(13);
    every_square_has_a_root(29);
    let f = field(13);
    let r = dec(&f.sqrt(&n(4)).unwrap());
    assert!(r == "2" || r == "11");
    let r = dec(&f.sqrt(&n(3)).unwrap());
    assert!(r == "4" || r == "9");
    assert!(f.sqrt(&n(2)).is_none());
}

#[test]
fn square_roots_modulo_1_mod_8() {
    every_square_has_a_root(17);
    every_square_has_a_root(41);
    every_square_has_a_root(97);
    every_square_has_a_root(193);
    every_square_has_a_root(257);
    let f = field(17);
    let r = dec(&f.sqrt(&n(2)).unwrap());
    assert!(r == "6" || r == "11");
    let r = dec(&f.sqrt(&n(4)).unwrap());
    assert!(r == "2" || r == "15");
    assert_eq!(dec(&f.sqrt(&n(0)).unwrap()), "0");
    assert_eq!(dec(&f.sqrt(&n(17)).unwrap()), "0");
    assert!(f.sqrt(&n(3)).is_none());
    assert_eq!(dec(&f.non_residue().unwrap()), "3");
    assert_eq!(dec(&field(41).non_residue().unwrap()), "3");
    assert_eq!(dec(&field(13).non_residue().unwrap()), "2");
}

#[test]
fn square_roots_modulo_large_primes() {
    // 2^16 + 1, where p - 1 is a power of two
    let f = field(65537);
    for a in [0u32, 1, 2, 4, 9, 65536, 12345] {
        let square = f.mul(&n(a), &n(a));
        let r = f.sqrt(&square).unwrap();
        assert!(r == f.reduce(&n(a)) || r == f.neg(&n(a)));
    }
    assert!(f.sqrt(&n(3)).is_none());
    // 2^224 - 2^96 + 1, where p - 1 has 96 factors 2
    let p = Uint::parse_decimal(
        "26959946667150639794667015087019630673557916260026308143510066298881",
    )
    .unwrap();
    let f = Fp::new(p).unwrap();
    let y = Uint::parse_decimal("1234567890123456789012345678901234567890").unwrap();
    let square = f.mul(&y, &y);
    let r = f.sqrt(&square).unwrap();
    assert!(r == y || r == f.neg(&y));
    assert!(f.mul(&r, &r) == square);
    let r = f.sqrt(&n(4)).unwrap();
    assert!(r == n(2) || r == f.neg(&n(2)));
    // 11 is no square modulo this prime
    assert!(f.sqrt(&n(11)).is_none());
}

#[test]
fn square_roots_modulo_two() {
    let f = field(2);
    assert_eq!(dec(&f.sqrt(&n(0)).unwrap()), "0");
    assert_eq!(dec(&f.sqrt(&n(1)).unwrap()), "1");
    assert_eq!(dec(&f.sqrt(&n(3)).unwrap()), "1");
}

#[test]
fn splitting_off_the_factors_two() {
    let (q, s) = redox_ecc::sqrt::split_power_of_two(&n(96));
    assert_eq!((dec(&q), s), ("3".to_string(), 5));
    let (q, s) = redox_ecc::sqrt::split_power_of_two(&n(7));
    assert_eq!((dec(&q), s), ("7".to_string(), 0));
    let (q, s) = redox_ecc::sqrt::split_power_of_two(&n(0));
    assert_eq!((dec(&q), s), ("0".to_string(), 0));
    let (q, s) = redox_ecc::sqrt::split_power_of_two(&n(65536));
    assert_eq!((dec(&q), s), ("1".to_string(), 16));
}

#[test]
fn signs() {
    let f = field(23);
    assert_eq!(f.sgn0(&n(0)), 0);
    assert_eq!(f.sgn0(&n(1)), 1);
    assert_eq!(f.sgn0(&n(22)), 0);
    assert_eq!(f.sgn0(&n(23)), 0);
    assert_eq!(f.sgn0(&n(24)), 1);
    for a in 1u32..23 {
        assert!(f.sgn0(&n(a)) != f.sgn0(&f.neg(&n(a))));
    }
}
