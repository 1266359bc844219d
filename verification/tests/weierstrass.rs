use redox_ecc::error::Error;
use redox_ecc::instances::{p224, p256, p384, secp256k1};
use redox_ecc::uint::Uint;
use redox_ecc::weierstrass::{Curve, ProyCoordinates};

fn hex(bytes: &[u8]) -> String {
    let mut s = String::new();
    for b in bytes {
        s.push_str(&format!("{:02x}", b));
    }
    s
}

#[test]
fn weierstrass_point_serialization() {
    for &id in [p224(), p256(), p384(), secp256k1()].iter() {
        let ec = id.try_get().unwrap();
        let len_p = ec.get_field().size_bytes() as usize;
        let gen = ec.get_generator();
        assert!(ec.is_on_curve(&gen));
        for compress in [false, true] {
            let ser = gen.encode(compress);
            assert_eq!(ser.len(), if compress { len_p + 1 } else { 2 * len_p + 1 });
            let deser = ec.decode(&ser).unwrap();
            assert!(ec.is_on_curve(&deser), "point validity check for {}", id.0.name);
            assert!(gen == deser, "point equality check for {}", id.0.name);
        }
    }
}

#[test]
fn known_encodings_of_generators() {
    let ec = p256().try_get().unwrap();
    let gen = ec.get_generator();
    assert_eq!(
        hex(&gen.encode(true)),
        "036b17d1f2e12c4247f8bce6e563a440f277037d812deb33a0f4a13945d898c296"
    );
    assert_eq!(
        hex(&gen.encode(false)),
        "046b17d1f2e12c4247f8bce6e563a440f277037d812deb33a0f4a13945d898c2964fe342e2fe1a7f9b8ee7eb4a7c0f9e162bce33576b315ececbb6406837bf51f5"
    );
    let ec = secp256k1().try_get().unwrap();
    let gen = ec.get_generator();
    assert_eq!(
        hex(&gen.encode(true)),
        "0279be667ef9dcbbac55a06295ce870b07029bfcdb2dce28d959f2815b16f81798"
    );
    assert_eq!(
        hex(&gen.encode(false)),
        "0479be667ef9dcbbac55a06295ce870b07029bfcdb2dce28d959f2815b16f81798483ada7726a3c4655da4fbfc0e1108a8fd17b448a68554199c47d08ffb10d4b8"
    );
}

#[test]
fn weierstrass_identity() {
    let ec = p256().try_get().unwrap();
    let o = ec.identity();
    assert!(ec.is_on_curve(&o));
    assert!(o.is_identity());
    assert_eq!(o.encode(true), vec![0u8]);
    assert_eq!(o.encode(false), vec![0u8]);
    assert!(ec.decode(&[0u8]).unwrap() == o);
    assert!(ec.decode(&[0u8]).unwrap() != ec.get_generator());
}

#[test]
fn weierstrass_decode_failures() {
    let ec = p256().try_get().unwrap();
    assert_eq!(ec.decode(&[]).err(), Some(Error::InvalidLength));
    assert_eq!(ec.decode(&[4u8; 64]).err(), Some(Error::InvalidLength));
    assert_eq!(ec.decode(&[7u8]).err(), Some(Error::InvalidTag));
    let mut buf = vec![0u8; 33];
    buf[0] = 0x05;
    assert_eq!(ec.decode(&buf).err(), Some(Error::InvalidTag));
    assert_eq!(ec.decode(&[0xffu8; 33]).err(), Some(Error::InvalidCoordinate));
    assert_eq!(ec.decode(&[0xffu8; 65]).err(), Some(Error::InvalidCoordinate));
    let mut buf = vec![0u8; 65];
    buf[0] = 0x04;
    buf[64] = 1;
    assert_eq!(ec.decode(&buf).err(), Some(Error::InvalidPoint));
    // y^2 = x^3 - 3x + b has no solution for x = 1 on P-256
    let mut buf = vec![0u8; 33];
    buf[0] = 0x02;
    buf[32] = 1;
    assert_eq!(ec.decode(&buf).err(), Some(Error::InvalidPoint));
}

#[test]
fn projective_points_are_compared_by_cross_multiplication() {
    let ec = secp256k1().try_get().unwrap();
    let f = ec.get_field();
    let g = ec.get_generator().get_coordinates();
    let k = Uint::from_u32(12345);
    let scaled = ec
        .new_point(ProyCoordinates {
            x: f.mul(&g.x, &k),
            y: f.mul(&g.y, &k),
            z: k.clone(),
        })
        .unwrap();
    assert!(scaled == ec.get_generator());
    assert!(ec.is_on_curve(&scaled));
    assert_eq!(
        scaled.encode(false),
        ec.get_generator().encode(false)
    );
    assert_eq!(
        scaled.encode(true),
        ec.get_generator().encode(true)
    );
    assert_eq!(
        ec.new_point(ProyCoordinates { x: g.x.clone(), y: g.y.clone(), z: k })
            .err(),
        Some(Error::InvalidPoint)
    );
    assert_eq!(
        ec.new_point(ProyCoordinates {
            x: f.get_modulus(),
            y: g.y.clone(),
            z: Uint::one()
        })
        .err(),
        Some(Error::InvalidCoordinate)
    );
}

#[test]
fn weierstrass_tables_and_descriptions() {
    let ec = p256().try_get().unwrap();
    assert_eq!(
        ec.to_string(),
        "Weierstrass Curve y^2=x^3+ax+b\na: 115792089210356248762697446949407573530086143415290314195533631308867097853948\nb: 41058363725152142129326129780047268409114441015993725554835256314039467401291"
    );
    assert_eq!(
        ec.get_order().to_decimal(),
        "115792089210356248762697446949407573529996955224135760342422259061068512044369"
    );
    assert!(ec.get_cofactor().magnitude() == Uint::one());
    assert!(ec == ec.clone());
    assert!(ec != secp256k1().try_get().unwrap());
    let mut t = *p256().0;
    t.b = "7";
    assert!(Curve::try_from(&t).is_none());
    assert_eq!(p256().0.name, "P-256");
    let m = redox_ecc::instances::curve25519().try_get().unwrap();
    assert_eq!(m.to_string(), "Montgomery Curve by^2=x^3+ax^2+x\na: 486662\nb: 1");
}

#[test]
fn a_modulus_that_is_not_prime_has_fewer_points() {
    // y^2 = x^3 + 1 modulo 15, with the point (0, 1)
    let table = redox_ecc::weierstrass::Params {
        name: "toy",
        p: "15",
        a: "0",
        b: "1",
        r: "1",
        h: "1",
        gx: "0",
        gy: "1",
    };
    let ec = Curve::try_from(&table).unwrap();
    let n = |x: u32| Uint::from_u32(x);
    // (0 : 2 : 2) satisfies the equation, and 2 has the inverse 8
    let pt = ec
        .new_point(ProyCoordinates { x: n(0), y: n(2), z: n(2) })
        .unwrap();
    assert!(pt == ec.get_generator());
    assert_eq!(pt.encode(false), vec![4, 0, 1]);
    assert_eq!(pt.encode(true), vec![3, 0]);
    // (0 : 3 : 3) satisfies the equation too, but 3 has no inverse
    assert_eq!(
        ec.new_point(ProyCoordinates { x: n(0), y: n(3), z: n(3) })
            .err(),
        Some(Error::InvalidPoint)
    );
    // (0 : 0 : 0) is no point, though it satisfies the equation
    assert_eq!(
        ec.new_point(ProyCoordinates { x: n(0), y: n(0), z: n(0) })
            .err(),
        Some(Error::InvalidPoint)
    );
    // (0 : 4 : 0) is the neutral element
    let o = ec
        .new_point(ProyCoordinates { x: n(0), y: n(4), z: n(0) })
        .unwrap();
    assert!(o.is_identity());
    assert!(o == ec.identity());
    assert!(o != ec.get_generator());
    assert_eq!(o.encode(true), vec![0]);
}

#[test]
fn compressed_points_over_a_modulus_that_is_1_modulo_8() {
    let ec = p224().try_get().unwrap();
    assert_eq!(ec.get_field().size_bytes(), 28);
    let g = ec.get_generator();
    let ser = g.encode(true);
    assert_eq!(
        hex(&ser),
        "02b70e0cbd6bb4bf7f321390b94a03c1d356c21122343280d6115c1d21"
    );
    let back = ec.decode(&ser).unwrap();
    assert!(back == g);
    assert!(back.get_coordinates().y == g.get_coordinates().y);
    // the other tag gives the negation
    let mut other = ser.clone();
    other[0] = 0x03;
    assert!(ec.decode(&other).unwrap() == g.neg());
    // multiples round trip too, compressed and not
    let mut pt = g.clone();
    for _ in 0..5 {
        pt = pt.double().unwrap().add(&g).unwrap();
        assert!(ec.decode(&pt.encode(true)).unwrap() == pt);
        assert!(ec.decode(&pt.encode(false)).unwrap() == pt);
    }
    // an x without a point is refused
    let mut buf = vec![0u8; 29];
    buf[0] = 0x02;
    let mut refused = 0;
    for x in 0u8..20 {
        buf[28] = x;
        if ec.decode(&buf).err() == Some(Error::InvalidPoint) {
            refused += 1;
        }
    }
    assert!(refused > 0 && refused < 20);
}
