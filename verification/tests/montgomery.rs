use redox_ecc::error::Error;
use redox_ecc::instances::{curve25519, curve448};
use redox_ecc::uint::{Int, Uint};

#[test]
fn point_serialization() {
    for &id in [curve25519(), curve448()].iter() {
        let ec = id.get();
        let len_p = ec.get_field().size_bytes() as usize;
        let gen = ec.get_generator();
        let ser = gen.encode(false);
        assert_eq!(ser.len(), 2 * len_p + 1);
        let deser = ec.decode(&ser).unwrap();
        assert!(
            ec.is_on_curve(&deser),
            "decompressed point validity check for {}",
            id.0.name
        );
        assert!(
            gen == deser,
            "decompressed point equality check for {}",
            id.0.name
        );
    }
}

#[test]
fn point_serialization_compressed() {
    for &id in [curve25519(), curve448()].iter() {
        let ec = id.get();
        let len_p = ec.get_field().size_bytes() as usize;
        let gen = ec.get_generator();
        let ser = gen.encode(true);
        assert_eq!(ser.len(), len_p + 1);
        let deser = ec.decode(&ser).unwrap();
        assert!(
            ec.is_on_curve(&deser),
            "compressed point validity check for {}",
            id.0.name
        );
        assert!(
            gen == deser,
            "compressed point equality check for {}",
            id.0.name
        );
    }
}

#[test]
fn curve25519_generator_scenario() {
    let ec = curve25519().try_get().unwrap();
    assert_eq!(ec.get_field().size_bytes(), 32);
    let gen = ec.get_generator();
    let full = gen.encode(false);
    assert_eq!(full.len(), 65);
    assert_eq!(full[0], 0x04);
    let mut expected_x = vec![0u8; 32];
    expected_x[31] = 9;
    assert_eq!(&full[1..33], &expected_x[..]);
    let short = gen.encode(true);
    assert_eq!(short.len(), 33);
    assert!(short[0] == 0x02 || short[0] == 0x03);
    // gy is odd, so the compressed tag carries sign 1
    assert_eq!(short[0], 0x03);
    assert_eq!(&short[1..], &expected_x[..]);
    for ser in [full, short].iter() {
        let back = ec.decode(ser).unwrap();
        assert!(back == gen);
        assert!(ec.is_on_curve(&back));
    }
}

#[test]
fn identity_is_one_zero_byte() {
    for &id in [curve25519(), curve448()].iter() {
        let ec = id.try_get().unwrap();
        let o = ec.identity();
        assert!(o.is_identity());
        assert!(ec.is_on_curve(&o));
        assert_eq!(o.encode(false), vec![0u8]);
        assert_eq!(o.encode(true), vec![0u8]);
        let back = ec.decode(&[0u8]).unwrap();
        assert!(back == o);
        assert!(back.is_identity());
    }
}

#[test]
fn decode_rejects_bad_lengths() {
    let ec = curve25519().try_get().unwrap();
    for len in [0usize, 2, 31, 32, 34, 64, 66, 100] {
        let mut buf = vec![0u8; len];
        if len > 0 {
            buf[0] = 0x04;
        }
        assert_eq!(ec.decode(&buf).err(), Some(Error::InvalidLength), "length {}", len);
    }
    // a known tag with the length of another tag
    let mut buf = vec![0u8; 33];
    buf[0] = 0x04;
    assert_eq!(ec.decode(&buf).err(), Some(Error::InvalidLength));
    buf[0] = 0x00;
    assert_eq!(ec.decode(&buf).err(), Some(Error::InvalidLength));
    let mut buf = vec![0u8; 65];
    buf[0] = 0x02;
    assert_eq!(ec.decode(&buf).err(), Some(Error::InvalidLength));
    assert_eq!(ec.decode(&[0x04]).err(), Some(Error::InvalidLength));
    assert_eq!(ec.decode(&[0x02]).err(), Some(Error::InvalidLength));
}

#[test]
fn decode_rejects_bad_tags() {
    let ec = curve25519().try_get().unwrap();
    for tag in [0x01u8, 0x05, 0x06, 0x07, 0x80, 0xff] {
        assert_eq!(ec.decode(&[tag]).err(), Some(Error::InvalidTag));
        let mut buf = vec![0u8; 33];
        buf[0] = tag;
        assert_eq!(ec.decode(&buf).err(), Some(Error::InvalidTag));
        let mut buf = vec![0u8; 65];
        buf[0] = tag;
        assert_eq!(ec.decode(&buf).err(), Some(Error::InvalidTag));
    }
}

#[test]
fn decode_rejects_coordinates_out_of_range() {
    let ec = curve25519().try_get().unwrap();
    let p = ec.get_field().get_modulus();
    let p_bytes = p.to_bytes_be();
    assert_eq!(p_bytes.len(), 32);
    // x = p, compressed and uncompressed
    let mut buf = vec![0x02u8];
    buf.extend_from_slice(&p_bytes);
    assert_eq!(ec.decode(&buf).err(), Some(Error::InvalidCoordinate));
    let mut buf = vec![0x04u8];
    buf.extend_from_slice(&p_bytes);
    buf.extend_from_slice(&[0u8; 32]);
    assert_eq!(ec.decode(&buf).err(), Some(Error::InvalidCoordinate));
    // x = 2^256 - 1, whatever the tag
    let mut buf = vec![0x09u8];
    buf.extend_from_slice(&[0xffu8; 32]);
    assert_eq!(ec.decode(&buf).err(), Some(Error::InvalidCoordinate));
    // y = p with a valid x
    let mut buf = vec![0x04u8];
    let mut x = vec![0u8; 32];
    x[31] = 9;
    buf.extend_from_slice(&x);
    buf.extend_from_slice(&p_bytes);
    assert_eq!(ec.decode(&buf).err(), Some(Error::InvalidCoordinate));
}

#[test]
fn decode_rejects_points_off_the_curve() {
    let ec = curve25519().try_get().unwrap();
    // (9, 1) is not on the curve
    let mut buf = vec![0x04u8];
    let mut x = vec![0u8; 32];
    x[31] = 9;
    let mut y = vec![0u8; 32];
    y[31] = 1;
    buf.extend_from_slice(&x);
    buf.extend_from_slice(&y);
    assert_eq!(ec.decode(&buf).err(), Some(Error::InvalidPoint));
    // x = 2 has no point: x^3 + a x^2 + x is not a square
    let mut buf = vec![0x02u8];
    let mut x = vec![0u8; 32];
    x[31] = 2;
    buf.extend_from_slice(&x);
    assert_eq!(ec.decode(&buf).err(), Some(Error::InvalidPoint));
}

#[test]
fn compressed_tag_selects_the_sign() {
    let ec = curve25519().try_get().unwrap();
    let f = ec.get_field();
    let gen = ec.get_generator();
    let mut ser = gen.encode(true);
    ser[0] ^= 1;
    let other = ec.decode(&ser).unwrap();
    assert!(ec.is_on_curve(&other));
    assert!(other != gen);
    let c = other.get_coordinates();
    let g = gen.get_coordinates();
    assert!(c.x == g.x);
    assert!(c.y == f.neg(&g.y));
    assert_eq!(f.sgn0(&c.y), 0);
    assert_eq!(f.sgn0(&g.y), 1);
}

#[test]
fn new_point_validates() {
    let ec = curve25519().try_get().unwrap();
    let g = ec.get_generator().get_coordinates();
    assert!(ec.new_point(g.x.clone(), g.y.clone()).is_ok());
    assert_eq!(
        ec.new_point(g.x.clone(), Uint::from_u32(1)).err(),
        Some(Error::InvalidPoint)
    );
    let p = ec.get_field().get_modulus();
    assert_eq!(
        ec.new_point(p.add(&g.x), g.y.clone()).err(),
        Some(Error::InvalidCoordinate)
    );
}

#[test]
fn accessors_give_the_table() {
    let ec = curve25519().try_get().unwrap();
    assert_eq!(
        ec.get_order().to_decimal(),
        "7237005577332262213973186563042994240857116359379907606001950938285454250989"
    );
    assert!(ec.get_cofactor().magnitude() == Uint::from_u32(8));
    assert!(!ec.get_cofactor().is_negative());
    assert_eq!(
        ec.get_field().get_modulus().to_decimal(),
        "57896044618658097711785492504343953926634992332820282019728792003956564819949"
    );
    let s = ec.new_scalar(Int::new(true, Uint::from_u32(1)));
    assert_eq!(
        s.get_value().to_decimal(),
        "7237005577332262213973186563042994240857116359379907606001950938285454250988"
    );
    let ec448 = curve448().try_get().unwrap();
    assert_eq!(ec448.get_field().size_bytes(), 56);
    assert!(ec448 != ec);
    assert!(ec == curve25519().try_get().unwrap());
}

#[test]
fn malformed_tables_give_no_curve() {
    let good = *curve25519().0;
    assert!(redox_ecc::montgomery::Curve::try_from(&good).is_some());
    let mut t = good;
    t.gy = "1";
    assert!(redox_ecc::montgomery::Curve::try_from(&t).is_none());
    let mut t = good;
    t.p = "0x10";
    assert!(redox_ecc::montgomery::Curve::try_from(&t).is_none());
    let mut t = good;
    t.p = "1";
    assert!(redox_ecc::montgomery::Curve::try_from(&t).is_none());
    let mut t = good;
    t.r = "0";
    assert!(redox_ecc::montgomery::Curve::try_from(&t).is_none());
    let mut t = good;
    t.a = "";
    assert!(redox_ecc::montgomery::Curve::try_from(&t).is_none());
    let mut t = good;
    t.b = "0";
    assert!(redox_ecc::montgomery::Curve::try_from(&t).is_none());
    let mut t = good;
    t.b = "57896044618658097711785492504343953926634992332820282019728792003956564819949";
    assert!(redox_ecc::montgomery::Curve::try_from(&t).is_none());
    let mut t = good;
    t.s = "+1";
    assert!(redox_ecc::montgomery::Curve::try_from(&t).is_none());
}
