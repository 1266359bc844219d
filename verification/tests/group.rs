use redox_ecc::error::Error;
use redox_ecc::instances::{curve25519, curve448, p256, secp256k1};
use redox_ecc::uint::{Int, Uint};

fn n(x: u32) -> Int {
    Int::from_uint(Uint::from_u32(x))
}

fn dec(text: &str) -> Uint {
    Uint::parse_decimal(text).unwrap()
}

fn hex(bytes: &[u8]) -> String {
    let mut s = String::new();
    for b in bytes {
        s.push_str(&format!("{:02x}", b));
    }
    s
}

#[test]
fn multiples_of_the_p256_generator() {
    let ec = p256().try_get().unwrap();
    let g = ec.get_generator();
    let g2 = g.double().unwrap();
    assert_eq!(
        hex(&g2.encode(false)),
        "047cf27b188d034f7e8a52380304b51ac3c08969e277f21b35a60b48fc4766997807775510db8ed040293d9ac69f7430dbba7dade63ce982299e04b79d227873d1"
    );
    assert!(g.add(&g).unwrap() == g2);
    let g3 = g2.add(&g).unwrap();
    assert_eq!(
        hex(&g3.encode(false)),
        "045ecbe4d1a6330a44c8f7ef951d4bf165e6c6b721efada985fb41661bc6e7fd6c8734640c4998ff7e374b06ce1a64a2ecd82ab036384fb83d9a79b127a27d5032"
    );
    assert!(g.add(&g2).unwrap() == g3);
    assert!(g.mul(&ec.new_scalar(n(1))).unwrap() == g);
    assert!(g.mul(&ec.new_scalar(n(2))).unwrap() == g2);
    assert!(g.mul(&ec.new_scalar(n(3))).unwrap() == g3);
    let g5 = g.mul(&ec.new_scalar(n(5))).unwrap();
    let expected = ec
        .new_point(redox_ecc::weierstrass::ProyCoordinates {
            x: dec("36794669340896883012101473439538929759152396476648692591795318194054580155373"),
            y: dec("101659946828913883886577915207667153874746613498030835602133042203824767462820"),
            z: Uint::one(),
        })
        .unwrap();
    assert!(g5 == expected);
    assert!(g3.add(&g2).unwrap() == g5);
    assert!(ec.is_on_curve(&g5));
}

#[test]
fn the_order_annihilates_the_generator() {
    let ec = p256().try_get().unwrap();
    let g = ec.get_generator();
    assert!(g.mul(&ec.new_scalar(n(0))).unwrap().is_identity());
    assert!(g
        .mul(&ec.new_scalar(Int::from_uint(ec.get_order())))
        .unwrap()
        .is_identity());
    let minus_one = ec.new_scalar(Int::new(true, Uint::one()));
    assert!(g.mul(&minus_one).unwrap() == g.neg());
    let ec = secp256k1().try_get().unwrap();
    let g = ec.get_generator();
    let minus_one = ec.new_scalar(Int::new(true, Uint::one()));
    let last = g.mul(&minus_one).unwrap();
    assert!(last == g.neg());
    assert!(last.add(&g).unwrap().is_identity());
    for &id in [curve25519(), curve448()].iter() {
        let ec = id.try_get().unwrap();
        let g = ec.get_generator();
        let minus_one = ec.new_scalar(Int::new(true, Uint::one()));
        let last = g.mul(&minus_one).unwrap();
        assert!(last == g.neg(), "{}", id.0.name);
        assert!(last.add(&g).unwrap().is_identity(), "{}", id.0.name);
        assert!(ec.is_on_curve(&last));
    }
}

#[test]
fn multiples_of_the_curve25519_generator() {
    let ec = curve25519().try_get().unwrap();
    let g = ec.get_generator();
    let g2 = g.double().unwrap();
    let expected2 = ec
        .new_point(
            dec("14847277145635483483963372537557091634710985132825781088887140890597596352251"),
            dec("8914613091229147831277935472048643066880067899251840418855181793938505594211"),
        )
        .unwrap();
    assert!(g2 == expected2);
    let g3 = g2.add(&g).unwrap();
    let expected3 = ec
        .new_point(
            dec("12697861248284385512127539163427099897745340918349830473877503196793995869202"),
            dec("18782504731206017997790968374142055202547214238579664877619644464800823583275"),
        )
        .unwrap();
    assert!(g3 == expected3);
    assert!(g.mul(&ec.new_scalar(n(3))).unwrap() == g3);
    assert!(g.add(&g2).unwrap() == g3);
    assert!(ec.is_on_curve(&g3));
    // the encoding of a projective result is that of its affine form
    assert_eq!(g3.encode(false), expected3.encode(false));
    assert_eq!(g3.encode(true), expected3.encode(true));
    assert!(ec.decode(&g3.encode(true)).unwrap() == g3);
}

#[test]
fn the_neutral_element_is_neutral() {
    let ec = curve25519().try_get().unwrap();
    let g = ec.get_generator();
    let o = ec.identity();
    let left = o.add(&g).unwrap();
    let right = g.add(&o).unwrap();
    assert!(left == g);
    assert!(right == g);
    assert!(left.get_coordinates().x == g.get_coordinates().x);
    assert!(left.get_coordinates().y == g.get_coordinates().y);
    assert!(left.get_coordinates().z == g.get_coordinates().z);
    assert!(o.add(&o).unwrap().is_identity());
    assert!(o.double().unwrap().is_identity());
    assert!(o.neg().is_identity());
    assert!(g.add(&g.neg()).unwrap().is_identity());
    assert!(g.neg().neg() == g);
    assert!(o.mul(&ec.new_scalar(n(12345))).unwrap().is_identity());
    let ec = p256().try_get().unwrap();
    let g = ec.get_generator();
    let o = ec.identity();
    assert!(o.add(&g).unwrap() == g);
    assert!(g.add(&o).unwrap() == g);
    assert!(g.add(&g.neg()).unwrap().is_identity());
    assert!(o.double().unwrap().is_identity());
}

#[test]
fn scalar_times_point_is_point_times_scalar() {
    let ec = curve448().try_get().unwrap();
    let g = ec.get_generator();
    let k = ec.new_scalar(Int::from_uint(dec("123456789012345678901234567890")));
    let a = g.mul(&k).unwrap();
    let b = redox_ecc::montgomery::group::scalar_mul(&k, &g).unwrap();
    assert!(a == b);
    assert!(ec.is_on_curve(&a));
    let ec = secp256k1().try_get().unwrap();
    let g = ec.get_generator();
    let k = ec.new_scalar(Int::from_uint(dec("123456789012345678901234567890")));
    let a = g.mul(&k).unwrap();
    let b = redox_ecc::weierstrass::group::scalar_mul(&k, &g).unwrap();
    assert!(a == b);
    // (k + 1) G = k G + G
    let k1 = k.add_mod(&ec.new_scalar(n(1))).unwrap();
    assert!(g.mul(&k1).unwrap() == a.add(&g).unwrap());
    // (2 k) G = 2 (k G)
    let k2 = k.add_mod(&k).unwrap();
    assert!(g.mul(&k2).unwrap() == a.double().unwrap());
}

#[test]
fn groups_do_not_mix() {
    let a = p256().try_get().unwrap();
    let b = secp256k1().try_get().unwrap();
    assert_eq!(
        a.get_generator().add(&b.get_generator()).err(),
        Some(Error::GroupMismatch)
    );
    assert_eq!(
        a.get_generator().mul(&b.new_scalar(n(2))).err(),
        Some(Error::GroupMismatch)
    );
    assert!(a.get_generator() != b.get_generator());
    let m = curve25519().try_get().unwrap();
    let w = curve448().try_get().unwrap();
    assert_eq!(
        m.get_generator().add(&w.get_generator()).err(),
        Some(Error::GroupMismatch)
    );
    assert_eq!(
        m.get_generator().mul(&w.new_scalar(n(2))).err(),
        Some(Error::GroupMismatch)
    );
}
