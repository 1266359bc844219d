use redox_ecc::bytes::to_bytes_be_padded;
use redox_ecc::encoding::{parse_frame, write_frame, Frame};
use redox_ecc::error::Error;
use redox_ecc::field::Fp;
use redox_ecc::uint::Uint;

fn n(x: u32) -> Uint {
    Uint::from_u32(x)
}

#[test]
fn padded_bytes() {
    assert_eq!(to_bytes_be_padded(&n(0), 0), Vec::<u8>::new());
    assert_eq!(to_bytes_be_padded(&n(0), 3), vec![0, 0, 0]);
    assert_eq!(to_bytes_be_padded(&n(1), 1), vec![1]);
    assert_eq!(to_bytes_be_padded(&n(0x0102), 4), vec![0, 0, 1, 2]);
    assert_eq!(to_bytes_be_padded(&n(0x01020304), 4), vec![1, 2, 3, 4]);
    // cut to the low bytes where the number does not fit
    assert_eq!(to_bytes_be_padded(&n(0x01020304), 2), vec![3, 4]);
    assert_eq!(to_bytes_be_padded(&n(0x01020304), 0), Vec::<u8>::new());
}

#[test]
fn frames_over_a_small_field() {
    let f = Fp::new(n(65521)).unwrap();
    assert_eq!(f.size_bytes(), 2);
    assert_eq!(write_frame(&f, &Frame::Infinity), vec![0]);
    assert_eq!(
        write_frame(&f, &Frame::Uncompressed { x: n(0x0102), y: n(3) }),
        vec![4, 1, 2, 0, 3]
    );
    assert_eq!(
        write_frame(&f, &Frame::Compressed { x: n(5), odd: false }),
        vec![2, 0, 5]
    );
    assert_eq!(
        write_frame(&f, &Frame::Compressed { x: n(5), odd: true }),
        vec![3, 0, 5]
    );
    match parse_frame(&f, &[4, 1, 2, 0, 3]).unwrap() {
        Frame::Uncompressed { x, y } => {
            assert!(x == n(0x0102));
            assert!(y == n(3));
        }
        _ => panic!("an uncompressed frame was expected"),
    }
    match parse_frame(&f, &[3, 0, 5]).unwrap() {
        Frame::Compressed { x, odd } => {
            assert!(x == n(5));
            assert!(odd);
        }
        _ => panic!("a compressed frame was expected"),
    }
    match parse_frame(&f, &[2, 0xff, 0xf0]).unwrap() {
        Frame::Compressed { x, odd } => {
            assert!(x == n(65520));
            assert!(!odd);
        }
        _ => panic!("a compressed frame was expected"),
    }
    assert!(matches!(parse_frame(&f, &[0]), Ok(Frame::Infinity)));
}

#[test]
fn frames_are_checked_in_order() {
    let f = Fp::new(n(65521)).unwrap();
    // length first
    assert_eq!(parse_frame(&f, &[]).err(), Some(Error::InvalidLength));
    assert_eq!(parse_frame(&f, &[9, 0xff]).err(), Some(Error::InvalidLength));
    assert_eq!(parse_frame(&f, &[9, 0xff, 0xff, 0xff]).err(), Some(Error::InvalidLength));
    // then the range of x, before the tag is looked at
    assert_eq!(parse_frame(&f, &[9, 0xff, 0xf1]).err(), Some(Error::InvalidCoordinate));
    assert_eq!(parse_frame(&f, &[0, 0xff, 0xff]).err(), Some(Error::InvalidCoordinate));
    assert_eq!(
        parse_frame(&f, &[9, 0xff, 0xf1, 0, 0]).err(),
        Some(Error::InvalidCoordinate)
    );
    // then the tag, with the length that it asks for
    assert_eq!(parse_frame(&f, &[9, 0, 1]).err(), Some(Error::InvalidTag));
    assert_eq!(parse_frame(&f, &[1]).err(), Some(Error::InvalidTag));
    assert_eq!(parse_frame(&f, &[0, 0, 1]).err(), Some(Error::InvalidLength));
    assert_eq!(parse_frame(&f, &[4, 0, 1]).err(), Some(Error::InvalidLength));
    assert_eq!(parse_frame(&f, &[2, 0, 1, 0, 1]).err(), Some(Error::InvalidLength));
    assert_eq!(parse_frame(&f, &[4]).err(), Some(Error::InvalidLength));
    assert_eq!(parse_frame(&f, &[3]).err(), Some(Error::InvalidLength));
    // then the range of y
    assert_eq!(
        parse_frame(&f, &[4, 0, 1, 0xff, 0xf1]).err(),
        Some(Error::InvalidCoordinate)
    );
    assert!(parse_frame(&f, &[4, 0, 1, 0xff, 0xf0]).is_ok());
}

#[test]
fn error_messages() {
    assert_eq!(Error::InvalidPoint.message(), "not valid point");
    assert_eq!(Error::InvalidLength.message(), "wrong input buffer size");
    assert_eq!(Error::InvalidCoordinate.message(), "invalid coordinate");
    assert_eq!(Error::InvalidTag.message(), "invalid tag specified");
}
