//! The tagged byte format of points, shared by every curve model.
//!
//! | tag         | length         | payload                      |
//! |-------------|----------------|------------------------------|
//! | `0x00`      | 1              | none: the point at infinity  |
//! | `0x04`      | `2 * size + 1` | `x`, then `y`, big-endian    |
//! | `0x02/0x03` | `size + 1`     | `x`; the tag's low bit is the sign of `y` |
//!
//! where `size` is the number of bytes of a field element. This module reads
//! and writes frames; which frames are points is for each curve to say.

use crate::bignum::{be_value, bit_length};
use crate::bytes::{
    be_bytes, lemma_be_bytes_len, lemma_be_value_of_be_bytes, lemma_element_fits,
    to_bytes_be_padded,
};
use crate::error::Error;
use crate::field::{byte_length, Fp};
use crate::uint::Uint;
use vstd::prelude::*;
use vstd::slice::slice_subrange;

verus! {

/// The tag of the point at infinity.
pub const TAG_INFINITY: u8 = 0x00;

/// The tag of a compressed point whose `y` has sign 0.
pub const TAG_COMPRESSED_EVEN: u8 = 0x02;

/// The tag of a compressed point whose `y` has sign 1.
pub const TAG_COMPRESSED_ODD: u8 = 0x03;

/// The tag of an uncompressed point.
pub const TAG_UNCOMPRESSED: u8 = 0x04;

/// Whether a byte is one of the four tags.
pub open spec fn is_tag(b: u8) -> bool {
    b == TAG_INFINITY || b == TAG_COMPRESSED_EVEN || b == TAG_COMPRESSED_ODD || b
        == TAG_UNCOMPRESSED
}

/// What a well-formed buffer says, with its coordinates as numbers.
pub enum FrameModel {
    /// The point at infinity.
    Infinity,
    /// Both affine coordinates.
    Uncompressed { x: nat, y: nat },
    /// The affine `x` and the sign of `y`.
    Compressed { x: nat, odd: bool },
}

/// What a well-formed buffer says.
#[derive(Debug)]
pub enum Frame {
    /// The point at infinity.
    Infinity,
    /// Both affine coordinates.
    Uncompressed { x: Uint, y: Uint },
    /// The affine `x` and the sign of `y`.
    Compressed { x: Uint, odd: bool },
}

impl View for Frame {
    type V = FrameModel;

    open spec fn view(&self) -> FrameModel {
        match *self {
            Frame::Infinity => FrameModel::Infinity,
            Frame::Uncompressed { x, y } => FrameModel::Uncompressed { x: x@, y: y@ },
            Frame::Compressed { x, odd } => FrameModel::Compressed { x: x@, odd },
        }
    }
}

/// Whether a buffer of `len` bytes can hold a frame over a field whose
/// elements take `size` bytes.
pub open spec fn valid_length(size: nat, len: nat) -> bool {
    len == 1 || len == size + 1 || len == 2 * size + 1
}

/// The bytes of the `x` coordinate: the `size` bytes behind the tag, or
/// none where the buffer is the tag alone.
pub open spec fn x_bytes(size: nat, buf: Seq<u8>) -> Seq<u8> {
    if buf.len() == 1 {
        Seq::empty()
    } else {
        buf.subrange(1, size as int + 1)
    }
}

/// The frame that `buf` holds over the field of modulus `p`, or the first
/// check that it fails: its length, then the range of `x`, then the tag with
/// the length that the tag asks for, then the range of `y`.
pub open spec fn spec_parse(p: nat, buf: Seq<u8>) -> Result<FrameModel, Error> {
    let size = byte_length(p);
    let len = buf.len();
    if !valid_length(size, len) {
        Err(Error::InvalidLength)
    } else {
        let x = be_value(x_bytes(size, buf));
        if x >= p {
            Err(Error::InvalidCoordinate)
        } else if buf[0] == TAG_INFINITY {
            if len == 1 {
                Ok(FrameModel::Infinity)
            } else {
                Err(Error::InvalidLength)
            }
        } else if buf[0] == TAG_UNCOMPRESSED {
            if len != 2 * size + 1 {
                Err(Error::InvalidLength)
            } else {
                let y = be_value(buf.subrange(size as int + 1, len as int));
                if y >= p {
                    Err(Error::InvalidCoordinate)
                } else {
                    Ok(FrameModel::Uncompressed { x, y })
                }
            }
        } else if buf[0] == TAG_COMPRESSED_EVEN || buf[0] == TAG_COMPRESSED_ODD {
            if len != size + 1 {
                Err(Error::InvalidLength)
            } else {
                Ok(FrameModel::Compressed { x, odd: buf[0] == TAG_COMPRESSED_ODD })
            }
        } else {
            Err(Error::InvalidTag)
        }
    }
}

/// The bytes that write a frame over the field of modulus `p`.
pub open spec fn spec_write(p: nat, frame: FrameModel) -> Seq<u8> {
    let size = byte_length(p);
    match frame {
        FrameModel::Infinity => seq![TAG_INFINITY],
        FrameModel::Uncompressed { x, y } => seq![TAG_UNCOMPRESSED] + be_bytes(x, size)
            + be_bytes(y, size),
        FrameModel::Compressed { x, odd } => seq![
            if odd {
                TAG_COMPRESSED_ODD
            } else {
                TAG_COMPRESSED_EVEN
            },
        ] + be_bytes(x, size),
    }
}

/// Whether the coordinates of a frame are elements of the field.
pub open spec fn in_field(p: nat, frame: FrameModel) -> bool {
    match frame {
        FrameModel::Infinity => true,
        FrameModel::Uncompressed { x, y } => x < p && y < p,
        FrameModel::Compressed { x, odd } => x < p,
    }
}

/// Reads the frame that a buffer holds.
pub fn parse_frame(f: &Fp, buf: &[u8]) -> (r: Result<Frame, Error>)
    ensures
        match r {
            Ok(frame) => spec_parse(f.modulus(), buf@) == Ok::<FrameModel, Error>(frame@),
            Err(e) => spec_parse(f.modulus(), buf@) == Err::<FrameModel, Error>(e),
        },
        !valid_length(byte_length(f.modulus()), buf@.len()) ==> r is Err && r->Err_0
            == Error::InvalidLength,
{
    let size = f.size_bytes();
    let blen = buf.len();
    if blen == 0 {
        return Err(Error::InvalidLength);
    }
    let rest = (blen - 1) as u64;
    let is_compressed_len = rest == size;
    let is_uncompressed_len = rest % 2 == 0 && rest / 2 == size;
    if !(blen == 1 || is_compressed_len || is_uncompressed_len) {
        return Err(Error::InvalidLength);
    }
    let tag = buf[0];
    let x_end: usize = if blen == 1 {
        1
    } else {
        size as usize + 1
    };
    let x = Uint::from_bytes_be(slice_subrange(buf, 1, x_end));
    assert(buf@.subrange(1, x_end as int) =~= x_bytes(size as nat, buf@));
    let p = f.get_modulus();
    if !x.lt(&p) {
        return Err(Error::InvalidCoordinate);
    }
    if tag == TAG_INFINITY {
        if blen != 1 {
            return Err(Error::InvalidLength);
        }
        Ok(Frame::Infinity)
    } else if tag == TAG_UNCOMPRESSED {
        if !is_uncompressed_len || blen == 1 {
            return Err(Error::InvalidLength);
        }
        let y = Uint::from_bytes_be(slice_subrange(buf, size as usize + 1, blen));
        if !y.lt(&p) {
            return Err(Error::InvalidCoordinate);
        }
        Ok(Frame::Uncompressed { x, y })
    } else if tag == TAG_COMPRESSED_EVEN || tag == TAG_COMPRESSED_ODD {
        if !is_compressed_len || blen == 1 {
            return Err(Error::InvalidLength);
        }
        Ok(Frame::Compressed { x, odd: tag == TAG_COMPRESSED_ODD })
    } else {
        Err(Error::InvalidTag)
    }
}

/// Writes a frame.
pub fn write_frame(f: &Fp, frame: &Frame) -> (r: Vec<u8>)
    ensures
        r@ == spec_write(f.modulus(), frame@),
{
    let size = f.size_bytes();
    let mut out: Vec<u8> = Vec::new();
    match frame {
        Frame::Infinity => {
            out.push(TAG_INFINITY);
            assert(out@ =~= seq![TAG_INFINITY]);
        },
        Frame::Uncompressed { x, y } => {
            out.push(TAG_UNCOMPRESSED);
            let mut xs = to_bytes_be_padded(x, size);
            let mut ys = to_bytes_be_padded(y, size);
            out.append(&mut xs);
            out.append(&mut ys);
            assert(out@ =~= seq![TAG_UNCOMPRESSED] + be_bytes(x@, size as nat) + be_bytes(
                y@,
                size as nat,
            ));
        },
        Frame::Compressed { x, odd } => {
            let tag = if *odd {
                TAG_COMPRESSED_ODD
            } else {
                TAG_COMPRESSED_EVEN
            };
            out.push(tag);
            let mut xs = to_bytes_be_padded(x, size);
            out.append(&mut xs);
            assert(out@ =~= seq![tag] + be_bytes(x@, size as nat));
        },
    }
    out
}

/// A field of modulus at least 2 has elements of at least one byte.
pub proof fn lemma_size_positive(p: nat)
    requires
        p >= 2,
    ensures
        byte_length(p) >= 1,
{
    assert(bit_length(p) >= 1);
}

/// The length of a written frame: 1 for infinity, `size + 1` compressed,
/// `2 * size + 1` uncompressed.
pub proof fn lemma_written_length(p: nat, frame: FrameModel)
    ensures
        spec_write(p, frame).len() == match frame {
            FrameModel::Infinity => 1,
            FrameModel::Uncompressed { x, y } => 2 * byte_length(p) + 1,
            FrameModel::Compressed { x, odd } => byte_length(p) + 1,
        },
{
    let size = byte_length(p);
    match frame {
        FrameModel::Infinity => {},
        FrameModel::Uncompressed { x, y } => {
            lemma_be_bytes_len(x, size);
            lemma_be_bytes_len(y, size);
        },
        FrameModel::Compressed { x, odd } => {
            lemma_be_bytes_len(x, size);
        },
    }
}

/// A frame whose coordinates are field elements is read back from the bytes
/// that write it.
pub proof fn lemma_parse_of_write(p: nat, frame: FrameModel)
    requires
        p >= 2,
        in_field(p, frame),
    ensures
        spec_parse(p, spec_write(p, frame)) == Ok::<FrameModel, Error>(frame),
{
    let size = byte_length(p);
    let buf = spec_write(p, frame);
    lemma_size_positive(p);
    lemma_written_length(p, frame);
    match frame {
        FrameModel::Infinity => {
            assert(be_value(x_bytes(size, buf)) == 0);
        },
        FrameModel::Uncompressed { x, y } => {
            lemma_be_bytes_len(x, size);
            lemma_be_bytes_len(y, size);
            assert(x_bytes(size, buf) =~= be_bytes(x, size));
            assert(buf.subrange(size as int + 1, buf.len() as int) =~= be_bytes(y, size));
            lemma_element_fits(p, x);
            lemma_element_fits(p, y);
            lemma_be_value_of_be_bytes(x, size);
            lemma_be_value_of_be_bytes(y, size);
        },
        FrameModel::Compressed { x, odd } => {
            lemma_be_bytes_len(x, size);
            assert(x_bytes(size, buf) =~= be_bytes(x, size));
            lemma_element_fits(p, x);
            lemma_be_value_of_be_bytes(x, size);
        },
    }
}

} // verus!
