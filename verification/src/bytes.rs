//! Numbers as big-endian byte strings of a fixed length.

use crate::bignum::{be_value, bit_length};
use crate::bits::lemma_below_pow2_of_bit_length;
use crate::field::byte_length;
use crate::uint::Uint;
use vstd::arithmetic::power2::{lemma2_to64, lemma_pow2_adds, lemma_pow2_strictly_increases, pow2};
use vstd::prelude::*;

verus! {

/// The `n` least significant base 256 digits of `x`, most significant first.
pub open spec fn be_bytes(x: nat, n: nat) -> Seq<u8>
    decreases n,
{
    if n == 0 {
        Seq::empty()
    } else {
        be_bytes(x / 256, (n - 1) as nat).push((x % 256) as u8)
    }
}

/// `be_bytes(x, n)` has `n` bytes.
pub proof fn lemma_be_bytes_len(x: nat, n: nat)
    ensures
        be_bytes(x, n).len() == n,
    decreases n,
{
    if n > 0 {
        lemma_be_bytes_len(x / 256, (n - 1) as nat);
    }
}

/// A number that fits in `n` bytes is read back from its `n` bytes.
pub proof fn lemma_be_value_of_be_bytes(x: nat, n: nat)
    requires
        x < pow2(8 * n),
    ensures
        be_value(be_bytes(x, n)) == x,
    decreases n,
{
    lemma2_to64();
    if n > 0 {
        let m = (n - 1) as nat;
        lemma_pow2_adds(8, 8 * m);
        lemma_be_value_of_be_bytes(x / 256, m);
        let s = be_bytes(x, n);
        assert(s.drop_last() =~= be_bytes(x / 256, m));
    }
}

/// Every element of a field of modulus `p` fits in `byte_length(p)` bytes.
pub proof fn lemma_element_fits(p: nat, x: nat)
    requires
        x < p,
    ensures
        x < pow2(8 * byte_length(p)),
{
    lemma_below_pow2_of_bit_length(p);
    if bit_length(p) < 8 * byte_length(p) {
        lemma_pow2_strictly_increases(bit_length(p), 8 * byte_length(p));
    }
}

/// The `n` bytes of the number that `s` writes are `s` itself, cut or filled
/// with zeros on the left to `n` bytes.
pub proof fn lemma_be_bytes_of_be_value(s: Seq<u8>, n: nat, i: int)
    requires
        0 <= i < n,
    ensures
        be_bytes(be_value(s), n).len() == n,
        be_bytes(be_value(s), n)[i] == if i + s.len() >= n {
            s[i + s.len() - n]
        } else {
            0u8
        },
    decreases n,
{
    let v = be_value(s);
    lemma_be_bytes_len(v, n);
    let m = (n - 1) as nat;
    lemma_be_bytes_len(v / 256, m);
    if s.len() == 0 {
        if i < m {
            lemma_be_bytes_of_be_value(s, m, i);
        }
    } else {
        let front = s.drop_last();
        assert(v / 256 == be_value(front));
        assert(v % 256 == s.last());
        if i < m {
            lemma_be_bytes_of_be_value(front, m, i);
        }
    }
}

/// The number as exactly `n` big-endian bytes; higher bytes are cut off.
pub fn to_bytes_be_padded(x: &Uint, n: u64) -> (r: Vec<u8>)
    ensures
        r@ == be_bytes(x@, n as nat),
{
    let bytes = x.to_bytes_be();
    let m = bytes.len();
    let mut out: Vec<u8> = Vec::new();
    let mut i: u64 = 0;
    proof {
        lemma_be_bytes_len(x@, n as nat);
    }
    while i < n
        invariant
            i <= n,
            m == bytes@.len(),
            be_value(bytes@) == x@,
            out@.len() == i,
            be_bytes(x@, n as nat).len() == n,
            forall|j: int| 0 <= j < i ==> out@[j] == be_bytes(x@, n as nat)[j],
        decreases n - i,
    {
        proof {
            lemma_be_bytes_of_be_value(bytes@, n as nat, i as int);
        }
        let byte = if m as u64 >= n {
            bytes[(i + (m as u64 - n)) as usize]
        } else if i < n - m as u64 {
            0u8
        } else {
            bytes[(i - (n - m as u64)) as usize]
        };
        out.push(byte);
        i += 1;
    }
    assert(out@ =~= be_bytes(x@, n as nat));
    out
}

} // verus!
