//! Scalars: integers reduced modulo the order of a group.

use crate::bignum::{bit_length, decimal_text, digits_value};
use crate::bits::{
    bit, bits_lsb_first, bits_msb_first, lemma_bit_length_of_digits, lemma_bit_of_digit,
    lemma_bit_of_digits, lemma_bits_msb_is_reverse, lemma_value_of_bits_lsb_first,
    lemma_value_of_bits_msb_first, value_lsb_first, value_msb_first,
};
use crate::error::Error;
use crate::uint::{Int, Uint};
use vstd::prelude::*;

verus! {

/// An integer `k` with `0 <= k < r`, where `r` is the order of a group.
#[derive(Debug)]
pub struct Scalar {
    k: Uint,
    r: Uint,
}

impl Clone for Scalar {
    fn clone(&self) -> (c: Self)
        ensures
            c.value() == self.value(),
            c.order() == self.order(),
    {
        proof {
            use_type_invariant(self);
        }
        Scalar { k: self.k.clone(), r: self.r.clone() }
    }
}

impl PartialEq for Scalar {
    fn eq(&self, other: &Self) -> (b: bool) {
        self.r == other.r && self.k == other.k
    }
}

impl vstd::std_specs::cmp::PartialEqSpecImpl for Scalar {
    open spec fn obeys_eq_spec() -> bool {
        true
    }

    open spec fn eq_spec(&self, other: &Self) -> bool {
        self.order() == other.order() && self.value() == other.value()
    }
}

impl Scalar {
    /// The integer that the scalar stands for.
    pub closed spec fn value(&self) -> nat {
        self.k@
    }

    /// The order of the group that the scalar belongs to.
    pub closed spec fn order(&self) -> nat {
        self.r@
    }

    /// A scalar is reduced modulo a positive order.
    #[verifier::type_invariant]
    pub open spec fn wf(self) -> bool {
        self.value() < self.order()
    }

    /// The scalar of `k` in the group of order `r`: the floored remainder of
    /// `k` by `r`, so that a negative `k` gives a value in `[0, r)` too.
    pub fn new(k: Int, r: &Uint) -> (s: Scalar)
        requires
            r@ > 0,
        ensures
            s.order() == r@,
            s.value() == k@ % (r@ as int),
            s.value() < r@,
    {
        let k = k.mod_floor(r);
        Scalar { k, r: r.clone() }
    }

    fn red(&self, k: Int) -> (s: Scalar)
        ensures
            s.order() == self.order(),
            s.value() == k@ % (self.order() as int),
    {
        proof {
            use_type_invariant(self);
        }
        let k = k.mod_floor(&self.r);
        let r = self.r.clone();
        Scalar { k, r }
    }

    /// The integer that the scalar stands for.
    pub fn get_value(&self) -> (k: Uint)
        ensures
            k@ == self.value(),
            k@ < self.order(),
    {
        proof {
            use_type_invariant(self);
        }
        self.k.clone()
    }

    /// The order of the group that the scalar belongs to.
    pub fn get_order(&self) -> (r: Uint)
        ensures
            r@ == self.order(),
            r@ > 0,
    {
        proof {
            use_type_invariant(self);
        }
        self.r.clone()
    }

    /// The negation, reduced modulo the order.
    pub fn neg_mod(&self) -> (s: Scalar)
        ensures
            s.order() == self.order(),
            s.value() == (-(self.value() as int)) % (self.order() as int),
    {
        self.red(Int::negation(&self.k))
    }

    /// The sum, reduced modulo the common order; `GroupMismatch` where the
    /// orders differ.
    pub fn add_mod(&self, other: &Scalar) -> (s: Result<Scalar, Error>)
        ensures
            self.order() != other.order() ==> s == Err::<Scalar, Error>(Error::GroupMismatch),
            self.order() == other.order() ==> s.is_ok() && s.unwrap().order() == self.order()
                && s.unwrap().value() == (self.value() + other.value()) % self.order(),
    {
        if self.r != other.r {
            return Err(Error::GroupMismatch);
        }
        Ok(self.red(Int::from_uint(self.k.add(&other.k))))
    }

    /// The difference, reduced modulo the common order; `GroupMismatch`
    /// where the orders differ.
    pub fn sub_mod(&self, other: &Scalar) -> (s: Result<Scalar, Error>)
        ensures
            self.order() != other.order() ==> s == Err::<Scalar, Error>(Error::GroupMismatch),
            self.order() == other.order() ==> s.is_ok() && s.unwrap().order() == self.order()
                && s.unwrap().value() == (self.value() - other.value()) % (self.order() as int),
    {
        if self.r != other.r {
            return Err(Error::GroupMismatch);
        }
        Ok(self.red(Int::difference(&self.k, &other.k)))
    }

    /// The product, reduced modulo the common order; `GroupMismatch` where
    /// the orders differ.
    pub fn mul_mod(&self, other: &Scalar) -> (s: Result<Scalar, Error>)
        ensures
            self.order() != other.order() ==> s == Err::<Scalar, Error>(Error::GroupMismatch),
            self.order() == other.order() ==> s.is_ok() && s.unwrap().order() == self.order()
                && s.unwrap().value() == (self.value() * other.value()) % self.order(),
    {
        if self.r != other.r {
            return Err(Error::GroupMismatch);
        }
        Ok(self.red(Int::from_uint(self.k.mul(&other.k))))
    }

    /// The bits of the value from the most significant one that is set down
    /// to the least significant: a fresh cursor each time.
    pub fn iter_lr(&self) -> (it: Iterino)
        ensures
            it.remaining() == bits_msb_first(self.value()),
            it.remaining().len() == bit_length(self.value()),
            value_msb_first(it.remaining()) == self.value(),
    {
        proof {
            lemma_value_of_bits_msb_first(self.value());
        }
        let l = self.k.bits();
        let i = l.wrapping_sub(1u64);
        let v = self.k.to_u32_digits();
        let is_lr = true;
        let it = Iterino { l, i, v, is_lr };
        assert(it.remaining() =~= bits_msb_first(self.value()));
        it
    }

    /// The bits of the value from the least significant up to the most
    /// significant one that is set: a fresh cursor each time.
    pub fn iter_rl(&self) -> (it: Iterino)
        ensures
            it.remaining() == bits_lsb_first(self.value()),
            it.remaining().len() == bit_length(self.value()),
            value_lsb_first(it.remaining()) == self.value(),
            it.remaining().reverse() == bits_msb_first(self.value()),
    {
        proof {
            lemma_value_of_bits_lsb_first(self.value());
            lemma_bits_msb_is_reverse(self.value());
            assert(bits_lsb_first(self.value()).reverse().reverse() =~= bits_lsb_first(
                self.value(),
            ));
        }
        let l = self.k.bits();
        let i = 0u64;
        let v = self.k.to_u32_digits();
        let is_lr = false;
        let it = Iterino { l, i, v, is_lr };
        assert(it.remaining() =~= bits_lsb_first(self.value()));
        it
    }

    /// The value in decimal digits.
    pub fn to_string(&self) -> (s: String)
        ensures
            s@ == decimal_text(self.value()),
    {
        self.k.to_decimal()
    }
}

/// A cursor over the bits of a number, in one of the two directions.
#[derive(Debug)]
pub struct Iterino {
    l: u64,
    i: u64,
    v: Vec<u32>,
    is_lr: bool,
}

impl Iterino {
    /// The cursor knows how many bits its number has.
    #[verifier::type_invariant]
    pub closed spec fn wf(self) -> bool {
        self.l == bit_length(digits_value(self.v@))
    }

    /// The bits that the cursor has yet to give, in the order in which it
    /// gives them.
    pub closed spec fn remaining(&self) -> Seq<bool> {
        let n = digits_value(self.v@);
        if self.i >= self.l {
            Seq::empty()
        } else if self.is_lr {
            Seq::new((self.i + 1) as nat, |j: int| bit(n, (self.i - j) as nat))
        } else {
            Seq::new((self.l - self.i) as nat, |j: int| bit(n, (self.i + j) as nat))
        }
    }

    /// Gives the next bit and moves on, or `None` once every bit was given.
    pub fn next(&mut self) -> (r: Option<bool>)
        ensures
            match r {
                Some(b) => old(self).remaining().len() > 0 && b == old(self).remaining()[0]
                    && final(self).remaining() == old(self).remaining().drop_first(),
                None => old(self).remaining().len() == 0 && final(self).remaining().len() == 0,
            },
    {
        proof {
            use_type_invariant(&*self);
            lemma_bit_length_of_digits(self.v@);
        }
        if self.i < self.l {
            let len = self.v.len();
            assert(self.i / 32 < len);
            let index = (self.i / 32) as usize;
            let digit = self.v[index];
            let shift = (self.i % 32) as u32;
            let shifted = digit >> shift;
            let b = (shifted & 1) != 0;
            proof {
                let n = digits_value(self.v@);
                lemma_bit_of_digits(self.v@, self.i as nat);
                lemma_bit_of_digit(digit, shift);
                assert(b == bit(n, self.i as nat));
                assert(old(self).remaining()[0] == b);
            }
            if self.is_lr {
                self.i = self.i.wrapping_sub(1u64);
            } else {
                self.i += 1u64;
            }
            assert(self.remaining() =~= old(self).remaining().drop_first());
            Some(b)
        } else {
            None
        }
    }
}

} // verus!
