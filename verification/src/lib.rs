//! Elliptic curves over prime fields: curve models, points, scalars and the
//! canonical tagged byte encoding of points.
//!
//! Big integers are held as little-endian base 2^32 digit vectors whose
//! meaning is a mathematical natural number; the arithmetic on them is done
//! by `num-bigint` behind the small trusted functions of [`bignum`].

use vstd::prelude::*;

pub mod bignum;
pub mod bits;
pub mod bytes;
pub mod ellipticcurve;
pub mod encoding;
pub mod error;
pub mod fermat;
pub mod field;
pub mod instances;
pub mod montgomery;
pub mod polynomial;
pub mod scalar;
pub mod sqrt;
pub mod uint;
pub mod weierstrass;

verus! {

/// The version string of this crate.
pub open spec fn version_text() -> Seq<char> {
    "0.2.0"@
}

/// Returns the version of the crate.
pub fn version() -> (v: &'static str)
    ensures
        v@ == version_text(),
{
    private_version()
}

fn private_version() -> (v: &'static str)
    ensures
        v@ == version_text(),
{
    "0.2.0"
}

} // verus!
