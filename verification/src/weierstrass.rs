//! Curves in short Weierstrass form, `y^2 = x^3 + a x + b`.

pub mod curve;
pub mod group;
pub mod laws;
pub mod point;

pub use crate::weierstrass::curve::{Curve, CurveID, CurveModel, Params};
pub use crate::weierstrass::point::{Point, ProyCoordinates};
pub use crate::scalar::Scalar;
