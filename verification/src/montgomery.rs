//! Curves in Montgomery form, `b y^2 = x^3 + a x^2 + x`.

pub mod curve;
pub mod group;
pub mod laws;
pub mod point;

pub use crate::montgomery::curve::{Curve, CurveID, CurveModel, Params};
pub use crate::montgomery::point::{Point, ProyCoordinates};
pub use crate::scalar::Scalar;
