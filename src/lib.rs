//! The Pallas / Vesta curve cycle: the generic field and curve abstractions,
//! affine coordinates, and a reusable hash-to-curve hasher.

pub mod arithmetic;
pub mod encoding;
pub mod hash_to_curve2;

pub use arithmetic::{Coordinates, CurveAffine, CurveExt, FieldExt};
pub use hash_to_curve2::Hasher;
