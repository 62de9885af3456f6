//! Core primitives of a circle-STARK proof system over the Mersenne-31 field:
//! circle-FFT interpolation and evaluation, a FRI verifier, the Poseidon2
//! permutation, and the Blake3 AIR column schema.

pub mod backward;
pub mod blake3;
pub mod cfft;
pub mod domain;
pub mod ext;
pub mod field;
pub mod fri;
pub mod laws;
pub mod matrix;
pub mod ordering;
pub mod poseidon2;
pub mod point;

pub use domain::CircleDomain;
pub use field::Mersenne31;
pub use matrix::RowMajorMat;
pub use point::Point;
