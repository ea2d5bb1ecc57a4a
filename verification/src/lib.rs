//! Out-of-core SNARK proving primitives: multi-scalar multiplication, KZG commitment,
//! four-step FFT and the tiled quotient evaluation of a PLONK prover, each stated as a
//! contract over the integers the field elements and curve points stand for.

pub mod field;
pub mod four_step;
pub mod grid;
pub mod halo2;
pub mod interpolate;
pub mod kzg;
pub mod msm;
pub mod pippenger;
pub mod plonk;
pub mod powers;
pub mod sums;
