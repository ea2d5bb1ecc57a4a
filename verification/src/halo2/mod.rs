//! Out-of-core primitives over the curve and field of `halo2curves`.

pub mod disk;
pub mod fft;
pub mod meaning;
pub mod msm;
pub mod records;
pub mod scratch;
pub mod tiled;
