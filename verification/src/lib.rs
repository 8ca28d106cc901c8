//! Bit-accurate fixed-point arithmetic in Texas Instruments style Q notation.

pub mod spec;
pub mod bits;
pub mod error;
pub mod q;
pub mod uq;
pub mod ops;
pub mod convert;
pub mod cq;
pub mod cq_ops;
pub mod bitstream;
mod sealed;
pub mod packed;
pub mod laws;

pub use error::FixedError;
pub use q::Q;
pub use uq::UQ;
pub use cq::CQ;
pub use packed::{PackedArray, PackedVec, PackedBits, PackedBitsVec, Packable, BitPackable, Repr};
