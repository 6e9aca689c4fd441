//! Heterogeneous partitioning of integers and byte buffers into typed fields.
//!
//! An integer is split into bit fields under LSB 0 or MSB 0 numbering
//! ([`bit_numbering`]); a byte buffer is split into sub-arrays and decoded
//! under little or big endian byte order ([`endianness`]).
pub mod bit_numbering;
pub mod common;
pub mod endianness;

pub use common::{AsPrimitive, Layout, LengthError, Sequence, Target, Value, WidthError};
