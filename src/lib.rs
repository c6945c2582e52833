//! A minimal binary serialization framework: a byte buffer plus a pair of
//! capability traits through which values encode themselves to, and decode
//! themselves from, a big-endian, length-prefixed wire format.
pub mod buffer;
pub mod bytes;
pub mod laws;
pub mod numeric;
pub mod sequence;
pub mod text;

pub use buffer::{Codec, DeSerialize, SBI, Serialize};
