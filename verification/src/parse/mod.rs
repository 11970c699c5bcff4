//! The RESP wire format: reading frames and writing commands.

pub mod frame;
pub mod roundtrip;
pub mod text;
pub mod to_bytes;
