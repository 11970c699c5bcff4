//! The RESP frame parser, under its second name.

pub use crate::parse::frame::{parse, Frame};
