//! Commands on key-value pairs.

pub mod get_all;
pub mod incr;
pub mod set;
