//! Commands on single values.

pub mod del;
pub mod exists_key;
pub mod get;
pub mod incr;
pub mod set;
