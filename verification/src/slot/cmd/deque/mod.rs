//! Commands on lists.

pub mod len;
pub mod range;
