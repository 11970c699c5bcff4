//! A Redis-compatible key-value store core: the RESP wire format, the data
//! types held under each key and the commands that act on them.

pub mod db;
pub mod expire;
pub mod parse;
pub mod parse2;
pub mod slot;
pub mod utils;
