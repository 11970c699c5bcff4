//! The keyspace: the values stored under each key and the commands on them.

pub mod data;
pub mod data_type;
pub mod hds;
pub mod laws;
pub mod slot;
pub mod state;
