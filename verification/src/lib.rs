//! A key-value store kept as plain files, sharded by a prefix of the key.

pub mod chunk;
pub mod error;
pub mod file_table;
pub mod hash;
pub mod lock;
pub mod path;
pub mod store;
pub mod table;
pub mod text;
