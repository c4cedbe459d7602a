//! A schema-validated tabular record store.
//!
//! Tables are declared with a fixed, ordered column schema; rows are
//! dynamically typed maps that must carry every declared column with a
//! compatible value. The whole store can be encoded to a byte snapshot and
//! decoded back, and decoding an encoding is proved to reproduce the store.

pub mod error;
pub mod value;
pub mod table;
pub mod store;
pub mod snapshot;
