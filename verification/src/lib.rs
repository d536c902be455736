//! A columnar container format: typed, nullable arrays serialized to a byte
//! stream with optional per-buffer compression, plus a side index that maps
//! each column to the byte range holding its encoded pages.

pub mod array;
pub mod buffer;
pub mod bytes;
pub mod compression;
pub mod datatypes;
pub mod deserialize;
pub mod encoding;
pub mod error;
pub mod laws;
pub mod reader;
pub mod serialize;
pub mod utf8;
pub mod writer;
