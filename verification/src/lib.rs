//! An in-memory environment block with typed accessors: defaults, booleans,
//! delimited lists, and read-and-replace operations, each with a proved contract.

pub mod boolean;
pub mod environment;
pub mod laws;
pub mod list;
pub mod text;
