//! Reading and writing multi-frame atomistic snapshot files: a fixed nine-line
//! header per frame followed by one coordinate block per atom type.

pub mod text;
pub mod number;
pub mod error;
pub mod types;
pub mod parser;
pub mod iterators;
pub mod writer;
pub mod roundtrip;
pub mod ffi;
