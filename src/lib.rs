//! Text codec for multi-LOD model documents: a line-oriented, re-parseable
//! text form of the in-memory model, with exact hexadecimal float encoding.
pub mod hex;
pub mod tags;
pub mod model;
pub mod dedup;
pub mod grammar;
pub mod encode;
pub mod decode;
pub mod laws;
pub mod canon;
