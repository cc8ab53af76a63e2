//! A schema-driven codec between JSON documents and "flatbin", a compact
//! binary encoding. Sequences keep their last child headerless, small
//! scalars and short bodies cost a single byte, and struct fields may
//! arrive under any key order while the bytes stay canonical.

pub mod binary;
pub mod fast;
pub mod flatbin;
pub mod ieee;
pub mod json;
pub mod scalars;
pub mod slow;
pub mod ty;
pub mod varint;
