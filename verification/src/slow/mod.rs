//! The slow reference codec: a recursive converter between a parsed JSON
//! tree and flatbin bytes, driven in lockstep by a schema.

pub mod de;
pub mod laws;
pub mod ser;

pub use de::deserialize;
pub use de::deserialize_into;
pub use de::Error;
pub use ser::serialize;

