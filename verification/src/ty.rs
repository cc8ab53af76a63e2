//! The type model: a tagged description of values that drives both
//! encoding and decoding.

use vstd::prelude::*;

verus! {

/// A type.
pub enum Ty {
    /// A boolean.
    Bool,
    /// A 64-bit unsigned integer.
    U64,
    /// A 64-bit signed integer.
    I64,
    /// A 64-bit float.
    F64,
    /// A sequence of bytes.
    Bytes,
    /// A UTF-8 string.
    String,
    /// A homogenous sequence of values.
    Array {
        /// The type of elements in the sequence.
        inner: Box<Ty>,
    },
    /// A structure containing named fields.
    Struct {
        /// The fields comprising the struct.
        fields: Vec<Field>,
    },
}

/// A struct field.
pub struct Field {
    /// The name of the field.
    pub name: String,
    /// The type of the field.
    pub ty: Ty,
}

} // verus!
