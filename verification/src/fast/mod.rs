//! The fast streaming codec: a schema-driven deserializer that consumes
//! JSON tokens straight into a builder, tolerating out-of-order object
//! keys through a staging pass, and a serializer that emits JSON tokens
//! straight from a document. The JSON lexer itself lives outside; the
//! codec speaks plain tokens.

pub mod de;
pub mod laws;
pub mod ser;

pub use de::deserialize;
pub use de::deserialize_into;
pub use de::Error;
pub use ser::serialize;

use vstd::prelude::*;

verus! {

use crate::json::JsonNumber;

/// One event of a JSON document read in order.
pub enum JsonToken {
    /// The null value.
    Null,
    /// A boolean value.
    Bool(bool),
    /// A number value.
    Number(JsonNumber),
    /// A string value.
    Str(String),
    /// The opening bracket of an array.
    BeginArray,
    /// The closing bracket of an array.
    EndArray,
    /// The opening brace of an object.
    BeginObject,
    /// A member key inside an object.
    Key(String),
    /// The closing brace of an object.
    EndObject,
}

/// The ghost image of a JSON token.
#[verifier::ext_equal]
pub enum TokenV {
    /// The null value.
    Null,
    /// A boolean value.
    Bool(bool),
    /// A number value.
    Number(JsonNumber),
    /// A string value.
    Str(Seq<char>),
    /// The opening bracket of an array.
    BeginArray,
    /// The closing bracket of an array.
    EndArray,
    /// The opening brace of an object.
    BeginObject,
    /// A member key inside an object.
    Key(Seq<char>),
    /// The closing brace of an object.
    EndObject,
}

impl View for JsonToken {
    type V = TokenV;

    open spec fn view(&self) -> TokenV {
        match self {
            JsonToken::Null => TokenV::Null,
            JsonToken::Bool(b) => TokenV::Bool(*b),
            JsonToken::Number(n) => TokenV::Number(*n),
            JsonToken::Str(s) => TokenV::Str(s@),
            JsonToken::BeginArray => TokenV::BeginArray,
            JsonToken::EndArray => TokenV::EndArray,
            JsonToken::BeginObject => TokenV::BeginObject,
            JsonToken::Key(s) => TokenV::Key(s@),
            JsonToken::EndObject => TokenV::EndObject,
        }
    }
}

/// The ghost images of a token stream, in order.
pub open spec fn tokens_view(toks: Seq<JsonToken>) -> Seq<TokenV>
    decreases toks,
{
    if toks.len() == 0 {
        Seq::empty()
    } else {
        seq![toks[0]@] + tokens_view(toks.skip(1))
    }
}

/// A token stream's view holds one image per token, in place.
pub proof fn lemma_tokens_view(toks: Seq<JsonToken>)
    ensures
        tokens_view(toks).len() == toks.len(),
        forall|i: int|
            #![trigger tokens_view(toks)[i]]
            #![trigger toks[i]]
            0 <= i < toks.len() ==> tokens_view(toks)[i] == toks[i]@,
    decreases toks.len(),
{
    if toks.len() > 0 {
        lemma_tokens_view(toks.skip(1));
        assert forall|i: int| 0 <= i < toks.len() implies tokens_view(toks)[i] == toks[i]@ by {
            if i > 0 {
                assert(tokens_view(toks)[i] == tokens_view(toks.skip(1))[i - 1]);
                assert(toks.skip(1)[i - 1] == toks[i]);
            }
        }
    }
}

/// The token at a position, if the stream reaches it.
pub open spec fn tok_at(toks: Seq<TokenV>, pos: int) -> Option<TokenV> {
    if 0 <= pos < toks.len() {
        Some(toks[pos])
    } else {
        None
    }
}

/// The kind of token met, as the error messages name it.
pub open spec fn token_kind(t: Option<TokenV>) -> Seq<char> {
    match t {
        None => "end of input"@,
        Some(TokenV::Null) => "null"@,
        Some(TokenV::Bool(_)) => "a boolean"@,
        Some(TokenV::Number(_)) => "a number"@,
        Some(TokenV::Str(_)) => "a string"@,
        Some(TokenV::BeginArray) => "an array"@,
        Some(TokenV::EndArray) => "end of array"@,
        Some(TokenV::BeginObject) => "an object"@,
        Some(TokenV::Key(_)) => "an object key"@,
        Some(TokenV::EndObject) => "end of object"@,
    }
}

} // verus!
