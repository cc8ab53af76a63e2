//! Token-to-flatbin deserialization: a schema-driven consumer of JSON
//! tokens that writes flatbin bytes as it reads, with no tree in between.
//! Struct members may arrive in any key order: each value is staged in a
//! scratch buffer and the tuple is emitted in schema order afterwards.

use vstd::prelude::*;

verus! {

use super::tok_at;
use super::token_kind;
use super::tokens_view;
use super::JsonToken;
use super::TokenV;
use crate::flatbin::builder::bool_body;
use crate::flatbin::builder::extends_frames;
use crate::flatbin::builder::push_child;
use crate::flatbin::builder::tuple_bytes;
use crate::flatbin::builder::vector_bytes;
use crate::flatbin::builder::Builder;
use crate::flatbin::FlatbinBuf;
use crate::json::str_eq;
use crate::json::JsonNumber;
use crate::scalars::le_fixed;
use crate::scalars::uint_body;
use crate::scalars::zigzag;
use crate::slow::de::num_bits;
use crate::ty::Field;
use crate::ty::Ty;
use vstd::utf8::encode_utf8;

/// What can go wrong while deserializing a token stream against a schema.
#[derive(Debug)]
pub enum Error {
    /// A token's kind did not match the schema.
    UnexpectedType {
        /// What the schema called for.
        expected: &'static str,
        /// The kind of token that arrived.
        got: &'static str,
    },
    /// An element of a bytes-typed array was not an integer between 0 and
    /// 255.
    NotAByte,
    /// The object closed without a field the schema requires.
    MissingField {
        /// The missing field's name.
        name: String,
    },
    /// A key arrived that names no field of the struct.
    UnknownField {
        /// The unknown key.
        name: String,
    },
    /// A key arrived twice.
    DuplicateField {
        /// The repeated key.
        name: String,
    },
}

/// The ghost image of a fast-path error.
#[verifier::ext_equal]
pub enum ErrorV {
    /// A token's kind did not match the schema.
    UnexpectedType {
        /// What the schema called for.
        expected: Seq<char>,
        /// The kind of token that arrived.
        got: Seq<char>,
    },
    /// An element of a bytes-typed array was not a byte.
    NotAByte,
    /// The object closed without a required field.
    MissingField {
        /// The missing field's name.
        name: Seq<char>,
    },
    /// A key arrived that names no field.
    UnknownField {
        /// The unknown key.
        name: Seq<char>,
    },
    /// A key arrived twice.
    DuplicateField {
        /// The repeated key.
        name: Seq<char>,
    },
}

impl View for Error {
    type V = ErrorV;

    open spec fn view(&self) -> ErrorV {
        match self {
            Error::UnexpectedType { expected, got } => ErrorV::UnexpectedType {
                expected: expected@,
                got: got@,
            },
            Error::NotAByte => ErrorV::NotAByte,
            Error::MissingField { name } => ErrorV::MissingField { name: name@ },
            Error::UnknownField { name } => ErrorV::UnknownField { name: name@ },
            Error::DuplicateField { name } => ErrorV::DuplicateField { name: name@ },
        }
    }
}

/// The mismatch error for a token the schema rejects.
pub open spec fn mismatch(expected: Seq<char>, t: Option<TokenV>) -> ErrorV {
    ErrorV::UnexpectedType { expected, got: token_kind(t) }
}

/// The position after a child parse: the parse's own end in the normal
/// case. The fallbacks only bound the recursion; a successful parse
/// always lands strictly forward and within the stream.
pub open spec fn next_pos(pos: int, p2: int, len: int) -> int {
    if pos < p2 <= len {
        p2
    } else if pos + 1 <= len {
        pos + 1
    } else {
        len
    }
}

/// The position of a field with the given name, if the struct has one.
pub open spec fn field_index(fields: Seq<Field>, name: Seq<char>) -> Option<int>
    decreases fields.len(),
{
    if fields.len() == 0 {
        None
    } else if fields[0].name@ == name {
        Some(0)
    } else {
        match field_index(fields.skip(1), name) {
            Some(j) => Some(j + 1),
            None => None,
        }
    }
}

/// What deserializing one value from a token stream yields: the value's
/// flatbin body and the position after its last token, or the first error
/// met.
pub open spec fn fast_de_spec(ty: Ty, toks: Seq<TokenV>, pos: int) -> Result<
    (Seq<u8>, int),
    ErrorV,
>
    decreases toks.len() - pos, ty, 0int,
{
    match ty {
        Ty::Bool => match tok_at(toks, pos) {
            Some(TokenV::Bool(b)) => Ok((bool_body(b), pos + 1)),
            t => Err(mismatch("a boolean"@, t)),
        },
        Ty::U64 => match tok_at(toks, pos) {
            Some(TokenV::Number(JsonNumber::PosInt(n))) => Ok((uint_body(n as nat), pos + 1)),
            t => Err(mismatch("a non-negative integer"@, t)),
        },
        Ty::I64 => match tok_at(toks, pos) {
            Some(TokenV::Number(JsonNumber::PosInt(n))) => if n <= i64::MAX {
                Ok((uint_body(zigzag(n as i64) as nat), pos + 1))
            } else {
                Err(mismatch("an integer"@, tok_at(toks, pos)))
            },
            Some(TokenV::Number(JsonNumber::NegInt(m))) => Ok(
                (uint_body(zigzag(m) as nat), pos + 1),
            ),
            t => Err(mismatch("an integer"@, t)),
        },
        Ty::F64 => match tok_at(toks, pos) {
            Some(TokenV::Number(n)) => Ok((le_fixed(num_bits(n), 8), pos + 1)),
            t => Err(mismatch("a number"@, t)),
        },
        Ty::Bytes => match tok_at(toks, pos) {
            Some(TokenV::BeginArray) => fast_bytes(toks, pos + 1),
            t => Err(mismatch("a byte array"@, t)),
        },
        Ty::String => match tok_at(toks, pos) {
            Some(TokenV::Str(s)) => Ok((encode_utf8(s), pos + 1)),
            t => Err(mismatch("a string"@, t)),
        },
        Ty::Array { inner } => match tok_at(toks, pos) {
            Some(TokenV::BeginArray) => match fast_de_elems(*inner, toks, pos + 1) {
                Ok((children, p2)) => Ok((vector_bytes(children), p2)),
                Err(e) => Err(e),
            },
            t => Err(mismatch("an array"@, t)),
        },
        Ty::Struct { fields } => match tok_at(toks, pos) {
            Some(TokenV::BeginObject) => {
                let slots = Seq::new(fields@.len(), |i: int| None::<Seq<u8>>);
                match fast_de_struct(fields@, toks, pos + 1, slots) {
                    Ok((filled, p2)) => match assemble(fields@, filled) {
                        Ok(children) => Ok((tuple_bytes(children), p2)),
                        Err(e) => Err(e),
                    },
                    Err(e) => Err(e),
                }
            },
            t => Err(mismatch("an object"@, t)),
        },
    }
}

/// The bytes of a byte array read token by token until its close.
pub open spec fn fast_bytes(toks: Seq<TokenV>, pos: int) -> Result<(Seq<u8>, int), ErrorV>
    decreases toks.len() - pos,
{
    match tok_at(toks, pos) {
        None => Err(mismatch("a byte"@, None)),
        Some(TokenV::EndArray) => Ok((Seq::empty(), pos + 1)),
        Some(TokenV::Number(JsonNumber::PosInt(p))) => if p <= 255 {
            match fast_bytes(toks, pos + 1) {
                Ok((rest, p2)) => Ok((seq![p as u8] + rest, p2)),
                Err(e) => Err(e),
            }
        } else {
            Err(ErrorV::NotAByte)
        },
        Some(_) => Err(ErrorV::NotAByte),
    }
}

/// The bodies of an array's elements read until its close.
pub open spec fn fast_de_elems(inner: Ty, toks: Seq<TokenV>, pos: int) -> Result<
    (Seq<Seq<u8>>, int),
    ErrorV,
>
    decreases toks.len() - pos, inner, 1int,
{
    match tok_at(toks, pos) {
        None => Err(mismatch("an array element"@, None)),
        Some(TokenV::EndArray) => Ok((Seq::empty(), pos + 1)),
        Some(_) => match fast_de_spec(inner, toks, pos) {
            Ok((body, p2)) => {
                let p3 = next_pos(pos, p2, toks.len() as int);
                match fast_de_elems(inner, toks, p3) {
                    Ok((rest, p4)) => Ok((seq![body] + rest, p4)),
                    Err(e) => Err(e),
                }
            },
            Err(e) => Err(e),
        },
    }
}

/// The staging pass over an object's members: each key locates its field,
/// a repeated or unknown key fails, and each value's body lands in its
/// field's slot, whatever order the keys arrive in.
pub open spec fn fast_de_struct(
    fields: Seq<Field>,
    toks: Seq<TokenV>,
    pos: int,
    slots: Seq<Option<Seq<u8>>>,
) -> Result<(Seq<Option<Seq<u8>>>, int), ErrorV>
    decreases toks.len() - pos, fields, 2int,
{
    match tok_at(toks, pos) {
        None => Err(mismatch("an object key"@, None)),
        Some(TokenV::EndObject) => Ok((slots, pos + 1)),
        Some(TokenV::Key(name)) => match field_index(fields, name) {
            None => Err(ErrorV::UnknownField { name }),
            Some(j) => if slots[j] is Some {
                Err(ErrorV::DuplicateField { name })
            } else {
                match fast_de_spec(fields[j].ty, toks, pos + 1) {
                    Ok((body, p2)) => {
                        let p3 = next_pos(pos + 1, p2, toks.len() as int);
                        fast_de_struct(fields, toks, p3, slots.update(j, Some(body)))
                    },
                    Err(e) => Err(e),
                }
            },
        },
        t => Err(mismatch("an object key"@, t)),
    }
}

/// Collect the staged bodies in schema order; the first empty slot names
/// the missing field.
pub open spec fn assemble(fields: Seq<Field>, slots: Seq<Option<Seq<u8>>>) -> Result<
    Seq<Seq<u8>>,
    ErrorV,
>
    decreases fields.len(),
{
    if fields.len() == 0 {
        Ok(Seq::empty())
    } else {
        match slots[0] {
            None => Err(ErrorV::MissingField { name: fields[0].name@ }),
            Some(body) => match assemble(fields.skip(1), slots.skip(1)) {
                Ok(rest) => Ok(seq![body] + rest),
                Err(e) => Err(e),
            },
        }
    }
}

/// The ghost images of the staging slots, in order.
pub open spec fn slots_view(slots: Seq<Option<Vec<u8>>>) -> Seq<Option<Seq<u8>>>
    decreases slots,
{
    if slots.len() == 0 {
        Seq::empty()
    } else {
        seq![
            match slots[0] {
                Some(v) => Some(v@),
                None => None,
            },
        ] + slots_view(slots.skip(1))
    }
}

/// The slots' view holds one image per slot, in place.
proof fn lemma_slots_view(slots: Seq<Option<Vec<u8>>>)
    ensures
        slots_view(slots).len() == slots.len(),
        forall|i: int|
            #![trigger slots_view(slots)[i]]
            #![trigger slots[i]]
            0 <= i < slots.len() ==> slots_view(slots)[i] == (match slots[i] {
                Some(v) => Some(v@),
                None => None,
            }),
    decreases slots.len(),
{
    if slots.len() > 0 {
        lemma_slots_view(slots.skip(1));
        assert forall|i: int| 0 <= i < slots.len() implies slots_view(slots)[i] == (match slots[
            i
        ] {
            Some(v) => Some(v@),
            None => None,
        }) by {
            if i > 0 {
                assert(slots_view(slots)[i] == slots_view(slots.skip(1))[i - 1]);
                assert(slots.skip(1)[i - 1] == slots[i]);
            }
        }
    }
}

/// The kind of token met, as the error messages name it.
fn token_kind_str(t: Option<&JsonToken>) -> (r: &'static str)
    ensures
        r@ == token_kind(match t {
            Some(tok) => Some(tok@),
            None => None,
        }),
{
    match t {
        None => "end of input",
        Some(JsonToken::Null) => "null",
        Some(JsonToken::Bool(_)) => "a boolean",
        Some(JsonToken::Number(_)) => "a number",
        Some(JsonToken::Str(_)) => "a string",
        Some(JsonToken::BeginArray) => "an array",
        Some(JsonToken::EndArray) => "end of array",
        Some(JsonToken::BeginObject) => "an object",
        Some(JsonToken::Key(_)) => "an object key",
        Some(JsonToken::EndObject) => "end of object",
    }
}

/// Find the field a key names.
fn find_field(fields: &Vec<Field>, name: &str) -> (r: Option<usize>)
    ensures
        match r {
            Some(j) => field_index(fields@, name@) == Some(j as int) && j < fields@.len(),
            None => field_index(fields@, name@) is None,
        },
{
    let mut j: usize = 0;
    proof {
        assert(fields@.skip(0) =~= fields@);
    }
    while j < fields.len()
        invariant
            j <= fields@.len(),
            (match field_index(fields@.skip(j as int), name@) {
                Some(k) => field_index(fields@, name@) == Some(j + k),
                None => field_index(fields@, name@) is None,
            }),
        decreases fields@.len() - j,
    {
        proof {
            assert(fields@.skip(j as int)[0] == fields@[j as int]);
            assert(fields@.skip(j as int).skip(1) =~= fields@.skip(j + 1));
        }
        if str_eq(fields[j].name.as_str(), name) {
            return Some(j);
        }
        j = j + 1;
    }
    proof {
        assert(fields@.skip(fields@.len() as int) =~= Seq::<Field>::empty());
    }
    None
}

/// Deserialize one value from the token stream, starting at `pos`, as a
/// child of the builder's innermost frame; on success the result is the
/// position just past the value's last token.
fn de_at(ty: &Ty, tokens: &Vec<JsonToken>, pos: usize, b: &mut Builder) -> (r: Result<
    usize,
    Error,
>)
    requires
        old(b).wf(),
        old(b).can_write(),
        pos <= tokens@.len(),
    ensures
        final(b).wf(),
        match r {
            Ok(p2) => {
                &&& fast_de_spec(*ty, tokens_view(tokens@), pos as int) is Ok
                &&& fast_de_spec(*ty, tokens_view(tokens@), pos as int)->Ok_0.1 == p2 as int
                &&& final(b)@ == push_child(
                    old(b)@,
                    fast_de_spec(*ty, tokens_view(tokens@), pos as int)->Ok_0.0,
                )
                &&& pos < p2 <= tokens@.len()
            },
            Err(e) => {
                &&& fast_de_spec(*ty, tokens_view(tokens@), pos as int) == Err::<
                    (Seq<u8>, int),
                    ErrorV,
                >(e@)
                &&& extends_frames(old(b)@, final(b)@)
            },
        },
    decreases tokens@.len() - pos, *ty,
{
    let ghost toks = tokens_view(tokens@);
    proof {
        super::lemma_tokens_view(tokens@);
    }
    let cur: Option<&JsonToken> = if pos < tokens.len() {
        Some(&tokens[pos])
    } else {
        None
    };
    match ty {
        Ty::Bool => match cur {
            Some(JsonToken::Bool(x)) => {
                b.write_bool(*x);
                Ok(pos + 1)
            },
            _ => Err(Error::UnexpectedType { expected: "a boolean", got: token_kind_str(cur) }),
        },
        Ty::U64 => match cur {
            Some(JsonToken::Number(JsonNumber::PosInt(n))) => {
                b.write_u64(*n);
                Ok(pos + 1)
            },
            _ => Err(
                Error::UnexpectedType {
                    expected: "a non-negative integer",
                    got: token_kind_str(cur),
                },
            ),
        },
        Ty::I64 => match cur {
            Some(JsonToken::Number(JsonNumber::PosInt(n))) => {
                if *n <= i64::MAX as u64 {
                    b.write_i64(*n as i64);
                    Ok(pos + 1)
                } else {
                    Err(Error::UnexpectedType { expected: "an integer", got: token_kind_str(cur) })
                }
            },
            Some(JsonToken::Number(JsonNumber::NegInt(m))) => {
                b.write_i64(*m);
                Ok(pos + 1)
            },
            _ => Err(Error::UnexpectedType { expected: "an integer", got: token_kind_str(cur) }),
        },
        Ty::F64 => match cur {
            Some(JsonToken::Number(n)) => {
                let bits = match n {
                    JsonNumber::PosInt(p) => crate::ieee::bits_from_u64(*p),
                    JsonNumber::NegInt(m) => crate::ieee::bits_from_i64(*m),
                    JsonNumber::Float(bits) => *bits,
                };
                b.write_bits64(bits);
                Ok(pos + 1)
            },
            _ => Err(Error::UnexpectedType { expected: "a number", got: token_kind_str(cur) }),
        },
        Ty::String => match cur {
            Some(JsonToken::Str(s)) => {
                b.write_str(s.as_str());
                Ok(pos + 1)
            },
            _ => Err(Error::UnexpectedType { expected: "a string", got: token_kind_str(cur) }),
        },
        Ty::Bytes => match cur {
            Some(JsonToken::BeginArray) => {
                let mut bytes: Vec<u8> = Vec::new();
                let mut p = pos + 1;
                loop
                    invariant_except_break
                        pos < p <= tokens@.len(),
                        toks == tokens_view(tokens@),
                        toks.len() == tokens@.len(),
                        forall|k: int| 0 <= k < tokens@.len() ==> toks[k] == (
                        #[trigger] tokens@[k])@,
                        *ty == Ty::Bytes,
                        tok_at(toks, pos as int) == Some(TokenV::BeginArray),
                        old(b).wf(),
                        old(b).can_write(),
                        b@ == old(b)@,
                        (match fast_bytes(toks, p as int) {
                            Ok((rest, p2)) => fast_bytes(toks, pos + 1) == Ok::<
                                (Seq<u8>, int),
                                ErrorV,
                            >((bytes@ + rest, p2)),
                            Err(e) => fast_bytes(toks, pos + 1) == Err::<(Seq<u8>, int), ErrorV>(
                                e,
                            ),
                        }),
                    ensures
                        pos < p <= tokens@.len(),
                        b@ == old(b)@,
                        fast_bytes(toks, pos + 1) == Ok::<(Seq<u8>, int), ErrorV>(
                            (bytes@, p as int),
                        ),
                    decreases tokens@.len() - p,
                {
                    if p >= tokens.len() {
                        return Err(
                            Error::UnexpectedType { expected: "a byte", got: "end of input" },
                        );
                    }
                    match &tokens[p] {
                        JsonToken::EndArray => {
                            proof {
                                assert(bytes@ + Seq::<u8>::empty() =~= bytes@);
                            }
                            p = p + 1;
                            break ;
                        },
                        JsonToken::Number(JsonNumber::PosInt(q)) => {
                            if *q <= 255 {
                                let ghost pre = bytes@;
                                bytes.push(*q as u8);
                                p = p + 1;
                                proof {
                                    if fast_bytes(toks, p as int) is Ok {
                                        let (rest, _) = fast_bytes(toks, p as int)->Ok_0;
                                        assert(pre + (seq![(toks[p - 1]->Number_0->PosInt_0) as u8]
                                            + rest) =~= bytes@ + rest);
                                    }
                                }
                            } else {
                                return Err(Error::NotAByte);
                            }
                        },
                        _ => {
                            return Err(Error::NotAByte);
                        },
                    }
                }
                b.write_bytes(bytes.as_slice());
                Ok(p)
            },
            _ => Err(Error::UnexpectedType { expected: "a byte array", got: token_kind_str(cur) }),
        },
        Ty::Array { inner } => match cur {
            Some(JsonToken::BeginArray) => {
                b.start_vector();
                let mut p = pos + 1;
                loop
                    invariant_except_break
                        pos < p <= tokens@.len(),
                        toks == tokens_view(tokens@),
                        toks.len() == tokens@.len(),
                        forall|k: int| 0 <= k < tokens@.len() ==> toks[k] == (
                        #[trigger] tokens@[k])@,
                        *ty == (Ty::Array { inner: *inner }),
                        tok_at(toks, pos as int) == Some(TokenV::BeginArray),
                        old(b).wf(),
                        old(b).can_write(),
                        b.wf(),
                        b@.len() >= 2,
                        b@.len() == old(b)@.len() + 1,
                        b@.last().is_vector,
                        b@.drop_last() == old(b)@,
                        (match fast_de_elems(**inner, toks, p as int) {
                            Ok((rest, p2)) => fast_de_elems(**inner, toks, pos + 1) == Ok::<
                                (Seq<Seq<u8>>, int),
                                ErrorV,
                            >((b@.last().children + rest, p2)),
                            Err(e) => fast_de_elems(**inner, toks, pos + 1) == Err::<
                                (Seq<Seq<u8>>, int),
                                ErrorV,
                            >(e),
                        }),
                    ensures
                        pos < p <= tokens@.len(),
                        b.wf(),
                        b@.len() >= 2,
                        b@.len() == old(b)@.len() + 1,
                        b@.last().is_vector,
                        b@.drop_last() == old(b)@,
                        fast_de_elems(**inner, toks, pos + 1) == Ok::<(Seq<Seq<u8>>, int), ErrorV>(
                            (b@.last().children, p as int),
                        ),
                    decreases tokens@.len() - p,
                {
                    if p >= tokens.len() {
                        return Err(
                            Error::UnexpectedType {
                                expected: "an array element",
                                got: "end of input",
                            },
                        );
                    }
                    let is_end = matches!(&tokens[p], JsonToken::EndArray);
                    if is_end {
                        proof {
                            assert(b@.last().children + Seq::<Seq<u8>>::empty() =~= b@
                                .last().children);
                        }
                        p = p + 1;
                        break ;
                    }
                    proof {
                        assert(decreases_to!(*ty => ty->Array_inner));
                        assert(ty->Array_inner == *inner);
                    }
                    let ghost before = b@;
                    match de_at(&**inner, tokens, p, b) {
                        Ok(p2) => {
                            proof {
                                let body = fast_de_spec(**inner, toks, p as int)->Ok_0.0;
                                assert(b@ == push_child(before, body));
                                assert(b@.drop_last() =~= before.drop_last());
                                assert(b@.last().children =~= before.last().children.push(body));
                                assert(next_pos(p as int, p2 as int, toks.len() as int)
                                    == p2 as int);
                                if fast_de_elems(**inner, toks, p2 as int) is Ok {
                                    let (rest, _) = fast_de_elems(**inner, toks, p2 as int)->Ok_0;
                                    assert(before.last().children + (seq![body] + rest) =~= b@
                                        .last().children + rest);
                                }
                            }
                            p = p2;
                        },
                        Err(e) => {
                            return Err(e);
                        },
                    }
                }
                b.end_vector();
                Ok(p)
            },
            _ => Err(Error::UnexpectedType { expected: "an array", got: token_kind_str(cur) }),
        },
        Ty::Struct { fields } => match cur {
            Some(JsonToken::BeginObject) => {
                let mut slots: Vec<Option<Vec<u8>>> = Vec::new();
                let mut k: usize = 0;
                while k < fields.len()
                    invariant
                        k <= fields@.len(),
                        slots@.len() == k,
                        forall|i: int| 0 <= i < k ==> (#[trigger] slots@[i]) is None,
                    decreases fields@.len() - k,
                {
                    slots.push(None);
                    k = k + 1;
                }
                proof {
                    lemma_slots_view(slots@);
                    assert(slots_view(slots@) =~= Seq::new(
                        fields@.len(),
                        |i: int| None::<Seq<u8>>,
                    ));
                }
                let mut p = pos + 1;
                loop
                    invariant_except_break
                        pos < p <= tokens@.len(),
                        toks == tokens_view(tokens@),
                        toks.len() == tokens@.len(),
                        forall|k2: int| 0 <= k2 < tokens@.len() ==> toks[k2] == (
                        #[trigger] tokens@[k2])@,
                        *ty == (Ty::Struct { fields: *fields }),
                        tok_at(toks, pos as int) == Some(TokenV::BeginObject),
                        old(b).wf(),
                        old(b).can_write(),
                        b@ == old(b)@,
                        slots@.len() == fields@.len(),
                        fast_de_struct(
                            fields@,
                            toks,
                            pos + 1,
                            Seq::new(fields@.len(), |i: int| None::<Seq<u8>>),
                        ) == fast_de_struct(fields@, toks, p as int, slots_view(slots@)),
                    ensures
                        pos < p <= tokens@.len(),
                        b@ == old(b)@,
                        slots@.len() == fields@.len(),
                        fast_de_struct(
                            fields@,
                            toks,
                            pos + 1,
                            Seq::new(fields@.len(), |i: int| None::<Seq<u8>>),
                        ) == Ok::<(Seq<Option<Seq<u8>>>, int), ErrorV>(
                            (slots_view(slots@), p as int),
                        ),
                    decreases tokens@.len() - p,
                {
                    proof {
                        lemma_slots_view(slots@);
                    }
                    if p >= tokens.len() {
                        return Err(
                            Error::UnexpectedType {
                                expected: "an object key",
                                got: "end of input",
                            },
                        );
                    }
                    let is_end = matches!(&tokens[p], JsonToken::EndObject);
                    if is_end {
                        p = p + 1;
                        break ;
                    }
                    let name = match &tokens[p] {
                        JsonToken::Key(name) => name,
                        _ => {
                            return Err(
                                Error::UnexpectedType {
                                    expected: "an object key",
                                    got: token_kind_str(Some(&tokens[p])),
                                },
                            );
                        },
                    };
                    let j = match find_field(fields, name.as_str()) {
                        Some(j) => j,
                        None => {
                            return Err(Error::UnknownField { name: name.as_str().to_owned() });
                        },
                    };
                    let filled = matches!(&slots[j], Some(_));
                    if filled {
                        proof {
                            assert(slots_view(slots@)[j as int] is Some);
                        }
                        return Err(Error::DuplicateField { name: name.as_str().to_owned() });
                    }
                    proof {
                        assert(slots_view(slots@)[j as int] is None);
                        assert(decreases_to!(*ty => ty->Struct_fields));
                        assert(ty->Struct_fields == *fields);
                        assert(decreases_to!(*fields => fields@));
                        assert(decreases_to!(fields@ => fields@[j as int]));
                        assert(decreases_to!(fields@[j as int] => fields@[j as int].ty));
                    }
                    let mut tmp = Builder::new();
                    let p2 = match de_at(&fields[j].ty, tokens, p + 1, &mut tmp) {
                        Ok(p2) => p2,
                        Err(e) => {
                            return Err(e);
                        },
                    };
                    let ghost body = fast_de_spec(fields@[j as int].ty, toks, p + 1)->Ok_0.0;
                    let staged = tmp.finish();
                    let bytes = staged.to_vec();
                    let ghost pre_slots = slots_view(slots@);
                    let slot = vstd::std_specs::vec::vec_index_mut(&mut slots, j);
                    *slot = Some(bytes);
                    proof {
                        lemma_slots_view(slots@);
                        assert(slots_view(slots@) =~~= pre_slots.update(j as int, Some(body)));
                        assert(next_pos(p + 1, p2 as int, toks.len() as int) == p2 as int);
                    }
                    p = p2;
                }
                proof {
                    lemma_slots_view(slots@);
                }
                b.start_tuple();
                let ghost filled = slots_view(slots@);
                let ghost with_frame = b@;
                let mut i: usize = 0;
                proof {
                    assert(fields@.skip(0) =~= fields@);
                    assert(filled.skip(0) =~= filled);
                    assert(b@.last().children =~= Seq::<Seq<u8>>::empty());
                    if assemble(fields@, filled) is Ok {
                        assert(Seq::<Seq<u8>>::empty() + assemble(fields@, filled)->Ok_0
                            =~= assemble(fields@, filled)->Ok_0);
                    }
                }
                while i < fields.len()
                    invariant
                        i <= fields@.len(),
                        toks == tokens_view(tokens@),
                        *ty == (Ty::Struct { fields: *fields }),
                        tok_at(toks, pos as int) == Some(TokenV::BeginObject),
                        pos < p <= tokens@.len(),
                        fast_de_struct(
                            fields@,
                            toks,
                            pos + 1,
                            Seq::new(fields@.len(), |k2: int| None::<Seq<u8>>),
                        ) == Ok::<(Seq<Option<Seq<u8>>>, int), ErrorV>((filled, p as int)),
                        old(b).wf(),
                        old(b).can_write(),
                        filled == slots_view(slots@),
                        slots@.len() == fields@.len(),
                        filled.len() == fields@.len(),
                        forall|k2: int|
                            #![trigger slots@[k2]]
                            0 <= k2 < slots@.len() ==> filled[k2] == (match slots@[k2] {
                                Some(v) => Some(v@),
                                None => None,
                            }),
                        b.wf(),
                        b@.len() >= 2,
                        b@.len() == old(b)@.len() + 1,
                        !b@.last().is_vector,
                        b@.drop_last() == old(b)@,
                        (match assemble(fields@.skip(i as int), filled.skip(i as int)) {
                            Ok(rest) => assemble(fields@, filled) == Ok::<Seq<Seq<u8>>, ErrorV>(
                                b@.last().children + rest,
                            ),
                            Err(e) => assemble(fields@, filled) == Err::<Seq<Seq<u8>>, ErrorV>(
                                e,
                            ),
                        }),
                    decreases fields@.len() - i,
                {
                    proof {
                        assert(fields@.skip(i as int)[0] == fields@[i as int]);
                        assert(fields@.skip(i as int).skip(1) =~= fields@.skip(i + 1));
                        assert(filled.skip(i as int)[0] == filled[i as int]);
                        assert(filled.skip(i as int).skip(1) =~= filled.skip(i + 1));
                    }
                    match &slots[i] {
                        Some(bytes) => {
                            let ghost before = b@;
                            b.write_bytes(bytes.as_slice());
                            proof {
                                let body = filled[i as int]->0;
                                assert(b@.last().children =~= before.last().children.push(body));
                                assert(b@.drop_last() =~= before.drop_last());
                                if assemble(fields@.skip(i + 1), filled.skip(i + 1)) is Ok {
                                    let rest = assemble(
                                        fields@.skip(i + 1),
                                        filled.skip(i + 1),
                                    )->Ok_0;
                                    assert(before.last().children + (seq![body] + rest) =~= b@
                                        .last().children + rest);
                                }
                            }
                        },
                        None => {
                            return Err(
                                Error::MissingField { name: fields[i].name.as_str().to_owned() },
                            );
                        },
                    }
                    i = i + 1;
                }
                proof {
                    assert(fields@.skip(fields@.len() as int) =~= Seq::<Field>::empty());
                    assert(filled.skip(filled.len() as int) =~= Seq::<Option<Seq<u8>>>::empty());
                    assert(b@.last().children + Seq::<Seq<u8>>::empty() =~= b@.last().children);
                }
                b.end_tuple();
                Ok(p)
            },
            _ => Err(Error::UnexpectedType { expected: "an object", got: token_kind_str(cur) }),
        },
    }
}

/// Deserialize one JSON value from a token stream against a schema into a
/// fresh document; tokens past the value are ignored, as a streaming
/// reader would leave them for the caller.
pub fn deserialize(ty: &Ty, tokens: &Vec<JsonToken>) -> (r: Result<FlatbinBuf, Error>)
    ensures
        match r {
            Ok(buf) => {
                &&& fast_de_spec(*ty, tokens_view(tokens@), 0) is Ok
                &&& buf@ == fast_de_spec(*ty, tokens_view(tokens@), 0)->Ok_0.0
            },
            Err(e) => fast_de_spec(*ty, tokens_view(tokens@), 0) == Err::<
                (Seq<u8>, int),
                ErrorV,
            >(e@),
        },
{
    let mut b = Builder::new();
    match de_at(ty, tokens, 0, &mut b) {
        Ok(_) => Ok(b.finish()),
        Err(e) => Err(e),
    }
}

/// Deserialize one JSON value from a token stream, appending the
/// document's bytes to the buffer; on an error the buffer is left as it
/// was.
pub fn deserialize_into(ty: &Ty, tokens: &Vec<JsonToken>, buffer: &mut FlatbinBuf) -> (r: Result<
    (),
    Error,
>)
    ensures
        match r {
            Ok(()) => {
                &&& fast_de_spec(*ty, tokens_view(tokens@), 0) is Ok
                &&& final(buffer)@ == old(buffer)@ + fast_de_spec(
                    *ty,
                    tokens_view(tokens@),
                    0,
                )->Ok_0.0
            },
            Err(e) => {
                &&& fast_de_spec(*ty, tokens_view(tokens@), 0) == Err::<(Seq<u8>, int), ErrorV>(
                    e@,
                )
                &&& final(buffer)@ == old(buffer)@
            },
        },
{
    match deserialize(ty, tokens) {
        Ok(buf) => {
            let bytes = buf.to_vec();
            buffer.push_bytes(&bytes);
            Ok(())
        },
        Err(e) => Err(e),
    }
}

} // verus!
