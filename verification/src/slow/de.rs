//! Tree-to-flatbin deserialization: walk a schema and a JSON tree in
//! lockstep and write the document's canonical bytes.

use vstd::prelude::*;

verus! {

use crate::flatbin::builder::bool_body;
use crate::flatbin::builder::extends_frames;
use crate::flatbin::builder::push_child;
use crate::flatbin::builder::tuple_bytes;
use crate::flatbin::builder::vector_bytes;
use crate::flatbin::builder::Builder;
use crate::flatbin::builder::FrameView;
use crate::flatbin::FlatbinBuf;
use crate::ieee::bits_of_int;
use crate::ieee::bits_of_nat;
use crate::json::jv_view_arr;
use crate::json::jv_view_obj;
use crate::json::kind_name;
use crate::json::lemma_jv_view_arr;
use crate::json::lemma_jv_view_obj;
use crate::json::obj_lookup;
use crate::json::str_eq;
use crate::json::JsonNumber;
use crate::json::JsonVal;
use crate::json::JsonValue;
use crate::scalars::le_fixed;
use crate::scalars::uint_body;
use crate::scalars::zigzag;
use crate::ty::Field;
use crate::ty::Ty;
use vstd::utf8::encode_utf8;

/// What can go wrong while deserializing a JSON tree against a schema.
#[derive(Debug)]
pub enum Error {
    /// The JSON value's kind did not match the schema.
    UnexpectedType {
        /// What the schema called for.
        expected: &'static str,
        /// The kind the JSON value had.
        got: &'static str,
    },
    /// An element of a bytes-typed array was not an integer between 0 and
    /// 255.
    NotAByte,
    /// The JSON object lacked a field the schema requires.
    MissingField {
        /// The missing field's name.
        name: String,
    },
}

/// The ghost image of a deserialization error.
#[verifier::ext_equal]
pub enum ErrorV {
    /// The JSON value's kind did not match the schema.
    UnexpectedType {
        /// What the schema called for.
        expected: Seq<char>,
        /// The kind the JSON value had.
        got: Seq<char>,
    },
    /// An element of a bytes-typed array was not a byte.
    NotAByte,
    /// The JSON object lacked a required field.
    MissingField {
        /// The missing field's name.
        name: Seq<char>,
    },
}

impl View for Error {
    type V = ErrorV;

    open spec fn view(&self) -> ErrorV {
        match self {
            Error::UnexpectedType { expected, got } => ErrorV::UnexpectedType {
                expected: expected@,
                got: got@,
            },
            Error::NotAByte => ErrorV::NotAByte,
            Error::MissingField { name } => ErrorV::MissingField { name: name@ },
        }
    }
}

/// The mismatch error for a value whose kind the schema rejects.
pub open spec fn unexpected(expected: Seq<char>, v: JsonVal) -> ErrorV {
    ErrorV::UnexpectedType { expected, got: kind_name(v) }
}

/// The binary64 bits a JSON number deserializes to under a float schema.
pub open spec fn num_bits(n: JsonNumber) -> nat {
    match n {
        JsonNumber::PosInt(p) => bits_of_nat(p as nat),
        JsonNumber::NegInt(m) => bits_of_int(m as int),
        JsonNumber::Float(bits) => bits as nat,
    }
}

/// The body of a bytes value: every element must be an integer between 0
/// and 255.
pub open spec fn bytes_of(elems: Seq<JsonVal>) -> Option<Seq<u8>>
    decreases elems.len(),
{
    if elems.len() == 0 {
        Some(Seq::empty())
    } else {
        match elems[0] {
            JsonVal::Number(JsonNumber::PosInt(p)) => if p <= 255 {
                match bytes_of(elems.skip(1)) {
                    Some(rest) => Some(seq![p as u8] + rest),
                    None => None,
                }
            } else {
                None
            },
            _ => None,
        }
    }
}

/// What deserializing a JSON value against a schema yields: the value's
/// flatbin body, or the first error the left-to-right walk meets.
pub open spec fn de_spec(ty: Ty, v: JsonVal) -> Result<Seq<u8>, ErrorV>
    decreases ty, 0int,
{
    match ty {
        Ty::Bool => match v {
            JsonVal::Bool(b) => Ok(bool_body(b)),
            _ => Err(unexpected("a boolean"@, v)),
        },
        Ty::U64 => match v {
            JsonVal::Number(JsonNumber::PosInt(n)) => Ok(uint_body(n as nat)),
            _ => Err(unexpected("a non-negative integer"@, v)),
        },
        Ty::I64 => match v {
            JsonVal::Number(JsonNumber::PosInt(n)) => if n <= i64::MAX {
                Ok(uint_body(zigzag(n as i64) as nat))
            } else {
                Err(unexpected("an integer"@, v))
            },
            JsonVal::Number(JsonNumber::NegInt(m)) => Ok(uint_body(zigzag(m) as nat)),
            _ => Err(unexpected("an integer"@, v)),
        },
        Ty::F64 => match v {
            JsonVal::Number(n) => Ok(le_fixed(num_bits(n), 8)),
            _ => Err(unexpected("a number"@, v)),
        },
        Ty::Bytes => match v {
            JsonVal::Arr(elems) => match bytes_of(elems) {
                Some(bs) => Ok(bs),
                None => Err(ErrorV::NotAByte),
            },
            _ => Err(unexpected("a byte array"@, v)),
        },
        Ty::String => match v {
            JsonVal::Str(s) => Ok(encode_utf8(s)),
            _ => Err(unexpected("a string"@, v)),
        },
        Ty::Array { inner } => match v {
            JsonVal::Arr(elems) => match de_elems(*inner, elems) {
                Ok(children) => Ok(vector_bytes(children)),
                Err(e) => Err(e),
            },
            _ => Err(unexpected("an array"@, v)),
        },
        Ty::Struct { fields } => match v {
            JsonVal::Obj(entries) => match de_fields(fields@, entries) {
                Ok(children) => Ok(tuple_bytes(children)),
                Err(e) => Err(e),
            },
            _ => Err(unexpected("an object"@, v)),
        },
    }
}

/// The bodies an array's elements deserialize to, in order.
pub open spec fn de_elems(inner: Ty, elems: Seq<JsonVal>) -> Result<Seq<Seq<u8>>, ErrorV>
    decreases inner, elems.len() + 1,
{
    if elems.len() == 0 {
        Ok(Seq::empty())
    } else {
        match de_spec(inner, elems[0]) {
            Ok(body) => match de_elems(inner, elems.skip(1)) {
                Ok(rest) => Ok(seq![body] + rest),
                Err(e) => Err(e),
            },
            Err(e) => Err(e),
        }
    }
}

/// The bodies a struct's fields deserialize to, in schema order, each
/// looked up by name in the object.
pub open spec fn de_fields(fields: Seq<Field>, entries: Seq<(Seq<char>, JsonVal)>) -> Result<
    Seq<Seq<u8>>,
    ErrorV,
>
    decreases fields, 0int,
{
    if fields.len() == 0 {
        Ok(Seq::empty())
    } else {
        match obj_lookup(entries, fields[0].name@) {
            None => Err(ErrorV::MissingField { name: fields[0].name@ }),
            Some(x) => match de_spec(fields[0].ty, x) {
                Ok(body) => match de_fields(fields.skip(1), entries) {
                    Ok(rest) => Ok(seq![body] + rest),
                    Err(e) => Err(e),
                },
                Err(e) => Err(e),
            },
        }
    }
}

/// Find an object member by name: the first match wins.
fn obj_get<'a>(entries: &'a Vec<(String, JsonValue)>, name: &str) -> (r: Option<
    &'a JsonValue,
>)
    ensures
        match r {
            Some(x) => obj_lookup(jv_view_obj(entries@), name@) == Some(x@),
            None => obj_lookup(jv_view_obj(entries@), name@) is None,
        },
{
    proof {
        lemma_jv_view_obj(entries@);
    }
    let ghost full = jv_view_obj(entries@);
    let mut j: usize = 0;
    proof {
        assert(full.skip(0) =~= full);
    }
    while j < entries.len()
        invariant
            j <= entries@.len(),
            full == jv_view_obj(entries@),
            full.len() == entries@.len(),
            forall|k: int| 0 <= k < entries@.len() ==> full[k] == ((
            #[trigger] entries@[k]).0@, crate::json::jv_view(entries@[k].1)),
            obj_lookup(full, name@) == obj_lookup(full.skip(j as int), name@),
        decreases entries@.len() - j,
    {
        let hit = str_eq(entries[j].0.as_str(), name);
        proof {
            assert(full.skip(j as int)[0] == full[j as int]);
            assert(full.skip(j as int).skip(1) =~= full.skip(j + 1));
        }
        if hit {
            return Some(&entries[j].1);
        }
        j = j + 1;
    }
    proof {
        assert(full.skip(entries@.len() as int) =~= Seq::<(Seq<char>, JsonVal)>::empty());
    }
    None
}

impl Ty {
    /// Deserialize one JSON value as a child of the builder's innermost
    /// frame, per this schema.
    pub fn deserialize(&self, value: &JsonValue, b: &mut Builder) -> (r: Result<(), Error>)
        requires
            old(b).wf(),
            old(b).can_write(),
        ensures
            final(b).wf(),
            match r {
                Ok(()) => {
                    &&& de_spec(*self, value@) is Ok
                    &&& final(b)@ == push_child(old(b)@, de_spec(*self, value@)->Ok_0)
                },
                Err(e) => {
                    &&& de_spec(*self, value@) == Err::<Seq<u8>, ErrorV>(e@)
                    &&& extends_frames(old(b)@, final(b)@)
                },
            },
        decreases *self,
    {
        match self {
            Ty::Bool => match value {
                JsonValue::Bool(x) => {
                    b.write_bool(*x);
                    Ok(())
                },
                _ => Err(Error::UnexpectedType { expected: "a boolean", got: kind_str(value) }),
            },
            Ty::U64 => match value {
                JsonValue::Number(JsonNumber::PosInt(n)) => {
                    b.write_u64(*n);
                    Ok(())
                },
                _ => Err(
                    Error::UnexpectedType {
                        expected: "a non-negative integer",
                        got: kind_str(value),
                    },
                ),
            },
            Ty::I64 => match value {
                JsonValue::Number(JsonNumber::PosInt(n)) => {
                    if *n <= i64::MAX as u64 {
                        b.write_i64(*n as i64);
                        Ok(())
                    } else {
                        Err(Error::UnexpectedType { expected: "an integer", got: kind_str(value) })
                    }
                },
                JsonValue::Number(JsonNumber::NegInt(m)) => {
                    b.write_i64(*m);
                    Ok(())
                },
                _ => Err(Error::UnexpectedType { expected: "an integer", got: kind_str(value) }),
            },
            Ty::F64 => match value {
                JsonValue::Number(n) => {
                    let bits = match n {
                        JsonNumber::PosInt(p) => crate::ieee::bits_from_u64(*p),
                        JsonNumber::NegInt(m) => crate::ieee::bits_from_i64(*m),
                        JsonNumber::Float(bits) => *bits,
                    };
                    b.write_bits64(bits);
                    Ok(())
                },
                _ => Err(Error::UnexpectedType { expected: "a number", got: kind_str(value) }),
            },
            Ty::Bytes => match value {
                JsonValue::Array(elems) => {
                    proof {
                        lemma_jv_view_arr(elems@);
                    }
                    let ghost vs = jv_view_arr(elems@);
                    let mut bytes: Vec<u8> = Vec::new();
                    let mut i: usize = 0;
                    proof {
                        assert(vs.skip(0) =~= vs);
                        if bytes_of(vs) is Some {
                            assert(Seq::<u8>::empty() + bytes_of(vs)->Some_0 =~= bytes_of(
                                vs,
                            )->Some_0);
                        }
                    }
                    while i < elems.len()
                        invariant
                            i <= elems@.len(),
                            vs == jv_view_arr(elems@),
                            vs.len() == elems@.len(),
                            forall|k: int| 0 <= k < elems@.len() ==> vs[k] == crate::json::jv_view(
                                #[trigger] elems@[k],
                            ),
                            old(b).wf(),
                            old(b).can_write(),
                            b@ == old(b)@,
                            *self == Ty::Bytes,
                            value@ == JsonVal::Arr(vs),
                            bytes_of(vs) == (match bytes_of(vs.skip(i as int)) {
                                Some(rest) => Some(bytes@ + rest),
                                None => None::<Seq<u8>>,
                            }),
                        decreases elems@.len() - i,
                    {
                        proof {
                            assert(vs.skip(i as int)[0] == vs[i as int]);
                            assert(vs.skip(i as int).skip(1) =~= vs.skip(i + 1));
                        }
                        match &elems[i] {
                            JsonValue::Number(JsonNumber::PosInt(p)) => {
                                if *p <= 255 {
                                    let ghost pre = bytes@;
                                    bytes.push(*p as u8);
                                    proof {
                                        if bytes_of(vs.skip(i + 1)) is Some {
                                            let rest = bytes_of(vs.skip(i + 1))->Some_0;
                                            assert(bytes_of(vs.skip(i as int)) == Some(
                                                seq![(vs[i as int]->Number_0->PosInt_0) as u8]
                                                    + rest,
                                            ));
                                            assert(pre + (seq![(vs[i as int]->Number_0->PosInt_0) as u8]
                                                + rest) =~= bytes@ + rest);
                                        }
                                    }
                                } else {
                                    return Err(Error::NotAByte);
                                }
                            },
                            _ => {
                                return Err(Error::NotAByte);
                            },
                        }
                        i = i + 1;
                    }
                    proof {
                        assert(vs.skip(elems@.len() as int) =~= Seq::<JsonVal>::empty());
                        assert(bytes_of(vs) == Some(bytes@ + Seq::<u8>::empty()));
                        assert(bytes@ + Seq::<u8>::empty() =~= bytes@);
                    }
                    b.write_bytes(bytes.as_slice());
                    Ok(())
                },
                _ => Err(Error::UnexpectedType { expected: "a byte array", got: kind_str(value) }),
            },
            Ty::String => match value {
                JsonValue::String(s) => {
                    b.write_str(s.as_str());
                    Ok(())
                },
                _ => Err(Error::UnexpectedType { expected: "a string", got: kind_str(value) }),
            },
            Ty::Array { inner } => match value {
                JsonValue::Array(elems) => {
                    proof {
                        lemma_jv_view_arr(elems@);
                    }
                    let ghost vs = jv_view_arr(elems@);
                    let ghost with_frame = old(b)@ + seq![
                        (FrameView { is_vector: true, children: Seq::empty() }),
                    ];
                    b.start_vector();
                    let mut i: usize = 0;
                    proof {
                        assert(vs.skip(0) =~= vs);
                        assert(b@.last().children =~= Seq::<Seq<u8>>::empty());
                        if de_elems(**inner, vs) is Ok {
                            assert(Seq::<Seq<u8>>::empty() + de_elems(**inner, vs)->Ok_0
                                =~= de_elems(**inner, vs)->Ok_0);
                        }
                    }
                    while i < elems.len()
                        invariant
                            i <= elems@.len(),
                            vs == jv_view_arr(elems@),
                            vs.len() == elems@.len(),
                            forall|k: int| 0 <= k < elems@.len() ==> vs[k] == crate::json::jv_view(
                                #[trigger] elems@[k],
                            ),
                            *self == (Ty::Array { inner: *inner }),
                            value@ == JsonVal::Arr(vs),
                            b.wf(),
                            b@.len() >= 2,
                            b@.len() == old(b)@.len() + 1,
                            b@.last().is_vector,
                            b@.drop_last() == old(b)@,
                            (match de_elems(**inner, vs.skip(i as int)) {
                                Ok(rest) => de_elems(**inner, vs) == Ok::<_, ErrorV>(
                                    b@.last().children + rest,
                                ),
                                Err(e) => de_elems(**inner, vs) == Err::<Seq<Seq<u8>>, _>(e),
                            }),
                        decreases elems@.len() - i,
                    {
                        proof {
                            assert(vs.skip(i as int)[0] == vs[i as int]);
                            assert(vs.skip(i as int).skip(1) =~= vs.skip(i + 1));
                            assert(decreases_to!(*self => self->Array_inner));
                            assert(self->Array_inner == *inner);
                        }
                        let ghost before = b@;
                        let res = (&**inner).deserialize(&elems[i], b);
                        match res {
                            Ok(()) => {
                                proof {
                                    let body = de_spec(**inner, vs[i as int])->Ok_0;
                                    assert(b@ == push_child(before, body));
                                    assert(b@.drop_last() =~= before.drop_last());
                                    assert(b@.last().children =~= before.last().children.push(
                                        body,
                                    ));
                                    if de_elems(**inner, vs.skip(i + 1)) is Ok {
                                        let rest = de_elems(**inner, vs.skip(i + 1))->Ok_0;
                                        assert(before.last().children + (seq![body] + rest) =~= b@
                                            .last().children + rest);
                                    }
                                }
                            },
                            Err(e) => {
                                return Err(e);
                            },
                        }
                        i = i + 1;
                    }
                    proof {
                        assert(vs.skip(elems@.len() as int) =~= Seq::<JsonVal>::empty());
                        assert(b@.last().children + Seq::<Seq<u8>>::empty() =~= b@
                            .last().children);
                    }
                    b.end_vector();
                    proof {
                        assert(b@ == push_child(old(b)@, de_spec(*self, value@)->Ok_0));
                    }
                    Ok(())
                },
                _ => Err(Error::UnexpectedType { expected: "an array", got: kind_str(value) }),
            },
            Ty::Struct { fields } => match value {
                JsonValue::Object(entries) => {
                    proof {
                        lemma_jv_view_obj(entries@);
                    }
                    let ghost es = jv_view_obj(entries@);
                    b.start_tuple();
                    let mut i: usize = 0;
                    proof {
                        assert(fields@.skip(0) =~= fields@);
                        assert(b@.last().children =~= Seq::<Seq<u8>>::empty());
                        if de_fields(fields@, es) is Ok {
                            assert(Seq::<Seq<u8>>::empty() + de_fields(fields@, es)->Ok_0
                                =~= de_fields(fields@, es)->Ok_0);
                        }
                    }
                    while i < fields.len()
                        invariant
                            i <= fields@.len(),
                            es == jv_view_obj(entries@),
                            *self == (Ty::Struct { fields: *fields }),
                            value@ == JsonVal::Obj(es),
                            es == jv_view_obj(entries@),
                            b.wf(),
                            b@.len() >= 2,
                            b@.len() == old(b)@.len() + 1,
                            !b@.last().is_vector,
                            b@.drop_last() == old(b)@,
                            (match de_fields(fields@.skip(i as int), es) {
                                Ok(rest) => de_fields(fields@, es) == Ok::<_, ErrorV>(
                                    b@.last().children + rest,
                                ),
                                Err(e) => de_fields(fields@, es) == Err::<Seq<Seq<u8>>, _>(e),
                            }),
                        decreases fields@.len() - i,
                    {
                        proof {
                            assert(fields@.skip(i as int)[0] == fields@[i as int]);
                            assert(fields@.skip(i as int).skip(1) =~= fields@.skip(i + 1));
                            assert(decreases_to!(*self => self->Struct_fields));
                            assert(self->Struct_fields == *fields);
                            assert(decreases_to!(*fields => fields@));
                            assert(decreases_to!(fields@ => fields@[i as int]));
                            assert(decreases_to!(fields@[i as int] => fields@[i as int].ty));
                        }
                        let field = &fields[i];
                        match obj_get(entries, field.name.as_str()) {
                            None => {
                                return Err(
                                    Error::MissingField { name: field.name.as_str().to_owned() },
                                );
                            },
                            Some(x) => {
                                let ghost before = b@;
                                let res = field.ty.deserialize(x, b);
                                match res {
                                    Ok(()) => {
                                        proof {
                                            let body = de_spec(field.ty, x@)->Ok_0;
                                            assert(b@ == push_child(before, body));
                                            assert(b@.drop_last() =~= before.drop_last());
                                            assert(b@.last().children =~= before
                                                .last().children.push(body));
                                            if de_fields(fields@.skip(i + 1), es) is Ok {
                                                let rest = de_fields(
                                                    fields@.skip(i + 1),
                                                    es,
                                                )->Ok_0;
                                                assert(before.last().children + (seq![body] + rest)
                                                    =~= b@.last().children + rest);
                                            }
                                        }
                                    },
                                    Err(e) => {
                                        return Err(e);
                                    },
                                }
                            },
                        }
                        i = i + 1;
                    }
                    proof {
                        assert(fields@.skip(fields@.len() as int) =~= Seq::<Field>::empty());
                        assert(b@.last().children + Seq::<Seq<u8>>::empty() =~= b@
                            .last().children);
                    }
                    b.end_tuple();
                    Ok(())
                },
                _ => Err(Error::UnexpectedType { expected: "an object", got: kind_str(value) }),
            },
        }
    }
}

/// The JSON kind of a value, as the error messages name it.
fn kind_str(v: &JsonValue) -> (r: &'static str)
    ensures
        r@ == kind_name(v@),
{
    match v {
        JsonValue::Null => "null",
        JsonValue::Bool(_) => "a boolean",
        JsonValue::Number(_) => "a number",
        JsonValue::String(_) => "a string",
        JsonValue::Array(_) => "an array",
        JsonValue::Object(_) => "an object",
    }
}

/// Deserialize a JSON tree against a schema into a fresh document.
pub fn deserialize(ty: &Ty, value: &JsonValue) -> (r: Result<FlatbinBuf, Error>)
    ensures
        match r {
            Ok(buf) => de_spec(*ty, value@) == Ok::<Seq<u8>, ErrorV>(buf@),
            Err(e) => de_spec(*ty, value@) == Err::<Seq<u8>, ErrorV>(e@),
        },
{
    let mut b = Builder::new();
    match ty.deserialize(value, &mut b) {
        Ok(()) => Ok(b.finish()),
        Err(e) => Err(e),
    }
}

/// Deserialize a JSON tree against a schema, appending the document's
/// bytes to the buffer; on an error the buffer is left as it was.
pub fn deserialize_into(ty: &Ty, value: &JsonValue, buffer: &mut FlatbinBuf) -> (r: Result<
    (),
    Error,
>)
    ensures
        match r {
            Ok(()) => {
                &&& de_spec(*ty, value@) is Ok
                &&& final(buffer)@ == old(buffer)@ + de_spec(*ty, value@)->Ok_0
            },
            Err(e) => {
                &&& de_spec(*ty, value@) == Err::<Seq<u8>, ErrorV>(e@)
                &&& final(buffer)@ == old(buffer)@
            },
        },
{
    match deserialize(ty, value) {
        Ok(buf) => {
            let bytes = buf.to_vec();
            buffer.push_bytes(&bytes);
            Ok(())
        },
        Err(e) => Err(e),
    }
}

} // verus!
