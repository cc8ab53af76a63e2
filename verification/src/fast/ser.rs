//! Flatbin-to-token serialization: walk a schema and a document in
//! lockstep and emit the JSON tokens of the value, with no tree in
//! between. The token stream is exactly the linearization of what the
//! slow path would rebuild.

use vstd::prelude::*;

verus! {

use super::tokens_view;
use super::JsonToken;
use super::TokenV;
use crate::flatbin::seq_items;
use crate::flatbin::Error;
use crate::flatbin::Flatbin;
use crate::json::JsonNumber;
use crate::json::JsonVal;
use crate::slow::ser::ser_elems;
use crate::slow::ser::ser_fields;
use crate::slow::ser::ser_spec;
use crate::ty::Field;
use crate::ty::Ty;

/// The token stream of a JSON value, read in document order.
pub open spec fn tokens_of(v: JsonVal) -> Seq<TokenV>
    decreases v, 1int,
{
    match v {
        JsonVal::Null => seq![TokenV::Null],
        JsonVal::Bool(b) => seq![TokenV::Bool(b)],
        JsonVal::Number(n) => seq![TokenV::Number(n)],
        JsonVal::Str(s) => seq![TokenV::Str(s)],
        JsonVal::Arr(elems) => seq![TokenV::BeginArray] + tokens_of_list(elems) + seq![
            TokenV::EndArray,
        ],
        JsonVal::Obj(entries) => seq![TokenV::BeginObject] + tokens_of_members(entries) + seq![
            TokenV::EndObject,
        ],
    }
}

/// The token streams of an array's elements, concatenated in order.
pub open spec fn tokens_of_list(elems: Seq<JsonVal>) -> Seq<TokenV>
    decreases elems, 0int,
{
    if elems.len() == 0 {
        Seq::empty()
    } else {
        tokens_of(elems[0]) + tokens_of_list(elems.skip(1))
    }
}

/// The token streams of an object's members, each a key and its value,
/// concatenated in order.
pub open spec fn tokens_of_members(entries: Seq<(Seq<char>, JsonVal)>) -> Seq<TokenV>
    decreases entries, 0int,
{
    if entries.len() == 0 {
        Seq::empty()
    } else {
        seq![TokenV::Key(entries[0].0)] + tokens_of(entries[0].1) + tokens_of_members(
            entries.skip(1),
        )
    }
}

/// Append one token, as a stream view step.
fn push_token(out: &mut Vec<JsonToken>, t: JsonToken)
    ensures
        tokens_view(final(out)@) == tokens_view(old(out)@) + seq![t@],
{
    let ghost pre = out@;
    out.push(t);
    proof {
        super::lemma_tokens_view(pre);
        super::lemma_tokens_view(out@);
        assert(out@.drop_last() =~= pre);
        assert(tokens_view(out@) =~= tokens_view(pre) + seq![t@]);
    }
}

/// Serialize one flatbin value into JSON tokens appended to `out`, per a
/// schema: the emitted tokens are exactly the linearization of the JSON
/// value the document decodes to.
pub fn ser_tokens(ty: &Ty, value: &Flatbin<'_>, out: &mut Vec<JsonToken>) -> (r: Result<
    (),
    Error,
>)
    ensures
        match r {
            Ok(()) => {
                &&& ser_spec(*ty, value@) is Ok
                &&& tokens_view(final(out)@) == tokens_view(old(out)@) + tokens_of(
                    ser_spec(*ty, value@)->Ok_0,
                )
            },
            Err(e) => ser_spec(*ty, value@) == Err::<JsonVal, Error>(e),
        },
    decreases *ty,
{
    match ty {
        Ty::Bool => match value.read_bool() {
            Ok(b) => {
                push_token(out, JsonToken::Bool(b));
                Ok(())
            },
            Err(e) => Err(e),
        },
        Ty::U64 => match value.read_u64() {
            Ok(v) => {
                push_token(out, JsonToken::Number(JsonNumber::PosInt(v)));
                Ok(())
            },
            Err(e) => Err(e),
        },
        Ty::I64 => match value.read_i64() {
            Ok(v) => {
                let n = if v >= 0 {
                    JsonNumber::PosInt(v as u64)
                } else {
                    JsonNumber::NegInt(v)
                };
                push_token(out, JsonToken::Number(n));
                Ok(())
            },
            Err(e) => Err(e),
        },
        Ty::F64 => match value.read_bits64() {
            Ok(bits) => {
                push_token(out, JsonToken::Number(JsonNumber::Float(bits)));
                Ok(())
            },
            Err(e) => Err(e),
        },
        Ty::Bytes => {
            let data = value.as_bytes();
            let ghost vals = Seq::new(
                value@.len(),
                |k: int| JsonVal::Number(JsonNumber::PosInt(value@[k] as u64)),
            );
            push_token(out, JsonToken::BeginArray);
            let mut i: usize = 0;
            proof {
                assert(vals.skip(0) =~= vals);
            }
            while i < data.len()
                invariant
                    i <= data@.len(),
                    data@ == value@,
                    vals == Seq::new(
                        value@.len(),
                        |k: int| JsonVal::Number(JsonNumber::PosInt(value@[k] as u64)),
                    ),
                    tokens_view(out@) + tokens_of_list(vals.skip(i as int)) == tokens_view(
                        old(out)@,
                    ) + seq![TokenV::BeginArray] + tokens_of_list(vals),
                decreases data@.len() - i,
            {
                proof {
                    assert(vals.skip(i as int)[0] == vals[i as int]);
                    assert(vals.skip(i as int).skip(1) =~= vals.skip(i + 1));
                }
                let ghost pre = tokens_view(out@);
                push_token(out, JsonToken::Number(JsonNumber::PosInt(data[i] as u64)));
                proof {
                    assert(tokens_of(vals[i as int]) =~= seq![
                        TokenV::Number(JsonNumber::PosInt(value@[i as int] as u64)),
                    ]);
                    assert(tokens_view(out@) + tokens_of_list(vals.skip(i + 1)) =~= tokens_view(
                        old(out)@,
                    ) + seq![TokenV::BeginArray] + tokens_of_list(vals));
                }
                i = i + 1;
            }
            proof {
                assert(vals.skip(data@.len() as int) =~= Seq::<JsonVal>::empty());
            }
            push_token(out, JsonToken::EndArray);
            proof {
                assert(tokens_view(out@) =~= tokens_view(old(out)@) + tokens_of(
                    ser_spec(*ty, value@)->Ok_0,
                ));
            }
            Ok(())
        },
        Ty::String => match value.read_string() {
            Ok(s) => {
                push_token(out, JsonToken::Str(s.to_owned()));
                Ok(())
            },
            Err(e) => Err(e),
        },
        Ty::Array { inner } => {
            let s = match value.read_array() {
                Ok(s) => s,
                Err(e) => {
                    return Err(e);
                },
            };
            let count = s.len();
            let ghost items = seq_items(s.spec_count(), s.spec_data());
            let ghost vals = ser_elems(**inner, items);
            proof {
                crate::flatbin::lemma_seq_items_len(s.spec_count(), s.spec_data());
                assert(items.skip(0) =~= items);
            }
            push_token(out, JsonToken::BeginArray);
            let mut iter = s.iter();
            let mut i: usize = 0;
            while i < count
                invariant
                    i <= count,
                    *ty == (Ty::Array { inner: *inner }),
                    ser_spec(*ty, value@) == (match ser_elems(**inner, items) {
                        Ok(vs) => Ok::<JsonVal, Error>(JsonVal::Arr(vs)),
                        Err(e) => Err::<JsonVal, Error>(e),
                    }),
                    items.len() == count,
                    iter.spec_items() == items.skip(i as int),
                    iter.spec_count() == count - i,
                    (match ser_elems(**inner, items.skip(i as int)) {
                        Ok(rest) => ser_elems(**inner, items) is Ok && tokens_view(out@)
                            + tokens_of_list(rest) == tokens_view(old(out)@) + seq![
                            TokenV::BeginArray,
                        ] + tokens_of_list(ser_elems(**inner, items)->Ok_0),
                        Err(e) => ser_elems(**inner, items) == Err::<Seq<JsonVal>, Error>(e),
                    }),
                decreases count - i,
            {
                proof {
                    assert(items.skip(i as int)[0] == items[i as int]);
                    assert(items.skip(i as int).skip(1) =~= items.skip(i + 1));
                    assert(decreases_to!(*ty => ty->Array_inner));
                    assert(ty->Array_inner == *inner);
                }
                let item = match iter.next() {
                    Some(f) => f,
                    None => {
                        proof {
                            assert(false);
                        }
                        return Err(Error::UnexpectedEOF);
                    },
                };
                match ser_tokens(&**inner, &item, out) {
                    Ok(()) => {
                        proof {
                            if ser_elems(**inner, items.skip(i + 1)) is Ok {
                                let v0 = ser_spec(**inner, items[i as int])->Ok_0;
                                let rest1 = ser_elems(**inner, items.skip(i + 1))->Ok_0;
                                assert(tokens_of_list(seq![v0] + rest1) == tokens_of(v0)
                                    + tokens_of_list(rest1)) by {
                                    let whole = seq![v0] + rest1;
                                    assert(whole[0] == v0);
                                    assert(whole.skip(1) =~= rest1);
                                };
                                assert(tokens_view(out@) + tokens_of_list(rest1) =~= tokens_view(
                                    old(out)@,
                                ) + seq![TokenV::BeginArray] + tokens_of_list(
                                    ser_elems(**inner, items)->Ok_0,
                                ));
                            }
                        }
                    },
                    Err(e) => {
                        return Err(e);
                    },
                }
                i = i + 1;
            }
            proof {
                assert(items.skip(count as int) =~= Seq::<Seq<u8>>::empty());
            }
            push_token(out, JsonToken::EndArray);
            proof {
                assert(tokens_view(out@) =~= tokens_view(old(out)@) + tokens_of(
                    ser_spec(*ty, value@)->Ok_0,
                ));
            }
            Ok(())
        },
        Ty::Struct { fields } => {
            let s = match value.read_tuple(fields.len()) {
                Ok(s) => s,
                Err(e) => {
                    return Err(e);
                },
            };
            let count = fields.len();
            let ghost items = seq_items(s.spec_count(), s.spec_data());
            proof {
                crate::flatbin::lemma_seq_items_len(s.spec_count(), s.spec_data());
                assert(items.skip(0) =~= items);
                assert(fields@.skip(0) =~= fields@);
            }
            push_token(out, JsonToken::BeginObject);
            let mut iter = s.iter();
            let mut i: usize = 0;
            while i < count
                invariant
                    i <= count,
                    count == fields@.len(),
                    *ty == (Ty::Struct { fields: *fields }),
                    ser_spec(*ty, value@) == (match ser_fields(fields@, items) {
                        Ok(ms) => Ok::<JsonVal, Error>(JsonVal::Obj(ms)),
                        Err(e) => Err::<JsonVal, Error>(e),
                    }),
                    items.len() == count,
                    iter.spec_items() == items.skip(i as int),
                    iter.spec_count() == count - i,
                    (match ser_fields(fields@.skip(i as int), items.skip(i as int)) {
                        Ok(rest) => ser_fields(fields@, items) is Ok && tokens_view(out@)
                            + tokens_of_members(rest) == tokens_view(old(out)@) + seq![
                            TokenV::BeginObject,
                        ] + tokens_of_members(ser_fields(fields@, items)->Ok_0),
                        Err(e) => ser_fields(fields@, items) == Err::<
                            Seq<(Seq<char>, JsonVal)>,
                            Error,
                        >(e),
                    }),
                decreases count - i,
            {
                proof {
                    assert(items.skip(i as int)[0] == items[i as int]);
                    assert(items.skip(i as int).skip(1) =~= items.skip(i + 1));
                    assert(fields@.skip(i as int)[0] == fields@[i as int]);
                    assert(fields@.skip(i as int).skip(1) =~= fields@.skip(i + 1));
                    assert(decreases_to!(*ty => ty->Struct_fields));
                    assert(ty->Struct_fields == *fields);
                    assert(decreases_to!(*fields => fields@));
                    assert(decreases_to!(fields@ => fields@[i as int]));
                    assert(decreases_to!(fields@[i as int] => fields@[i as int].ty));
                }
                let item = match iter.next() {
                    Some(f) => f,
                    None => {
                        proof {
                            assert(false);
                        }
                        return Err(Error::UnexpectedEOF);
                    },
                };
                let field = &fields[i];
                push_token(out, JsonToken::Key(field.name.as_str().to_owned()));
                match ser_tokens(&field.ty, &item, out) {
                    Ok(()) => {
                        proof {
                            if ser_fields(fields@.skip(i + 1), items.skip(i + 1)) is Ok {
                                let v0 = ser_spec(fields@[i as int].ty, items[i as int])->Ok_0;
                                let m0 = (fields@[i as int].name@, v0);
                                let rest1 = ser_fields(
                                    fields@.skip(i + 1),
                                    items.skip(i + 1),
                                )->Ok_0;
                                assert(tokens_of_members(seq![m0] + rest1) == seq![
                                    TokenV::Key(m0.0),
                                ] + tokens_of(m0.1) + tokens_of_members(rest1)) by {
                                    let whole = seq![m0] + rest1;
                                    assert(whole[0] == m0);
                                    assert(whole.skip(1) =~= rest1);
                                };
                                assert(tokens_view(out@) + tokens_of_members(rest1)
                                    =~= tokens_view(old(out)@) + seq![TokenV::BeginObject]
                                    + tokens_of_members(ser_fields(fields@, items)->Ok_0));
                            }
                        }
                    },
                    Err(e) => {
                        return Err(e);
                    },
                }
                i = i + 1;
            }
            proof {
                assert(items.skip(count as int) =~= Seq::<Seq<u8>>::empty());
                assert(fields@.skip(count as int) =~= Seq::<Field>::empty());
            }
            push_token(out, JsonToken::EndObject);
            proof {
                assert(tokens_view(out@) =~= tokens_view(old(out)@) + tokens_of(
                    ser_spec(*ty, value@)->Ok_0,
                ));
            }
            Ok(())
        },
    }
}

/// Serialize a flatbin document into the JSON tokens of the value it
/// decodes to, per a schema.
pub fn serialize(ty: &Ty, value: &Flatbin<'_>) -> (r: Result<Vec<JsonToken>, Error>)
    ensures
        match r {
            Ok(toks) => {
                &&& ser_spec(*ty, value@) is Ok
                &&& tokens_view(toks@) == tokens_of(ser_spec(*ty, value@)->Ok_0)
            },
            Err(e) => ser_spec(*ty, value@) == Err::<JsonVal, Error>(e),
        },
{
    let mut out: Vec<JsonToken> = Vec::new();
    match ser_tokens(ty, value, &mut out) {
        Ok(()) => {
            proof {
                assert(tokens_view(Seq::<JsonToken>::empty()) + tokens_of(
                    ser_spec(*ty, value@)->Ok_0,
                ) =~= tokens_of(ser_spec(*ty, value@)->Ok_0));
            }
            Ok(out)
        },
        Err(e) => Err(e),
    }
}

} // verus!
