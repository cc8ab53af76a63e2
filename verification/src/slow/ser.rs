//! Flatbin-to-tree serialization: walk a schema and a document in
//! lockstep and rebuild the JSON value.

use vstd::prelude::*;

verus! {

use crate::flatbin::seq_items;
use crate::flatbin::spec_read_array;
use crate::flatbin::spec_read_bool;
use crate::flatbin::spec_read_int;
use crate::flatbin::spec_read_str;
use crate::flatbin::spec_read_uint;
use crate::flatbin::Error;
use crate::flatbin::Flatbin;
use crate::json::jv_view_arr;
use crate::json::jv_view_obj;
use crate::json::lemma_jv_view_arr;
use crate::json::lemma_jv_view_obj;
use crate::json::JsonNumber;
use crate::json::JsonVal;
use crate::json::JsonValue;
use crate::scalars::le_val;
use crate::ty::Field;
use crate::ty::Ty;

/// What serializing a flatbin body against a schema yields: the JSON
/// value it decodes to, or the first reader error the walk meets.
pub open spec fn ser_spec(ty: Ty, data: Seq<u8>) -> Result<JsonVal, Error>
    decreases ty, 0int,
{
    match ty {
        Ty::Bool => match spec_read_bool(data) {
            Ok(b) => Ok(JsonVal::Bool(b)),
            Err(e) => Err(e),
        },
        Ty::U64 => match spec_read_uint(data) {
            Ok(v) => Ok(JsonVal::Number(JsonNumber::PosInt(v))),
            Err(e) => Err(e),
        },
        Ty::I64 => match spec_read_int(data) {
            Ok(v) => Ok(
                JsonVal::Number(
                    if v >= 0 {
                        JsonNumber::PosInt(v as u64)
                    } else {
                        JsonNumber::NegInt(v)
                    },
                ),
            ),
            Err(e) => Err(e),
        },
        Ty::F64 => if data.len() == 8 {
            Ok(JsonVal::Number(JsonNumber::Float(le_val(data) as u64)))
        } else {
            Err(Error::UnexpectedLength)
        },
        Ty::Bytes => Ok(
            JsonVal::Arr(
                Seq::new(
                    data.len(),
                    |i: int| JsonVal::Number(JsonNumber::PosInt(data[i] as u64)),
                ),
            ),
        ),
        Ty::String => match spec_read_str(data) {
            Ok(s) => Ok(JsonVal::Str(s)),
            Err(e) => Err(e),
        },
        Ty::Array { inner } => match spec_read_array(data) {
            Ok((count, rest)) => if count > usize::MAX {
                Err(Error::UnexpectedLength)
            } else {
                match ser_elems(*inner, seq_items(count, rest)) {
                    Ok(vals) => Ok(JsonVal::Arr(vals)),
                    Err(e) => Err(e),
                }
            },
            Err(e) => Err(e),
        },
        Ty::Struct { fields } => match ser_fields(fields@, seq_items(fields@.len(), data)) {
            Ok(members) => Ok(JsonVal::Obj(members)),
            Err(e) => Err(e),
        },
    }
}

/// The JSON values an array's framed elements serialize to, in order.
pub open spec fn ser_elems(inner: Ty, items: Seq<Seq<u8>>) -> Result<Seq<JsonVal>, Error>
    decreases inner, items.len() + 1,
{
    if items.len() == 0 {
        Ok(Seq::empty())
    } else {
        match ser_spec(inner, items[0]) {
            Ok(v) => match ser_elems(inner, items.skip(1)) {
                Ok(rest) => Ok(seq![v] + rest),
                Err(e) => Err(e),
            },
            Err(e) => Err(e),
        }
    }
}

/// The members a struct's framed children serialize to, named in schema
/// order.
pub open spec fn ser_fields(fields: Seq<Field>, items: Seq<Seq<u8>>) -> Result<
    Seq<(Seq<char>, JsonVal)>,
    Error,
>
    decreases fields, 0int,
{
    if fields.len() == 0 {
        Ok(Seq::empty())
    } else {
        match ser_spec(fields[0].ty, items[0]) {
            Ok(v) => match ser_fields(fields.skip(1), items.skip(1)) {
                Ok(rest) => Ok(seq![(fields[0].name@, v)] + rest),
                Err(e) => Err(e),
            },
            Err(e) => Err(e),
        }
    }
}

impl Ty {
    /// Serialize one flatbin value back into a JSON tree, per this
    /// schema.
    pub fn serialize(&self, value: &Flatbin<'_>) -> (r: Result<JsonValue, Error>)
        ensures
            match r {
                Ok(v) => ser_spec(*self, value@) == Ok::<JsonVal, Error>(v@),
                Err(e) => ser_spec(*self, value@) == Err::<JsonVal, Error>(e),
            },
        decreases *self,
    {
        match self {
            Ty::Bool => match value.read_bool() {
                Ok(b) => Ok(JsonValue::Bool(b)),
                Err(e) => Err(e),
            },
            Ty::U64 => match value.read_u64() {
                Ok(v) => Ok(JsonValue::Number(JsonNumber::PosInt(v))),
                Err(e) => Err(e),
            },
            Ty::I64 => match value.read_i64() {
                Ok(v) => Ok(
                    JsonValue::Number(
                        if v >= 0 {
                            JsonNumber::PosInt(v as u64)
                        } else {
                            JsonNumber::NegInt(v)
                        },
                    ),
                ),
                Err(e) => Err(e),
            },
            Ty::F64 => match value.read_bits64() {
                Ok(bits) => Ok(JsonValue::Number(JsonNumber::Float(bits))),
                Err(e) => Err(e),
            },
            Ty::Bytes => {
                let data = value.as_bytes();
                let mut elems: Vec<JsonValue> = Vec::new();
                let mut i: usize = 0;
                while i < data.len()
                    invariant
                        i <= data@.len(),
                        data@ == value@,
                        elems@.len() == i,
                        forall|k: int| 0 <= k < i ==> elems@[k] == JsonValue::Number(
                            JsonNumber::PosInt(#[trigger] data@[k] as u64),
                        ),
                    decreases data@.len() - i,
                {
                    elems.push(JsonValue::Number(JsonNumber::PosInt(data[i] as u64)));
                    i = i + 1;
                }
                proof {
                    lemma_jv_view_arr(elems@);
                    assert(jv_view_arr(elems@) =~= Seq::new(
                        value@.len(),
                        |k: int| JsonVal::Number(JsonNumber::PosInt(value@[k] as u64)),
                    ));
                }
                Ok(JsonValue::Array(elems))
            },
            Ty::String => match value.read_string() {
                Ok(s) => Ok(JsonValue::String(s.to_owned())),
                Err(e) => Err(e),
            },
            Ty::Array { inner } => {
                let s = match value.read_array() {
                    Ok(s) => s,
                    Err(e) => {
                        return Err(e);
                    },
                };
                let count = s.len();
                let ghost items = seq_items(s.spec_count(), s.spec_data());
                proof {
                    crate::flatbin::lemma_seq_items_len(s.spec_count(), s.spec_data());
                    assert(items.skip(0) =~= items);
                    if ser_elems(**inner, items) is Ok {
                        assert(Seq::<JsonVal>::empty() + ser_elems(**inner, items)->Ok_0
                            =~= ser_elems(**inner, items)->Ok_0);
                    }
                }
                let mut iter = s.iter();
                let mut elems: Vec<JsonValue> = Vec::new();
                let mut i: usize = 0;
                while i < count
                    invariant
                        i <= count,
                        *self == (Ty::Array { inner: *inner }),
                        ser_spec(*self, value@) == (match ser_elems(**inner, items) {
                            Ok(vals) => Ok::<JsonVal, Error>(JsonVal::Arr(vals)),
                            Err(e) => Err::<JsonVal, Error>(e),
                        }),
                        items.len() == count,
                        iter.spec_items() == items.skip(i as int),
                        iter.spec_count() == count - i,
                        (match ser_elems(**inner, items.skip(i as int)) {
                            Ok(rest) => ser_elems(**inner, items) == Ok::<_, Error>(
                                jv_view_arr(elems@) + rest,
                            ),
                            Err(e) => ser_elems(**inner, items) == Err::<Seq<JsonVal>, Error>(
                                e,
                            ),
                        }),
                    decreases count - i,
                {
                    proof {
                        crate::flatbin::lemma_seq_items_len(
                            iter.spec_count(),
                            iter.spec_data(),
                        );
                        assert(items.skip(i as int)[0] == items[i as int]);
                        assert(items.skip(i as int).skip(1) =~= items.skip(i + 1));
                        assert(decreases_to!(*self => self->Array_inner));
                        assert(self->Array_inner == *inner);
                    }
                    let item = match iter.next() {
                        Some(f) => f,
                        None => {
                            proof {
                                assert(false);
                            }
                            return Err(Error::UnexpectedEOF);
                        },
                    };
                    match (&**inner).serialize(&item) {
                        Ok(v) => {
                            let ghost pre = elems@;
                            elems.push(v);
                            proof {
                                lemma_jv_view_arr(pre);
                                lemma_jv_view_arr(elems@);
                                assert(elems@.drop_last() =~= pre);
                                assert(jv_view_arr(elems@) =~= jv_view_arr(pre).push(v@));
                                if ser_elems(**inner, items.skip(i + 1)) is Ok {
                                    let rest = ser_elems(**inner, items.skip(i + 1))->Ok_0;
                                    assert(jv_view_arr(pre) + (seq![v@] + rest) =~= jv_view_arr(
                                        elems@,
                                    ) + rest);
                                }
                            }
                        },
                        Err(e) => {
                            return Err(e);
                        },
                    }
                    i = i + 1;
                }
                proof {
                    assert(items.skip(count as int) =~= Seq::<Seq<u8>>::empty());
                    assert(jv_view_arr(elems@) + Seq::<JsonVal>::empty() =~= jv_view_arr(
                        elems@,
                    ));
                }
                Ok(JsonValue::Array(elems))
            },
            Ty::Struct { fields } => {
                let s = match value.read_tuple(fields.len()) {
                    Ok(s) => s,
                    Err(e) => {
                        return Err(e);
                    },
                };
                let count = fields.len();
                let ghost items = seq_items(s.spec_count(), s.spec_data());
                proof {
                    crate::flatbin::lemma_seq_items_len(s.spec_count(), s.spec_data());
                    assert(items.skip(0) =~= items);
                    assert(fields@.skip(0) =~= fields@);
                    if ser_fields(fields@, items) is Ok {
                        assert(Seq::<(Seq<char>, JsonVal)>::empty() + ser_fields(
                            fields@,
                            items,
                        )->Ok_0 =~= ser_fields(fields@, items)->Ok_0);
                    }
                }
                let mut iter = s.iter();
                let mut members: Vec<(String, JsonValue)> = Vec::new();
                let mut i: usize = 0;
                while i < count
                    invariant
                        i <= count,
                        count == fields@.len(),
                        *self == (Ty::Struct { fields: *fields }),
                        ser_spec(*self, value@) == (match ser_fields(fields@, items) {
                            Ok(ms) => Ok::<JsonVal, Error>(JsonVal::Obj(ms)),
                            Err(e) => Err::<JsonVal, Error>(e),
                        }),
                        items.len() == count,
                        iter.spec_items() == items.skip(i as int),
                        iter.spec_count() == count - i,
                        (match ser_fields(fields@.skip(i as int), items.skip(i as int)) {
                            Ok(rest) => ser_fields(fields@, items) == Ok::<_, Error>(
                                jv_view_obj(members@) + rest,
                            ),
                            Err(e) => ser_fields(fields@, items) == Err::<
                                Seq<(Seq<char>, JsonVal)>,
                                Error,
                            >(e),
                        }),
                    decreases count - i,
                {
                    proof {
                        assert(items.skip(i as int)[0] == items[i as int]);
                        assert(items.skip(i as int).skip(1) =~= items.skip(i + 1));
                        assert(fields@.skip(i as int)[0] == fields@[i as int]);
                        assert(fields@.skip(i as int).skip(1) =~= fields@.skip(i + 1));
                        assert(decreases_to!(*self => self->Struct_fields));
                        assert(self->Struct_fields == *fields);
                        assert(decreases_to!(*fields => fields@));
                        assert(decreases_to!(fields@ => fields@[i as int]));
                        assert(decreases_to!(fields@[i as int] => fields@[i as int].ty));
                    }
                    let item = match iter.next() {
                        Some(f) => f,
                        None => {
                            proof {
                                assert(false);
                            }
                            return Err(Error::UnexpectedEOF);
                        },
                    };
                    let field = &fields[i];
                    match field.ty.serialize(&item) {
                        Ok(v) => {
                            let ghost pre = members@;
                            members.push((field.name.as_str().to_owned(), v));
                            proof {
                                lemma_jv_view_obj(pre);
                                lemma_jv_view_obj(members@);
                                assert(members@.drop_last() =~= pre);
                                assert(jv_view_obj(members@) =~= jv_view_obj(pre).push(
                                    (field.name@, v@),
                                ));
                                if ser_fields(fields@.skip(i + 1), items.skip(i + 1)) is Ok {
                                    let rest = ser_fields(
                                        fields@.skip(i + 1),
                                        items.skip(i + 1),
                                    )->Ok_0;
                                    assert(jv_view_obj(pre) + (seq![(field.name@, v@)] + rest)
                                        =~= jv_view_obj(members@) + rest);
                                }
                            }
                        },
                        Err(e) => {
                            return Err(e);
                        },
                    }
                    i = i + 1;
                }
                proof {
                    assert(items.skip(count as int) =~= Seq::<Seq<u8>>::empty());
                    assert(fields@.skip(count as int) =~= Seq::<Field>::empty());
                    assert(jv_view_obj(members@) + Seq::<(Seq<char>, JsonVal)>::empty()
                        =~= jv_view_obj(members@));
                }
                Ok(JsonValue::Object(members))
            },
        }
    }
}

/// Serialize a flatbin document back into a JSON tree, per a schema.
pub fn serialize(ty: &Ty, value: &Flatbin<'_>) -> (r: Result<JsonValue, Error>)
    ensures
        match r {
            Ok(v) => ser_spec(*ty, value@) == Ok::<JsonVal, Error>(v@),
            Err(e) => ser_spec(*ty, value@) == Err::<JsonVal, Error>(e),
        },
{
    ty.serialize(value)
}

} // verus!
