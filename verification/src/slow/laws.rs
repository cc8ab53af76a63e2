//! The codec's laws: a value that conforms to a schema deserializes
//! without error, serializing the resulting bytes gives the value back,
//! and the encoder's output does not depend on the order of object keys.

use vstd::prelude::*;

verus! {

use super::de::bytes_of;
use super::de::de_elems;
use super::de::de_fields;
use super::de::de_spec;
use super::de::ErrorV;
use super::ser::ser_elems;
use super::ser::ser_fields;
use super::ser::ser_spec;
use crate::flatbin::builder::tuple_bytes;
use crate::flatbin::builder::vector_bytes;
use crate::flatbin::frame_seq;
use crate::flatbin::lemma_seq_items_of_frame;
use crate::flatbin::lemma_varint_at_unique;
use crate::flatbin::seq_items;
use crate::flatbin::spec_read_array;
use crate::flatbin::varint_at;
use crate::flatbin::varint_len_at;
use crate::flatbin::Error;
use crate::json::obj_lookup;
use crate::json::JsonNumber;
use crate::json::JsonVal;
use crate::scalars::le_val;
use crate::scalars::lemma_le_fixed_len;
use crate::scalars::lemma_le_val_le_fixed;
use crate::scalars::lemma_le_val_uint_body;
use crate::scalars::lemma_uint_body_len8;
use crate::scalars::lemma_unzigzag_zigzag;
use crate::scalars::pow256;
use crate::scalars::zigzag;
use crate::ty::Field;
use crate::ty::Ty;
use crate::varint::lemma_varint_enc_chain;
use crate::varint::lemma_varint_enc_len;
use crate::varint::lemma_varint_val_enc;
use crate::varint::pow128;
use crate::varint::varint_enc;

/// The limit one flatbin body may occupy: sequence framing addresses
/// bodies with sixty-four-bit lengths.
pub open spec fn body_fits(r: Result<Seq<u8>, ErrorV>) -> bool {
    r is Ok ==> r->Ok_0.len() < 0x1_0000_0000_0000_0000
}

/// No two fields of a struct share a name.
pub open spec fn distinct_names(fields: Seq<Field>) -> bool {
    forall|i: int, j: int|
        0 <= i < j < fields.len() ==> (#[trigger] fields[i].name@) != (#[trigger] fields[j].name@)
}

/// Whether a JSON value conforms to a schema tightly enough to round-trip
/// bit-exactly: kinds match the schema everywhere; a sixty-four-bit float
/// arrives as a float, not an integer; negative integers use the negative
/// form; object members sit in schema order under distinct names; and
/// every encoded body fits sixty-four-bit framing.
pub open spec fn rt_conforms(ty: Ty, v: JsonVal) -> bool
    decreases ty, 0int,
{
    body_fits(de_spec(ty, v)) && (match ty {
        Ty::Bool => v is Bool,
        Ty::U64 => v matches JsonVal::Number(JsonNumber::PosInt(_)),
        Ty::I64 => match v {
            JsonVal::Number(JsonNumber::PosInt(n)) => n <= i64::MAX,
            JsonVal::Number(JsonNumber::NegInt(m)) => m < 0,
            _ => false,
        },
        Ty::F64 => v matches JsonVal::Number(JsonNumber::Float(_)),
        Ty::Bytes => match v {
            JsonVal::Arr(elems) => bytes_of(elems) is Some,
            _ => false,
        },
        Ty::String => v is Str,
        Ty::Array { inner } => match v {
            JsonVal::Arr(elems) => elems.len() <= usize::MAX && rt_elems(*inner, elems),
            _ => false,
        },
        Ty::Struct { fields } => match v {
            JsonVal::Obj(entries) => distinct_names(fields@) && rt_fields(fields@, entries),
            _ => false,
        },
    })
}

/// Every element of an array conforms to the element schema.
pub open spec fn rt_elems(inner: Ty, elems: Seq<JsonVal>) -> bool
    decreases inner, elems.len() + 1,
{
    if elems.len() == 0 {
        true
    } else {
        rt_conforms(inner, elems[0]) && rt_elems(inner, elems.skip(1))
    }
}

/// An object's members match a struct's fields one to one, in schema
/// order, each value conforming to its field's type.
pub open spec fn rt_fields(fields: Seq<Field>, entries: Seq<(Seq<char>, JsonVal)>) -> bool
    decreases fields, 0int,
{
    if fields.len() == 0 {
        entries.len() == 0
    } else {
        &&& entries.len() == fields.len()
        &&& entries[0].0 == fields[0].name@
        &&& rt_conforms(fields[0].ty, entries[0].1)
        &&& rt_fields(fields.skip(1), entries.skip(1))
    }
}

/// Conformant members, spelled out per index.
pub proof fn lemma_rt_fields_index(fields: Seq<Field>, entries: Seq<(Seq<char>, JsonVal)>)
    requires
        rt_fields(fields, entries),
    ensures
        entries.len() == fields.len(),
        forall|i: int| 0 <= i < fields.len() ==> (#[trigger] entries[i]).0 == fields[i].name@
            && rt_conforms(fields[i].ty, entries[i].1),
    decreases fields.len(),
{
    if fields.len() > 0 {
        lemma_rt_fields_index(fields.skip(1), entries.skip(1));
        assert forall|i: int| 0 <= i < fields.len() implies (#[trigger] entries[i]).0 == fields[
            i
        ].name@ && rt_conforms(fields[i].ty, entries[i].1) by {
            if i > 0 {
                assert(entries.skip(1)[i - 1] == entries[i]);
                assert(fields.skip(1)[i - 1] == fields[i]);
            }
        }
    }
}

/// Looking a name up in an object finds the member carrying it, provided
/// no earlier member shadows it.
pub proof fn lemma_obj_lookup_index(entries: Seq<(Seq<char>, JsonVal)>, k: int)
    requires
        0 <= k < entries.len(),
        forall|j: int| 0 <= j < k ==> (#[trigger] entries[j]).0 != entries[k].0,
    ensures
        obj_lookup(entries, entries[k].0) == Some(entries[k].1),
    decreases k,
{
    if k > 0 {
        assert(entries[0].0 != entries[k].0);
        assert(entries.skip(1)[k - 1] == entries[k]);
        assert forall|j: int| 0 <= j < k - 1 implies (#[trigger] entries.skip(1)[j]).0
            != entries.skip(1)[k - 1].0 by {
            assert(entries.skip(1)[j] == entries[j + 1]);
        }
        lemma_obj_lookup_index(entries.skip(1), k - 1);
    }
}

/// Round trip: a JSON value that conforms to a schema deserializes to a
/// body that serializes back to exactly that value.
#[verifier::rlimit(100)]
#[verifier::spinoff_prover]
pub proof fn lemma_slow_round_trip(ty: Ty, v: JsonVal)
    requires
        rt_conforms(ty, v),
    ensures
        de_spec(ty, v) is Ok,
        ser_spec(ty, de_spec(ty, v)->Ok_0) == Ok::<JsonVal, Error>(v),
    decreases ty, 1int,
{
    match ty {
        Ty::Bool => {
            let b = v->Bool_0;
            let body = de_spec(ty, v)->Ok_0;
            assert(le_val(body) == (if b {
                1nat
            } else {
                0nat
            })) by {
                assert(body.skip(1) =~= Seq::<u8>::empty());
                assert(le_val(Seq::<u8>::empty()) == 0);
            };
        },
        Ty::U64 => {
            let n = v->Number_0->PosInt_0;
            lemma_uint_body_len8(n);
            lemma_le_val_uint_body(n as nat);
        },
        Ty::I64 => {
            match v->Number_0 {
                JsonNumber::PosInt(n) => {
                    lemma_uint_body_len8(zigzag(n as i64));
                    lemma_le_val_uint_body(zigzag(n as i64) as nat);
                    lemma_unzigzag_zigzag(n as i64);
                },
                JsonNumber::NegInt(m) => {
                    lemma_uint_body_len8(zigzag(m));
                    lemma_le_val_uint_body(zigzag(m) as nat);
                    lemma_unzigzag_zigzag(m);
                },
                JsonNumber::Float(_) => {
                    assert(false);
                },
            }
        },
        Ty::F64 => {
            let bits = v->Number_0->Float_0;
            lemma_le_fixed_len(bits as nat, 8);
            lemma_le_val_le_fixed(bits as nat, 8);
            assert(pow256(8) == 0x1_0000_0000_0000_0000) by {
                reveal_with_fuel(pow256, 9);
            };
            vstd::arithmetic::div_mod::lemma_small_mod(bits as nat, pow256(8));
        },
        Ty::Bytes => {
            let elems = v->Arr_0;
            let body = bytes_of(elems)->Some_0;
            lemma_bytes_of_index(elems);
            assert(ser_spec(ty, body)->Ok_0->Arr_0 =~= elems);
        },
        Ty::String => {
            broadcast use vstd::utf8::group_utf8_lib;

            let s = v->Str_0;
            assert(vstd::utf8::decode_utf8(vstd::utf8::encode_utf8(s)) == s);
        },
        Ty::Array { inner } => {
            lemma_slow_round_trip_array(ty, v);
        },
        Ty::Struct { fields } => {
            lemma_slow_round_trip_struct(ty, v);
        },
    }
}

/// The array case of the round trip.
#[verifier::rlimit(100)]
#[verifier::spinoff_prover]
proof fn lemma_slow_round_trip_array(ty: Ty, v: JsonVal)
    requires
        ty is Array,
        rt_conforms(ty, v),
    ensures
        de_spec(ty, v) is Ok,
        ser_spec(ty, de_spec(ty, v)->Ok_0) == Ok::<JsonVal, Error>(v),
    decreases ty, 0int,
{
    let inner = ty->Array_inner;
    let elems = v->Arr_0;
    lemma_rt_round_trip_elems(*inner, elems);
    let children = de_elems(*inner, elems)->Ok_0;
    let body = vector_bytes(children);
    assert(de_spec(ty, v) == Ok::<Seq<u8>, ErrorV>(body));
    if elems.len() == 0 {
        assert(children.len() == 0);
        assert(body =~= Seq::<u8>::empty());
        assert(seq_items(0, body) =~= Seq::<Seq<u8>>::empty());
        assert(ser_elems(*inner, seq_items(0, body)) == Ok::<Seq<JsonVal>, Error>(Seq::empty()));
        assert(ser_spec(ty, body)->Ok_0->Arr_0 =~= elems);
    } else {
        let n = children.len();
        let enc = varint_enc(n);
        let framed = frame_seq(children);
        assert(body == enc + framed);
        assert(n <= usize::MAX);
        assert(pow128(10) > 0xffff_ffff_ffff_ffff) by {
            reveal_with_fuel(pow128, 11);
        };
        lemma_varint_enc_len(n, 10);
        lemma_varint_enc_chain(n);
        lemma_varint_val_enc(n);
        assert(body.take(enc.len() as int) =~= enc);
        assert(varint_at(body, enc.len() as int));
        lemma_varint_at_unique(body, enc.len() as int, varint_len_at(body));
        vstd::arithmetic::div_mod::lemma_small_mod(n, 0x1_0000_0000_0000_0000);
        assert(body.skip(enc.len() as int) =~= framed);
        assert(spec_read_array(body) == Ok::<(nat, Seq<u8>), Error>((n, framed)));
        lemma_seq_items_of_frame(children);
        assert(ser_spec(ty, body)->Ok_0->Arr_0 =~= elems);
    }
}

/// The struct case of the round trip.
#[verifier::rlimit(100)]
#[verifier::spinoff_prover]
proof fn lemma_slow_round_trip_struct(ty: Ty, v: JsonVal)
    requires
        ty is Struct,
        rt_conforms(ty, v),
    ensures
        de_spec(ty, v) is Ok,
        ser_spec(ty, de_spec(ty, v)->Ok_0) == Ok::<JsonVal, Error>(v),
    decreases ty, 0int,
{
    let fields = ty->Struct_fields;
    let entries = v->Obj_0;
    lemma_rt_fields_index(fields@, entries);
    assert(entries =~= entries.skip(0));
    lemma_rt_round_trip_fields(fields@, entries, entries);
    let children = de_fields(fields@, entries)->Ok_0;
    let body = tuple_bytes(children);
    assert(de_spec(ty, v) == Ok::<Seq<u8>, ErrorV>(body));
    if fields@.len() == 0 {
        assert(children.len() == 0);
        assert(body =~= Seq::<u8>::empty());
        assert(seq_items(0, body) =~= Seq::<Seq<u8>>::empty());
        assert(ser_spec(ty, body)->Ok_0->Obj_0 =~= entries);
    } else {
        lemma_seq_items_of_frame(children);
        assert(seq_items(fields@.len(), body) == children);
        assert(ser_spec(ty, body)->Ok_0->Obj_0 =~= entries);
    }
}

/// A byte array's elements are recovered pointwise from its body.
pub proof fn lemma_bytes_of_index(elems: Seq<JsonVal>)
    requires
        bytes_of(elems) is Some,
    ensures
        bytes_of(elems)->Some_0.len() == elems.len(),
        forall|i: int| 0 <= i < elems.len() ==> (#[trigger] elems[i]) == JsonVal::Number(
            JsonNumber::PosInt(bytes_of(elems)->Some_0[i] as u64),
        ),
    decreases elems.len(),
{
    if elems.len() > 0 {
        lemma_bytes_of_index(elems.skip(1));
        let bs = bytes_of(elems)->Some_0;
        let rest = bytes_of(elems.skip(1))->Some_0;
        assert forall|i: int| 0 <= i < elems.len() implies (#[trigger] elems[i])
            == JsonVal::Number(JsonNumber::PosInt(bs[i] as u64)) by {
            if i > 0 {
                assert(elems.skip(1)[i - 1] == elems[i]);
                assert(bs[i] == rest[i - 1]);
            }
        }
    }
}

/// Round trip for an array's elements: their bodies serialize back to
/// exactly the elements, and every body fits the framing.
#[verifier::rlimit(100)]
#[verifier::spinoff_prover]
pub proof fn lemma_rt_round_trip_elems(inner: Ty, elems: Seq<JsonVal>)
    requires
        rt_elems(inner, elems),
    ensures
        de_elems(inner, elems) is Ok,
        de_elems(inner, elems)->Ok_0.len() == elems.len(),
        forall|i: int| 0 <= i < elems.len() ==> (#[trigger] de_elems(inner, elems)->Ok_0[i]).len()
            < 0x1_0000_0000_0000_0000,
        ser_elems(inner, de_elems(inner, elems)->Ok_0) == Ok::<Seq<JsonVal>, Error>(elems),
    decreases inner, elems.len() + 1,
{
    if elems.len() == 0 {
        assert(ser_elems(inner, de_elems(inner, elems)->Ok_0) == Ok::<Seq<JsonVal>, Error>(
            Seq::empty(),
        ));
        assert(elems =~= Seq::<JsonVal>::empty());
    } else {
        lemma_slow_round_trip(inner, elems[0]);
        lemma_rt_round_trip_elems(inner, elems.skip(1));
        let body = de_spec(inner, elems[0])->Ok_0;
        let rest = de_elems(inner, elems.skip(1))->Ok_0;
        let children = de_elems(inner, elems)->Ok_0;
        assert(children == seq![body] + rest);
        assert(children[0] == body);
        assert(children.skip(1) =~= rest);
        assert forall|i: int| 0 <= i < elems.len() implies (#[trigger] children[i]).len()
            < 0x1_0000_0000_0000_0000 by {
            if i > 0 {
                assert(children[i] == rest[i - 1]);
                assert(rest[i - 1].len() < 0x1_0000_0000_0000_0000);
            } else {
                assert(children[0] == body);
                assert(rt_conforms(inner, elems[0]));
                assert(body_fits(de_spec(inner, elems[0])));
            }
        }
        assert(ser_elems(inner, children)->Ok_0 =~= elems) by {
            assert(elems.skip(1) =~= ser_elems(inner, rest)->Ok_0);
        };
    }
}

/// Round trip for a struct's fields: with members in schema order under
/// distinct names, each lookup finds its positional member, the bodies
/// serialize back to exactly the members, and every body fits.
#[verifier::rlimit(100)]
#[verifier::spinoff_prover]
pub proof fn lemma_rt_round_trip_fields(
    fields: Seq<Field>,
    entries: Seq<(Seq<char>, JsonVal)>,
    all_entries: Seq<(Seq<char>, JsonVal)>,
)
    requires
        rt_fields(fields, entries),
        all_entries.len() >= fields.len(),
        entries == all_entries.skip(all_entries.len() - fields.len()),
        distinct_names(fields),
        forall|j: int, k: int|
            0 <= j < all_entries.len() - fields.len() && all_entries.len() - fields.len() <= k
                < all_entries.len() ==> (#[trigger] all_entries[j]).0
                != (#[trigger] all_entries[k]).0,
    ensures
        de_fields(fields, all_entries) is Ok,
        de_fields(fields, all_entries)->Ok_0.len() == fields.len(),
        forall|i: int| 0 <= i < fields.len() ==> (#[trigger] de_fields(
            fields,
            all_entries,
        )->Ok_0[i]).len() < 0x1_0000_0000_0000_0000,
        ser_fields(fields, de_fields(fields, all_entries)->Ok_0) == Ok::<
            Seq<(Seq<char>, JsonVal)>,
            Error,
        >(entries),
        forall|i: int| 0 <= i < fields.len() ==> #[trigger] de_fields(
            fields,
            all_entries,
        )->Ok_0[i] == de_spec(fields[i].ty, entries[i].1)->Ok_0,
    decreases fields, 1int,
{
    if fields.len() == 0 {
        assert(entries =~= Seq::<(Seq<char>, JsonVal)>::empty());
        assert(ser_fields(fields, de_fields(fields, all_entries)->Ok_0) == Ok::<
            Seq<(Seq<char>, JsonVal)>,
            Error,
        >(Seq::empty()));
    } else {
        let off = all_entries.len() - fields.len();
        assert(entries[0] == all_entries[off]);
        assert forall|j: int| 0 <= j < off implies (#[trigger] all_entries[j]).0
            != all_entries[off].0 by {}
        lemma_obj_lookup_index(all_entries, off);
        assert(obj_lookup(all_entries, fields[0].name@) == Some(entries[0].1));
        lemma_slow_round_trip(fields[0].ty, entries[0].1);
        assert forall|j: int, k: int|
            0 <= j < off + 1 && off + 1 <= k < all_entries.len() implies (
        #[trigger] all_entries[j]).0 != (#[trigger] all_entries[k]).0 by {
            if j == off {
                let i1 = (k - off) as int;
                assert(entries[0].0 == fields[0].name@);
                assert(entries[i1].0 == fields[i1].name@) by {
                    lemma_rt_fields_index(fields, entries);
                };
                assert(all_entries[k] == entries[i1]);
            }
        }
        assert(entries.skip(1) =~= all_entries.skip(off + 1));
        assert forall|i1: int, j1: int|
            0 <= i1 < j1 < fields.skip(1).len() implies (#[trigger] fields.skip(1)[i1].name@)
            != (#[trigger] fields.skip(1)[j1].name@) by {
            assert(fields.skip(1)[i1] == fields[i1 + 1]);
            assert(fields.skip(1)[j1] == fields[j1 + 1]);
        }
        lemma_rt_round_trip_fields(fields.skip(1), entries.skip(1), all_entries);
        let body = de_spec(fields[0].ty, entries[0].1)->Ok_0;
        let rest = de_fields(fields.skip(1), all_entries)->Ok_0;
        let children = de_fields(fields, all_entries)->Ok_0;
        assert(children == seq![body] + rest);
        assert(children[0] == body);
        assert(children.skip(1) =~= rest);
        assert forall|i: int| 0 <= i < fields.len() implies (#[trigger] children[i]).len()
            < 0x1_0000_0000_0000_0000 by {
            if i > 0 {
                assert(children[i] == rest[i - 1]);
                assert(rest[i - 1].len() < 0x1_0000_0000_0000_0000);
            } else {
                assert(children[0] == body);
                assert(rt_conforms(fields[0].ty, entries[0].1));
                assert(body_fits(de_spec(fields[0].ty, entries[0].1)));
            }
        }
        assert(ser_fields(fields, children)->Ok_0 =~= entries) by {
            assert(entries.skip(1) =~= ser_fields(fields.skip(1), rest)->Ok_0);
            assert(entries[0] == (fields[0].name@, entries[0].1));
        };
        assert forall|i: int| 0 <= i < fields.len() implies #[trigger] children[i] == de_spec(
            fields[i].ty,
            entries[i].1,
        )->Ok_0 by {
            if i > 0 {
                assert(children[i] == rest[i - 1]);
                assert(fields.skip(1)[i - 1] == fields[i]);
                assert(entries.skip(1)[i - 1] == entries[i]);
            }
        }
    }
}

/// Key order independence: an object's members may arrive in any order;
/// as long as every field name looks up to the same value, the encoder
/// produces identical bytes. Permuting members with distinct names never
/// changes what a lookup finds, so permuted input gives the same output.
pub proof fn lemma_key_order_independence(
    fields: Seq<Field>,
    e1: Seq<(Seq<char>, JsonVal)>,
    e2: Seq<(Seq<char>, JsonVal)>,
)
    requires
        forall|i: int| 0 <= i < fields.len() ==> obj_lookup(e1, (#[trigger] fields[i]).name@)
            == obj_lookup(e2, fields[i].name@),
    ensures
        de_fields(fields, e1) == de_fields(fields, e2),
    decreases fields,
{
    if fields.len() > 0 {
        assert forall|i: int| 0 <= i < fields.skip(1).len() implies obj_lookup(
            e1,
            (#[trigger] fields.skip(1)[i]).name@,
        ) == obj_lookup(e2, fields.skip(1)[i].name@) by {
            assert(fields.skip(1)[i] == fields[i + 1]);
        }
        lemma_key_order_independence(fields.skip(1), e1, e2);
    }
}

/// Key order independence at the level of whole documents: two objects
/// whose lookups agree on every field name deserialize to identical
/// flatbin bytes under the struct schema.
pub proof fn lemma_struct_key_order_independence(
    ty: Ty,
    e1: Seq<(Seq<char>, JsonVal)>,
    e2: Seq<(Seq<char>, JsonVal)>,
)
    requires
        ty is Struct,
        forall|i: int| 0 <= i < ty->Struct_fields@.len() ==> obj_lookup(
            e1,
            (#[trigger] ty->Struct_fields@[i]).name@,
        ) == obj_lookup(e2, ty->Struct_fields@[i].name@),
    ensures
        de_spec(ty, JsonVal::Obj(e1)) == de_spec(ty, JsonVal::Obj(e2)),
{
    lemma_key_order_independence(ty->Struct_fields@, e1, e2);
}


/// The schema-ordered image of a value: scalars and arrays keep their
/// order, and every object is rebuilt with its members in schema order,
/// each value canonicalized in turn. On a conforming value this changes
/// nothing but the order of object members.
pub open spec fn canon(ty: Ty, v: JsonVal) -> JsonVal
    decreases ty, 0int,
{
    match ty {
        Ty::Array { inner } => match v {
            JsonVal::Arr(elems) => JsonVal::Arr(canon_elems(*inner, elems)),
            _ => v,
        },
        Ty::Struct { fields } => match v {
            JsonVal::Obj(entries) => JsonVal::Obj(canon_members(fields@, entries)),
            _ => v,
        },
        _ => v,
    }
}

/// The canonical images of an array's elements, in order.
pub open spec fn canon_elems(inner: Ty, elems: Seq<JsonVal>) -> Seq<JsonVal>
    decreases inner, elems.len() + 1,
{
    if elems.len() == 0 {
        Seq::empty()
    } else {
        seq![canon(inner, elems[0])] + canon_elems(inner, elems.skip(1))
    }
}

/// An object's members rebuilt in schema order: each field's name paired
/// with the canonical image of the value its name looks up.
pub open spec fn canon_members(fields: Seq<Field>, entries: Seq<(Seq<char>, JsonVal)>) -> Seq<
    (Seq<char>, JsonVal),
>
    decreases fields, 0int,
{
    if fields.len() == 0 {
        Seq::empty()
    } else {
        seq![
            (fields[0].name@, canon(fields[0].ty, obj_lookup(entries, fields[0].name@)->Some_0)),
        ] + canon_members(fields.skip(1), entries)
    }
}

/// Whether a JSON value conforms to a schema with its object members in
/// any order: kinds match everywhere, every field's name looks up a
/// conforming value, objects carry exactly one member per field, and
/// every encoded body fits sixty-four-bit framing.
pub open spec fn conforms_any(ty: Ty, v: JsonVal) -> bool
    decreases ty, 0int,
{
    body_fits(de_spec(ty, v)) && (match ty {
        Ty::Bool => v is Bool,
        Ty::U64 => v matches JsonVal::Number(JsonNumber::PosInt(_)),
        Ty::I64 => match v {
            JsonVal::Number(JsonNumber::PosInt(n)) => n <= i64::MAX,
            JsonVal::Number(JsonNumber::NegInt(m)) => m < 0,
            _ => false,
        },
        Ty::F64 => v matches JsonVal::Number(JsonNumber::Float(_)),
        Ty::Bytes => match v {
            JsonVal::Arr(elems) => bytes_of(elems) is Some,
            _ => false,
        },
        Ty::String => v is Str,
        Ty::Array { inner } => match v {
            JsonVal::Arr(elems) => elems.len() <= usize::MAX && conf_elems(*inner, elems),
            _ => false,
        },
        Ty::Struct { fields } => match v {
            JsonVal::Obj(entries) => {
                &&& distinct_names(fields@)
                &&& members_known(fields@, entries)
                &&& distinct_keys(entries)
                &&& conf_fields(fields@, entries)
            },
            _ => false,
        },
    })
}

/// Every member of the object names some field of the schema.
pub open spec fn members_known(fields: Seq<Field>, entries: Seq<(Seq<char>, JsonVal)>) -> bool {
    forall|m: int|
        0 <= m < entries.len() ==> exists|i: int|
            0 <= i < fields.len() && (#[trigger] entries[m]).0 == (#[trigger] fields[i]).name@
}

/// No two members of the object share a name.
pub open spec fn distinct_keys(entries: Seq<(Seq<char>, JsonVal)>) -> bool {
    forall|m1: int, m2: int|
        0 <= m1 < m2 < entries.len() ==> (#[trigger] entries[m1]).0 != (#[trigger] entries[m2]).0
}

/// A name that looks up successfully sits at some position.
pub proof fn lemma_obj_lookup_exists(entries: Seq<(Seq<char>, JsonVal)>, name: Seq<char>)
    requires
        obj_lookup(entries, name) is Some,
    ensures
        exists|m: int| 0 <= m < entries.len() && (#[trigger] entries[m]).0 == name,
    decreases entries.len(),
{
    if entries.len() > 0 {
        if entries[0].0 == name {
        } else {
            lemma_obj_lookup_exists(entries.skip(1), name);
            let m = choose|m: int|
                0 <= m < entries.skip(1).len() && (#[trigger] entries.skip(1)[m]).0 == name;
            assert(entries[m + 1].0 == name);
        }
    }
}

/// Every element of an array conforms, in any member order.
pub open spec fn conf_elems(inner: Ty, elems: Seq<JsonVal>) -> bool
    decreases inner, elems.len() + 1,
{
    if elems.len() == 0 {
        true
    } else {
        conforms_any(inner, elems[0]) && conf_elems(inner, elems.skip(1))
    }
}

/// Every field's name looks up a conforming value.
pub open spec fn conf_fields(fields: Seq<Field>, entries: Seq<(Seq<char>, JsonVal)>) -> bool
    decreases fields, 0int,
{
    if fields.len() == 0 {
        true
    } else {
        &&& obj_lookup(entries, fields[0].name@) is Some
        &&& conforms_any(fields[0].ty, obj_lookup(entries, fields[0].name@)->Some_0)
        &&& conf_fields(fields.skip(1), entries)
    }
}

/// The members of the canonical object, spelled out per index.
pub proof fn lemma_canon_members_index(fields: Seq<Field>, entries: Seq<(Seq<char>, JsonVal)>)
    ensures
        canon_members(fields, entries).len() == fields.len(),
        forall|i: int|
            #![trigger canon_members(fields, entries)[i]]
            #![trigger fields[i]]
            0 <= i < fields.len() ==> canon_members(fields, entries)[i] == (
                fields[i].name@,
                canon(fields[i].ty, obj_lookup(entries, fields[i].name@)->Some_0),
            ),
    decreases fields.len(),
{
    if fields.len() > 0 {
        lemma_canon_members_index(fields.skip(1), entries);
        assert forall|i: int| 0 <= i < fields.len() implies canon_members(fields, entries)[i]
            == (
            fields[i].name@,
            canon(fields[i].ty, obj_lookup(entries, fields[i].name@)->Some_0),
        ) by {
            if i > 0 {
                assert(canon_members(fields, entries)[i] == canon_members(
                    fields.skip(1),
                    entries,
                )[i - 1]);
                assert(fields.skip(1)[i - 1] == fields[i]);
            }
        }
    }
}

/// Conforming fields, spelled out per index.
pub proof fn lemma_conf_fields_index(fields: Seq<Field>, entries: Seq<(Seq<char>, JsonVal)>)
    requires
        conf_fields(fields, entries),
    ensures
        forall|i: int| 0 <= i < fields.len() ==> obj_lookup(
            entries,
            (#[trigger] fields[i]).name@,
        ) is Some && conforms_any(
            fields[i].ty,
            obj_lookup(entries, fields[i].name@)->Some_0,
        ),
    decreases fields.len(),
{
    if fields.len() > 0 {
        lemma_conf_fields_index(fields.skip(1), entries);
        assert forall|i: int| 0 <= i < fields.len() implies obj_lookup(
            entries,
            (#[trigger] fields[i]).name@,
        ) is Some && conforms_any(
            fields[i].ty,
            obj_lookup(entries, fields[i].name@)->Some_0,
        ) by {
            if i > 0 {
                assert(fields.skip(1)[i - 1] == fields[i]);
            }
        }
    }
}

/// Canonicalizing a conforming value yields a schema-ordered conforming
/// value that deserializes to the same result.
#[verifier::rlimit(100)]
#[verifier::spinoff_prover]
pub proof fn lemma_conforms_canon(ty: Ty, v: JsonVal)
    requires
        conforms_any(ty, v),
    ensures
        rt_conforms(ty, canon(ty, v)),
        de_spec(ty, canon(ty, v)) == de_spec(ty, v),
    decreases ty, 0int,
{
    match ty {
        Ty::Array { inner } => {
            let elems = v->Arr_0;
            lemma_conforms_canon_elems(*inner, elems);
            assert(canon(ty, v) == JsonVal::Arr(canon_elems(*inner, elems)));
        },
        Ty::Struct { fields } => {
            let entries = v->Obj_0;
            let cm = canon_members(fields@, entries);
            lemma_canon_members_index(fields@, entries);
            assert(fields@.skip(0) =~= fields@);
            lemma_conforms_canon_fields(fields@, 0, entries);
            assert(cm.skip(0) =~= cm);
            assert(canon(ty, v) == JsonVal::Obj(cm));
        },
        _ => {},
    }
}

/// The element form of canonicalization: pointwise, order kept.
#[verifier::rlimit(100)]
#[verifier::spinoff_prover]
proof fn lemma_conforms_canon_elems(inner: Ty, elems: Seq<JsonVal>)
    requires
        conf_elems(inner, elems),
    ensures
        canon_elems(inner, elems).len() == elems.len(),
        rt_elems(inner, canon_elems(inner, elems)),
        de_elems(inner, canon_elems(inner, elems)) == de_elems(inner, elems),
    decreases inner, elems.len() + 1,
{
    if elems.len() > 0 {
        lemma_conforms_canon(inner, elems[0]);
        lemma_conforms_canon_elems(inner, elems.skip(1));
        let ce = canon_elems(inner, elems);
        assert(ce[0] == canon(inner, elems[0]));
        assert(ce.skip(1) =~= canon_elems(inner, elems.skip(1)));
    }
}

/// The field form of canonicalization: from position `k` on, the
/// canonical members line up with the schema and deserialize as the
/// original entries do.
#[verifier::rlimit(100)]
#[verifier::spinoff_prover]
pub proof fn lemma_conforms_canon_fields(
    fields: Seq<Field>,
    k: int,
    entries: Seq<(Seq<char>, JsonVal)>,
)
    requires
        distinct_names(fields),
        0 <= k <= fields.len(),
        conf_fields(fields.skip(k), entries),
    ensures
        rt_fields(fields.skip(k), canon_members(fields, entries).skip(k)),
        de_fields(fields.skip(k), canon_members(fields, entries)) == de_fields(
            fields.skip(k),
            entries,
        ),
    decreases fields, fields.len() - k,
{
    let cm = canon_members(fields, entries);
    lemma_canon_members_index(fields, entries);
    let suffix = fields.skip(k);
    if k < fields.len() {
        assert(suffix[0] == fields[k]);
        assert(suffix.skip(1) =~= fields.skip(k + 1));
        assert(cm.skip(k)[0] == cm[k]);
        assert(cm.skip(k).skip(1) =~= cm.skip(k + 1));
        let name = fields[k].name@;
        let x = obj_lookup(entries, name)->Some_0;
        lemma_conforms_canon(fields[k].ty, x);
        assert forall|j: int| 0 <= j < k implies (#[trigger] cm[j]).0 != cm[k].0 by {}
        lemma_obj_lookup_index(cm, k);
        assert(obj_lookup(cm, name) == Some(canon(fields[k].ty, x)));
        lemma_conforms_canon_fields(fields, k + 1, entries);
        assert(rt_fields(suffix, cm.skip(k))) by {
            assert(cm.skip(k).len() == suffix.len());
        };
    } else {
        assert(suffix =~= Seq::<Field>::empty());
        assert(cm.skip(k) =~= Seq::<(Seq<char>, JsonVal)>::empty());
    }
}

/// Round trip up to member order: a value whose objects carry exactly the
/// schema's fields, under any key order, deserializes without error, and
/// serializing the bytes gives the value back with every object's members
/// rearranged into schema order — its canonical image, which differs from
/// the input in member order alone.
pub proof fn lemma_slow_round_trip_any_order(ty: Ty, v: JsonVal)
    requires
        conforms_any(ty, v),
    ensures
        de_spec(ty, v) is Ok,
        de_spec(ty, v) == de_spec(ty, canon(ty, v)),
        rt_conforms(ty, canon(ty, v)),
        ser_spec(ty, de_spec(ty, v)->Ok_0) == Ok::<JsonVal, Error>(canon(ty, v)),
    decreases ty, 2int,
{
    lemma_conforms_canon(ty, v);
    lemma_slow_round_trip(ty, canon(ty, v));
}


/// Schema-ordered conformance is a special case of order-free
/// conformance.
pub proof fn lemma_rt_implies_any(ty: Ty, v: JsonVal)
    requires
        rt_conforms(ty, v),
    ensures
        conforms_any(ty, v),
    decreases ty, 0int,
{
    match ty {
        Ty::Array { inner } => {
            lemma_rt_implies_any_elems(*inner, v->Arr_0);
        },
        Ty::Struct { fields } => {
            let entries = v->Obj_0;
            lemma_rt_fields_index(fields@, entries);
            assert(members_known(fields@, entries)) by {
                assert forall|m: int| 0 <= m < entries.len() implies exists|i: int|
                    0 <= i < fields@.len() && (#[trigger] entries[m]).0 == (
                    #[trigger] fields@[i]).name@ by {
                    assert(entries[m].0 == fields@[m].name@);
                }
            };
            assert(distinct_keys(entries)) by {
                assert forall|m1: int, m2: int| 0 <= m1 < m2 < entries.len() implies (
                #[trigger] entries[m1]).0 != (#[trigger] entries[m2]).0 by {
                    assert(entries[m1].0 == fields@[m1].name@);
                    assert(entries[m2].0 == fields@[m2].name@);
                }
            };
            assert(fields@.skip(0) =~= fields@);
            lemma_rt_implies_any_fields(fields@, 0, entries);
        },
        _ => {},
    }
}

/// Element form of the inclusion.
proof fn lemma_rt_implies_any_elems(inner: Ty, elems: Seq<JsonVal>)
    requires
        rt_elems(inner, elems),
    ensures
        conf_elems(inner, elems),
    decreases inner, elems.len() + 1,
{
    if elems.len() > 0 {
        lemma_rt_implies_any(inner, elems[0]);
        lemma_rt_implies_any_elems(inner, elems.skip(1));
    }
}

/// Field form of the inclusion: schema-ordered members make every lookup
/// land on its own position.
proof fn lemma_rt_implies_any_fields(
    fields: Seq<Field>,
    k: int,
    entries: Seq<(Seq<char>, JsonVal)>,
)
    requires
        distinct_names(fields),
        0 <= k <= fields.len(),
        entries.len() == fields.len(),
        forall|i: int| 0 <= i < fields.len() ==> (#[trigger] entries[i]).0 == fields[i].name@
            && rt_conforms(fields[i].ty, entries[i].1),
    ensures
        conf_fields(fields.skip(k), entries),
    decreases fields, fields.len() - k,
{
    if k < fields.len() {
        assert(fields.skip(k)[0] == fields[k]);
        assert(fields.skip(k).skip(1) =~= fields.skip(k + 1));
        assert forall|j: int| 0 <= j < k implies (#[trigger] entries[j]).0 != entries[
            k
        ].0 by {}
        lemma_obj_lookup_index(entries, k);
        assert(obj_lookup(entries, fields[k].name@) == Some(entries[k].1));
        lemma_rt_implies_any(fields[k].ty, entries[k].1);
        lemma_rt_implies_any_fields(fields, k + 1, entries);
    }
}

} // verus!
