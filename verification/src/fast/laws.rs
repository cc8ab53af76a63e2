//! The streaming codec's law: on the token stream of a JSON value, the
//! fast path produces exactly the bytes the slow tree path produces, and
//! consumes exactly the value's tokens.

use vstd::prelude::*;

verus! {

use super::de::assemble;
use super::de::fast_bytes;
use super::de::fast_de_elems;
use super::de::fast_de_spec;
use super::de::fast_de_struct;
use super::de::field_index;
use super::de::next_pos;
use super::de::ErrorV;
use super::ser::tokens_of;
use super::ser::tokens_of_list;
use super::ser::tokens_of_members;
use super::tok_at;
use super::TokenV;
use crate::json::JsonNumber;
use crate::json::JsonVal;
use crate::slow::de::bytes_of;
use crate::slow::de::de_elems;
use crate::slow::de::de_fields;
use crate::slow::de::de_spec;
use crate::flatbin::builder::tuple_bytes;
use crate::slow::laws::canon;
use crate::slow::laws::canon_members;
use crate::slow::laws::conf_elems;
use crate::slow::laws::conf_fields;
use crate::slow::laws::conforms_any;
use crate::slow::laws::distinct_keys;
use crate::slow::laws::distinct_names;
use crate::slow::laws::lemma_canon_members_index;
use crate::slow::laws::lemma_conf_fields_index;
use crate::slow::laws::lemma_conforms_canon;
use crate::slow::laws::lemma_conforms_canon_fields;
use crate::slow::laws::lemma_obj_lookup_exists;
use crate::slow::laws::lemma_obj_lookup_index;
use crate::slow::laws::lemma_slow_round_trip_any_order;
use crate::slow::laws::members_known;
use crate::slow::laws::rt_fields;
use crate::slow::laws::lemma_bytes_of_index;
use crate::slow::laws::lemma_rt_round_trip_fields;
use crate::json::obj_lookup;
use crate::slow::laws::rt_conforms;
use crate::ty::Field;
use crate::ty::Ty;

/// Whether the given tokens sit in the stream starting at `pos`.
pub open spec fn stream_has(toks: Seq<TokenV>, pos: int, part: Seq<TokenV>) -> bool {
    &&& 0 <= pos
    &&& pos + part.len() <= toks.len()
    &&& forall|i: int| 0 <= i < part.len() ==> toks[pos + i] == #[trigger] part[i]
}

/// A stream that holds a concatenation holds each part in place.
proof fn lemma_stream_split(toks: Seq<TokenV>, pos: int, a: Seq<TokenV>, b: Seq<TokenV>)
    requires
        stream_has(toks, pos, a + b),
    ensures
        stream_has(toks, pos, a),
        stream_has(toks, pos + a.len(), b),
{
    assert forall|i: int| 0 <= i < a.len() implies toks[pos + i] == #[trigger] a[i] by {
        assert((a + b)[i] == a[i]);
    }
    assert forall|i: int| 0 <= i < b.len() implies toks[pos + a.len() + i] == #[trigger] b[i] by {
        assert((a + b)[a.len() + i] == b[i]);
    }
}

/// The first token of any value is never a closing bracket or a key.
proof fn lemma_tokens_of_head(v: JsonVal)
    ensures
        tokens_of(v).len() >= 1,
        tokens_of(v)[0] != TokenV::EndArray,
        tokens_of(v)[0] != TokenV::EndObject,
        !(tokens_of(v)[0] is Key),
{
    match v {
        JsonVal::Arr(elems) => {
            assert(tokens_of(v)[0] == TokenV::BeginArray);
        },
        JsonVal::Obj(entries) => {
            assert(tokens_of(v)[0] == TokenV::BeginObject);
        },
        _ => {},
    }
}

/// A field's own name finds its own position, under distinct names.
proof fn lemma_field_index_at(fields: Seq<Field>, k: int)
    requires
        0 <= k < fields.len(),
        forall|j: int| 0 <= j < k ==> (#[trigger] fields[j].name@) != fields[k].name@,
    ensures
        field_index(fields, fields[k].name@) == Some(k),
    decreases k,
{
    if k > 0 {
        assert(fields.skip(1)[k - 1] == fields[k]);
        assert forall|j: int| 0 <= j < k - 1 implies (#[trigger] fields.skip(1)[j].name@)
            != fields.skip(1)[k - 1].name@ by {
            assert(fields.skip(1)[j] == fields[j + 1]);
        }
        lemma_field_index_at(fields.skip(1), k - 1);
    }
}

/// The byte elements of a byte array each cost one token.
proof fn lemma_fast_bytes_matches(elems: Seq<JsonVal>, toks: Seq<TokenV>, pos: int)
    requires
        bytes_of(elems) is Some,
        stream_has(toks, pos, tokens_of_list(elems) + seq![TokenV::EndArray]),
    ensures
        tokens_of_list(elems).len() == elems.len(),
        fast_bytes(toks, pos) == Ok::<(Seq<u8>, int), ErrorV>(
            (bytes_of(elems)->Some_0, pos + elems.len() + 1),
        ),
    decreases elems.len(),
{
    lemma_bytes_of_index(elems);
    if elems.len() == 0 {
        assert(tokens_of_list(elems) =~= Seq::<TokenV>::empty());
        assert((tokens_of_list(elems) + seq![TokenV::EndArray])[0] == TokenV::EndArray);
        assert(tok_at(toks, pos) == Some(TokenV::EndArray));
        assert(bytes_of(elems)->Some_0 =~= Seq::<u8>::empty());
    } else {
        let head = tokens_of(elems[0]);
        let tail = tokens_of_list(elems.skip(1)) + seq![TokenV::EndArray];
        assert(elems[0] == JsonVal::Number(JsonNumber::PosInt(bytes_of(elems)->Some_0[0] as u64)));
        assert(head =~= seq![TokenV::Number(elems[0]->Number_0)]);
        assert(tokens_of_list(elems) + seq![TokenV::EndArray] =~= head + tail);
        lemma_stream_split(toks, pos, head, tail);
        assert(tok_at(toks, pos) == Some(head[0]));
        lemma_fast_bytes_matches(elems.skip(1), toks, pos + 1);
        let p = elems[0]->Number_0->PosInt_0;
        assert(p <= 255);
        assert(bytes_of(elems)->Some_0 =~= seq![p as u8] + bytes_of(elems.skip(1))->Some_0);
    }
}

/// The streaming law on a schema-ordered stream: the special case of the
/// order-free law below, under the tight conformance the exact round trip
/// uses.
pub proof fn lemma_fast_matches_slow(ty: Ty, v: JsonVal, toks: Seq<TokenV>, pos: int)
    requires
        rt_conforms(ty, v),
        stream_has(toks, pos, tokens_of(v)),
    ensures
        de_spec(ty, v) is Ok,
        fast_de_spec(ty, toks, pos) == Ok::<(Seq<u8>, int), ErrorV>(
            (de_spec(ty, v)->Ok_0, pos + tokens_of(v).len()),
        ),
{
    crate::slow::laws::lemma_rt_implies_any(ty, v);
    lemma_fast_matches_slow_any_order(ty, v, toks, pos);
}

/// Collecting a fully staged object in schema order yields each field's
/// body in place.
proof fn lemma_assemble_full(
    fields: Seq<Field>,
    entries: Seq<(Seq<char>, JsonVal)>,
    slots: Seq<Option<Seq<u8>>>,
)
    requires
        entries.len() == fields.len(),
        slots.len() == fields.len(),
        forall|i: int| 0 <= i < fields.len() ==> #[trigger] slots[i] == Some(
            de_spec(fields[i].ty, entries[i].1)->Ok_0,
        ),
    ensures
        assemble(fields, slots) is Ok,
        assemble(fields, slots)->Ok_0.len() == fields.len(),
        forall|i: int| 0 <= i < fields.len() ==> #[trigger] assemble(fields, slots)->Ok_0[i]
            == de_spec(fields[i].ty, entries[i].1)->Ok_0,
    decreases fields.len(),
{
    if fields.len() > 0 {
        assert forall|i: int| 0 <= i < fields.skip(1).len() implies #[trigger] slots.skip(1)[i]
            == Some(de_spec(fields.skip(1)[i].ty, entries.skip(1)[i].1)->Ok_0) by {
            assert(slots.skip(1)[i] == slots[i + 1]);
            assert(fields.skip(1)[i] == fields[i + 1]);
            assert(entries.skip(1)[i] == entries[i + 1]);
        }
        lemma_assemble_full(fields.skip(1), entries.skip(1), slots.skip(1));
        let rest = assemble(fields.skip(1), slots.skip(1))->Ok_0;
        assert forall|i: int| 0 <= i < fields.len() implies #[trigger] assemble(
            fields,
            slots,
        )->Ok_0[i] == de_spec(fields[i].ty, entries[i].1)->Ok_0 by {
            if i > 0 {
                assert(assemble(fields, slots)->Ok_0[i] == rest[i - 1]);
                assert(fields.skip(1)[i - 1] == fields[i]);
                assert(entries.skip(1)[i - 1] == entries[i]);
            }
        }
    }
}

/// The body a field's value deserializes to, looked up by the field's
/// name.
pub open spec fn field_body(
    fields: Seq<Field>,
    entries: Seq<(Seq<char>, JsonVal)>,
    j: int,
) -> Seq<u8> {
    de_spec(fields[j].ty, obj_lookup(entries, fields[j].name@)->Some_0)->Ok_0
}

/// Whether a name appears among the first `m` members.
pub open spec fn seen_by(entries: Seq<(Seq<char>, JsonVal)>, m: int, name: Seq<char>) -> bool {
    exists|m2: int| 0 <= m2 < m && (#[trigger] entries[m2]).0 == name
}

/// The staging slots after the first `m` members have been consumed: each
/// field whose name has arrived holds its value's body.
pub open spec fn staged_slots(
    fields: Seq<Field>,
    entries: Seq<(Seq<char>, JsonVal)>,
    m: int,
) -> Seq<Option<Seq<u8>>> {
    Seq::new(
        fields.len(),
        |j: int|
            if seen_by(entries, m, fields[j].name@) {
                Some(field_body(fields, entries, j))
            } else {
                None
            },
    )
}

/// The staging pass, members arriving in any order: from the `m`-th member
/// on, each key fills its own field's slot, and the object closes with
/// every slot holding its field's body.
#[verifier::rlimit(100)]
#[verifier::spinoff_prover]
proof fn lemma_fast_struct_any(
    fields: Seq<Field>,
    entries: Seq<(Seq<char>, JsonVal)>,
    m: int,
    toks: Seq<TokenV>,
    pos: int,
)
    requires
        distinct_names(fields),
        members_known(fields, entries),
        distinct_keys(entries),
        conf_fields(fields, entries),
        0 <= m <= entries.len(),
        stream_has(toks, pos, tokens_of_members(entries.skip(m)) + seq![TokenV::EndObject]),
    ensures
        fast_de_struct(fields, toks, pos, staged_slots(fields, entries, m)) == Ok::<
            (Seq<Option<Seq<u8>>>, int),
            ErrorV,
        >(
            (
                Seq::new(fields.len(), |j: int| Some(field_body(fields, entries, j))),
                pos + tokens_of_members(entries.skip(m)).len() + 1,
            ),
        ),
    decreases fields, entries.len() - m,
{
    lemma_conf_fields_index(fields, entries);
    let slots = staged_slots(fields, entries, m);
    if m == entries.len() {
        assert(entries.skip(m) =~= Seq::<(Seq<char>, JsonVal)>::empty());
        assert(tokens_of_members(entries.skip(m)) =~= Seq::<TokenV>::empty());
        assert((tokens_of_members(entries.skip(m)) + seq![TokenV::EndObject])[0]
            == TokenV::EndObject);
        assert(tok_at(toks, pos) == Some(TokenV::EndObject));
        assert forall|j: int| 0 <= j < fields.len() implies seen_by(
            entries,
            m,
            (#[trigger] fields[j]).name@,
        ) by {
            lemma_obj_lookup_exists(entries, fields[j].name@);
        }
        assert(slots =~~= Seq::new(
            fields.len(),
            |j: int| Some(field_body(fields, entries, j)),
        ));
    } else {
        let rest_members = entries.skip(m);
        assert(rest_members[0] == entries[m]);
        assert(rest_members.skip(1) =~= entries.skip(m + 1));
        let name = entries[m].0;
        let x = entries[m].1;
        let head = seq![TokenV::Key(name)] + tokens_of(x);
        let tail = tokens_of_members(entries.skip(m + 1)) + seq![TokenV::EndObject];
        assert(tokens_of_members(rest_members) + seq![TokenV::EndObject] =~= head + tail);
        lemma_stream_split(toks, pos, head, tail);
        assert(head[0] == TokenV::Key(name));
        assert(tok_at(toks, pos) == Some(TokenV::Key(name)));
        let i = choose|i: int| 0 <= i < fields.len() && entries[m as int].0 == fields[i].name@;
        assert(fields[i].name@ == name);
        assert forall|j: int| 0 <= j < i implies (#[trigger] fields[j].name@) != fields[
            i
        ].name@ by {}
        lemma_field_index_at(fields, i);
        assert(field_index(fields, name) == Some(i));
        assert(!seen_by(entries, m, fields[i].name@)) by {
            if seen_by(entries, m, name) {
                let m2 = choose|m2: int| 0 <= m2 < m && (#[trigger] entries[m2]).0 == name;
                assert(entries[m2].0 != entries[m as int].0);
            }
        };
        assert(slots[i] is None);
        assert forall|j: int| 0 <= j < m implies (#[trigger] entries[j]).0 != entries[
            m as int
        ].0 by {}
        lemma_obj_lookup_index(entries, m);
        assert(obj_lookup(entries, name) == Some(x));
        assert(conforms_any(fields[i].ty, x));
        assert forall|k2: int| 0 <= k2 < tokens_of(x).len() implies toks[pos + 1 + k2] == (
        #[trigger] tokens_of(x)[k2]) by {
            assert(head[1 + k2] == tokens_of(x)[k2]);
        }
        lemma_fast_matches_slow_any_order(fields[i].ty, x, toks, pos + 1);
        let body = de_spec(fields[i].ty, x)->Ok_0;
        assert(body == field_body(fields, entries, i));
        let p2 = pos + 1 + tokens_of(x).len();
        assert(next_pos(pos + 1, p2, toks.len() as int) == p2);
        let slots2 = slots.update(i, Some(body));
        assert(slots2 =~~= staged_slots(fields, entries, m + 1)) by {
            assert forall|j: int| 0 <= j < fields.len() implies slots2[j] == staged_slots(
                fields,
                entries,
                m + 1,
            )[j] by {
                if j != i {
                    assert(fields[j].name@ != name);
                    assert(seen_by(entries, m + 1, fields[j].name@) == seen_by(
                        entries,
                        m,
                        fields[j].name@,
                    )) by {
                        if seen_by(entries, m + 1, fields[j].name@) {
                            let m2 = choose|m2: int|
                                0 <= m2 < m + 1 && (#[trigger] entries[m2]).0 == fields[j].name@;
                            assert(m2 < m);
                        }
                    };
                }
            }
        };
        lemma_fast_struct_any(fields, entries, m + 1, toks, p2);
    }
}

/// The element loop, elements conforming in any member order.
#[verifier::rlimit(100)]
#[verifier::spinoff_prover]
proof fn lemma_fast_elems_any(inner: Ty, elems: Seq<JsonVal>, toks: Seq<TokenV>, pos: int)
    requires
        conf_elems(inner, elems),
        stream_has(toks, pos, tokens_of_list(elems) + seq![TokenV::EndArray]),
    ensures
        de_elems(inner, elems) is Ok,
        fast_de_elems(inner, toks, pos) == Ok::<(Seq<Seq<u8>>, int), ErrorV>(
            (
                de_elems(inner, elems)->Ok_0,
                pos + tokens_of_list(elems).len() + 1,
            ),
        ),
    decreases inner, elems.len() + 1,
{
    if elems.len() == 0 {
        assert(tokens_of_list(elems) =~= Seq::<TokenV>::empty());
        assert((tokens_of_list(elems) + seq![TokenV::EndArray])[0] == TokenV::EndArray);
        assert(tok_at(toks, pos) == Some(TokenV::EndArray));
    } else {
        let head = tokens_of(elems[0]);
        let tail = tokens_of_list(elems.skip(1)) + seq![TokenV::EndArray];
        assert(tokens_of_list(elems) + seq![TokenV::EndArray] =~= head + tail);
        lemma_stream_split(toks, pos, head, tail);
        lemma_tokens_of_head(elems[0]);
        assert(tok_at(toks, pos) == Some(head[0]));
        lemma_fast_matches_slow_any_order(inner, elems[0], toks, pos);
        let p2 = pos + head.len();
        assert(next_pos(pos, p2, toks.len() as int) == p2);
        lemma_fast_elems_any(inner, elems.skip(1), toks, p2);
        let body = de_spec(inner, elems[0])->Ok_0;
        let rest = de_elems(inner, elems.skip(1))->Ok_0;
        assert(de_elems(inner, elems)->Ok_0 =~= seq![body] + rest);
    }
}

/// The streaming law free of member order: on the token stream of a value
/// whose objects carry exactly the schema's fields under any key order,
/// the fast path reads exactly the value's tokens and writes exactly the
/// bytes the slow tree path writes.
#[verifier::rlimit(100)]
#[verifier::spinoff_prover]
pub proof fn lemma_fast_matches_slow_any_order(ty: Ty, v: JsonVal, toks: Seq<TokenV>, pos: int)
    requires
        conforms_any(ty, v),
        stream_has(toks, pos, tokens_of(v)),
    ensures
        de_spec(ty, v) is Ok,
        fast_de_spec(ty, toks, pos) == Ok::<(Seq<u8>, int), ErrorV>(
            (de_spec(ty, v)->Ok_0, pos + tokens_of(v).len()),
        ),
    decreases ty, 1int,
{
    lemma_slow_round_trip_any_order(ty, v);
    match ty {
        Ty::Bool => {
            assert(tok_at(toks, pos) == Some(tokens_of(v)[0]));
        },
        Ty::U64 => {
            assert(tok_at(toks, pos) == Some(tokens_of(v)[0]));
        },
        Ty::I64 => {
            assert(tok_at(toks, pos) == Some(tokens_of(v)[0]));
        },
        Ty::F64 => {
            assert(tok_at(toks, pos) == Some(tokens_of(v)[0]));
        },
        Ty::String => {
            assert(tok_at(toks, pos) == Some(tokens_of(v)[0]));
        },
        Ty::Bytes => {
            let elems = v->Arr_0;
            let mid = tokens_of_list(elems);
            assert(tokens_of(v) =~= seq![TokenV::BeginArray] + (mid + seq![TokenV::EndArray]));
            lemma_stream_split(
                toks,
                pos,
                seq![TokenV::BeginArray],
                mid + seq![TokenV::EndArray],
            );
            assert(tok_at(toks, pos) == Some(TokenV::BeginArray));
            lemma_fast_bytes_matches(elems, toks, pos + 1);
        },
        Ty::Array { inner } => {
            let elems = v->Arr_0;
            let mid = tokens_of_list(elems);
            assert(tokens_of(v) =~= seq![TokenV::BeginArray] + (mid + seq![TokenV::EndArray]));
            lemma_stream_split(
                toks,
                pos,
                seq![TokenV::BeginArray],
                mid + seq![TokenV::EndArray],
            );
            assert(tok_at(toks, pos) == Some(TokenV::BeginArray));
            lemma_fast_elems_any(*inner, elems, toks, pos + 1);
        },
        Ty::Struct { fields } => {
            let entries = v->Obj_0;
            let mid = tokens_of_members(entries);
            assert(tokens_of(v) =~= seq![TokenV::BeginObject] + (mid + seq![TokenV::EndObject]));
            lemma_stream_split(
                toks,
                pos,
                seq![TokenV::BeginObject],
                mid + seq![TokenV::EndObject],
            );
            assert(tok_at(toks, pos) == Some(TokenV::BeginObject));
            assert(entries =~= entries.skip(0));
            let empty_slots = Seq::new(fields@.len(), |j: int| None::<Seq<u8>>);
            assert(empty_slots =~~= staged_slots(fields@, entries, 0));
            lemma_fast_struct_any(fields@, entries, 0, toks, pos + 1);
            let full = Seq::new(
                fields@.len(),
                |j: int| Some(field_body(fields@, entries, j)),
            );
            // collect the staged bodies: they are exactly the fields' bodies
            let entries_pos = Seq::new(
                fields@.len(),
                |i: int|
                    (fields@[i].name@, obj_lookup(entries, fields@[i].name@)->Some_0),
            );
            lemma_conf_fields_index(fields@, entries);
            lemma_assemble_full(fields@, entries_pos, full);
            // the tree path computes the same bodies through the canonical order
            lemma_conforms_canon(ty, v);
            assert(fields@.skip(0) =~= fields@);
            lemma_conforms_canon_fields(fields@, 0, entries);
            let cm = canon_members(fields@, entries);
            assert(cm.skip(0) =~= cm);
            lemma_canon_members_index(fields@, entries);
            assert(rt_fields(fields@, cm));
            lemma_rt_round_trip_fields(fields@, cm, cm);
            let children = de_fields(fields@, entries)->Ok_0;
            assert forall|i: int| 0 <= i < fields@.len() implies #[trigger] children[i]
                == field_body(fields@, entries, i) by {
                assert(de_fields(fields@, cm)->Ok_0[i] == de_spec(fields@[i].ty, cm[i].1)->Ok_0);
                assert(cm[i].1 == canon(
                    fields@[i].ty,
                    obj_lookup(entries, fields@[i].name@)->Some_0,
                ));
                lemma_conforms_canon(
                    fields@[i].ty,
                    obj_lookup(entries, fields@[i].name@)->Some_0,
                );
            }
            assert(assemble(fields@, full)->Ok_0 =~= children);
            assert(de_spec(ty, v)->Ok_0 == tuple_bytes(children));
        },
    }
}

} // verus!
