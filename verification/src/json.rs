//! An in-memory JSON tree: the document form both codecs translate to and
//! from. Numbers keep the distinction between non-negative integers,
//! negative integers, and floats, whose value is carried as raw binary64
//! bits so the tree itself stays free of float arithmetic.

use vstd::prelude::*;

verus! {

use vstd::utf8::decode_utf8;
use vstd::utf8::encode_utf8;

/// A JSON number: a non-negative integer, a negative integer, or a float
/// carried as its IEEE-754 binary64 bits.
#[derive(Clone, Copy, Debug, PartialEq, Eq, Structural)]
pub enum JsonNumber {
    /// A non-negative integer.
    PosInt(u64),
    /// A strictly negative integer.
    NegInt(i64),
    /// A float, as its binary64 bit pattern.
    Float(u64),
}

/// The ghost image of a JSON value.
#[verifier::ext_equal]
pub enum JsonVal {
    /// The null value.
    Null,
    /// A boolean.
    Bool(bool),
    /// A number.
    Number(JsonNumber),
    /// A string, as its characters.
    Str(Seq<char>),
    /// An array of values.
    Arr(Seq<JsonVal>),
    /// An object: named members in document order.
    Obj(Seq<(Seq<char>, JsonVal)>),
}

/// A JSON value.
pub enum JsonValue {
    /// The null value.
    Null,
    /// A boolean.
    Bool(bool),
    /// A number.
    Number(JsonNumber),
    /// A string.
    String(String),
    /// An array of values.
    Array(Vec<JsonValue>),
    /// An object: named members in document order.
    Object(Vec<(String, JsonValue)>),
}

/// The ghost image of a JSON value.
pub open spec fn jv_view(v: JsonValue) -> JsonVal
    decreases v,
{
    match v {
        JsonValue::Null => JsonVal::Null,
        JsonValue::Bool(b) => JsonVal::Bool(b),
        JsonValue::Number(n) => JsonVal::Number(n),
        JsonValue::String(s) => JsonVal::Str(s@),
        JsonValue::Array(elems) => JsonVal::Arr(jv_view_arr(elems@)),
        JsonValue::Object(entries) => JsonVal::Obj(jv_view_obj(entries@)),
    }
}

/// The ghost images of an array's elements, in order.
pub open spec fn jv_view_arr(elems: Seq<JsonValue>) -> Seq<JsonVal>
    decreases elems,
{
    if elems.len() == 0 {
        Seq::empty()
    } else {
        seq![jv_view(elems[0])] + jv_view_arr(elems.skip(1))
    }
}

/// The ghost images of an object's members, in order.
pub open spec fn jv_view_obj(entries: Seq<(String, JsonValue)>) -> Seq<(Seq<char>, JsonVal)>
    decreases entries,
{
    if entries.len() == 0 {
        Seq::empty()
    } else {
        seq![(entries[0].0@, jv_view(entries[0].1))] + jv_view_obj(entries.skip(1))
    }
}

/// An array view holds one image per element, in place.
pub proof fn lemma_jv_view_arr(elems: Seq<JsonValue>)
    ensures
        jv_view_arr(elems).len() == elems.len(),
        forall|i: int|
            #![trigger jv_view_arr(elems)[i]]
            #![trigger elems[i]]
            0 <= i < elems.len() ==> jv_view_arr(elems)[i] == jv_view(elems[i]),
    decreases elems.len(),
{
    if elems.len() > 0 {
        lemma_jv_view_arr(elems.skip(1));
        assert forall|i: int| 0 <= i < elems.len() implies jv_view_arr(elems)[i] == jv_view(
            elems[i],
        ) by {
            if i > 0 {
                assert(jv_view_arr(elems)[i] == jv_view_arr(elems.skip(1))[i - 1]);
                assert(elems.skip(1)[i - 1] == elems[i]);
            }
        }
    }
}

/// An object view holds one image per member, in place.
pub proof fn lemma_jv_view_obj(entries: Seq<(String, JsonValue)>)
    ensures
        jv_view_obj(entries).len() == entries.len(),
        forall|i: int|
            #![trigger jv_view_obj(entries)[i]]
            #![trigger entries[i]]
            0 <= i < entries.len() ==> jv_view_obj(entries)[i] == (
                entries[i].0@,
                jv_view(entries[i].1),
            ),
    decreases entries.len(),
{
    if entries.len() > 0 {
        lemma_jv_view_obj(entries.skip(1));
        assert forall|i: int| 0 <= i < entries.len() implies jv_view_obj(entries)[i] == (
            entries[i].0@,
            jv_view(entries[i].1),
        ) by {
            if i > 0 {
                assert(jv_view_obj(entries)[i] == jv_view_obj(entries.skip(1))[i - 1]);
                assert(entries.skip(1)[i - 1] == entries[i]);
            }
        }
    }
}

impl View for JsonValue {
    type V = JsonVal;

    open spec fn view(&self) -> JsonVal {
        jv_view(*self)
    }
}

/// A well-formed JSON value never writes a negative integer in the
/// non-negative form or the reverse.
pub open spec fn json_wf(v: JsonVal) -> bool
    decreases v,
{
    match v {
        JsonVal::Number(JsonNumber::NegInt(m)) => m < 0,
        JsonVal::Arr(elems) => forall|i: int|
            0 <= i < elems.len() ==> json_wf(#[trigger] elems[i]),
        JsonVal::Obj(entries) => forall|i: int|
            0 <= i < entries.len() ==> json_wf(#[trigger] entries[i].1),
        _ => true,
    }
}

/// The first member of an object with the given name, if any: later
/// duplicates are shadowed.
pub open spec fn obj_lookup(entries: Seq<(Seq<char>, JsonVal)>, name: Seq<char>) -> Option<
    JsonVal,
>
    decreases entries.len(),
{
    if entries.len() == 0 {
        None
    } else if entries[0].0 == name {
        Some(entries[0].1)
    } else {
        obj_lookup(entries.skip(1), name)
    }
}

/// The JSON kind of a value, as the error messages name it.
pub open spec fn kind_name(v: JsonVal) -> Seq<char> {
    match v {
        JsonVal::Null => "null"@,
        JsonVal::Bool(_) => "a boolean"@,
        JsonVal::Number(_) => "a number"@,
        JsonVal::Str(_) => "a string"@,
        JsonVal::Arr(_) => "an array"@,
        JsonVal::Obj(_) => "an object"@,
    }
}

/// Whether two string slices hold the same characters.
pub fn str_eq(a: &str, b: &str) -> (r: bool)
    ensures
        r == (a@ == b@),
{
    let ab = a.as_bytes();
    let bb = b.as_bytes();
    proof {
        broadcast use vstd::utf8::group_utf8_lib;

    }
    if ab.len() != bb.len() {
        proof {
            assert(encode_utf8(a@) != encode_utf8(b@));
        }
        return false;
    }
    let mut i: usize = 0;
    while i < ab.len()
        invariant
            i <= ab@.len() == bb@.len(),
            ab@ == encode_utf8(a@),
            bb@ == encode_utf8(b@),
            forall|j: int| 0 <= j < i ==> ab@[j] == bb@[j],
        decreases ab@.len() - i,
    {
        if ab[i] != bb[i] {
            proof {
                assert(encode_utf8(a@) != encode_utf8(b@));
            }
            return false;
        }
        i = i + 1;
    }
    proof {
        assert(ab@ =~= bb@);
        assert(decode_utf8(encode_utf8(a@)) == a@) by {
            vstd::utf8::encode_utf8_decode_utf8(a@);
        };
        assert(decode_utf8(encode_utf8(b@)) == b@) by {
            vstd::utf8::encode_utf8_decode_utf8(b@);
        };
    }
    true
}

impl JsonValue {
    /// Whether two JSON values are the same document: same kinds, same
    /// scalars, same order everywhere.
    pub fn same_as(&self, other: &JsonValue) -> (r: bool)
        ensures
            r == (self@ == other@),
        decreases *self,
    {
        match self {
            JsonValue::Null => matches!(other, JsonValue::Null),
            JsonValue::Bool(a) => if let JsonValue::Bool(b) = other {
                a == b
            } else {
                false
            },
            JsonValue::Number(a) => if let JsonValue::Number(b) = other {
                a == b
            } else {
                false
            },
            JsonValue::String(a) => if let JsonValue::String(b) = other {
                str_eq(a.as_str(), b.as_str())
            } else {
                false
            },
            JsonValue::Array(a) => if let JsonValue::Array(b) = other {
                proof {
                    lemma_jv_view_arr(a@);
                    lemma_jv_view_arr(b@);
                }
                if a.len() != b.len() {
                    return false;
                }
                let mut i: usize = 0;
                while i < a.len()
                    invariant
                        i <= a@.len() == b@.len(),
                        *self == JsonValue::Array(*a),
                        self@ == JsonVal::Arr(jv_view_arr(a@)),
                        other@ == JsonVal::Arr(jv_view_arr(b@)),
                        jv_view_arr(a@).len() == a@.len(),
                        jv_view_arr(b@).len() == b@.len(),
                        forall|j: int| 0 <= j < a@.len() ==> jv_view_arr(a@)[j] == jv_view(
                            #[trigger] a@[j],
                        ),
                        forall|j: int| 0 <= j < b@.len() ==> jv_view_arr(b@)[j] == jv_view(
                            #[trigger] b@[j],
                        ),
                        forall|j: int| 0 <= j < i ==> jv_view(a@[j]) == jv_view(b@[j]),
                    decreases a@.len() - i,
                {
                    proof {
                        assert(decreases_to!(*self => self->Array_0));
                        assert(self->Array_0 == *a);
                        assert(decreases_to!(*a => a@[i as int]));
                    }
                    if !a[i].same_as(&b[i]) {
                        return false;
                    }
                    i = i + 1;
                }
                proof {
                    assert forall|j: int| 0 <= j < a@.len() implies jv_view_arr(a@)[j]
                        == jv_view_arr(b@)[j] by {
                        assert(jv_view_arr(a@)[j] == jv_view(a@[j]));
                        assert(jv_view_arr(b@)[j] == jv_view(b@[j]));
                    }
                    assert(jv_view_arr(a@) =~= jv_view_arr(b@));
                }
                true
            } else {
                false
            },
            JsonValue::Object(a) => if let JsonValue::Object(b) = other {
                proof {
                    lemma_jv_view_obj(a@);
                    lemma_jv_view_obj(b@);
                }
                if a.len() != b.len() {
                    return false;
                }
                let mut i: usize = 0;
                while i < a.len()
                    invariant
                        i <= a@.len() == b@.len(),
                        *self == JsonValue::Object(*a),
                        self@ == JsonVal::Obj(jv_view_obj(a@)),
                        other@ == JsonVal::Obj(jv_view_obj(b@)),
                        jv_view_obj(a@).len() == a@.len(),
                        jv_view_obj(b@).len() == b@.len(),
                        forall|j: int| 0 <= j < a@.len() ==> jv_view_obj(a@)[j] == ((
                        #[trigger] a@[j]).0@, jv_view(a@[j].1)),
                        forall|j: int| 0 <= j < b@.len() ==> jv_view_obj(b@)[j] == ((
                        #[trigger] b@[j]).0@, jv_view(b@[j].1)),
                        forall|j: int|
                            0 <= j < i ==> a@[j].0@ == b@[j].0@ && jv_view(a@[j].1) == jv_view(
                                b@[j].1,
                            ),
                    decreases a@.len() - i,
                {
                    if !str_eq(a[i].0.as_str(), b[i].0.as_str()) {
                        proof {
                            assert(jv_view_obj(a@)[i as int].0 != jv_view_obj(b@)[i as int].0);
                        }
                        return false;
                    }
                    proof {
                        assert(decreases_to!(*self => self->Object_0));
                        assert(self->Object_0 == *a);
                        assert(decreases_to!(*a => a@[i as int]));
                        assert(decreases_to!(a@[i as int] => a@[i as int].1));
                    }
                    if !a[i].1.same_as(&b[i].1) {
                        proof {
                            assert(jv_view_obj(a@)[i as int].1 != jv_view_obj(b@)[i as int].1);
                        }
                        return false;
                    }
                    i = i + 1;
                }
                proof {
                    assert forall|j: int| 0 <= j < a@.len() implies jv_view_obj(a@)[j]
                        == jv_view_obj(b@)[j] by {
                        assert(jv_view_obj(a@)[j] == (a@[j].0@, jv_view(a@[j].1)));
                        assert(jv_view_obj(b@)[j] == (b@[j].0@, jv_view(b@[j].1)));
                    }
                    assert(jv_view_obj(a@) =~= jv_view_obj(b@));
                }
                true
            } else {
                false
            },
        }
    }
}

} // verus!
