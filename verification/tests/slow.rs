use flatbin::flatbin::{Flatbin, FlatbinBuf};
use flatbin::json::{JsonNumber, JsonValue};
use flatbin::slow::{deserialize, deserialize_into, serialize, Error};
use flatbin::ty::{Field, Ty};

fn field(name: &str, ty: Ty) -> Field {
    Field { name: name.to_string(), ty }
}

fn person_ty() -> Ty {
    Ty::Struct {
        fields: vec![
            field("name", Ty::String),
            field("age", Ty::U64),
            field("hobbies", Ty::Array { inner: Box::new(Ty::String) }),
            field("rustacean", Ty::Bool),
        ],
    }
}

fn person_value() -> JsonValue {
    JsonValue::Object(vec![
        ("name".to_string(), JsonValue::String("Alexander".to_string())),
        ("age".to_string(), JsonValue::Number(JsonNumber::PosInt(27))),
        (
            "hobbies".to_string(),
            JsonValue::Array(vec![
                JsonValue::String("music".to_string()),
                JsonValue::String("programming".to_string()),
            ]),
        ),
        ("rustacean".to_string(), JsonValue::Bool(true)),
    ])
}

#[test]
fn unexpected_type() {
    let mut buffer = FlatbinBuf::new();

    let result = deserialize_into(&Ty::Bool, &JsonValue::String("Hello".into()), &mut buffer);
    assert!(matches!(result, Err(Error::UnexpectedType { .. })));

    let result = deserialize_into(&Ty::String, &JsonValue::Bool(true), &mut buffer);
    assert!(matches!(result, Err(Error::UnexpectedType { .. })));
}

#[test]
fn tests_simple_roundtrip() {
    let mut buffer = FlatbinBuf::new();

    let ty = person_ty();
    let value = person_value();

    deserialize_into(&ty, &value, &mut buffer).unwrap();
    let new_value = serialize(&ty, &buffer.as_flatbin()).unwrap();
    assert!(value.same_as(&new_value));
}

#[test]
fn garbage_data() {
    let ty = person_ty();

    let result = serialize(&ty, &Flatbin::from_bytes(&[5, 1, 99, 254, 0, 0, 11]));
    assert!(result.is_err());
}

#[test]
fn scalar_zero() {
    // zero takes no body bytes at all, and reads back as zero
    let buf = deserialize(&Ty::U64, &JsonValue::Number(JsonNumber::PosInt(0))).unwrap();
    assert_eq!(buf.as_bytes().len(), 0);
    let back = serialize(&Ty::U64, &buf.as_flatbin()).unwrap();
    assert!(back.same_as(&JsonValue::Number(JsonNumber::PosInt(0))));
}

#[test]
fn key_reorder_same_bytes() {
    // permuting the object's keys leaves the flatbin bytes identical
    let ty = person_ty();
    let canonical = deserialize(&ty, &person_value()).unwrap();
    let reordered = JsonValue::Object(vec![
        ("rustacean".to_string(), JsonValue::Bool(true)),
        (
            "hobbies".to_string(),
            JsonValue::Array(vec![
                JsonValue::String("music".to_string()),
                JsonValue::String("programming".to_string()),
            ]),
        ),
        ("name".to_string(), JsonValue::String("Alexander".to_string())),
        ("age".to_string(), JsonValue::Number(JsonNumber::PosInt(27))),
    ]);
    let permuted = deserialize(&ty, &reordered).unwrap();
    assert_eq!(canonical.as_bytes(), permuted.as_bytes());
}

#[test]
fn signed_roundtrip() {
    for value in [0i64, 1, -1, 63, -64, 64, i64::MAX, i64::MIN] {
        let jv = if value >= 0 {
            JsonValue::Number(JsonNumber::PosInt(value as u64))
        } else {
            JsonValue::Number(JsonNumber::NegInt(value))
        };
        let buf = deserialize(&Ty::I64, &jv).unwrap();
        let back = serialize(&Ty::I64, &buf.as_flatbin()).unwrap();
        assert!(back.same_as(&jv));
    }
}

#[test]
fn float_bits_roundtrip() {
    // a float's binary64 bits survive the trip untouched
    for f in [0.0f64, -0.0, 1.5, -2.25, f64::INFINITY, f64::MIN_POSITIVE] {
        let jv = JsonValue::Number(JsonNumber::Float(f.to_bits()));
        let buf = deserialize(&Ty::F64, &jv).unwrap();
        assert_eq!(buf.as_bytes(), f.to_le_bytes());
        let back = serialize(&Ty::F64, &buf.as_flatbin()).unwrap();
        assert!(back.same_as(&jv));
    }
}

#[test]
fn int_under_float_schema() {
    // an integer under a float schema converts exactly as the hardware
    // cast would
    let jv = JsonValue::Number(JsonNumber::PosInt(27));
    let buf = deserialize(&Ty::F64, &jv).unwrap();
    assert_eq!(buf.as_bytes(), (27u64 as f64).to_le_bytes());
    let jv = JsonValue::Number(JsonNumber::NegInt(-3));
    let buf = deserialize(&Ty::F64, &jv).unwrap();
    assert_eq!(buf.as_bytes(), (-3i64 as f64).to_le_bytes());
}

#[test]
fn bytes_schema() {
    let jv = JsonValue::Array(vec![
        JsonValue::Number(JsonNumber::PosInt(0)),
        JsonValue::Number(JsonNumber::PosInt(255)),
        JsonValue::Number(JsonNumber::PosInt(7)),
    ]);
    let buf = deserialize(&Ty::Bytes, &jv).unwrap();
    assert_eq!(buf.as_bytes(), [0, 255, 7]);
    let back = serialize(&Ty::Bytes, &buf.as_flatbin()).unwrap();
    assert!(back.same_as(&jv));

    let bad = JsonValue::Array(vec![JsonValue::Number(JsonNumber::PosInt(256))]);
    assert!(matches!(deserialize(&Ty::Bytes, &bad), Err(Error::NotAByte)));
    let bad = JsonValue::Array(vec![JsonValue::Bool(true)]);
    assert!(matches!(deserialize(&Ty::Bytes, &bad), Err(Error::NotAByte)));
}

#[test]
fn missing_field() {
    let ty = person_ty();
    let value = JsonValue::Object(vec![(
        "name".to_string(),
        JsonValue::String("Alexander".to_string()),
    )]);
    match deserialize(&ty, &value) {
        Err(Error::MissingField { name }) => assert_eq!(name, "age"),
        _ => panic!("expected a missing field"),
    }
}

#[test]
fn garbage_scalar_lengths() {
    // a scalar body of an inadmissible size is an error, never a panic
    assert!(serialize(&Ty::U64, &Flatbin::from_bytes(&[0; 9])).is_err());
    assert!(serialize(&Ty::F64, &Flatbin::from_bytes(&[1, 2, 3])).is_err());
    assert!(serialize(&Ty::Bool, &Flatbin::from_bytes(&[7])).is_err());
    assert!(serialize(&Ty::String, &Flatbin::from_bytes(&[0xFF, 0xFE])).is_err());
}

#[test]
fn error_names_kinds() {
    // the mismatch error names both sides exactly
    match deserialize(&Ty::U64, &JsonValue::Null) {
        Err(Error::UnexpectedType { expected, got }) => {
            assert_eq!(expected, "a non-negative integer");
            assert_eq!(got, "null");
        }
        _ => panic!("expected a type mismatch"),
    }
    match deserialize(&Ty::I64, &JsonValue::Number(JsonNumber::PosInt(u64::MAX))) {
        Err(Error::UnexpectedType { expected, got }) => {
            assert_eq!(expected, "an integer");
            assert_eq!(got, "a number");
        }
        _ => panic!("expected a type mismatch"),
    }
}

#[test]
fn deserialize_into_appends() {
    let mut buffer = FlatbinBuf::new();
    deserialize_into(&Ty::U64, &JsonValue::Number(JsonNumber::PosInt(7)), &mut buffer).unwrap();
    assert_eq!(buffer.as_bytes(), [7]);
    // an error leaves the buffer as it was
    let r = deserialize_into(&Ty::Bool, &JsonValue::Null, &mut buffer);
    assert!(r.is_err());
    assert_eq!(buffer.as_bytes(), [7]);
}
