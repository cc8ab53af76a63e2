use flatbin::fast::{deserialize, deserialize_into, serialize, Error, JsonToken};
use flatbin::flatbin::FlatbinBuf;
use flatbin::json::{JsonNumber, JsonValue};
use flatbin::slow;
use flatbin::ty::{Field, Ty};

fn field(name: &str, ty: Ty) -> Field {
    Field { name: name.to_string(), ty }
}

fn person_ty() -> Ty {
    Ty::Struct {
        fields: vec![
            field("name", Ty::String),
            field("age", Ty::U64),
            field("hobbies", Ty::Array { inner: Box::new(Ty::String) }),
            field("rustacean", Ty::Bool),
        ],
    }
}

fn person_tokens() -> Vec<JsonToken> {
    vec![
        JsonToken::BeginObject,
        JsonToken::Key("name".to_string()),
        JsonToken::Str("Alexander".to_string()),
        JsonToken::Key("age".to_string()),
        JsonToken::Number(JsonNumber::PosInt(27)),
        JsonToken::Key("hobbies".to_string()),
        JsonToken::BeginArray,
        JsonToken::Str("music".to_string()),
        JsonToken::Str("programming".to_string()),
        JsonToken::EndArray,
        JsonToken::Key("rustacean".to_string()),
        JsonToken::Bool(true),
        JsonToken::EndObject,
    ]
}

fn person_value() -> JsonValue {
    JsonValue::Object(vec![
        ("name".to_string(), JsonValue::String("Alexander".to_string())),
        ("age".to_string(), JsonValue::Number(JsonNumber::PosInt(27))),
        (
            "hobbies".to_string(),
            JsonValue::Array(vec![
                JsonValue::String("music".to_string()),
                JsonValue::String("programming".to_string()),
            ]),
        ),
        ("rustacean".to_string(), JsonValue::Bool(true)),
    ])
}

fn tokens_eq(a: &[JsonToken], b: &[JsonToken]) -> bool {
    a.len() == b.len()
        && a.iter().zip(b.iter()).all(|(x, y)| match (x, y) {
            (JsonToken::Null, JsonToken::Null) => true,
            (JsonToken::Bool(p), JsonToken::Bool(q)) => p == q,
            (JsonToken::Number(p), JsonToken::Number(q)) => p == q,
            (JsonToken::Str(p), JsonToken::Str(q)) => p == q,
            (JsonToken::BeginArray, JsonToken::BeginArray) => true,
            (JsonToken::EndArray, JsonToken::EndArray) => true,
            (JsonToken::BeginObject, JsonToken::BeginObject) => true,
            (JsonToken::Key(p), JsonToken::Key(q)) => p == q,
            (JsonToken::EndObject, JsonToken::EndObject) => true,
            _ => false,
        })
}

#[test]
fn bool_roundtrip() {
    let ty = Ty::Bool;
    let tokens = vec![JsonToken::Bool(false)];

    let bytes = deserialize(&ty, &tokens).unwrap();
    let new_tokens = serialize(&ty, &bytes.as_flatbin()).unwrap();
    assert!(tokens_eq(&new_tokens, &tokens));
}

#[test]
fn mod_simple_roundtrip() {
    let ty = person_ty();
    let tokens = person_tokens();

    let bytes = deserialize(&ty, &tokens).unwrap();
    let new_tokens = serialize(&ty, &bytes.as_flatbin()).unwrap();
    assert!(tokens_eq(&new_tokens, &tokens));
}

#[test]
fn fast_matches_slow() {
    // the streaming path and the tree path produce the same bytes
    let ty = person_ty();
    let fast_bytes = deserialize(&ty, &person_tokens()).unwrap();
    let slow_bytes = slow::deserialize(&ty, &person_value()).unwrap();
    assert_eq!(fast_bytes.as_bytes(), slow_bytes.as_bytes());
}

#[test]
fn fast_key_reorder_same_bytes() {
    // keys may arrive in any order; the staged emit keeps the bytes
    // canonical
    let ty = person_ty();
    let reordered = vec![
        JsonToken::BeginObject,
        JsonToken::Key("rustacean".to_string()),
        JsonToken::Bool(true),
        JsonToken::Key("hobbies".to_string()),
        JsonToken::BeginArray,
        JsonToken::Str("music".to_string()),
        JsonToken::Str("programming".to_string()),
        JsonToken::EndArray,
        JsonToken::Key("age".to_string()),
        JsonToken::Number(JsonNumber::PosInt(27)),
        JsonToken::Key("name".to_string()),
        JsonToken::Str("Alexander".to_string()),
        JsonToken::EndObject,
    ];
    let canonical = deserialize(&ty, &person_tokens()).unwrap();
    let permuted = deserialize(&ty, &reordered).unwrap();
    assert_eq!(canonical.as_bytes(), permuted.as_bytes());
}

#[test]
fn seven_bit_array() {
    // one small element: a count varint, then the implicit-header literal
    let ty = Ty::Array { inner: Box::new(Ty::U64) };
    let tokens = vec![
        JsonToken::BeginArray,
        JsonToken::Number(JsonNumber::PosInt(56)),
        JsonToken::EndArray,
    ];
    let bytes = deserialize(&ty, &tokens).unwrap();
    assert_eq!(bytes.as_bytes(), [0x01, 56]);
}

#[test]
fn unknown_and_duplicate_fields() {
    let ty = person_ty();
    let unknown = vec![
        JsonToken::BeginObject,
        JsonToken::Key("color".to_string()),
        JsonToken::Str("red".to_string()),
        JsonToken::EndObject,
    ];
    assert!(matches!(
        deserialize(&ty, &unknown),
        Err(Error::UnknownField { .. })
    ));

    let duplicate = vec![
        JsonToken::BeginObject,
        JsonToken::Key("age".to_string()),
        JsonToken::Number(JsonNumber::PosInt(27)),
        JsonToken::Key("age".to_string()),
        JsonToken::Number(JsonNumber::PosInt(28)),
        JsonToken::EndObject,
    ];
    assert!(matches!(
        deserialize(&ty, &duplicate),
        Err(Error::DuplicateField { .. })
    ));

    let missing = vec![JsonToken::BeginObject, JsonToken::EndObject];
    match deserialize(&ty, &missing) {
        Err(Error::MissingField { name }) => assert_eq!(name, "name"),
        _ => panic!("expected a missing field"),
    }
}

#[test]
fn fast_type_mismatch() {
    let tokens = vec![JsonToken::Str("Hello".to_string())];
    assert!(matches!(
        deserialize(&Ty::Bool, &tokens),
        Err(Error::UnexpectedType { .. })
    ));
    let tokens = vec![JsonToken::Null];
    assert!(matches!(
        deserialize(&Ty::U64, &tokens),
        Err(Error::UnexpectedType { .. })
    ));
}

#[test]
fn truncated_stream() {
    let ty = Ty::Array { inner: Box::new(Ty::U64) };
    let tokens = vec![
        JsonToken::BeginArray,
        JsonToken::Number(JsonNumber::PosInt(1)),
    ];
    assert!(matches!(
        deserialize(&ty, &tokens),
        Err(Error::UnexpectedType { .. })
    ));
}

#[test]
fn fast_deserialize_into_appends() {
    let mut buffer = FlatbinBuf::new();
    let tokens = vec![JsonToken::Number(JsonNumber::PosInt(7))];
    deserialize_into(&Ty::U64, &tokens, &mut buffer).unwrap();
    assert_eq!(buffer.as_bytes(), [7]);
    let bad = vec![JsonToken::Null];
    assert!(deserialize_into(&Ty::U64, &bad, &mut buffer).is_err());
    assert_eq!(buffer.as_bytes(), [7]);
}
