use flatbin::binary::{Error, Flatbin, FlatbinBuilder};

#[test]
fn binary_roundtrip() {
    let mut b = FlatbinBuilder::new();
    b.start_array(3);
    b.write_bool(true);
    b.write_string("Hello world");
    b.start_tuple(2);
    b.write_bytes(&[4, 5, 6]);
    b.write_uint(300);
    b.end_seq();
    b.end_seq();
    let buffer = b.finish();

    let doc = buffer.as_flatbin();
    let a = doc.read_array().unwrap();
    assert_eq!(a.len(), 3);
    let mut a = a.iter();
    assert_eq!(a.next().unwrap().unwrap().read_bool().unwrap(), true);
    assert_eq!(
        a.next().unwrap().unwrap().read_string().unwrap(),
        "Hello world"
    );
    let t = a.next().unwrap().unwrap().read_tuple(2).unwrap();
    let mut t = t.iter();
    assert_eq!(t.next().unwrap().unwrap().read_bytes().unwrap(), &[4, 5, 6]);
    assert_eq!(t.next().unwrap().unwrap().read_u64().unwrap(), 300);
    assert!(t.next().is_none());
}

#[test]
fn binary_varint_framing() {
    // children carry plain varint length prefixes; the last is bare
    let mut b = FlatbinBuilder::new();
    b.start_tuple(2);
    b.write_uint(300);
    b.write_uint(1);
    b.end_seq();
    let buffer = b.finish();
    assert_eq!(buffer.as_bytes(), [2, 0x2C, 1, 1]);
}

#[test]
fn binary_signed() {
    let mut b = FlatbinBuilder::new();
    b.write_int(-5);
    let buffer = b.finish();
    // zig-zag: -5 encodes as 9
    assert_eq!(buffer.as_bytes(), [9]);
    assert_eq!(buffer.as_flatbin().read_i64().unwrap(), -5);
    assert_eq!(buffer.as_flatbin().read_i8().unwrap(), -5);
}

#[test]
fn binary_iterator_errors() {
    // a child framed longer than the input errs without panicking
    let doc = Flatbin::from_bytes(&[200, 1, 2]);
    let seq = doc.read_tuple(2).unwrap();
    let mut it = seq.iter();
    assert!(matches!(it.next(), Some(Err(Error::UnexpectedEOF))));
    // an empty array body has no count varint in this format
    let doc = Flatbin::from_bytes(&[]);
    assert!(matches!(doc.read_array(), Err(Error::UnexpectedEOF)));
}
