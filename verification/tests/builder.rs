use flatbin::flatbin::builder::Builder;
use flatbin::flatbin::header::{make_header, read_node_header};
use flatbin::flatbin::{Error, Flatbin, FlatbinBuf};

#[test]
fn test_builder() {
    let mut b = Builder::new();
    b.start_vector();
    b.write_u32(56);
    b.start_vector();
    b.write_u32(30);
    b.write_u32(60);
    b.end_vector();
    b.start_vector();
    b.end_vector();
    b.start_tuple();
    b.write_u32(40);
    b.write_str("Hello");
    b.write_u32(50);
    b.end_tuple();
    b.write_u32(12_899);
    b.end_vector();
    let buffer = b.finish();

    assert_eq!(
        buffer.as_bytes(),
        [
            5,       // Vector length
            56,      // 7-bit optimised uint
            128 + 3, // Node size = 3
            2,       // Vector length = 2
            30,      // 7-bit optimised uint
            60,      // 7-bit optimised uint
            128,     // Node size = 0 (empty vector)
            128 + 8, // Node size = 8
            40,      // 7-bit optimised uint
            128 + 5, // Node size = 5
            b'H',
            b'e',
            b'l',
            b'l',
            b'o',
            50, // 7-bit optimised uint
            // Last element, node size elided
            (12_899 % 256) as u8, // LSB
            (12_899 / 256) as u8, // MSB
        ]
    )
}

#[test]
fn roundtrip() {
    let mut b = Builder::new();
    b.start_vector();
    b.write_bool(true);
    b.write_str("Hello world");
    b.start_tuple();
    b.write_bytes(&[4, 5, 6]);
    b.write_bool(false);
    b.end_tuple();
    b.write_void();
    b.end_vector();
    let buffer = b.finish();

    let doc = buffer.as_flatbin();
    let a = doc.read_array().unwrap();
    assert_eq!(a.len(), 4);
    let mut a = a.iter();
    assert_eq!(a.next().unwrap().read_bool().unwrap(), true);
    assert_eq!(a.next().unwrap().read_string().unwrap(), "Hello world");
    let b = a.next().unwrap().read_tuple(2).unwrap();
    assert_eq!(b.len(), 2);
    let mut b = b.iter();
    assert_eq!(b.next().unwrap().read_bytes().unwrap(), &[4, 5, 6]);
    assert_eq!(b.next().unwrap().read_bool().unwrap(), false);
    a.next().unwrap().read_void().unwrap();
}

#[test]
fn headers_roundtrip() {
    // one byte of framing for an empty body, none for a small literal
    assert_eq!(make_header(&[]), vec![0x80]);
    assert_eq!(make_header(&[0x56]), Vec::<u8>::new());
    assert_eq!(make_header(&[0x90]), vec![0x81]);
    // packed widths
    assert_eq!(make_header(&vec![0u8; 63]), vec![0x80 + 63]);
    assert_eq!(make_header(&vec![0u8; 64]).len(), 2);
    assert_eq!(make_header(&vec![0u8; 0x1FFF]).len(), 2);
    assert_eq!(make_header(&vec![0u8; 0x2000]).len(), 3);
    for len in [0usize, 2, 63, 64, 300, 0x1FFF, 0x2000, 0x10_0000 - 1] {
        let body = vec![0xA0u8; len];
        let mut framed = make_header(&body);
        let header_len = framed.len();
        framed.extend_from_slice(&body);
        framed.push(0xEE); // trailing bytes must not disturb the header
        let (h, l) = read_node_header(&framed).unwrap();
        assert_eq!((h, l), (header_len, len as u64));
    }
}

#[test]
fn raw_header_forms() {
    // the eight- and nine-byte raw forms carry the length verbatim
    assert_eq!(
        read_node_header(&[0xFE, 1, 2, 3, 4, 5, 6, 7]),
        Some((8, 0x07_06_05_04_03_02_01))
    );
    assert_eq!(
        read_node_header(&[0xFF, 1, 2, 3, 4, 5, 6, 7, 8]),
        Some((9, 0x08_07_06_05_04_03_02_01))
    );
    assert_eq!(read_node_header(&[0xFE, 1, 2, 3]), None);
    assert_eq!(read_node_header(&[0xFF, 1, 2, 3, 4, 5, 6, 7]), None);
}

#[test]
fn truncated_header() {
    // a multi-byte header cut short decodes to nothing
    let body = vec![0u8; 0x2000];
    let framed = make_header(&body);
    assert_eq!(read_node_header(&framed[..1]), None);
    assert_eq!(read_node_header(&[]), None);
}

#[test]
fn nested_empty_vector() {
    // inner empty vector contributes no body bytes; outer framing still
    // counts two elements
    let mut b = Builder::new();
    b.start_vector();
    b.start_vector();
    b.end_vector();
    b.start_vector();
    b.write_u64(1);
    b.end_vector();
    b.end_vector();
    let buffer = b.finish();
    assert_eq!(buffer.as_bytes(), [2, 0x80, 1, 1]);

    let doc = buffer.as_flatbin();
    let outer = doc.read_array().unwrap();
    assert_eq!(outer.len(), 2);
    let mut it = outer.iter();
    let first = it.next().unwrap();
    assert_eq!(first.as_bytes().len(), 0);
    assert_eq!(first.read_array().unwrap().len(), 0);
    let second = it.next().unwrap();
    let inner = second.read_array().unwrap();
    assert_eq!(inner.len(), 1);
    assert_eq!(inner.iter().next().unwrap().read_u64().unwrap(), 1);
}

#[test]
fn seven_bit_vector() {
    // a one-element vector of a small integer: the count varint, then the
    // headerless 7-bit literal
    let mut b = Builder::new();
    b.start_vector();
    b.write_u64(56);
    b.end_vector();
    let buffer = b.finish();
    assert_eq!(buffer.as_bytes(), [0x01, 56]);
}

#[test]
fn reader_scalars() {
    let empty = FlatbinBuf::new();
    assert_eq!(empty.len(), 0);
    let mut b = Builder::new();
    b.write_u64(300);
    let mut buffer = FlatbinBuf::from_vec(b.finish().to_vec());
    assert_eq!(buffer.len(), 2);

    fn check(buffer: &FlatbinBuf) {
        let doc = buffer.as_flatbin();
        assert_eq!(doc.read_u16().unwrap(), 300);
        assert_eq!(doc.read_u32().unwrap(), 300);
        assert_eq!(doc.read_u64().unwrap(), 300);
        assert!(matches!(doc.read_u8(), Err(Error::NumberTooLarge)));
        assert_eq!(doc.read_int().unwrap(), 150);
        assert_eq!(doc.read_i16().unwrap(), 150);
        assert_eq!(doc.read_i32().unwrap(), 150);
        assert_eq!(doc.read_i64().unwrap(), 150);
        assert!(matches!(doc.read_i8(), Err(Error::NumberTooLarge)));
    }
    check(&buffer);

    buffer.clear();
    assert_eq!(buffer.len(), 0);

    let doc = Flatbin::from_bytes(&[1]);
    assert_eq!(doc.read_i64().unwrap(), -1);
    assert_eq!(doc.read_i8().unwrap(), -1);
}

#[test]
fn writable_dispatch() {
    // signed scalars take the zig-zag path, unsigned the minimal path
    let mut b = Builder::new();
    b.start_tuple();
    b.write(1isize);
    b.write(-5isize);
    b.write(7u16);
    b.write("hi");
    b.end_tuple();
    let buffer = b.finish();
    assert_eq!(buffer.as_bytes(), [2, 9, 7, b'h', b'i']);
}

#[test]
fn seek_past_header() {
    // step over the first child's header to view its body
    let mut b = Builder::new();
    b.start_tuple();
    b.write_str("Hello");
    b.write_bool(true);
    b.end_tuple();
    let buffer = b.finish();
    let doc = buffer.as_flatbin();
    let first = doc.seek(0);
    assert_eq!(first.read_string().unwrap(), "Hello");
}
