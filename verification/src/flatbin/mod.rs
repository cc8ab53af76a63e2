//! The flatbin format: an owned document buffer, a borrowed reader view,
//! sequence iteration that honours the headerless last child, and the
//! builder that writes documents.

pub mod builder;
pub mod header;

use vstd::prelude::*;

verus! {

use crate::scalars::le_val;
use crate::scalars::uint_from_le_bytes;
use crate::scalars::unzigzag;
use crate::varint::is_varint_chain;
use crate::varint::varint_val;
use header::header_decode;
use header::header_for;
use vstd::slice::slice_subrange;
use vstd::utf8::decode_utf8;
use vstd::utf8::valid_utf8;

/// What can go wrong while reading a flatbin document.
#[derive(Clone, Copy, Debug, PartialEq, Eq, Structural)]
pub enum Error {
    /// A scalar body was not of an admissible size.
    UnexpectedLength,
    /// A numeric body did not fit the requested type, or a boolean held a
    /// value above one.
    NumberTooLarge,
    /// The input ended inside a header, varint, or body.
    UnexpectedEOF,
    /// A varint ran past ten bytes without terminating.
    BadVarint,
    /// A string body was not valid UTF-8.
    InvalidUTF8,
}

/// An owned, growable buffer holding a complete flatbin document.
pub struct FlatbinBuf {
    data: Vec<u8>,
}

/// A borrowed view over the bytes of one flatbin value.
#[derive(Clone, Copy)]
pub struct Flatbin<'a> {
    data: &'a [u8],
}

impl View for FlatbinBuf {
    type V = Seq<u8>;

    closed spec fn view(&self) -> Seq<u8> {
        self.data@
    }
}

impl<'a> View for Flatbin<'a> {
    type V = Seq<u8>;

    closed spec fn view(&self) -> Seq<u8> {
        self.data@
    }
}

impl FlatbinBuf {
    /// An empty document buffer.
    pub fn new() -> (r: Self)
        ensures
            r@ == Seq::<u8>::empty(),
    {
        FlatbinBuf { data: Vec::new() }
    }

    /// Wrap an owned byte vector as a document buffer.
    pub fn from_vec(data: Vec<u8>) -> (r: Self)
        ensures
            r@ == data@,
    {
        FlatbinBuf { data }
    }

    /// How many bytes the document occupies.
    pub fn len(&self) -> (r: usize)
        ensures
            r == self@.len(),
    {
        self.data.len()
    }

    /// Discard the document's contents.
    pub fn clear(&mut self)
        ensures
            final(self)@ == Seq::<u8>::empty(),
    {
        self.data.clear();
    }

    /// The document's bytes.
    pub fn as_bytes(&self) -> (r: &[u8])
        ensures
            r@ == self@,
    {
        self.data.as_slice()
    }

    /// The document's bytes as an owned vector.
    pub fn to_vec(self) -> (r: Vec<u8>)
        ensures
            r@ == self@,
    {
        self.data
    }

    /// View the whole buffer as one flatbin value.
    pub fn as_flatbin(&self) -> (r: Flatbin<'_>)
        ensures
            r@ == self@,
    {
        Flatbin { data: self.data.as_slice() }
    }

    /// Append raw bytes to the document.
    pub(crate) fn push_bytes(&mut self, bytes: &Vec<u8>)
        ensures
            final(self)@ == old(self)@ + bytes@,
    {
        let mut i: usize = 0;
        while i < bytes.len()
            invariant
                i <= bytes@.len(),
                self@ == old(self)@ + bytes@.take(i as int),
            decreases bytes@.len() - i,
        {
            self.data.push(bytes[i]);
            proof {
                assert(old(self)@ + bytes@.take(i + 1) =~= self@);
            }
            i = i + 1;
        }
        proof {
            assert(bytes@.take(bytes@.len() as int) =~= bytes@);
        }
    }
}

/// What reading an unsigned scalar from a body yields.
pub open spec fn spec_read_uint(data: Seq<u8>) -> Result<u64, Error> {
    if data.len() > 8 {
        Err(Error::UnexpectedLength)
    } else {
        Ok(le_val(data) as u64)
    }
}

/// What reading a boolean from a body yields.
pub open spec fn spec_read_bool(data: Seq<u8>) -> Result<bool, Error> {
    match spec_read_uint(data) {
        Ok(v) => if v == 0 {
            Ok(false)
        } else if v == 1 {
            Ok(true)
        } else {
            Err(Error::NumberTooLarge)
        },
        Err(e) => Err(e),
    }
}

/// What reading a signed scalar from a body yields.
pub open spec fn spec_read_int(data: Seq<u8>) -> Result<i64, Error> {
    match spec_read_uint(data) {
        Ok(v) => Ok(unzigzag(v)),
        Err(e) => Err(e),
    }
}

/// What reading a string from a body yields.
pub open spec fn spec_read_str(data: Seq<u8>) -> Result<Seq<char>, Error> {
    if valid_utf8(data) {
        Ok(decode_utf8(data))
    } else {
        Err(Error::InvalidUTF8)
    }
}

/// Whether a varint chain of `n` bytes sits at the head of `s`.
pub open spec fn varint_at(s: Seq<u8>, n: int) -> bool {
    1 <= n <= 10 && n <= s.len() && is_varint_chain(s.take(n))
}

/// Whether any varint chain sits at the head of `s`.
pub open spec fn has_varint(s: Seq<u8>) -> bool {
    exists|n: int| #[trigger] varint_at(s, n)
}

/// The length of the varint chain at the head of `s`.
pub open spec fn varint_len_at(s: Seq<u8>) -> int {
    choose|n: int| #[trigger] varint_at(s, n)
}

/// The sixty-four-bit value of the varint chain at the head of `s`.
pub open spec fn varint_value_at(s: Seq<u8>) -> nat {
    varint_val(s.take(varint_len_at(s))) % 0x1_0000_0000_0000_0000
}

/// At most one varint chain can sit at the head of a byte sequence: the
/// chain ends at the first byte without a continuation bit.
pub proof fn lemma_varint_at_unique(s: Seq<u8>, n1: int, n2: int)
    requires
        varint_at(s, n1),
        varint_at(s, n2),
    ensures
        n1 == n2,
{
    if n1 < n2 {
        assert(s.take(n1)[n1 - 1] == s[n1 - 1]);
        assert(s.take(n2)[n1 - 1] == s[n1 - 1]);
    }
    if n2 < n1 {
        assert(s.take(n1)[n2 - 1] == s[n2 - 1]);
        assert(s.take(n2)[n2 - 1] == s[n2 - 1]);
    }
}

/// What reading an array header from a body yields: the element count and
/// the bytes the framed elements occupy. An empty body is an empty array.
pub open spec fn spec_read_array(data: Seq<u8>) -> Result<(nat, Seq<u8>), Error> {
    if data.len() == 0 {
        Ok((0, data))
    } else if has_varint(data) {
        Ok((varint_value_at(data), data.skip(varint_len_at(data))))
    } else if data.len() > 10 {
        Err(Error::BadVarint)
    } else {
        Err(Error::UnexpectedEOF)
    }
}

/// Split one framed child off the head of a sequence body. A header that
/// cannot be decoded, or one whose body overruns the input, yields an
/// empty child and leaves the input in place, deferring the error to the
/// child's own parse.
pub open spec fn node_split(data: Seq<u8>) -> (Seq<u8>, Seq<u8>) {
    match header_decode(data) {
        Some((h, l)) => if h + l <= data.len() {
            (data.subrange(h as int, (h + l) as int), data.skip((h + l) as int))
        } else {
            (Seq::empty(), data)
        },
        None => (Seq::empty(), data),
    }
}

/// The children a sequence of `count` framed items holds: every child but
/// the last is preceded by a node header, and the last child's body is all
/// the input that remains.
pub open spec fn seq_items(count: nat, data: Seq<u8>) -> Seq<Seq<u8>>
    decreases count,
{
    if count == 0 {
        Seq::empty()
    } else if count == 1 {
        seq![data]
    } else {
        let (item, rest) = node_split(data);
        seq![item] + seq_items((count - 1) as nat, rest)
    }
}

/// A sequence of `count` items yields exactly `count` children.
pub proof fn lemma_seq_items_len(count: nat, data: Seq<u8>)
    ensures
        seq_items(count, data).len() == count,
    decreases count,
{
    if count > 1 {
        let (_, rest) = node_split(data);
        lemma_seq_items_len((count - 1) as nat, rest);
    }
}

/// The framed bytes of a sequence's children: a node header before every
/// child but the last, whose body runs to the end.
pub open spec fn frame_seq(children: Seq<Seq<u8>>) -> Seq<u8>
    decreases children.len(),
{
    if children.len() == 0 {
        Seq::empty()
    } else if children.len() == 1 {
        children[0]
    } else {
        header_for(children[0]) + children[0] + frame_seq(children.skip(1))
    }
}

/// Headerless last child: reading the framed bytes of a non-empty
/// sequence yields exactly the children that were framed, and after all
/// but the last are split off, the remaining slice is the last child's
/// body itself.
pub proof fn lemma_seq_items_of_frame(children: Seq<Seq<u8>>)
    requires
        children.len() >= 1,
        forall|i: int| 0 <= i < children.len() ==> (#[trigger] children[i]).len()
            < 0x1_0000_0000_0000_0000,
    ensures
        seq_items(children.len(), frame_seq(children)) == children,
    decreases children.len(),
{
    if children.len() == 1 {
        assert(seq_items(1, frame_seq(children)) =~= children);
    } else {
        let c0 = children[0];
        let rest_children = children.skip(1);
        let rest = frame_seq(rest_children);
        let s = frame_seq(children);
        header::lemma_header_roundtrip(c0, rest);
        assert(s =~= (header_for(c0) + c0 + rest));
        let h = header_for(c0).len();
        let l = c0.len();
        assert(header_decode(s) == Some((h as nat, l as nat)));
        assert(h + l <= s.len());
        assert(s.subrange(h as int, (h + l) as int) =~= c0);
        assert(s.skip((h + l) as int) =~= rest);
        lemma_seq_items_of_frame(rest_children);
        assert(seq_items(children.len(), s) =~= children);
    }
}

/// Relies on `std::str::from_utf8`: it returns a string slice exactly when
/// the bytes are valid UTF-8, and that slice reads back as their decoding.
#[verifier::external_body]
fn bytes_to_str(bytes: &[u8]) -> (r: Option<&str>)
    ensures
        match r {
            Some(s) => valid_utf8(bytes@) && s@ == decode_utf8(bytes@),
            None => !valid_utf8(bytes@),
        },
{
    std::str::from_utf8(bytes).ok()
}

impl<'a> Flatbin<'a> {
    /// View a byte slice as one flatbin value.
    pub fn from_bytes(bytes: &'a [u8]) -> (r: Self)
        ensures
            r@ == bytes@,
    {
        Flatbin { data: bytes }
    }

    /// The value's body bytes.
    pub fn as_bytes(&self) -> (r: &'a [u8])
        ensures
            r@ == self@,
    {
        self.data
    }

    /// Read the void value: the body must be empty.
    pub fn read_void(&self) -> (r: Result<(), Error>)
        ensures
            r is Ok <==> self@.len() == 0,
            r is Err ==> r == Result::<(), Error>::Err(Error::UnexpectedLength),
    {
        if self.data.len() == 0 {
            Ok(())
        } else {
            Err(Error::UnexpectedLength)
        }
    }

    /// Read a boolean: an unsigned body holding zero or one.
    pub fn read_bool(&self) -> (r: Result<bool, Error>)
        ensures
            r == spec_read_bool(self@),
    {
        match self.read_uint() {
            Ok(0) => Ok(false),
            Ok(1) => Ok(true),
            Ok(_) => Err(Error::NumberTooLarge),
            Err(e) => Err(e),
        }
    }

    /// Read an unsigned integer body of up to eight bytes, left-padding
    /// with zeros.
    pub fn read_uint(&self) -> (r: Result<u64, Error>)
        ensures
            r == spec_read_uint(self@),
    {
        if self.data.len() > 8 {
            return Err(Error::UnexpectedLength);
        }
        Ok(uint_from_le_bytes(self.data))
    }

    /// Read an unsigned integer that must fit eight bits.
    pub fn read_u8(&self) -> (r: Result<u8, Error>)
        ensures
            r == (match spec_read_uint(self@) {
                Ok(v) => if v <= u8::MAX {
                    Ok(v as u8)
                } else {
                    Err::<u8, Error>(Error::NumberTooLarge)
                },
                Err(e) => Err(e),
            }),
    {
        match self.read_uint() {
            Ok(v) => if v <= u8::MAX as u64 {
                Ok(v as u8)
            } else {
                Err(Error::NumberTooLarge)
            },
            Err(e) => Err(e),
        }
    }

    /// Read an unsigned integer that must fit sixteen bits.
    pub fn read_u16(&self) -> (r: Result<u16, Error>)
        ensures
            r == (match spec_read_uint(self@) {
                Ok(v) => if v <= u16::MAX {
                    Ok(v as u16)
                } else {
                    Err::<u16, Error>(Error::NumberTooLarge)
                },
                Err(e) => Err(e),
            }),
    {
        match self.read_uint() {
            Ok(v) => if v <= u16::MAX as u64 {
                Ok(v as u16)
            } else {
                Err(Error::NumberTooLarge)
            },
            Err(e) => Err(e),
        }
    }

    /// Read an unsigned integer that must fit thirty-two bits.
    pub fn read_u32(&self) -> (r: Result<u32, Error>)
        ensures
            r == (match spec_read_uint(self@) {
                Ok(v) => if v <= u32::MAX {
                    Ok(v as u32)
                } else {
                    Err::<u32, Error>(Error::NumberTooLarge)
                },
                Err(e) => Err(e),
            }),
    {
        match self.read_uint() {
            Ok(v) => if v <= u32::MAX as u64 {
                Ok(v as u32)
            } else {
                Err(Error::NumberTooLarge)
            },
            Err(e) => Err(e),
        }
    }

    /// Read a sixty-four-bit unsigned integer.
    pub fn read_u64(&self) -> (r: Result<u64, Error>)
        ensures
            r == spec_read_uint(self@),
    {
        self.read_uint()
    }

    /// Read a signed integer body: an unsigned body under the zig-zag
    /// mapping.
    pub fn read_int(&self) -> (r: Result<i64, Error>)
        ensures
            r == spec_read_int(self@),
    {
        match self.read_uint() {
            Ok(v) => {
                if v % 2 == 0 {
                    Ok((v / 2) as i64)
                } else {
                    Ok(-((v / 2) as i64) - 1)
                }
            },
            Err(e) => Err(e),
        }
    }

    /// Read a signed integer that must fit eight bits.
    pub fn read_i8(&self) -> (r: Result<i8, Error>)
        ensures
            r == (match spec_read_int(self@) {
                Ok(v) => if i8::MIN <= v <= i8::MAX {
                    Ok(v as i8)
                } else {
                    Err::<i8, Error>(Error::NumberTooLarge)
                },
                Err(e) => Err(e),
            }),
    {
        match self.read_int() {
            Ok(v) => if i8::MIN as i64 <= v && v <= i8::MAX as i64 {
                Ok(v as i8)
            } else {
                Err(Error::NumberTooLarge)
            },
            Err(e) => Err(e),
        }
    }

    /// Read a signed integer that must fit sixteen bits.
    pub fn read_i16(&self) -> (r: Result<i16, Error>)
        ensures
            r == (match spec_read_int(self@) {
                Ok(v) => if i16::MIN <= v <= i16::MAX {
                    Ok(v as i16)
                } else {
                    Err::<i16, Error>(Error::NumberTooLarge)
                },
                Err(e) => Err(e),
            }),
    {
        match self.read_int() {
            Ok(v) => if i16::MIN as i64 <= v && v <= i16::MAX as i64 {
                Ok(v as i16)
            } else {
                Err(Error::NumberTooLarge)
            },
            Err(e) => Err(e),
        }
    }

    /// Read a signed integer that must fit thirty-two bits.
    pub fn read_i32(&self) -> (r: Result<i32, Error>)
        ensures
            r == (match spec_read_int(self@) {
                Ok(v) => if i32::MIN <= v <= i32::MAX {
                    Ok(v as i32)
                } else {
                    Err::<i32, Error>(Error::NumberTooLarge)
                },
                Err(e) => Err(e),
            }),
    {
        match self.read_int() {
            Ok(v) => if i32::MIN as i64 <= v && v <= i32::MAX as i64 {
                Ok(v as i32)
            } else {
                Err(Error::NumberTooLarge)
            },
            Err(e) => Err(e),
        }
    }

    /// Read a sixty-four-bit signed integer.
    pub fn read_i64(&self) -> (r: Result<i64, Error>)
        ensures
            r == spec_read_int(self@),
    {
        self.read_int()
    }

    /// Read the eight-byte body of a sixty-four-bit float as its raw
    /// IEEE-754 bits, little-endian.
    pub fn read_bits64(&self) -> (r: Result<u64, Error>)
        ensures
            r == (if self@.len() == 8 {
                Ok(le_val(self@) as u64)
            } else {
                Err::<u64, Error>(Error::UnexpectedLength)
            }),
    {
        if self.data.len() == 8 {
            Ok(uint_from_le_bytes(self.data))
        } else {
            Err(Error::UnexpectedLength)
        }
    }

    /// Read a byte string: the body verbatim.
    pub fn read_bytes(&self) -> (r: Result<&'a [u8], Error>)
        ensures
            r is Ok && r.unwrap()@ == self@,
    {
        Ok(self.data)
    }

    /// Read a UTF-8 string from the body.
    pub fn read_string(&self) -> (r: Result<&'a str, Error>)
        ensures
            match r {
                Ok(s) => spec_read_str(self@) == Ok::<Seq<char>, Error>(s@),
                Err(e) => spec_read_str(self@) == Err::<Seq<char>, Error>(e),
            },
    {
        match bytes_to_str(self.data) {
            Some(s) => Ok(s),
            None => Err(Error::InvalidUTF8),
        }
    }

    /// Read a tuple of `count` framed children covering the whole body;
    /// the count comes from the schema, not the bytes.
    pub fn read_tuple(&self, count: usize) -> (r: Result<Sequence<'a>, Error>)
        ensures
            r is Ok,
            r.unwrap().spec_count() == count,
            r.unwrap().spec_data() == self@,
    {
        Ok(Sequence { count, data: self.data })
    }

    /// Read an array: a varint element count followed by the framed
    /// elements; an empty body is an empty array.
    pub fn read_array(&self) -> (r: Result<Sequence<'a>, Error>)
        ensures
            match r {
                Ok(s) => {
                    &&& spec_read_array(self@) is Ok
                    &&& spec_read_array(self@).unwrap().0 == s.spec_count()
                    &&& spec_read_array(self@).unwrap().1 == s.spec_data()
                    &&& s.spec_count() <= usize::MAX
                },
                Err(e) => {
                    spec_read_array(self@) == Err::<(nat, Seq<u8>), Error>(e) || (e
                        == Error::UnexpectedLength && spec_read_array(self@) is Ok
                        && spec_read_array(self@).unwrap().0 > usize::MAX)
                },
            },
    {
        if self.data.len() == 0 {
            return Ok(Sequence { count: 0, data: self.data });
        }
        match crate::varint::read_varint(self.data) {
            Ok((value, n)) => {
                proof {
                    assert(varint_at(self@, n as int));
                    lemma_varint_at_unique(self@, n as int, varint_len_at(self@));
                }
                if value > usize::MAX as u64 {
                    return Err(Error::UnexpectedLength);
                }
                let count = value as usize;
                let rest = slice_subrange(self.data, n, self.data.len());
                proof {
                    assert(rest@ =~= self@.skip(n as int));
                }
                Ok(Sequence { count, data: rest })
            },
            Err(e) => {
                proof {
                    assert(!has_varint(self@)) by {
                        if has_varint(self@) {
                            let n = varint_len_at(self@);
                            assert(varint_at(self@, n));
                            assert(self@.take(n)[n - 1] == self@[n - 1]);
                        }
                    };
                }
                match e {
                    crate::varint::VarIntError::TooLarge => Err(Error::BadVarint),
                    crate::varint::VarIntError::UnexpectedEOF => Err(Error::UnexpectedEOF),
                }
            },
        }
    }

    /// Step over the node header at `offset` and view the framed body.
    pub fn seek(&self, offset: usize) -> (r: Flatbin<'a>)
        requires
            offset <= self@.len(),
            header_decode(self@.skip(offset as int)) is Some,
            offset + header_decode(self@.skip(offset as int)).unwrap().0 + header_decode(
                self@.skip(offset as int),
            ).unwrap().1 <= self@.len(),
        ensures
            r@ == {
                let (h, l) = header_decode(self@.skip(offset as int)).unwrap();
                self@.subrange(offset + h, offset + h + l)
            },
    {
        let data = slice_subrange(self.data, offset, self.data.len());
        proof {
            assert(data@ =~= self@.skip(offset as int));
        }
        let r = header::read_node_header(data);
        match r {
            Some((h, l)) => {
                let body = slice_subrange(data, h, h + (l as usize));
                proof {
                    let (hs, ls) = header_decode(self@.skip(offset as int)).unwrap();
                    assert(body@ =~= self@.subrange(offset + hs, offset + hs + ls));
                }
                Flatbin { data: body }
            },
            None => {
                proof {
                    assert(false);
                }
                Flatbin { data }
            },
        }
    }
}

/// A view over the framed children of one tuple or array.
#[derive(Clone, Copy)]
pub struct Sequence<'a> {
    count: usize,
    data: &'a [u8],
}

/// A forward iterator over a sequence's children.
pub struct SequenceIter<'a> {
    count: usize,
    data: &'a [u8],
}

impl<'a> Sequence<'a> {
    /// How many children the sequence holds.
    pub closed spec fn spec_count(&self) -> nat {
        self.count as nat
    }

    /// The framed bytes the children occupy.
    pub closed spec fn spec_data(&self) -> Seq<u8> {
        self.data@
    }

    /// The children's bodies, in order.
    pub open spec fn spec_items(&self) -> Seq<Seq<u8>> {
        seq_items(self.spec_count(), self.spec_data())
    }

    /// How many children the sequence holds.
    pub fn len(&self) -> (r: usize)
        ensures
            r == self.spec_count(),
    {
        self.count
    }

    /// Whether the sequence holds no children.
    pub fn is_empty(&self) -> (r: bool)
        ensures
            r == (self.spec_count() == 0),
    {
        self.count == 0
    }

    /// Iterate over the children.
    pub fn iter(&self) -> (r: SequenceIter<'a>)
        ensures
            r.spec_count() == self.spec_count(),
            r.spec_data() == self.spec_data(),
    {
        SequenceIter { count: self.count, data: self.data }
    }
}

impl<'a> SequenceIter<'a> {
    /// How many children remain.
    pub closed spec fn spec_count(&self) -> nat {
        self.count as nat
    }

    /// The bytes the remaining children occupy.
    pub closed spec fn spec_data(&self) -> Seq<u8> {
        self.data@
    }

    /// The remaining children's bodies, in order.
    pub open spec fn spec_items(&self) -> Seq<Seq<u8>> {
        seq_items(self.spec_count(), self.spec_data())
    }

    /// The next child. While more than one child remains, a node header
    /// frames the child; the last child's body is all that remains. A
    /// malformed header yields an empty child, deferring the error to
    /// that child's parse.
    pub fn next(&mut self) -> (r: Option<Flatbin<'a>>)
        ensures
            match r {
                Some(f) => {
                    &&& old(self).spec_count() > 0
                    &&& f@ == old(self).spec_items()[0]
                    &&& final(self).spec_count() == old(self).spec_count() - 1
                    &&& final(self).spec_items() == old(self).spec_items().skip(1)
                    &&& final(self).spec_data() == (if old(self).spec_count() == 1 {
                        old(self).spec_data()
                    } else {
                        node_split(old(self).spec_data()).1
                    })
                },
                None => {
                    &&& old(self).spec_count() == 0
                    &&& *final(self) == *old(self)
                },
            },
    {
        if self.count == 0 {
            return None;
        }
        proof {
            lemma_seq_items_len(self.spec_count(), self.spec_data());
        }
        if self.count == 1 {
            self.count = 0;
            let item = Flatbin { data: self.data };
            proof {
                assert(old(self).spec_items() =~= seq![old(self).spec_data()]);
                assert(final(self).spec_items() =~= old(self).spec_items().skip(1));
            }
            return Some(item);
        }
        let ghost old_items = self.spec_items();
        self.count = self.count - 1;
        match header::read_node_header(self.data) {
            Some((h, l)) => {
                if l <= (self.data.len() - h) as u64 {
                    let body = slice_subrange(self.data, h, h + (l as usize));
                    let rest = slice_subrange(self.data, h + (l as usize), self.data.len());
                    proof {
                        let (item_s, rest_s) = node_split(old(self).spec_data());
                        assert(body@ =~= item_s);
                        assert(rest@ =~= rest_s);
                        assert(old_items == seq![item_s] + seq_items(
                            (old(self).spec_count() - 1) as nat,
                            rest_s,
                        ));
                        assert(old_items[0] == item_s);
                    }
                    self.data = rest;
                    proof {
                        assert(final(self).spec_items() =~= old_items.skip(1));
                    }
                    Some(Flatbin { data: body })
                } else {
                    let body = slice_subrange(self.data, 0, 0);
                    proof {
                        let (item_s, rest_s) = node_split(old(self).spec_data());
                        assert(body@ =~= item_s);
                        assert(rest_s == old(self).spec_data());
                        assert(old_items[0] == item_s);
                        assert(final(self).spec_items() =~= old_items.skip(1));
                    }
                    Some(Flatbin { data: body })
                }
            },
            None => {
                let body = slice_subrange(self.data, 0, 0);
                proof {
                    let (item_s, rest_s) = node_split(old(self).spec_data());
                    assert(body@ =~= item_s);
                    assert(rest_s == old(self).spec_data());
                    assert(old_items[0] == item_s);
                    assert(final(self).spec_items() =~= old_items.skip(1));
                }
                Some(Flatbin { data: body })
            },
        }
    }
}

} // verus!
