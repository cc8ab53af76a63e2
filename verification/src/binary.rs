//! An earlier generation of the wire format: sequence children framed by
//! plain varint length prefixes, with child counts supplied up front. The
//! reader shares the scalar bodies with the current format; only the
//! framing differs.

use vstd::prelude::*;

verus! {

use crate::flatbin::has_varint;
use crate::flatbin::lemma_varint_at_unique;
use crate::flatbin::spec_read_bool;
use crate::flatbin::spec_read_int;
use crate::flatbin::spec_read_str;
use crate::flatbin::spec_read_uint;
use crate::flatbin::varint_at;
use crate::flatbin::varint_len_at;
use crate::flatbin::varint_value_at;
use crate::scalars::uint_body;
use crate::scalars::uint_from_le_bytes;
use crate::scalars::uint_to_le_bytes;
use crate::scalars::zigzag;
use crate::varint::varint_enc;
use crate::varint::write_varint;
use crate::varint::VarIntError;
use vstd::slice::slice_subrange;
use vstd::slice::slice_to_vec;
use vstd::utf8::decode_utf8;
use vstd::utf8::encode_utf8;
use vstd::utf8::valid_utf8;

/// What can go wrong while reading this format.
#[derive(Clone, Copy, Debug, PartialEq, Eq, Structural)]
pub enum Error {
    /// A scalar body was not of an admissible size.
    UnexpectedLength,
    /// A numeric body did not fit the requested type, or a boolean held a
    /// value above one.
    NumberTooLarge,
    /// The input ended inside a varint or a framed child.
    UnexpectedEOF,
    /// A varint ran past ten bytes without terminating.
    BadVarint,
    /// A string body was not valid UTF-8.
    InvalidUTF8,
}

/// An owned buffer holding a complete document in this format.
pub struct FlatbinBuf {
    data: Vec<u8>,
}

/// A borrowed view over the bytes of one value in this format.
#[derive(Clone, Copy)]
pub struct Flatbin<'a> {
    data: &'a [u8],
}

impl View for FlatbinBuf {
    type V = Seq<u8>;

    closed spec fn view(&self) -> Seq<u8> {
        self.data@
    }
}

impl<'a> View for Flatbin<'a> {
    type V = Seq<u8>;

    closed spec fn view(&self) -> Seq<u8> {
        self.data@
    }
}

impl FlatbinBuf {
    /// An empty document buffer.
    pub fn new() -> (r: Self)
        ensures
            r@ == Seq::<u8>::empty(),
    {
        FlatbinBuf { data: Vec::new() }
    }

    /// Wrap an owned byte vector as a document.
    pub fn from_vec(data: Vec<u8>) -> (r: Self)
        ensures
            r@ == data@,
    {
        FlatbinBuf { data }
    }

    /// The document's bytes.
    pub fn as_bytes(&self) -> (r: &[u8])
        ensures
            r@ == self@,
    {
        self.data.as_slice()
    }

    /// The document's bytes as an owned vector.
    pub fn to_vec(self) -> (r: Vec<u8>)
        ensures
            r@ == self@,
    {
        self.data
    }

    /// View the whole buffer as one value.
    pub fn as_flatbin(&self) -> (r: Flatbin<'_>)
        ensures
            r@ == self@,
    {
        Flatbin { data: self.data.as_slice() }
    }
}

/// What reading an array header from a body yields in this format: the
/// count varint is mandatory, so an empty body is an error, not an empty
/// array.
pub open spec fn bin_read_array(data: Seq<u8>) -> Result<(nat, Seq<u8>), Error> {
    if has_varint(data) {
        Ok((varint_value_at(data), data.skip(varint_len_at(data))))
    } else if data.len() > 10 {
        Err(Error::BadVarint)
    } else {
        Err(Error::UnexpectedEOF)
    }
}

/// Split one varint-framed child off the head of a sequence body.
pub open spec fn bin_node_split(data: Seq<u8>) -> Result<(Seq<u8>, Seq<u8>), Error> {
    if has_varint(data) {
        let n = varint_len_at(data);
        let l = varint_value_at(data);
        if l > data.len() - n {
            Err(Error::UnexpectedEOF)
        } else {
            Ok((data.subrange(n, n + l), data.skip(n + l)))
        }
    } else if data.len() > 10 {
        Err(Error::BadVarint)
    } else {
        Err(Error::UnexpectedEOF)
    }
}

impl<'a> Flatbin<'a> {
    /// View a byte slice as one value.
    pub fn from_bytes(bytes: &'a [u8]) -> (r: Self)
        ensures
            r@ == bytes@,
    {
        Flatbin { data: bytes }
    }

    /// The value's body bytes.
    pub fn as_bytes(&self) -> (r: &'a [u8])
        ensures
            r@ == self@,
    {
        self.data
    }

    /// Read a boolean: an unsigned body holding zero or one.
    pub fn read_bool(&self) -> (r: Result<bool, Error>)
        ensures
            r == (match spec_read_bool(self@) {
                Ok(b) => Ok::<bool, Error>(b),
                Err(e) => Err::<bool, Error>(lift_error(e)),
            }),
    {
        match self.read_uint() {
            Ok(0) => Ok(false),
            Ok(1) => Ok(true),
            Ok(_) => Err(Error::NumberTooLarge),
            Err(e) => Err(e),
        }
    }

    /// Read an unsigned integer body of up to eight bytes.
    pub fn read_uint(&self) -> (r: Result<u64, Error>)
        ensures
            r == (match spec_read_uint(self@) {
                Ok(v) => Ok::<u64, Error>(v),
                Err(e) => Err::<u64, Error>(lift_error(e)),
            }),
    {
        if self.data.len() > 8 {
            return Err(Error::UnexpectedLength);
        }
        Ok(uint_from_le_bytes(self.data))
    }

    /// Read an unsigned integer that must fit eight bits.
    pub fn read_u8(&self) -> (r: Result<u8, Error>)
        ensures
            r == (match spec_read_uint(self@) {
                Ok(v) => if v <= u8::MAX {
                    Ok(v as u8)
                } else {
                    Err::<u8, Error>(Error::NumberTooLarge)
                },
                Err(e) => Err(lift_error(e)),
            }),
    {
        match self.read_uint() {
            Ok(v) => if v <= u8::MAX as u64 {
                Ok(v as u8)
            } else {
                Err(Error::NumberTooLarge)
            },
            Err(e) => Err(e),
        }
    }

    /// Read an unsigned integer that must fit sixteen bits.
    pub fn read_u16(&self) -> (r: Result<u16, Error>)
        ensures
            r == (match spec_read_uint(self@) {
                Ok(v) => if v <= u16::MAX {
                    Ok(v as u16)
                } else {
                    Err::<u16, Error>(Error::NumberTooLarge)
                },
                Err(e) => Err(lift_error(e)),
            }),
    {
        match self.read_uint() {
            Ok(v) => if v <= u16::MAX as u64 {
                Ok(v as u16)
            } else {
                Err(Error::NumberTooLarge)
            },
            Err(e) => Err(e),
        }
    }

    /// Read an unsigned integer that must fit thirty-two bits.
    pub fn read_u32(&self) -> (r: Result<u32, Error>)
        ensures
            r == (match spec_read_uint(self@) {
                Ok(v) => if v <= u32::MAX {
                    Ok(v as u32)
                } else {
                    Err::<u32, Error>(Error::NumberTooLarge)
                },
                Err(e) => Err(lift_error(e)),
            }),
    {
        match self.read_uint() {
            Ok(v) => if v <= u32::MAX as u64 {
                Ok(v as u32)
            } else {
                Err(Error::NumberTooLarge)
            },
            Err(e) => Err(e),
        }
    }

    /// Read a sixty-four-bit unsigned integer.
    pub fn read_u64(&self) -> (r: Result<u64, Error>)
        ensures
            r == (match spec_read_uint(self@) {
                Ok(v) => Ok::<u64, Error>(v),
                Err(e) => Err::<u64, Error>(lift_error(e)),
            }),
    {
        self.read_uint()
    }

    /// Read a signed integer: an unsigned body under the zig-zag mapping.
    pub fn read_int(&self) -> (r: Result<i64, Error>)
        ensures
            r == (match spec_read_int(self@) {
                Ok(v) => Ok::<i64, Error>(v),
                Err(e) => Err::<i64, Error>(lift_error(e)),
            }),
    {
        match self.read_uint() {
            Ok(v) => {
                if v % 2 == 0 {
                    Ok((v / 2) as i64)
                } else {
                    Ok(-((v / 2) as i64) - 1)
                }
            },
            Err(e) => Err(e),
        }
    }

    /// Read a signed integer that must fit eight bits.
    pub fn read_i8(&self) -> (r: Result<i8, Error>)
        ensures
            r == (match spec_read_int(self@) {
                Ok(v) => if i8::MIN <= v <= i8::MAX {
                    Ok(v as i8)
                } else {
                    Err::<i8, Error>(Error::NumberTooLarge)
                },
                Err(e) => Err(lift_error(e)),
            }),
    {
        match self.read_int() {
            Ok(v) => if i8::MIN as i64 <= v && v <= i8::MAX as i64 {
                Ok(v as i8)
            } else {
                Err(Error::NumberTooLarge)
            },
            Err(e) => Err(e),
        }
    }

    /// Read a signed integer that must fit sixteen bits.
    pub fn read_i16(&self) -> (r: Result<i16, Error>)
        ensures
            r == (match spec_read_int(self@) {
                Ok(v) => if i16::MIN <= v <= i16::MAX {
                    Ok(v as i16)
                } else {
                    Err::<i16, Error>(Error::NumberTooLarge)
                },
                Err(e) => Err(lift_error(e)),
            }),
    {
        match self.read_int() {
            Ok(v) => if i16::MIN as i64 <= v && v <= i16::MAX as i64 {
                Ok(v as i16)
            } else {
                Err(Error::NumberTooLarge)
            },
            Err(e) => Err(e),
        }
    }

    /// Read a signed integer that must fit thirty-two bits.
    pub fn read_i32(&self) -> (r: Result<i32, Error>)
        ensures
            r == (match spec_read_int(self@) {
                Ok(v) => if i32::MIN <= v <= i32::MAX {
                    Ok(v as i32)
                } else {
                    Err::<i32, Error>(Error::NumberTooLarge)
                },
                Err(e) => Err(lift_error(e)),
            }),
    {
        match self.read_int() {
            Ok(v) => if i32::MIN as i64 <= v && v <= i32::MAX as i64 {
                Ok(v as i32)
            } else {
                Err(Error::NumberTooLarge)
            },
            Err(e) => Err(e),
        }
    }

    /// Read a sixty-four-bit signed integer.
    pub fn read_i64(&self) -> (r: Result<i64, Error>)
        ensures
            r == (match spec_read_int(self@) {
                Ok(v) => Ok::<i64, Error>(v),
                Err(e) => Err::<i64, Error>(lift_error(e)),
            }),
    {
        self.read_int()
    }

    /// Read a byte string: the body verbatim.
    pub fn read_bytes(&self) -> (r: Result<&'a [u8], Error>)
        ensures
            r is Ok && r.unwrap()@ == self@,
    {
        Ok(self.data)
    }

    /// Read a UTF-8 string from the body.
    pub fn read_string(&self) -> (r: Result<&'a str, Error>)
        ensures
            match r {
                Ok(s) => spec_read_str(self@) is Ok && s@ == decode_utf8(self@),
                Err(e) => e == Error::InvalidUTF8 && !valid_utf8(self@),
            },
    {
        match crate::flatbin::Flatbin::from_bytes(self.data).read_string() {
            Ok(s) => Ok(s),
            Err(_) => Err(Error::InvalidUTF8),
        }
    }

    /// Read a tuple of `count` varint-framed children covering the whole
    /// body; the count comes from the schema.
    pub fn read_tuple(&self, count: usize) -> (r: Result<Sequence<'a>, Error>)
        ensures
            r is Ok,
            r.unwrap().spec_count() == count,
            r.unwrap().spec_data() == self@,
    {
        Ok(Sequence { count, data: self.data })
    }

    /// Read an array: a mandatory varint element count followed by the
    /// framed elements.
    pub fn read_array(&self) -> (r: Result<Sequence<'a>, Error>)
        ensures
            match r {
                Ok(s) => {
                    &&& bin_read_array(self@) is Ok
                    &&& bin_read_array(self@).unwrap().0 == s.spec_count()
                    &&& bin_read_array(self@).unwrap().1 == s.spec_data()
                },
                Err(e) => {
                    bin_read_array(self@) == Err::<(nat, Seq<u8>), Error>(e) || (e
                        == Error::UnexpectedLength && bin_read_array(self@) is Ok
                        && bin_read_array(self@).unwrap().0 > usize::MAX)
                },
            },
    {
        match crate::varint::read_varint(self.data) {
            Ok((value, n)) => {
                proof {
                    assert(varint_at(self@, n as int));
                    lemma_varint_at_unique(self@, n as int, varint_len_at(self@));
                }
                if value > usize::MAX as u64 {
                    return Err(Error::UnexpectedLength);
                }
                let count = value as usize;
                let rest = slice_subrange(self.data, n, self.data.len());
                proof {
                    assert(rest@ =~= self@.skip(n as int));
                }
                Ok(Sequence { count, data: rest })
            },
            Err(e) => {
                proof {
                    assert(!has_varint(self@)) by {
                        if has_varint(self@) {
                            let n = varint_len_at(self@);
                            assert(varint_at(self@, n));
                            assert(self@.take(n)[n - 1] == self@[n - 1]);
                        }
                    };
                }
                match e {
                    VarIntError::TooLarge => Err(Error::BadVarint),
                    VarIntError::UnexpectedEOF => Err(Error::UnexpectedEOF),
                }
            },
        }
    }
}

/// Map a shared reader error into this format's error type.
pub open spec fn lift_error(e: crate::flatbin::Error) -> Error {
    match e {
        crate::flatbin::Error::UnexpectedLength => Error::UnexpectedLength,
        crate::flatbin::Error::NumberTooLarge => Error::NumberTooLarge,
        crate::flatbin::Error::UnexpectedEOF => Error::UnexpectedEOF,
        crate::flatbin::Error::BadVarint => Error::BadVarint,
        crate::flatbin::Error::InvalidUTF8 => Error::InvalidUTF8,
    }
}

/// A view over the varint-framed children of one tuple or array.
#[derive(Clone, Copy)]
pub struct Sequence<'a> {
    count: usize,
    data: &'a [u8],
}

/// A forward iterator over a sequence's children; a framing error is
/// yielded in place of the child it struck.
pub struct SequenceIter<'a> {
    count: usize,
    data: &'a [u8],
}

impl<'a> Sequence<'a> {
    /// How many children the sequence holds.
    pub closed spec fn spec_count(&self) -> nat {
        self.count as nat
    }

    /// The framed bytes the children occupy.
    pub closed spec fn spec_data(&self) -> Seq<u8> {
        self.data@
    }

    /// How many children the sequence holds.
    pub fn len(&self) -> (r: usize)
        ensures
            r == self.spec_count(),
    {
        self.count
    }

    /// Iterate over the children.
    pub fn iter(&self) -> (r: SequenceIter<'a>)
        ensures
            r.spec_count() == self.spec_count(),
            r.spec_data() == self.spec_data(),
    {
        SequenceIter { count: self.count, data: self.data }
    }
}

impl<'a> SequenceIter<'a> {
    /// How many children remain.
    pub closed spec fn spec_count(&self) -> nat {
        self.count as nat
    }

    /// The bytes the remaining children occupy.
    pub closed spec fn spec_data(&self) -> Seq<u8> {
        self.data@
    }

    /// The next child: a varint length prefix frames every child but the
    /// last, whose body is all that remains.
    pub fn next(&mut self) -> (r: Option<Result<Flatbin<'a>, Error>>)
        ensures
            match r {
                None => {
                    &&& old(self).spec_count() == 0
                    &&& *final(self) == *old(self)
                },
                Some(Ok(f)) => {
                    &&& old(self).spec_count() > 0
                    &&& final(self).spec_count() == old(self).spec_count() - 1
                    &&& if old(self).spec_count() == 1 {
                        f@ == old(self).spec_data() && final(self).spec_data() == old(
                            self,
                        ).spec_data()
                    } else {
                        bin_node_split(old(self).spec_data()) == Ok::<(Seq<u8>, Seq<u8>), Error>(
                            (f@, final(self).spec_data()),
                        )
                    }
                },
                Some(Err(e)) => {
                    &&& old(self).spec_count() > 1
                    &&& final(self).spec_count() == old(self).spec_count() - 1
                    &&& bin_node_split(old(self).spec_data()) == Err::<(Seq<u8>, Seq<u8>), Error>(
                        e,
                    )
                },
            },
    {
        if self.count == 0 {
            return None;
        }
        if self.count == 1 {
            self.count = 0;
            return Some(Ok(Flatbin { data: self.data }));
        }
        self.count = self.count - 1;
        match crate::varint::read_varint(self.data) {
            Ok((value, n)) => {
                proof {
                    assert(varint_at(old(self).spec_data(), n as int));
                    lemma_varint_at_unique(
                        old(self).spec_data(),
                        n as int,
                        varint_len_at(old(self).spec_data()),
                    );
                }
                if value > (self.data.len() - n) as u64 {
                    return Some(Err(Error::UnexpectedEOF));
                }
                let len = value as usize;
                let item = slice_subrange(self.data, n, n + len);
                let rest = slice_subrange(self.data, n + len, self.data.len());
                proof {
                    assert(item@ =~= old(self).spec_data().subrange(
                        n as int,
                        n + (value as int),
                    ));
                    assert(rest@ =~= old(self).spec_data().skip(n + (value as int)));
                }
                self.data = rest;
                Some(Ok(Flatbin { data: item }))
            },
            Err(e) => {
                proof {
                    assert(!has_varint(old(self).spec_data())) by {
                        if has_varint(old(self).spec_data()) {
                            let n = varint_len_at(old(self).spec_data());
                            assert(varint_at(old(self).spec_data(), n));
                            assert(old(self).spec_data().take(n)[n - 1] == old(
                                self,
                            ).spec_data()[n - 1]);
                        }
                    };
                }
                match e {
                    VarIntError::TooLarge => Some(Err(Error::BadVarint)),
                    VarIntError::UnexpectedEOF => Some(Err(Error::UnexpectedEOF)),
                }
            },
        }
    }
}

/// One open sequence of the builder: how many children remain to be
/// written and where the sequence's bytes begin.
struct SeqFrame {
    remain: usize,
    offset: usize,
}

/// An append-only writer for this format: child counts are supplied when
/// a sequence starts, every non-last child gets a varint length prefix,
/// and a finished inner sequence is framed into its parent by splicing
/// its own length prefix in.
pub struct FlatbinBuilder {
    buffer: Vec<u8>,
    seqs: Vec<SeqFrame>,
}

impl FlatbinBuilder {
    /// The bytes written so far.
    pub closed spec fn spec_buffer(&self) -> Seq<u8> {
        self.buffer@
    }

    /// The open sequences, outermost first: children remaining and start
    /// offset.
    pub closed spec fn spec_seqs(&self) -> Seq<(nat, nat)> {
        self.seqs@.map_values(|f: SeqFrame| (f.remain as nat, f.offset as nat))
    }

    /// Every open sequence starts within the bytes written.
    pub closed spec fn wf(&self) -> bool {
        forall|i: int| 0 <= i < self.seqs@.len() ==> (#[trigger] self.seqs@[i]).offset
            <= self.buffer@.len()
    }

    /// Whether a child may be written here: the innermost open sequence,
    /// if any, still awaits one.
    pub open spec fn can_write(&self) -> bool {
        self.spec_seqs().len() > 0 ==> self.spec_seqs().last().0 > 0
    }

    /// A fresh builder with nothing written.
    pub fn new() -> (r: Self)
        ensures
            r.wf(),
            r.spec_buffer() == Seq::<u8>::empty(),
            r.spec_seqs() == Seq::<(nat, nat)>::empty(),
    {
        let r = FlatbinBuilder { buffer: Vec::new(), seqs: Vec::new() };
        proof {
            assert(r.spec_seqs() =~= Seq::<(nat, nat)>::empty());
        }
        r
    }

    /// Take the finished document out of the builder.
    pub fn finish(self) -> (r: FlatbinBuf)
        requires
            self.spec_seqs().len() == 0,
        ensures
            r@ == self.spec_buffer(),
    {
        FlatbinBuf { data: self.buffer }
    }

    /// The framed bytes one child write appends: a varint length prefix
    /// unless the child is the last of its sequence or stands at the root.
    pub open spec fn framed(&self, body: Seq<u8>) -> Seq<u8> {
        if self.spec_seqs().len() > 0 && self.spec_seqs().last().0 >= 2 {
            varint_enc(body.len()) + body
        } else {
            body
        }
    }

    /// The sequence stack after one child is written.
    pub open spec fn stepped(&self) -> Seq<(nat, nat)> {
        if self.spec_seqs().len() > 0 {
            let last = self.spec_seqs().len() - 1;
            self.spec_seqs().update(
                last,
                ((self.spec_seqs().last().0 - 1) as nat, self.spec_seqs().last().1),
            )
        } else {
            self.spec_seqs()
        }
    }

    /// Write one child's body, framing it per its sequence position.
    fn write(&mut self, data: &[u8])
        requires
            old(self).wf(),
            old(self).can_write(),
        ensures
            final(self).wf(),
            final(self).spec_buffer() == old(self).spec_buffer() + old(self).framed(data@),
            final(self).spec_seqs() == old(self).stepped(),
    {
        let has_frame = self.seqs.len() > 0;
        if has_frame {
            let li = self.seqs.len() - 1;
            if self.seqs[li].remain >= 2 {
                let l64 = data.len() as u64;
                write_varint(&mut self.buffer, l64);
            }
            let mut top = self.seqs.pop().unwrap();
            top.remain = top.remain - 1;
            self.seqs.push(top);
        }
        let mut body = slice_to_vec(data);
        self.buffer.append(&mut body);
        proof {
            if old(self).spec_seqs().len() > 0 {
                assert(final(self).spec_seqs() =~= old(self).stepped());
            } else {
                assert(final(self).spec_seqs() =~= old(self).stepped());
            }
        }
    }

    /// Write a boolean: a single byte, zero or one.
    pub fn write_bool(&mut self, value: bool)
        requires
            old(self).wf(),
            old(self).can_write(),
        ensures
            final(self).wf(),
            final(self).spec_buffer() == old(self).spec_buffer() + old(self).framed(
                seq![
                    if value {
                        1u8
                    } else {
                        0u8
                    },
                ],
            ),
            final(self).spec_seqs() == old(self).stepped(),
    {
        let body: [u8; 1] = [if value {
            1
        } else {
            0
        }];
        proof {
            assert(body@ =~= seq![
                if value {
                    1u8
                } else {
                    0u8
                },
            ]);
        }
        self.write(body.as_slice());
    }

    /// Write an unsigned integer as its minimal little-endian body.
    pub fn write_uint(&mut self, value: u64)
        requires
            old(self).wf(),
            old(self).can_write(),
        ensures
            final(self).wf(),
            final(self).spec_buffer() == old(self).spec_buffer() + old(self).framed(
                uint_body(value as nat),
            ),
            final(self).spec_seqs() == old(self).stepped(),
    {
        let body = uint_to_le_bytes(value);
        self.write(body.as_slice());
    }

    /// Write a signed integer: the zig-zag image as an unsigned body.
    pub fn write_int(&mut self, value: i64)
        requires
            old(self).wf(),
            old(self).can_write(),
        ensures
            final(self).wf(),
            final(self).spec_buffer() == old(self).spec_buffer() + old(self).framed(
                uint_body(zigzag(value) as nat),
            ),
            final(self).spec_seqs() == old(self).stepped(),
    {
        let u: u64 = if value >= 0 {
            (value as u64) * 2
        } else {
            let m = -(value + 1);
            (m as u64) * 2 + 1
        };
        proof {
            assert(u == zigzag(value));
        }
        self.write_uint(u);
    }

    /// Write a byte string: the bytes verbatim.
    pub fn write_bytes(&mut self, bytes: &[u8])
        requires
            old(self).wf(),
            old(self).can_write(),
        ensures
            final(self).wf(),
            final(self).spec_buffer() == old(self).spec_buffer() + old(self).framed(bytes@),
            final(self).spec_seqs() == old(self).stepped(),
    {
        self.write(bytes);
    }

    /// Write a string: its UTF-8 bytes verbatim.
    pub fn write_string(&mut self, value: &str)
        requires
            old(self).wf(),
            old(self).can_write(),
        ensures
            final(self).wf(),
            final(self).spec_buffer() == old(self).spec_buffer() + old(self).framed(
                encode_utf8(value@),
            ),
            final(self).spec_seqs() == old(self).stepped(),
    {
        self.write_bytes(value.as_bytes());
    }

    /// Open a tuple of exactly `count` children; no count is written.
    pub fn start_tuple(&mut self, count: usize)
        requires
            old(self).wf(),
        ensures
            final(self).wf(),
            final(self).spec_buffer() == old(self).spec_buffer(),
            final(self).spec_seqs() == old(self).spec_seqs().push(
                (count as nat, old(self).spec_buffer().len()),
            ),
    {
        let offset = self.buffer.len();
        self.seqs.push(SeqFrame { remain: count, offset });
        proof {
            assert(final(self).spec_seqs() =~= old(self).spec_seqs().push(
                (count as nat, old(self).spec_buffer().len()),
            ));
        }
    }

    /// Open an array of exactly `count` children, writing the count as a
    /// varint first.
    pub fn start_array(&mut self, count: usize)
        requires
            old(self).wf(),
        ensures
            final(self).wf(),
            final(self).spec_buffer() == old(self).spec_buffer() + varint_enc(count as nat),
            final(self).spec_seqs() == old(self).spec_seqs().push(
                (count as nat, old(self).spec_buffer().len()),
            ),
    {
        let offset = self.buffer.len();
        self.seqs.push(SeqFrame { remain: count, offset });
        write_varint(&mut self.buffer, count as u64);
        proof {
            assert(final(self).spec_seqs() =~= old(self).spec_seqs().push(
                (count as nat, old(self).spec_buffer().len()),
            ));
        }
    }

    /// Close the innermost sequence, which must have received all its
    /// children; if a sequence encloses it, the closed bytes are framed
    /// into it by splicing a varint length prefix at their start.
    pub fn end_seq(&mut self)
        requires
            old(self).wf(),
            old(self).spec_seqs().len() > 0,
            old(self).spec_seqs().last().0 == 0,
            old(self).spec_seqs().len() > 1 ==> old(self).spec_seqs()[old(
                self,
            ).spec_seqs().len() - 2].0 > 0,
        ensures
            final(self).wf(),
            final(self).spec_seqs() == (if old(self).spec_seqs().len() > 1 {
                let parent = old(self).spec_seqs().len() - 2;
                old(self).spec_seqs().drop_last().update(
                    parent,
                    (
                        (old(self).spec_seqs()[parent].0 - 1) as nat,
                        old(self).spec_seqs()[parent].1,
                    ),
                )
            } else {
                old(self).spec_seqs().drop_last()
            }),
            final(self).spec_buffer() == (if old(self).spec_seqs().len() > 1 && old(
                self,
            ).spec_seqs()[old(self).spec_seqs().len() - 2].0 >= 2 {
                let at = old(self).spec_seqs().last().1;
                old(self).spec_buffer().take(at as int) + varint_enc(
                    (old(self).spec_buffer().len() - at) as nat,
                ) + old(self).spec_buffer().skip(at as int)
            } else {
                old(self).spec_buffer()
            }),
    {
        let frame = self.seqs.pop().unwrap();
        let has_parent = self.seqs.len() > 0;
        if has_parent {
            let li = self.seqs.len() - 1;
            let parent_remain = self.seqs[li].remain;
            if parent_remain >= 2 {
                let seq_len = (self.buffer.len() - frame.offset) as u64;
                let prefix = crate::varint::VarInt::from_u64(seq_len);
                let pb = slice_to_vec(prefix.as_bytes());
                insert_bytes(&mut self.buffer, frame.offset, &pb);
            }
            let mut parent = self.seqs.pop().unwrap();
            parent.remain = parent.remain - 1;
            self.seqs.push(parent);
        }
        proof {
            if old(self).spec_seqs().len() > 1 {
                let parent = old(self).spec_seqs().len() - 2;
                assert(final(self).spec_seqs() =~= old(self).spec_seqs().drop_last().update(
                    parent,
                    (
                        (old(self).spec_seqs()[parent].0 - 1) as nat,
                        old(self).spec_seqs()[parent].1,
                    ),
                ));
            } else {
                assert(final(self).spec_seqs() =~= old(self).spec_seqs().drop_last());
            }
        }
    }
}

/// Insert bytes into a buffer at an offset, shifting the tail right.
fn insert_bytes(buffer: &mut Vec<u8>, at: usize, ins: &Vec<u8>)
    requires
        at <= old(buffer)@.len(),
    ensures
        final(buffer)@ == old(buffer)@.take(at as int) + ins@ + old(buffer)@.skip(at as int),
{
    let mut out: Vec<u8> = Vec::new();
    let mut i: usize = 0;
    while i < at
        invariant
            i <= at <= buffer@.len(),
            *buffer == *old(buffer),
            out@ == buffer@.take(i as int),
        decreases at - i,
    {
        out.push(buffer[i]);
        proof {
            assert(out@ =~= buffer@.take(i + 1));
        }
        i = i + 1;
    }
    let mut j: usize = 0;
    while j < ins.len()
        invariant
            j <= ins@.len(),
            *buffer == *old(buffer),
            at <= buffer@.len(),
            out@ == buffer@.take(at as int) + ins@.take(j as int),
        decreases ins@.len() - j,
    {
        out.push(ins[j]);
        proof {
            assert(out@ =~= buffer@.take(at as int) + ins@.take(j + 1));
        }
        j = j + 1;
    }
    let mut k: usize = at;
    while k < buffer.len()
        invariant
            at <= k <= buffer@.len(),
            *buffer == *old(buffer),
            out@ == buffer@.take(at as int) + ins@ + buffer@.subrange(at as int, k as int),
        decreases buffer@.len() - k,
    {
        out.push(buffer[k]);
        proof {
            assert(out@ =~= buffer@.take(at as int) + ins@ + buffer@.subrange(at as int, k + 1));
        }
        k = k + 1;
    }
    proof {
        assert(buffer@.subrange(at as int, buffer@.len() as int) =~= buffer@.skip(at as int));
        assert(ins@.take(ins@.len() as int) =~= ins@);
        assert(buffer@.take(at as int) + ins@.take(0) =~= buffer@.take(at as int));
    }
    *buffer = out;
}

} // verus!
