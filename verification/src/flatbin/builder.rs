//! The flatbin builder: an append-only writer with scoped tuple and vector
//! sequences that keeps the last child of every sequence headerless. Each
//! open sequence buffers its children's bodies and frames all but the last
//! when it ends, so the finished bytes match the wire format exactly.

use vstd::prelude::*;

verus! {

use super::frame_seq;
use super::header::make_header;
use super::FlatbinBuf;
use super::Flatbin;
use crate::scalars::le_fixed;
use crate::scalars::uint_body;
use crate::scalars::uint_to_le_bytes;
use crate::scalars::uint_to_le_fixed;
use crate::scalars::zigzag;
use crate::varint::varint_enc;
use crate::varint::VarInt;
use vstd::slice::slice_to_vec;

/// The bytes of a finished vector: nothing for an empty vector, else the
/// element count as a varint followed by the framed children.
pub open spec fn vector_bytes(children: Seq<Seq<u8>>) -> Seq<u8> {
    if children.len() == 0 {
        Seq::empty()
    } else {
        varint_enc(children.len()) + frame_seq(children)
    }
}

/// The bytes of a finished tuple: the framed children and nothing else;
/// the arity lives in the schema.
pub open spec fn tuple_bytes(children: Seq<Seq<u8>>) -> Seq<u8> {
    frame_seq(children)
}

/// The body a boolean value writes: a single byte, zero or one.
pub open spec fn bool_body(value: bool) -> Seq<u8> {
    if value {
        seq![1u8]
    } else {
        seq![0u8]
    }
}

/// One open sequence: whether it is a vector, and the bodies of the
/// children written into it so far.
struct Frame {
    is_vector: bool,
    children: Vec<Vec<u8>>,
}

/// The ghost image of one open sequence.
#[verifier::ext_equal]
pub struct FrameView {
    /// Whether the sequence is a vector.
    pub is_vector: bool,
    /// The bodies of the children written so far, in order.
    pub children: Seq<Seq<u8>>,
}

/// A cursor that writes exactly one flatbin value. Sequences nest through
/// `start_tuple` / `start_vector` and close through `end_tuple` /
/// `end_vector`; every write lands in the innermost open sequence.
pub struct Builder {
    frames: Vec<Frame>,
}

impl View for Frame {
    type V = FrameView;

    closed spec fn view(&self) -> FrameView {
        FrameView {
            is_vector: self.is_vector,
            children: self.children@.map_values(|c: Vec<u8>| c@),
        }
    }
}

impl View for Builder {
    type V = Seq<FrameView>;

    closed spec fn view(&self) -> Seq<FrameView> {
        self.frames@.map_values(|f: Frame| f@)
    }
}

/// Whether a later frame stack still carries every frame of an earlier
/// one, untouched and in place; frames opened since may sit above them.
pub open spec fn extends_frames(pre: Seq<FrameView>, post: Seq<FrameView>) -> bool {
    &&& post.len() >= pre.len()
    &&& forall|i: int| 0 <= i < pre.len() ==> post[i] == #[trigger] pre[i]
}

/// The stack after appending one child body to the innermost frame.
pub open spec fn push_child(v: Seq<FrameView>, body: Seq<u8>) -> Seq<FrameView> {
    let last = v.len() - 1;
    v.update(
        last,
        (FrameView { is_vector: v[last].is_vector, children: v[last].children.push(body) }),
    )
}

impl Builder {
    /// The frame stack is never empty: the root frame receives the one
    /// finished value.
    pub open spec fn wf(&self) -> bool {
        &&& self@.len() >= 1
        &&& self@.len() > 1 ==> self@[0].children.len() == 0
    }

    /// Whether a value may be written here: the root holds at most one.
    pub open spec fn can_write(&self) -> bool {
        self@.len() > 1 || self@[0].children.len() == 0
    }

    /// A fresh builder with nothing written.
    pub fn new() -> (r: Builder)
        ensures
            r.wf(),
            r.can_write(),
            r@.len() == 1,
            r@[0].children == Seq::<Seq<u8>>::empty(),
            !r@[0].is_vector,
    {
        let mut frames: Vec<Frame> = Vec::new();
        frames.push(Frame { is_vector: false, children: Vec::new() });
        let b = Builder { frames };
        proof {
            assert(b@ =~~= seq![(FrameView { is_vector: false, children: Seq::empty() })]);
        }
        b
    }

    /// Append one finished child body to the innermost frame.
    fn append_child(&mut self, body: Vec<u8>)
        requires
            old(self).wf(),
            old(self).can_write(),
        ensures
            final(self).wf(),
            final(self)@ == push_child(old(self)@, body@),
    {
        let mut top = self.frames.pop().unwrap();
        top.children.push(body);
        self.frames.push(top);
        proof {
            assert(self@ =~= push_child(old(self)@, body@)) by {
                let last = old(self)@.len() - 1;
                assert(self@[last].children =~= old(self)@[last].children.push(body@));
                assert(self@ =~= old(self)@.update(
                    last,
                    (FrameView {
                        is_vector: old(self)@[last].is_vector,
                        children: old(self)@[last].children.push(body@),
                    }),
                ));
            };
        }
    }

    /// Write the void value: an empty body.
    pub fn write_void(&mut self)
        requires
            old(self).wf(),
            old(self).can_write(),
        ensures
            final(self).wf(),
            final(self)@ == push_child(old(self)@, Seq::<u8>::empty()),
    {
        self.append_child(Vec::new());
    }

    /// Write a boolean: a single byte, zero or one.
    pub fn write_bool(&mut self, value: bool)
        requires
            old(self).wf(),
            old(self).can_write(),
        ensures
            final(self).wf(),
            final(self)@ == push_child(old(self)@, bool_body(value)),
    {
        let mut body: Vec<u8> = Vec::new();
        if value {
            body.push(1);
        } else {
            body.push(0);
        }
        proof {
            assert(body@ =~= bool_body(value));
        }
        self.append_child(body);
    }

    /// Write an unsigned integer as its minimal little-endian body.
    pub fn write_u64(&mut self, value: u64)
        requires
            old(self).wf(),
            old(self).can_write(),
        ensures
            final(self).wf(),
            final(self)@ == push_child(old(self)@, uint_body(value as nat)),
    {
        let body = uint_to_le_bytes(value);
        self.append_child(body);
    }

    /// Write an eight-bit unsigned integer.
    pub fn write_u8(&mut self, value: u8)
        requires
            old(self).wf(),
            old(self).can_write(),
        ensures
            final(self).wf(),
            final(self)@ == push_child(old(self)@, uint_body(value as nat)),
    {
        self.write_u64(value as u64);
    }

    /// Write a sixteen-bit unsigned integer.
    pub fn write_u16(&mut self, value: u16)
        requires
            old(self).wf(),
            old(self).can_write(),
        ensures
            final(self).wf(),
            final(self)@ == push_child(old(self)@, uint_body(value as nat)),
    {
        self.write_u64(value as u64);
    }

    /// Write a thirty-two-bit unsigned integer.
    pub fn write_u32(&mut self, value: u32)
        requires
            old(self).wf(),
            old(self).can_write(),
        ensures
            final(self).wf(),
            final(self)@ == push_child(old(self)@, uint_body(value as nat)),
    {
        self.write_u64(value as u64);
    }

    /// Write a signed integer: the zig-zag image as an unsigned body.
    pub fn write_i64(&mut self, value: i64)
        requires
            old(self).wf(),
            old(self).can_write(),
        ensures
            final(self).wf(),
            final(self)@ == push_child(old(self)@, uint_body(zigzag(value) as nat)),
    {
        let u: u64 = if value >= 0 {
            (value as u64) * 2
        } else {
            let m = -(value + 1);
            (m as u64) * 2 + 1
        };
        proof {
            assert(u == zigzag(value));
        }
        self.write_u64(u);
    }

    /// Write the raw IEEE-754 bits of a sixty-four-bit float as a fixed
    /// eight-byte little-endian body.
    pub fn write_bits64(&mut self, bits: u64)
        requires
            old(self).wf(),
            old(self).can_write(),
        ensures
            final(self).wf(),
            final(self)@ == push_child(old(self)@, le_fixed(bits as nat, 8)),
    {
        let body = uint_to_le_fixed(bits, 8);
        self.append_child(body);
    }

    /// Write a byte string: the bytes verbatim.
    pub fn write_bytes(&mut self, bytes: &[u8])
        requires
            old(self).wf(),
            old(self).can_write(),
        ensures
            final(self).wf(),
            final(self)@ == push_child(old(self)@, bytes@),
    {
        let body = slice_to_vec(bytes);
        self.append_child(body);
    }

    /// Write a string: its UTF-8 bytes verbatim.
    pub fn write_str(&mut self, value: &str)
        requires
            old(self).wf(),
            old(self).can_write(),
        ensures
            final(self).wf(),
            final(self)@ == push_child(old(self)@, vstd::utf8::encode_utf8(value@)),
    {
        self.write_bytes(value.as_bytes());
    }

    /// Copy another flatbin value in as one child.
    pub fn copy(&mut self, other: &Flatbin<'_>)
        requires
            old(self).wf(),
            old(self).can_write(),
        ensures
            final(self).wf(),
            final(self)@ == push_child(old(self)@, other@),
    {
        self.write_bytes(other.as_bytes());
    }

    /// Write any writable scalar by its canonical body.
    pub fn write<T: Writable>(&mut self, value: T)
        requires
            old(self).wf(),
            old(self).can_write(),
        ensures
            final(self).wf(),
            final(self)@ == push_child(old(self)@, value.body_of()),
    {
        value.write(self);
    }

    /// Open a tuple: subsequent writes become its children until
    /// `end_tuple`.
    pub fn start_tuple(&mut self)
        requires
            old(self).wf(),
            old(self).can_write(),
        ensures
            final(self).wf(),
            final(self)@ == old(self)@ + seq![
                (FrameView { is_vector: false, children: Seq::empty() }),
            ],
    {
        self.frames.push(Frame { is_vector: false, children: Vec::new() });
        proof {
            assert(self@ =~~= old(self)@ + seq![
                (FrameView { is_vector: false, children: Seq::empty() }),
            ]);
        }
    }

    /// Open a vector: subsequent writes become its elements until
    /// `end_vector`.
    pub fn start_vector(&mut self)
        requires
            old(self).wf(),
            old(self).can_write(),
        ensures
            final(self).wf(),
            final(self)@ == old(self)@ + seq![
                (FrameView { is_vector: true, children: Seq::empty() }),
            ],
    {
        self.frames.push(Frame { is_vector: true, children: Vec::new() });
        proof {
            assert(self@ =~~= old(self)@ + seq![
                (FrameView { is_vector: true, children: Seq::empty() }),
            ]);
        }
    }

    /// How many elements the innermost open vector holds so far.
    pub fn count(&self) -> (r: usize)
        requires
            self.wf(),
        ensures
            r == self@.last().children.len(),
    {
        self.frames[self.frames.len() - 1].children.len()
    }

    /// Frame a finished sequence's children: a node header before each
    /// child but the last.
    fn seq_body(children: &Vec<Vec<u8>>) -> (r: Vec<u8>)
        ensures
            r@ == frame_seq(children@.map_values(|c: Vec<u8>| c@)),
    {
        let ghost cs = children@.map_values(|c: Vec<u8>| c@);
        let mut out: Vec<u8> = Vec::new();
        let len = children.len();
        let mut i: usize = 0;
        proof {
            assert(cs.skip(0) =~= cs);
        }
        while i < len
            invariant
                i <= len == children@.len(),
                cs == children@.map_values(|c: Vec<u8>| c@),
                out@ + frame_seq(cs.skip(i as int)) == frame_seq(cs),
            decreases len - i,
        {
            let ghost pre = out@;
            if i + 1 < len {
                let mut hdr = make_header(children[i].as_slice());
                out.append(&mut hdr);
            }
            let mut body = slice_to_vec(children[i].as_slice());
            out.append(&mut body);
            proof {
                let rest = cs.skip(i as int);
                assert(rest[0] == cs[i as int]);
                assert(rest.skip(1) =~= cs.skip(i + 1));
                if i + 1 < len {
                    assert(frame_seq(rest) == super::header::header_for(cs[i as int]) + cs[
                        i as int
                    ] + frame_seq(cs.skip(i + 1)));
                    assert(out@ == pre + super::header::header_for(cs[i as int]) + cs[i as int]);
                } else {
                    assert(frame_seq(rest) == cs[i as int]);
                    assert(cs.skip(i + 1) =~= Seq::<Seq<u8>>::empty());
                }
                assert(out@ + frame_seq(cs.skip(i + 1)) =~= frame_seq(cs));
            }
            i = i + 1;
        }
        proof {
            assert(cs.skip(len as int) =~= Seq::<Seq<u8>>::empty());
            assert(out@ =~= frame_seq(cs));
        }
        out
    }

    /// Close the innermost tuple: its framed children become one child of
    /// the frame around it. The last child stays headerless.
    pub fn end_tuple(&mut self)
        requires
            old(self).wf(),
            old(self)@.len() >= 2,
            !old(self)@.last().is_vector,
        ensures
            final(self)@ == push_child(
                old(self)@.drop_last(),
                tuple_bytes(old(self)@.last().children),
            ),
    {
        let top = self.frames.pop().unwrap();
        proof {
            assert(self@ =~= old(self)@.drop_last());
            assert(top@.children == old(self)@.last().children);
        }
        let body = Self::seq_body(&top.children);
        self.append_child(body);
    }

    /// Close the innermost vector: an empty vector becomes an empty body;
    /// otherwise the element count as a varint precedes the framed
    /// children, the last of them headerless.
    pub fn end_vector(&mut self)
        requires
            old(self).wf(),
            old(self)@.len() >= 2,
            old(self)@.last().is_vector,
        ensures
            final(self)@ == push_child(
                old(self)@.drop_last(),
                vector_bytes(old(self)@.last().children),
            ),
    {
        let top = self.frames.pop().unwrap();
        proof {
            assert(self@ =~= old(self)@.drop_last());
            assert(top@.children == old(self)@.last().children);
        }
        if top.children.len() == 0 {
            proof {
                assert(top@.children.len() == 0);
            }
            self.append_child(Vec::new());
        } else {
            let count = VarInt::from_usize(top.children.len());
            let mut body = slice_to_vec(count.as_bytes());
            let mut framed = Self::seq_body(&top.children);
            body.append(&mut framed);
            proof {
                assert(top@.children.len() == top.children@.len());
                assert(body@ =~= vector_bytes(top@.children));
            }
            self.append_child(body);
        }
    }

    /// Take the one finished value out of the builder.
    pub fn finish(self) -> (r: FlatbinBuf)
        requires
            self.wf(),
            self@.len() == 1,
            self@[0].children.len() == 1,
        ensures
            r@ == self@[0].children[0],
    {
        let mut frames = self.frames;
        let mut root = frames.pop().unwrap();
        let body = root.children.pop().unwrap();
        FlatbinBuf::from_vec(body)
    }
}

/// A scalar that knows its canonical flatbin body.
pub trait Writable: Sized {
    /// The body bytes this value writes.
    spec fn body_of(&self) -> Seq<u8>;

    /// Write the value as one child of the builder's innermost frame.
    fn write(self, b: &mut Builder)
        requires
            old(b).wf(),
            old(b).can_write(),
        ensures
            final(b).wf(),
            final(b)@ == push_child(old(b)@, self.body_of()),
    ;
}

impl Writable for u8 {
    open spec fn body_of(&self) -> Seq<u8> {
        uint_body(*self as nat)
    }

    fn write(self, b: &mut Builder) {
        b.write_u64(self as u64);
    }
}

impl Writable for u16 {
    open spec fn body_of(&self) -> Seq<u8> {
        uint_body(*self as nat)
    }

    fn write(self, b: &mut Builder) {
        b.write_u64(self as u64);
    }
}

impl Writable for u32 {
    open spec fn body_of(&self) -> Seq<u8> {
        uint_body(*self as nat)
    }

    fn write(self, b: &mut Builder) {
        b.write_u64(self as u64);
    }
}

impl Writable for u64 {
    open spec fn body_of(&self) -> Seq<u8> {
        uint_body(*self as nat)
    }

    fn write(self, b: &mut Builder) {
        b.write_u64(self);
    }
}

impl Writable for usize {
    open spec fn body_of(&self) -> Seq<u8> {
        uint_body(*self as nat)
    }

    fn write(self, b: &mut Builder) {
        b.write_u64(self as u64);
    }
}

impl Writable for isize {
    open spec fn body_of(&self) -> Seq<u8> {
        uint_body(zigzag(*self as i64) as nat)
    }

    fn write(self, b: &mut Builder) {
        b.write_i64(self as i64);
    }
}

impl Writable for i8 {
    open spec fn body_of(&self) -> Seq<u8> {
        uint_body(zigzag(*self as i64) as nat)
    }

    fn write(self, b: &mut Builder) {
        b.write_i64(self as i64);
    }
}

impl Writable for i16 {
    open spec fn body_of(&self) -> Seq<u8> {
        uint_body(zigzag(*self as i64) as nat)
    }

    fn write(self, b: &mut Builder) {
        b.write_i64(self as i64);
    }
}

impl Writable for i32 {
    open spec fn body_of(&self) -> Seq<u8> {
        uint_body(zigzag(*self as i64) as nat)
    }

    fn write(self, b: &mut Builder) {
        b.write_i64(self as i64);
    }
}

impl Writable for i64 {
    open spec fn body_of(&self) -> Seq<u8> {
        uint_body(zigzag(*self) as nat)
    }

    fn write(self, b: &mut Builder) {
        b.write_i64(self);
    }
}

impl Writable for bool {
    open spec fn body_of(&self) -> Seq<u8> {
        bool_body(*self)
    }

    fn write(self, b: &mut Builder) {
        b.write_bool(self);
    }
}

impl<'x> Writable for &'x [u8] {
    open spec fn body_of(&self) -> Seq<u8> {
        self@
    }

    fn write(self, b: &mut Builder) {
        b.write_bytes(self);
    }
}

impl<'x> Writable for &'x str {
    open spec fn body_of(&self) -> Seq<u8> {
        vstd::utf8::encode_utf8(self@)
    }

    fn write(self, b: &mut Builder) {
        b.write_str(self);
    }
}

} // verus!
