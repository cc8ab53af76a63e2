//! Unsigned LEB128 variable-length integers: seven payload bits per byte,
//! high bit set on every byte but the last, at most ten bytes.

use vstd::prelude::*;

verus! {

use vstd::arithmetic::div_mod::lemma_fundamental_div_mod_converse;

/// 128 raised to the power `n`: the number of values `n` varint payload
/// groups can hold.
pub open spec fn pow128(n: nat) -> nat
    decreases n,
{
    if n == 0 {
        1
    } else {
        128 * pow128((n - 1) as nat)
    }
}

/// The varint encoding of an unsigned value: low seven bits first, a high
/// continuation bit on every byte that has a successor.
pub open spec fn varint_enc(n: nat) -> Seq<u8>
    decreases n,
{
    if n < 128 {
        seq![n as u8]
    } else {
        seq![(128 + n % 128) as u8] + varint_enc(n / 128)
    }
}

/// The value a sequence of varint bytes stands for, taking seven payload
/// bits from each byte, without any bound on the result.
pub open spec fn varint_val(s: Seq<u8>) -> nat
    decreases s.len(),
{
    if s.len() == 0 {
        0
    } else {
        (s[0] % 128 + 128 * varint_val(s.skip(1))) as nat
    }
}

/// Whether a byte sequence is one whole varint: non-empty, at most ten
/// bytes, a continuation bit on every byte but the last.
pub open spec fn is_varint_chain(s: Seq<u8>) -> bool {
    &&& 1 <= s.len() <= 10
    &&& s[s.len() - 1] < 128
    &&& forall|i: int| 0 <= i < s.len() - 1 ==> s[i] >= 128
}

/// A variable-length integer: the bytes of one whole varint.
pub struct VarInt {
    data: Vec<u8>,
}

/// What can go wrong while reading a varint from a byte slice.
#[derive(Clone, Copy, Debug, PartialEq, Eq, Structural)]
pub enum VarIntError {
    /// The continuation chain ran past ten bytes.
    TooLarge,
    /// The input ended before the chain did.
    UnexpectedEOF,
}

impl View for VarInt {
    type V = Seq<u8>;

    closed spec fn view(&self) -> Seq<u8> {
        self.data@
    }
}

impl VarInt {
    /// Every `VarInt` holds one whole varint.
    pub closed spec fn wf(&self) -> bool {
        is_varint_chain(self.data@)
    }

    /// Read one varint from the head of a slice. Fails with `TooLarge` if
    /// ten bytes pass without the chain ending while more input remains,
    /// and with `UnexpectedEOF` if the input runs out first.
    pub fn from_slice(buffer: &[u8]) -> (r: Result<Self, VarIntError>)
        ensures
            match r {
                Ok(v) => {
                    &&& v.wf()
                    &&& is_varint_chain(v@)
                    &&& v@.len() <= buffer@.len()
                    &&& v@ == buffer@.take(v@.len() as int)
                },
                Err(e) => {
                    &&& forall|i: int|
                        0 <= i < buffer@.len() && i < 10 ==> buffer@[i] >= 128
                    &&& e == (if buffer@.len() > 10 {
                        VarIntError::TooLarge
                    } else {
                        VarIntError::UnexpectedEOF
                    })
                },
            },
    {
        let bound = if buffer.len() < 10 {
            buffer.len()
        } else {
            10
        };
        let mut i: usize = 0;
        while i < bound
            invariant
                0 <= i <= bound,
                bound == (if buffer@.len() < 10 {
                    buffer@.len() as int
                } else {
                    10
                }),
                forall|j: int| 0 <= j < i ==> buffer@[j] >= 128,
            decreases bound - i,
        {
            if buffer[i] < 128 {
                let mut data: Vec<u8> = Vec::new();
                let mut j: usize = 0;
                while j <= i
                    invariant
                        0 <= j <= i + 1,
                        i < buffer@.len(),
                        data@ == buffer@.take(j as int),
                    decreases i + 1 - j,
                {
                    data.push(buffer[j]);
                    proof {
                        assert(data@ =~= buffer@.take(j + 1));
                    }
                    j = j + 1;
                }
                let v = VarInt { data };
                return Ok(v);
            }
            i = i + 1;
        }
        if buffer.len() > 10 {
            Err(VarIntError::TooLarge)
        } else {
            Err(VarIntError::UnexpectedEOF)
        }
    }

    /// Encode an eight-bit value.
    pub fn from_u8(value: u8) -> (r: Self)
        ensures
            r.wf(),
            r@ == varint_enc(value as nat),
    {
        Self::from_u64(value as u64)
    }

    /// Encode a sixteen-bit value.
    pub fn from_u16(value: u16) -> (r: Self)
        ensures
            r.wf(),
            r@ == varint_enc(value as nat),
    {
        Self::from_u64(value as u64)
    }

    /// Encode a thirty-two-bit value.
    pub fn from_u32(value: u32) -> (r: Self)
        ensures
            r.wf(),
            r@ == varint_enc(value as nat),
    {
        Self::from_u64(value as u64)
    }

    /// Encode a sixty-four-bit value.
    pub fn from_u64(value: u64) -> (r: Self)
        ensures
            r.wf(),
            r@ == varint_enc(value as nat),
    {
        let mut v = value;
        let mut data: Vec<u8> = Vec::new();
        while v >= 128
            invariant
                data@ + varint_enc(v as nat) == varint_enc(value as nat),
                forall|j: int| 0 <= j < data@.len() ==> data@[j] >= 128,
            decreases v,
        {
            let ghost prev = v as nat;
            data.push((v % 128 + 128) as u8);
            v = v / 128;
            proof {
                assert(varint_enc(prev) == seq![(128 + prev % 128) as u8] + varint_enc(
                    prev / 128,
                ));
                assert(data@ + varint_enc(v as nat) =~= varint_enc(value as nat));
            }
        }
        data.push(v as u8);
        proof {
            assert(data@ =~= varint_enc(value as nat));
            lemma_varint_enc_len10(value);
        }
        VarInt { data }
    }

    /// Encode a pointer-sized value.
    pub fn from_usize(value: usize) -> (r: Self)
        ensures
            r.wf(),
            r@ == varint_enc(value as nat),
    {
        Self::from_u64(value as u64)
    }

    /// The bytes of the varint.
    pub fn as_bytes(&self) -> (r: &[u8])
        ensures
            r@ == self@,
    {
        self.data.as_slice()
    }

    /// The value the varint stands for, reduced to sixty-four bits: a
    /// ten-byte chain can name up to seventy payload bits, and the excess
    /// is discarded.
    pub fn as_u64(&self) -> (r: u64)
        requires
            self.wf(),
        ensures
            r == varint_val(self@) % 0x1_0000_0000_0000_0000,
    {
        let len = self.data.len();
        let head = if len < 10 {
            len
        } else {
            9
        };
        let ghost s9 = self@.take(head as int);
        let mut value: u64 = 0;
        let mut i: usize = head;
        proof {
            assert(s9.skip(head as int) =~= Seq::<u8>::empty());
        }
        while i > 0
            invariant
                i <= head <= 9,
                head <= self@.len(),
                s9 == self@.take(head as int),
                value == varint_val(s9.skip(i as int)),
            decreases i,
        {
            proof {
                lemma_varint_val_bound(s9.skip(i as int));
                lemma_pow128_le(s9.skip(i as int).len(), 8);
                assert(pow128(8) == 0x100_0000_0000_0000) by {
                    reveal_with_fuel(pow128, 9);
                };
                assert(s9.skip(i - 1).skip(1) =~= s9.skip(i as int));
            }
            i = i - 1;
            value = value * 128 + (self.data[i] % 128) as u64;
        }
        proof {
            assert(s9.skip(0) =~= s9);
        }
        if len == 10 {
            proof {
                lemma_varint_val_bound(s9);
                lemma_pow128_le(s9.len(), 9);
                assert(pow128(9) == 0x8000_0000_0000_0000) by {
                    reveal_with_fuel(pow128, 10);
                };
            }
            let last = self.data[9];
            let value10 = value + (last % 2) as u64 * 0x8000_0000_0000_0000;
            proof {
                lemma_varint_val_split_last(self@, s9, last);
                let g = (last % 128) as nat;
                let m: nat = 0x1_0000_0000_0000_0000;
                assert(varint_val(self@) == varint_val(s9) + pow128(9) * g);
                assert(pow128(9) * g == (g / 2) * m + (g % 2) * 0x8000_0000_0000_0000) by {
                    assert(pow128(9) == 0x8000_0000_0000_0000) by {
                        reveal_with_fuel(pow128, 10);
                    };
                    assert(g == 2 * (g / 2) + g % 2);
                    assert(0x8000_0000_0000_0000 * (2 * (g / 2) + g % 2) == (g / 2)
                        * 0x1_0000_0000_0000_0000 + (g % 2) * 0x8000_0000_0000_0000)
                        by (nonlinear_arith);
                };
                lemma_fundamental_div_mod_converse(
                    varint_val(self@) as int,
                    m as int,
                    (g / 2) as int,
                    value10 as int,
                );
            }
            value10
        } else {
            proof {
                assert(s9 =~= self@);
                lemma_varint_val_bound(self@);
                lemma_pow128_le(self@.len(), 9);
                assert(pow128(9) == 0x8000_0000_0000_0000) by {
                    reveal_with_fuel(pow128, 10);
                };
                lemma_fundamental_div_mod_converse(
                    varint_val(self@) as int,
                    0x1_0000_0000_0000_0000,
                    0,
                    varint_val(self@) as int,
                );
            }
            value
        }
    }

    /// The value as a pointer-sized integer, if it fits.
    pub fn as_usize(&self) -> (r: Option<usize>)
        requires
            self.wf(),
        ensures
            match r {
                Some(x) => x == varint_val(self@) % 0x1_0000_0000_0000_0000 && x <= usize::MAX,
                None => varint_val(self@) % 0x1_0000_0000_0000_0000 > usize::MAX,
            },
    {
        let v = self.as_u64();
        if v <= usize::MAX as u64 {
            Some(v as usize)
        } else {
            None
        }
    }

    /// How many bytes the varint occupies.
    pub fn num_bytes(&self) -> (r: usize)
        ensures
            r == self@.len(),
    {
        self.data.len()
    }
}

/// Read one varint from the head of a slice, returning the value and how
/// many bytes it occupied.
pub fn read_varint(buffer: &[u8]) -> (r: Result<(u64, usize), VarIntError>)
    ensures
        match r {
            Ok((v, n)) => {
                &&& 1 <= n <= 10
                &&& n <= buffer@.len()
                &&& is_varint_chain(buffer@.take(n as int))
                &&& v == varint_val(buffer@.take(n as int)) % 0x1_0000_0000_0000_0000
            },
            Err(e) => {
                &&& forall|i: int| 0 <= i < buffer@.len() && i < 10 ==> buffer@[i] >= 128
                &&& e == (if buffer@.len() > 10 {
                    VarIntError::TooLarge
                } else {
                    VarIntError::UnexpectedEOF
                })
            },
        },
{
    let v = VarInt::from_slice(buffer)?;
    let n = v.num_bytes();
    Ok((v.as_u64(), n))
}

/// Append the varint encoding of a value to a byte buffer.
pub fn write_varint(buffer: &mut Vec<u8>, value: u64)
    ensures
        final(buffer)@ == old(buffer)@ + varint_enc(value as nat),
{
    let v = VarInt::from_u64(value);
    let bytes = v.as_bytes();
    let mut i: usize = 0;
    while i < bytes.len()
        invariant
            i <= bytes@.len(),
            bytes@ == varint_enc(value as nat),
            buffer@ == old(buffer)@ + bytes@.take(i as int),
        decreases bytes@.len() - i,
    {
        buffer.push(bytes[i]);
        proof {
            assert(old(buffer)@ + bytes@.take(i + 1) =~= buffer@);
        }
        i = i + 1;
    }
    proof {
        assert(bytes@.take(bytes@.len() as int) =~= bytes@);
    }
}

/// The value of varint bytes is bounded by how many groups they hold.
pub proof fn lemma_varint_val_bound(s: Seq<u8>)
    ensures
        varint_val(s) < pow128(s.len()),
    decreases s.len(),
{
    if s.len() > 0 {
        lemma_varint_val_bound(s.skip(1));
    }
}

/// `pow128` is monotone in its exponent.
pub proof fn lemma_pow128_le(a: nat, b: nat)
    requires
        a <= b,
    ensures
        pow128(a) <= pow128(b),
    decreases b,
{
    if a < b {
        lemma_pow128_le(a, (b - 1) as nat);
    }
}

/// Splitting off a final byte adds its payload at the chain's top group.
proof fn lemma_varint_val_split_last(s: Seq<u8>, s9: Seq<u8>, last: u8)
    requires
        s.len() == 10,
        s9 == s.take(9),
        last == s[9],
    ensures
        varint_val(s) == varint_val(s9) + pow128(9) * ((last % 128) as nat),
    decreases s.len(),
{
    lemma_varint_val_concat(s9, seq![last]);
    assert(s9 + seq![last] =~= s);
    let single = seq![last];
    assert(single.len() == 1 && single[0] == last);
    assert(single.skip(1) =~= Seq::<u8>::empty());
    assert(varint_val(Seq::<u8>::empty()) == 0);
    assert(varint_val(single) == (last % 128) as nat);
}

/// The value of concatenated varint bytes: the tail's groups sit above the
/// head's.
pub proof fn lemma_varint_val_concat(a: Seq<u8>, b: Seq<u8>)
    ensures
        varint_val(a + b) == varint_val(a) + pow128(a.len()) * varint_val(b),
    decreases a.len(),
{
    if a.len() == 0 {
        assert(a + b =~= b);
        assert(varint_val(a) == 0);
        assert(pow128(a.len()) == 1);
        assert(pow128(a.len()) * varint_val(b) == varint_val(b))
            by (nonlinear_arith)
            requires
                pow128(a.len()) == 1,
        ;
    } else {
        lemma_varint_val_concat(a.skip(1), b);
        assert((a + b).skip(1) =~= a.skip(1) + b);
        assert((a + b)[0] == a[0]);
        let p = pow128((a.len() - 1) as nat) as int;
        let vb = varint_val(b) as int;
        let x = varint_val(a.skip(1)) as int;
        vstd::arithmetic::mul::lemma_mul_is_distributive_add(128, x, p * vb);
        vstd::arithmetic::mul::lemma_mul_is_associative(128, p, vb);
        assert(128 * (x + p * vb) == 128 * x + (128 * p) * vb);
        assert(varint_val(a + b) == (a[0] % 128 + 128 * (x + p * vb)) as nat);
        assert(varint_val(a) == (a[0] % 128 + 128 * x) as nat);
        assert(pow128(a.len()) == 128 * p);
    }
}

/// The encoding of any value is one whole varint.
pub proof fn lemma_varint_enc_chain(n: nat)
    ensures
        is_varint_chain(varint_enc(n)) <== varint_enc(n).len() <= 10,
        varint_enc(n).len() >= 1,
        varint_enc(n)[varint_enc(n).len() - 1] < 128,
        forall|i: int| 0 <= i < varint_enc(n).len() - 1 ==> varint_enc(n)[i] >= 128,
    decreases n,
{
    if n >= 128 {
        lemma_varint_enc_chain(n / 128);
        let s = varint_enc(n);
        let rest = varint_enc(n / 128);
        assert forall|i: int| 0 <= i < s.len() - 1 implies s[i] >= 128 by {
            if i > 0 {
                assert(s[i] == rest[i - 1]);
            }
        }
    }
}

/// A value below `pow128(n)` encodes to at most `n` bytes.
pub proof fn lemma_varint_enc_len(v: nat, n: nat)
    requires
        v < pow128(n),
        n >= 1,
    ensures
        varint_enc(v).len() <= n,
    decreases v,
{
    if v >= 128 {
        assert(n >= 2) by {
            reveal_with_fuel(pow128, 2);
        };
        assert(v / 128 < pow128((n - 1) as nat)) by {
            assert(pow128(n) == 128 * pow128((n - 1) as nat));
        };
        lemma_varint_enc_len(v / 128, (n - 1) as nat);
    }
}

/// Every sixty-four-bit value encodes to at most ten bytes.
pub proof fn lemma_varint_enc_len10(v: u64)
    ensures
        varint_enc(v as nat).len() <= 10,
        is_varint_chain(varint_enc(v as nat)),
{
    assert(pow128(10) > 0xffff_ffff_ffff_ffff) by {
        reveal_with_fuel(pow128, 11);
    };
    lemma_varint_enc_len(v as nat, 10);
    lemma_varint_enc_chain(v as nat);
}

/// Decoding undoes encoding: for every sixty-four-bit value, the encoded
/// bytes read back as that value, consuming exactly their own length.
pub proof fn lemma_varint_roundtrip(n: u64)
    ensures
        varint_val(varint_enc(n as nat)) == n,
        is_varint_chain(varint_enc(n as nat)),
{
    lemma_varint_enc_len10(n);
    lemma_varint_val_enc(n as nat);
}

/// Decoding a stream that starts with an encoded value undoes the
/// encoding exactly: the encoding is the one varint chain at the stream's
/// head, whatever follows it, and it reads back as the value it encodes.
pub proof fn lemma_varint_decode_prefix(n: u64, s: Seq<u8>)
    requires
        varint_enc(n as nat).len() <= s.len(),
        s.take(varint_enc(n as nat).len() as int) == varint_enc(n as nat),
    ensures
        is_varint_chain(s.take(varint_enc(n as nat).len() as int)),
        varint_val(s.take(varint_enc(n as nat).len() as int)) == n,
        forall|m: int|
            1 <= m <= 10 && m <= s.len() && is_varint_chain(#[trigger] s.take(m)) ==> m
                == varint_enc(n as nat).len(),
{
    let enc = varint_enc(n as nat);
    lemma_varint_enc_len10(n);
    lemma_varint_val_enc(n as nat);
    assert forall|m: int|
        1 <= m <= 10 && m <= s.len() && is_varint_chain(#[trigger] s.take(m)) implies m
        == enc.len() by {
        if m < enc.len() {
            assert(s.take(enc.len() as int)[m - 1] == s[m - 1]);
            assert(s.take(m)[m - 1] == s[m - 1]);
        }
        if m > enc.len() {
            let k = enc.len() as int;
            assert(s.take(k)[k - 1] == s[k - 1]);
            assert(s.take(m)[k - 1] == s[k - 1]);
        }
    }
}

/// Decoding undoes encoding for every unsigned value.
pub proof fn lemma_varint_val_enc(n: nat)
    ensures
        varint_val(varint_enc(n)) == n,
    decreases n,
{
    if n < 128 {
        assert(varint_enc(n).skip(1) =~= Seq::<u8>::empty());
        assert(varint_val(Seq::<u8>::empty()) == 0);
        assert(varint_enc(n)[0] == n as u8);
    } else {
        lemma_varint_val_enc(n / 128);
        assert(varint_enc(n).skip(1) =~= varint_enc(n / 128));
        let b = (128 + n % 128) as u8;
        assert(varint_enc(n)[0] == b);
        assert(b % 128 == n % 128);
        assert(varint_val(varint_enc(n)) == (n % 128 + 128 * (n / 128)) as nat);
    }
}

} // verus!
