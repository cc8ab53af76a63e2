//! Byte-level model of scalar bodies: little-endian integers of minimal
//! width and the zig-zag mapping between signed and unsigned integers.

use vstd::prelude::*;

verus! {

use vstd::arithmetic::div_mod::lemma_fundamental_div_mod_converse;
use vstd::arithmetic::div_mod::lemma_mod_breakdown;

/// 256 raised to the power `n`: the number of values an `n`-byte
/// little-endian body can hold.
pub open spec fn pow256(n: nat) -> nat
    decreases n,
{
    if n == 0 {
        1
    } else {
        256 * pow256((n - 1) as nat)
    }
}

/// The unsigned value of a little-endian byte sequence.
pub open spec fn le_val(s: Seq<u8>) -> nat
    decreases s.len(),
{
    if s.len() == 0 {
        0
    } else {
        (s[0] + 256 * le_val(s.skip(1))) as nat
    }
}

/// The minimal little-endian body of an unsigned value: no trailing zero
/// bytes, so zero is the empty body.
pub open spec fn uint_body(v: nat) -> Seq<u8>
    decreases v,
{
    if v == 0 {
        Seq::empty()
    } else {
        seq![(v % 256) as u8] + uint_body(v / 256)
    }
}

/// A fixed-width little-endian body of exactly `n` bytes, truncating `v`.
pub open spec fn le_fixed(v: nat, n: nat) -> Seq<u8>
    decreases n,
{
    if n == 0 {
        Seq::empty()
    } else {
        seq![(v % 256) as u8] + le_fixed(v / 256, (n - 1) as nat)
    }
}

/// The zig-zag image of a signed integer: bit 0 carries the sign, so small
/// magnitudes of either sign get small images.
pub open spec fn zigzag(v: i64) -> u64 {
    if v >= 0 {
        (2 * (v as int)) as u64
    } else {
        (2 * (-(v as int) - 1) + 1) as u64
    }
}

/// The signed integer a zig-zag image stands for.
pub open spec fn unzigzag(u: u64) -> i64 {
    if u % 2 == 0 {
        ((u as int) / 2) as i64
    } else {
        (-((u as int) / 2) - 1) as i64
    }
}

/// A little-endian body's value is bounded by the body's width.
pub proof fn lemma_le_val_bound(s: Seq<u8>)
    ensures
        le_val(s) < pow256(s.len()),
    decreases s.len(),
{
    if s.len() > 0 {
        lemma_le_val_bound(s.skip(1));
    }
}

/// Reading back a minimal little-endian body yields the value written.
pub proof fn lemma_le_val_uint_body(v: nat)
    ensures
        le_val(uint_body(v)) == v,
    decreases v,
{
    if v > 0 {
        lemma_le_val_uint_body(v / 256);
        assert(uint_body(v).skip(1) =~= uint_body(v / 256));
    }
}

/// A value below `pow256(n)` has a minimal body of at most `n` bytes.
pub proof fn lemma_uint_body_len(v: nat, n: nat)
    requires
        v < pow256(n),
    ensures
        uint_body(v).len() <= n,
    decreases v,
{
    if v > 0 {
        assert(n > 0);
        assert(v / 256 < pow256((n - 1) as nat)) by {
            assert(pow256(n) == 256 * pow256((n - 1) as nat));
        };
        lemma_uint_body_len(v / 256, (n - 1) as nat);
    }
}

/// A `u64` always has a minimal body of at most eight bytes.
pub proof fn lemma_uint_body_len8(v: u64)
    ensures
        uint_body(v as nat).len() <= 8,
{
    assert(pow256(8) == 0x1_0000_0000_0000_0000) by {
        reveal_with_fuel(pow256, 9);
    };
    lemma_uint_body_len(v as nat, 8);
}

/// Reading back a fixed-width body yields the value modulo the width.
pub proof fn lemma_le_val_le_fixed(v: nat, n: nat)
    ensures
        le_val(le_fixed(v, n)) == v % pow256(n),
    decreases n,
{
    if n == 0 {
        assert(v % 1 == 0) by (nonlinear_arith);
    } else {
        lemma_le_val_le_fixed(v / 256, (n - 1) as nat);
        assert(le_fixed(v, n).skip(1) =~= le_fixed(v / 256, (n - 1) as nat));
        let p = pow256((n - 1) as nat);
        assert(p > 0) by {
            lemma_pow256_le(0, (n - 1) as nat);
        };
        lemma_mod_breakdown(v as int, 256, p as int);
    }
}

/// A fixed-width body has exactly the requested width.
pub proof fn lemma_le_fixed_len(v: nat, n: nat)
    ensures
        le_fixed(v, n).len() == n,
    decreases n,
{
    if n > 0 {
        lemma_le_fixed_len(v / 256, (n - 1) as nat);
    }
}

/// Re-encoding a byte sequence's value at its own width gives it back.
pub proof fn lemma_le_fixed_le_val(s: Seq<u8>)
    ensures
        le_fixed(le_val(s), s.len()) == s,
    decreases s.len(),
{
    if s.len() > 0 {
        let v = le_val(s);
        assert(v == s[0] + 256 * le_val(s.skip(1)));
        lemma_fundamental_div_mod_converse(v as int, 256, le_val(s.skip(1)) as int, s[0] as int);
        lemma_le_fixed_le_val(s.skip(1));
        assert(le_fixed(le_val(s), s.len()) =~= s);
    }
}

/// The zig-zag mapping is undone exactly by its inverse.
pub proof fn lemma_unzigzag_zigzag(v: i64)
    ensures
        unzigzag(zigzag(v)) == v,
{
}

/// The inverse mapping is itself undone by zig-zag, so the two are a
/// bijection on 64-bit values.
pub proof fn lemma_zigzag_unzigzag(u: u64)
    ensures
        zigzag(unzigzag(u)) == u,
{
}

/// Decode a little-endian body of at most eight bytes.
pub(crate) fn uint_from_le_bytes(data: &[u8]) -> (r: u64)
    requires
        data@.len() <= 8,
    ensures
        r == le_val(data@),
{
    let len = data.len();
    let mut value: u64 = 0;
    let mut i: usize = len;
    proof {
        assert(data@.skip(len as int) =~= Seq::<u8>::empty());
    }
    while i > 0
        invariant
            i <= len == data@.len() <= 8,
            value == le_val(data@.skip(i as int)),
        decreases i,
    {
        proof {
            lemma_le_val_bound(data@.skip(i as int));
            lemma_pow256_le(data@.skip(i as int).len(), 7);
            assert(pow256(7) == 0x100_0000_0000_0000) by {
                reveal_with_fuel(pow256, 8);
            };
            assert(data@.skip(i - 1).skip(1) =~= data@.skip(i as int));
        }
        i = i - 1;
        value = value * 256 + (data[i] as u64);
    }
    proof {
        assert(data@.skip(0) =~= data@);
    }
    value
}

/// `pow256` is monotone in its exponent.
pub proof fn lemma_pow256_le(a: nat, b: nat)
    requires
        a <= b,
    ensures
        pow256(a) <= pow256(b),
    decreases b,
{
    if a < b {
        lemma_pow256_le(a, (b - 1) as nat);
    }
}

/// Encode a value as its minimal little-endian body.
pub(crate) fn uint_to_le_bytes(value: u64) -> (r: Vec<u8>)
    ensures
        r@ == uint_body(value as nat),
{
    let mut v = value;
    let mut out: Vec<u8> = Vec::new();
    while v > 0
        invariant
            out@ + uint_body(v as nat) == uint_body(value as nat),
        decreases v,
    {
        let ghost prev = v;
        out.push((v % 256) as u8);
        v = v / 256;
        proof {
            assert(uint_body(prev as nat) == seq![(prev % 256) as u8] + uint_body(v as nat));
        }
    }
    proof {
        assert(out@ + uint_body(0) =~= out@);
    }
    out
}

/// Encode a value as a fixed-width little-endian body of `n` bytes.
pub(crate) fn uint_to_le_fixed(value: u64, n: usize) -> (r: Vec<u8>)
    ensures
        r@ == le_fixed(value as nat, n as nat),
{
    let mut v = value;
    let mut out: Vec<u8> = Vec::new();
    let mut i: usize = 0;
    while i < n
        invariant
            i <= n,
            out@ + le_fixed(v as nat, (n - i) as nat) == le_fixed(value as nat, n as nat),
        decreases n - i,
    {
        let ghost prev = v;
        let ghost rem = (n - i) as nat;
        out.push((v % 256) as u8);
        v = v / 256;
        i = i + 1;
        proof {
            assert(le_fixed(prev as nat, rem) == seq![(prev % 256) as u8] + le_fixed(
                v as nat,
                (rem - 1) as nat,
            ));
        }
    }
    proof {
        assert(out@ + le_fixed(v as nat, 0) =~= out@);
    }
    out
}

} // verus!
