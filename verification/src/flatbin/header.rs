//! The node header: a variable-length prefix that frames a non-last child
//! inside a sequence. The run of leading one bits in the first byte picks
//! the format, so short bodies and small scalars cost a single byte.

use vstd::prelude::*;

verus! {

use crate::scalars::le_fixed;
use crate::scalars::le_val;
use crate::scalars::lemma_le_fixed_len;
use crate::scalars::lemma_le_val_bound;
use crate::scalars::lemma_le_val_le_fixed;
use crate::scalars::pow256;
use crate::scalars::uint_to_le_fixed;
use vstd::arithmetic::div_mod::lemma_fundamental_div_mod;
use vstd::slice::slice_subrange;

/// The payload granule of an `n`-byte header: two raised to `7 - n`. The
/// first byte keeps `7 - n` payload bits below its unary length prefix.
pub open spec fn low_group(n: nat) -> nat {
    if n == 1 {
        64
    } else if n == 2 {
        32
    } else if n == 3 {
        16
    } else if n == 4 {
        8
    } else if n == 5 {
        4
    } else {
        2
    }
}

/// The least body length that does not fit an `n`-byte header: two raised
/// to `7 * n - 1`.
pub open spec fn width_cap(n: nat) -> nat {
    if n == 1 {
        0x40
    } else if n == 2 {
        0x2000
    } else if n == 3 {
        0x10_0000
    } else if n == 4 {
        0x800_0000
    } else if n == 5 {
        0x4_0000_0000
    } else {
        0x200_0000_0000
    }
}

/// How many bytes the header for a body of length `l` occupies: the least
/// packed width that holds `l`, or the shortest raw form.
pub open spec fn header_width(l: nat) -> nat {
    if l < width_cap(1) {
        1
    } else if l < width_cap(2) {
        2
    } else if l < width_cap(3) {
        3
    } else if l < width_cap(4) {
        4
    } else if l < width_cap(5) {
        5
    } else if l < width_cap(6) {
        6
    } else if l < 0x100_0000_0000_0000 {
        8
    } else {
        9
    }
}

/// The packed `n`-byte header for a body of length `l`: a unary run of `n`
/// ones, a zero, then `l` little-endian with its low bits in the first
/// byte.
pub open spec fn packed_header(l: nat, n: nat) -> Seq<u8> {
    let g = low_group(n);
    seq![(256 - 2 * g + l % g) as u8] + le_fixed(l / g, (n - 1) as nat)
}

/// The header written before a non-last child with this body. A one-byte
/// body under `0x80` doubles as its own frame and gets no header; a body
/// too long for the packed widths takes the shortest raw form.
pub open spec fn header_for(body: Seq<u8>) -> Seq<u8> {
    if body.len() == 1 && body[0] < 128 {
        Seq::empty()
    } else {
        let l = body.len();
        let n = header_width(l);
        if n <= 6 {
            packed_header(l, n)
        } else if n == 8 {
            seq![0xfeu8] + le_fixed(l, 7)
        } else {
            seq![0xffu8] + le_fixed(l, 8)
        }
    }
}

/// Decode the node header at the head of `data`: the header's length and
/// the body length it frames, or nothing if `data` ends inside the header.
pub open spec fn header_decode(data: Seq<u8>) -> Option<(nat, nat)> {
    if data.len() == 0 {
        None
    } else {
        let b0 = data[0];
        if b0 < 0x80 {
            Some((0, 1))
        } else if b0 < 0xC0 {
            Some((1, (b0 % 64) as nat))
        } else if b0 < 0xFE {
            let n: int = if b0 < 0xE0 {
                2
            } else if b0 < 0xF0 {
                3
            } else if b0 < 0xF8 {
                4
            } else if b0 < 0xFC {
                5
            } else {
                6
            };
            let g = low_group(n as nat);
            if data.len() < n {
                None
            } else {
                Some(
                    (
                        n as nat,
                        (b0 % (g as u8) + g * le_val(data.subrange(1, n as int))) as nat,
                    ),
                )
            }
        } else if b0 == 0xFE {
            if data.len() < 8 {
                None
            } else {
                Some((8, le_val(data.subrange(1, 8))))
            }
        } else {
            if data.len() < 9 {
                None
            } else {
                Some((9, le_val(data.subrange(1, 9))))
            }
        }
    }
}

/// Build the header for a non-last child with this body.
pub fn make_header(body: &[u8]) -> (r: Vec<u8>)
    ensures
        r@ == header_for(body@),
{
    let l = body.len();
    if l == 1 && body[0] < 128 {
        return Vec::new();
    }
    let l64 = l as u64;
    if l64 < 0x200_0000_0000 {
        let (n, g): (usize, u64) = if l64 < 0x40 {
            (1, 64)
        } else if l64 < 0x2000 {
            (2, 32)
        } else if l64 < 0x10_0000 {
            (3, 16)
        } else if l64 < 0x800_0000 {
            (4, 8)
        } else if l64 < 0x4_0000_0000 {
            (5, 4)
        } else {
            (6, 2)
        };
        let first = (256 - 2 * g + l64 % g) as u8;
        let mut out: Vec<u8> = Vec::new();
        out.push(first);
        let mut rest = uint_to_le_fixed(l64 / g, n - 1);
        out.append(&mut rest);
        proof {
            assert(out@ =~= packed_header(l as nat, n as nat));
        }
        out
    } else if l64 < 0x100_0000_0000_0000 {
        let mut out: Vec<u8> = Vec::new();
        out.push(0xfe);
        let mut rest = uint_to_le_fixed(l64, 7);
        out.append(&mut rest);
        proof {
            assert(out@ =~= seq![0xfeu8] + le_fixed(l as nat, 7));
        }
        out
    } else {
        let mut out: Vec<u8> = Vec::new();
        out.push(0xff);
        let mut rest = uint_to_le_fixed(l64, 8);
        out.append(&mut rest);
        proof {
            assert(out@ =~= seq![0xffu8] + le_fixed(l as nat, 8));
        }
        out
    }
}

/// Decode the node header at the head of a slice: the header's length in
/// bytes and the framed body length, or nothing on a truncated header.
pub fn read_node_header(data: &[u8]) -> (r: Option<(usize, u64)>)
    ensures
        match r {
            Some((h, l)) => header_decode(data@) == Some((h as nat, l as nat)),
            None => header_decode(data@) is None,
        },
{
    if data.len() == 0 {
        return None;
    }
    let b0 = data[0];
    if b0 < 0x80 {
        Some((0, 1))
    } else if b0 < 0xC0 {
        Some((1, (b0 % 64) as u64))
    } else if b0 < 0xFE {
        let (n, g): (usize, u64) = if b0 < 0xE0 {
            (2, 32)
        } else if b0 < 0xF0 {
            (3, 16)
        } else if b0 < 0xF8 {
            (4, 8)
        } else if b0 < 0xFC {
            (5, 4)
        } else {
            (6, 2)
        };
        if data.len() < n {
            return None;
        }
        let hi_bytes = slice_subrange(data, 1, n);
        let hi = crate::scalars::uint_from_le_bytes(hi_bytes);
        proof {
            lemma_le_val_bound(hi_bytes@);
            crate::scalars::lemma_pow256_le(hi_bytes@.len(), 5);
            assert(pow256(5) == 0x100_0000_0000) by {
                reveal_with_fuel(pow256, 6);
            };
            assert(g * hi < 0x2000_0000_0000) by (nonlinear_arith)
                requires
                    g <= 32,
                    hi < 0x100_0000_0000,
            ;
        }
        Some((n, (b0 as u64 % g) + g * hi))
    } else if b0 == 0xFE {
        if data.len() < 8 {
            return None;
        }
        let hi_bytes = slice_subrange(data, 1, 8);
        let hi = crate::scalars::uint_from_le_bytes(hi_bytes);
        Some((8, hi))
    } else {
        if data.len() < 9 {
            return None;
        }
        let hi_bytes = slice_subrange(data, 1, 9);
        proof {
            lemma_le_val_bound(hi_bytes@);
            crate::scalars::lemma_pow256_le(hi_bytes@.len(), 8);
            assert(pow256(8) == 0x1_0000_0000_0000_0000) by {
                reveal_with_fuel(pow256, 9);
            };
        }
        let hi = crate::scalars::uint_from_le_bytes(hi_bytes);
        Some((9, hi))
    }
}

/// Decoding a packed header framed before its body and any following bytes
/// recovers the header and body lengths exactly.
proof fn lemma_packed_roundtrip(l: nat, n: nat, s: Seq<u8>)
    requires
        1 <= n <= 6,
        l < width_cap(n),
        s.len() >= n,
        s.subrange(0, n as int) == packed_header(l, n),
    ensures
        header_decode(s) == Some((n, l)),
{
    let g = low_group(n);
    let hdr = packed_header(l, n);
    lemma_le_fixed_len(l / g, (n - 1) as nat);
    assert(hdr.len() == n);
    let b0 = s[0];
    assert(b0 == hdr[0]);
    assert(b0 == (256 - 2 * g + l % g) as u8);
    assert(l % g < g) by {
        assert(g > 0);
    };
    assert(l / g < pow256((n - 1) as nat)) by {
        reveal_with_fuel(pow256, 6);
        lemma_fundamental_div_mod(l as int, g as int);
    };
    let low = le_fixed(l / g, (n - 1) as nat);
    assert forall|i: int| 0 <= i < n - 1 implies s.subrange(1, n as int)[i] == low[i] by {
        assert(s.subrange(0, n as int)[i + 1] == s[i + 1]);
        assert(hdr[i + 1] == low[i]);
    }
    assert(s.subrange(1, n as int) =~= low);
    lemma_le_val_le_fixed(l / g, (n - 1) as nat);
    assert(le_val(s.subrange(1, n as int)) == l / g) by {
        vstd::arithmetic::div_mod::lemma_small_mod(l / g, pow256((n - 1) as nat));
    };
    assert(b0 % (g as u8) == l % g) by {
        let gi = g as int;
        assert(g == 64 || g == 32 || g == 16 || g == 8 || g == 4 || g == 2);
        assert(b0 as int == 256 - 2 * gi + (l % g));
        assert(256 - 2 * gi == gi * (256int / gi - 2));
        vstd::arithmetic::div_mod::lemma_mod_multiples_vanish(
            256int / gi - 2,
            (l % g) as int,
            gi,
        );
        vstd::arithmetic::div_mod::lemma_small_mod(l % g, g);
    };
    lemma_fundamental_div_mod(l as int, g as int);
    assert(header_decode(s) == Some((n, (b0 % (g as u8) + g * le_val(s.subrange(1, n as int))) as nat)));
}

/// Decoding undoes encoding: for every body and any following bytes, the
/// decoder reads back the header's own length and the body's length, and
/// the header is as short as the format table allows.
pub proof fn lemma_header_roundtrip(body: Seq<u8>, rest: Seq<u8>)
    requires
        body.len() < 0x1_0000_0000_0000_0000,
    ensures
        header_decode(header_for(body) + body + rest) == Some(
            (header_for(body).len() as nat, body.len() as nat),
        ),
{
    let l = body.len();
    let s = header_for(body) + body + rest;
    if l == 1 && body[0] < 128 {
        assert(header_for(body) =~= Seq::<u8>::empty());
        assert(s[0] == body[0]);
    } else {
        let n = header_width(l);
        if n <= 6 {
            lemma_le_fixed_len(l / low_group(n), (n - 1) as nat);
            assert(header_for(body).len() == n);
            assert(s.subrange(0, n as int) =~= packed_header(l, n));
            lemma_packed_roundtrip(l, n, s);
        } else if n == 8 {
            lemma_le_fixed_len(l, 7);
            assert(header_for(body).len() == 8);
            assert(s[0] == 0xfe);
            assert(s.subrange(1, 8) =~= le_fixed(l, 7));
            lemma_le_val_le_fixed(l, 7);
            assert(le_val(s.subrange(1, 8)) == l) by {
                assert(pow256(7) == 0x100_0000_0000_0000) by {
                    reveal_with_fuel(pow256, 8);
                };
                vstd::arithmetic::div_mod::lemma_small_mod(l, pow256(7));
            };
        } else {
            lemma_le_fixed_len(l, 8);
            assert(header_for(body).len() == 9);
            assert(s[0] == 0xff);
            assert(s.subrange(1, 9) =~= le_fixed(l, 8));
            lemma_le_val_le_fixed(l, 8);
            assert(le_val(s.subrange(1, 9)) == l) by {
                assert(pow256(8) == 0x1_0000_0000_0000_0000) by {
                    reveal_with_fuel(pow256, 9);
                };
                vstd::arithmetic::div_mod::lemma_small_mod(l, pow256(8));
            };
        }
    }
}

/// The encoder's header is the shortest the format admits: the least
/// packed width that holds the body's length, the eight-byte raw form
/// when no packed width does, and the nine-byte raw form only for lengths
/// past fifty-six bits.
pub proof fn lemma_header_minimal(body: Seq<u8>)
    ensures
        header_for(body).len() <= 9,
        body.len() < 0x100_0000_0000_0000 ==> header_for(body).len() <= 8,
        forall|n: nat| 1 <= n <= 6 && body.len() < width_cap(n) ==> header_for(body).len() <= n,
        header_for(body).len() == 0 ==> body.len() == 1,
{
    let l = body.len();
    if l == 1 && body[0] < 128 {
        assert(header_for(body) =~= Seq::<u8>::empty());
    } else {
        let n = header_width(l);
        if n <= 6 {
            lemma_le_fixed_len(l / low_group(n), (n - 1) as nat);
        } else if n == 8 {
            lemma_le_fixed_len(l, 7);
        } else {
            lemma_le_fixed_len(l, 8);
        }
    }
}

} // verus!
