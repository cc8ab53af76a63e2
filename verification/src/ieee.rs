//! IEEE-754 binary64 bit patterns for integers, computed with integer
//! arithmetic alone: a 53-bit mantissa with round-to-nearest, ties to
//! even, as the hardware conversion rounds.

use vstd::prelude::*;

verus! {

/// Two raised to the power `n`.
pub open spec fn pow2(n: nat) -> nat
    decreases n,
{
    if n == 0 {
        1
    } else {
        2 * pow2((n - 1) as nat)
    }
}

/// The position of the highest set bit: the floor of the base-two
/// logarithm.
pub open spec fn floor_log2(n: nat) -> nat
    decreases n,
{
    if n < 2 {
        0
    } else {
        1 + floor_log2(n / 2)
    }
}

/// The binary64 bits of an unsigned integer: sign zero, biased exponent,
/// and a 53-bit significand rounded to nearest, ties to even.
pub open spec fn bits_of_nat(n: nat) -> nat {
    if n == 0 {
        0
    } else {
        let e = floor_log2(n);
        if e <= 52 {
            ((1023 + e) * pow2(52) + (n * pow2((52 - e) as nat) - pow2(52))) as nat
        } else {
            let sh = (e - 52) as nat;
            let q = n / pow2(sh);
            let r = n % pow2(sh);
            let half = pow2((sh - 1) as nat);
            let up: nat = if r > half || (r == half && q % 2 == 1) {
                1
            } else {
                0
            };
            let q2 = q + up;
            if q2 == pow2(53) {
                (1023 + e + 1) * pow2(52)
            } else {
                ((1023 + e) * pow2(52) + (q2 - pow2(52))) as nat
            }
        }
    }
}

/// The binary64 bits of a signed integer: the magnitude's bits with the
/// sign bit set for negative values.
pub open spec fn bits_of_int(v: int) -> nat {
    if v >= 0 {
        bits_of_nat(v as nat)
    } else {
        pow2(63) + bits_of_nat((-v) as nat)
    }
}

/// `pow2` is monotone in its exponent.
pub proof fn lemma_pow2_le(a: nat, b: nat)
    requires
        a <= b,
    ensures
        pow2(a) <= pow2(b),
    decreases b,
{
    if a < b {
        lemma_pow2_le(a, (b - 1) as nat);
    }
}

/// The powers of two the conversion leans on, computed once.
proof fn lemma_pow2_values()
    ensures
        pow2(52) == 0x10_0000_0000_0000,
        pow2(53) == 0x20_0000_0000_0000,
        pow2(62) == 0x4000_0000_0000_0000,
        pow2(63) == 0x8000_0000_0000_0000,
{
    reveal_with_fuel(pow2, 64);
}

/// The highest set bit brackets the value: `2^e <= n < 2^(e+1)`.
proof fn lemma_floor_log2(n: nat)
    requires
        n >= 1,
    ensures
        pow2(floor_log2(n)) <= n < pow2(floor_log2(n) + 1),
    decreases n,
{
    if n < 2 {
        assert(pow2(1) == 2) by {
            reveal_with_fuel(pow2, 2);
        };
    } else {
        lemma_floor_log2(n / 2);
        let e = floor_log2(n / 2);
        assert(pow2(e + 1) == 2 * pow2(e));
        assert(pow2(e + 2) == 2 * pow2(e + 1));
    }
}

/// Compute two raised to the power `k` for exponents below sixty-four.
pub fn pow2_u64(k: usize) -> (r: u64)
    requires
        k <= 63,
    ensures
        r == pow2(k as nat),
        r >= 1,
{
    let mut p: u64 = 1;
    let mut i: usize = 0;
    while i < k
        invariant
            i <= k <= 63,
            p == pow2(i as nat),
        decreases k - i,
    {
        proof {
            lemma_pow2_le(i as nat, 62);
            lemma_pow2_values();
        }
        p = p * 2;
        i = i + 1;
    }
    proof {
        lemma_pow2_le(0, k as nat);
    }
    p
}

/// The binary64 bits nearest to an unsigned integer, rounding ties to
/// even; never an infinity, since every sixty-four-bit integer rounds
/// below two to the 1024.
#[verifier::rlimit(100)]
pub fn bits_from_u64(n: u64) -> (r: u64)
    ensures
        r == bits_of_nat(n as nat),
{
    if n == 0 {
        return 0;
    }
    let mut e: usize = 0;
    let mut t: u64 = n;
    proof {
        assert(n as nat / pow2(0) == n as nat) by (nonlinear_arith);
    }
    while t >= 2
        invariant
            n >= 1,
            t == n as nat / pow2(e as nat),
            t >= 1,
            e <= 63,
        decreases t,
    {
        proof {
            lemma_pow2_le(0, e as nat);
            assert(pow2((e + 1) as nat) == 2 * pow2(e as nat));
            vstd::arithmetic::div_mod::lemma_div_denominator(
                n as int,
                pow2(e as nat) as int,
                2,
            );
            if e == 63 {
                lemma_pow2_values();
                vstd::arithmetic::div_mod::lemma_fundamental_div_mod(
                    n as int,
                    pow2(63) as int,
                );
                assert(t * pow2(63) >= 2 * pow2(63)) by (nonlinear_arith)
                    requires
                        t >= 2,
                        pow2(63) > 0,
                ;
                assert(false);
            }
        }
        t = t / 2;
        e = e + 1;
    }
    proof {
        lemma_log2_from_div(n as nat, e as nat);
    }
    if e <= 52 {
        let scale = pow2_u64((52 - e) as usize);
        proof {
            lemma_floor_log2(n as nat);
            lemma_pow2_le(e as nat, 52);
            assert(pow2(52) * 2 == pow2(53));
            assert(n * pow2((52 - e) as nat) < pow2(53)) by {
                lemma_pow2_adds((e + 1) as nat, (52 - e) as nat);
                lemma_pow2_le(0, (52 - e) as nat);
                vstd::arithmetic::mul::lemma_mul_strict_inequality(
                    n as int,
                    pow2((e + 1) as nat) as int,
                    pow2((52 - e) as nat) as int,
                );
            };
            assert(pow2(52) <= n * pow2((52 - e) as nat)) by {
                vstd::arithmetic::mul::lemma_mul_inequality(
                    pow2(e as nat) as int,
                    n as int,
                    pow2((52 - e) as nat) as int,
                );
                lemma_pow2_adds(e as nat, (52 - e) as nat);
            };
            lemma_pow2_values();
            lemma_pow2_values();
        }
        let mant = n * scale - pow2_u64(52);
        let exp = (1023 + e) as u64;
        proof {
            assert(exp * pow2(52) <= 2046 * 0x10_0000_0000_0000) by (nonlinear_arith)
                requires
                    exp <= 2046,
                    pow2(52) == 0x10_0000_0000_0000,
            ;
        }
        exp * pow2_u64(52) + mant
    } else {
        let sh = (e - 52) as usize;
        let p = pow2_u64(sh);
        let q = n / p;
        let r = n % p;
        let half = pow2_u64((sh - 1) as usize);
        let up: u64 = if r > half || (r == half && q % 2 == 1) {
            1
        } else {
            0
        };
        proof {
            lemma_floor_log2(n as nat);
            lemma_q_bounds(n as nat, e as nat);
            lemma_pow2_values();
            lemma_pow2_values();
        }
        let q2 = q + up;
        if q2 == pow2_u64(53) {
            let exp = (1023 + e + 1) as u64;
            proof {
                assert(exp * pow2(52) <= 2047 * 0x10_0000_0000_0000) by (nonlinear_arith)
                    requires
                        exp <= 2047,
                        pow2(52) == 0x10_0000_0000_0000,
                ;
            }
            exp * pow2_u64(52)
        } else {
            let exp = (1023 + e) as u64;
            proof {
                assert(exp * pow2(52) <= 2046 * 0x10_0000_0000_0000) by (nonlinear_arith)
                    requires
                        exp <= 2046,
                        pow2(52) == 0x10_0000_0000_0000,
                ;
            }
            exp * pow2_u64(52) + (q2 - pow2_u64(52))
        }
    }
}

/// The binary64 bits nearest to a signed integer: the magnitude with the
/// sign bit.
#[verifier::rlimit(50)]
pub fn bits_from_i64(v: i64) -> (r: u64)
    ensures
        r == bits_of_int(v as int),
{
    if v >= 0 {
        bits_from_u64(v as u64)
    } else {
        let m: u64 = if v == i64::MIN {
            0x8000_0000_0000_0000
        } else {
            (-v) as u64
        };
        let b = bits_from_u64(m);
        proof {
            lemma_pow2_values();
            lemma_bits_of_nat_bound(m as nat);
        }
        0x8000_0000_0000_0000 + b
    }
}

/// Exponents add under `pow2`.
pub proof fn lemma_pow2_adds(a: nat, b: nat)
    ensures
        pow2(a) * pow2(b) == pow2(a + b),
    decreases a,
{
    if a == 0 {
        assert(1 * pow2(b) == pow2(b)) by (nonlinear_arith);
    } else {
        lemma_pow2_adds((a - 1) as nat, b);
        assert(2 * pow2((a - 1) as nat) * pow2(b) == 2 * (pow2((a - 1) as nat) * pow2(b)))
            by (nonlinear_arith);
    }
}

/// Repeated halving to one pins the floor logarithm.
proof fn lemma_log2_from_div(n: nat, e: nat)
    requires
        n >= 1,
        n / pow2(e) == 1,
    ensures
        floor_log2(n) == e,
{
    lemma_floor_log2(n);
    lemma_pow2_le(0, e);
    vstd::arithmetic::div_mod::lemma_fundamental_div_mod(n as int, pow2(e) as int);
    assert(n == pow2(e) + n % pow2(e));
    assert(n % pow2(e) < pow2(e));
    assert(pow2(e) <= n && n < 2 * pow2(e));
    let f = floor_log2(n);
    assert(pow2(e + 1) == 2 * pow2(e));
    if f < e {
        lemma_pow2_le(f + 1, e);
        assert(n < pow2(f + 1));
    }
    if f > e {
        lemma_pow2_le(e + 1, f);
        assert(pow2(f) <= n);
    }
}

/// Under the wide-exponent branch the rounded significand stays in range.
proof fn lemma_q_bounds(n: nat, e: nat)
    requires
        n >= 1,
        floor_log2(n) == e,
        53 <= e <= 63,
    ensures
        pow2(52) <= n / pow2((e - 52) as nat) < pow2(53),
        n % pow2((e - 52) as nat) < pow2((e - 52) as nat),
{
    lemma_floor_log2(n);
    let sh = (e - 52) as nat;
    let q = n / pow2(sh);
    lemma_pow2_le(0, sh);
    lemma_pow2_adds(52, sh);
    lemma_pow2_adds(53, sh);
    vstd::arithmetic::div_mod::lemma_fundamental_div_mod(n as int, pow2(sh) as int);
    assert(n == q * pow2(sh) + n % pow2(sh));
    assert(q < pow2(53)) by (nonlinear_arith)
        requires
            n == q * pow2(sh) + n % pow2(sh),
            0 <= n % pow2(sh),
            n < pow2(53) * pow2(sh),
            pow2(sh) > 0,
    ;
    assert(q >= pow2(52)) by (nonlinear_arith)
        requires
            n == q * pow2(sh) + n % pow2(sh),
            n % pow2(sh) < pow2(sh),
            pow2(52) * pow2(sh) <= n,
            pow2(sh) > 0,
    ;
}

/// The bits of any magnitude up to two to the sixty-three stay below the
/// sign bit.
#[verifier::rlimit(100)]
proof fn lemma_bits_of_nat_bound(m: nat)
    requires
        m <= 0x8000_0000_0000_0000,
    ensures
        bits_of_nat(m) < pow2(63),
{
    lemma_pow2_values();
    lemma_pow2_values();
    lemma_pow2_values();
    if m >= 1 {
        let e = floor_log2(m);
        lemma_floor_log2(m);
        assert(e <= 63) by {
            if e >= 64 {
                lemma_pow2_le(64, e);
                assert(pow2(64) == 2 * pow2(63));
            }
        };
        if e <= 52 {
            assert(m * pow2((52 - e) as nat) < pow2(53)) by {
                lemma_pow2_adds((e + 1) as nat, (52 - e) as nat);
                lemma_pow2_le(0, (52 - e) as nat);
                vstd::arithmetic::mul::lemma_mul_strict_inequality(
                    m as int,
                    pow2((e + 1) as nat) as int,
                    pow2((52 - e) as nat) as int,
                );
                lemma_pow2_le((e + 1 + 52 - e) as nat, 53);
            };
            assert((1023 + e) * pow2(52) <= 1075 * pow2(52)) by (nonlinear_arith)
                requires
                    e <= 52,
                    pow2(52) > 0,
            ;
        } else {
            lemma_q_bounds(m, e);
            let sh = (e - 52) as nat;
            let q = m / pow2(sh);
            assert((1023 + e + 1) * pow2(52) <= 1087 * pow2(52)) by (nonlinear_arith)
                requires
                    e <= 63,
                    pow2(52) > 0,
            ;
        }
    }
}

} // verus!
