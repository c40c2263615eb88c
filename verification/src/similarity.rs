//! Similarity scores and thresholds. Floating-point values travel through the
//! library as their IEEE-754 bit patterns (`f64::to_bits`, `f32::to_bits`);
//! comparisons follow IEEE-754: NaN is unordered, `-0.0 == +0.0`, and
//! otherwise values order as sign and magnitude do.
use vstd::prelude::*;

verus! {

pub const F64_SIGN: u64 = 0x8000_0000_0000_0000;
pub const F64_INFINITY: u64 = 0x7ff0_0000_0000_0000;
pub const F32_SIGN: u32 = 0x8000_0000;
pub const F32_INFINITY: u32 = 0x7f80_0000;

/// Bits of `1.0_f64`.
pub const F64_ONE: u64 = 0x3ff0_0000_0000_0000;
/// Bits of `1.0_f32`.
pub const F32_ONE: u32 = 0x3f80_0000;

/// Exponent and mantissa bits of a binary64 value: its magnitude, in order.
pub open spec fn f64_magnitude(b: u64) -> int {
    if b >= F64_SIGN {
        b - F64_SIGN
    } else {
        b as int
    }
}

pub open spec fn f64_is_nan(b: u64) -> bool {
    f64_magnitude(b) > F64_INFINITY
}

/// A number that orders binary64 values (other than NaN) as their values do.
pub open spec fn f64_key(b: u64) -> int {
    if b >= F64_SIGN {
        -f64_magnitude(b)
    } else {
        f64_magnitude(b)
    }
}

/// `a > b` on the binary64 values with bits `a` and `b`.
pub open spec fn f64_gt(a: u64, b: u64) -> bool {
    !f64_is_nan(a) && !f64_is_nan(b) && f64_key(a) > f64_key(b)
}

pub open spec fn f32_magnitude(b: u32) -> int {
    if b >= F32_SIGN {
        b - F32_SIGN
    } else {
        b as int
    }
}

pub open spec fn f32_is_nan(b: u32) -> bool {
    f32_magnitude(b) > F32_INFINITY
}

pub open spec fn f32_key(b: u32) -> int {
    if b >= F32_SIGN {
        -f32_magnitude(b)
    } else {
        f32_magnitude(b)
    }
}

/// `a > b` on binary32 values.
pub open spec fn f32_gt(a: u32, b: u32) -> bool {
    !f32_is_nan(a) && !f32_is_nan(b) && f32_key(a) > f32_key(b)
}

/// `a >= b` on binary32 values.
pub open spec fn f32_ge(a: u32, b: u32) -> bool {
    !f32_is_nan(a) && !f32_is_nan(b) && f32_key(a) >= f32_key(b)
}

/// `a < b` on binary32 values.
pub open spec fn f32_lt(a: u32, b: u32) -> bool {
    !f32_is_nan(a) && !f32_is_nan(b) && f32_key(a) < f32_key(b)
}

fn f64_key_of(b: u64) -> (r: (bool, i128))
    ensures
        r.0 == f64_is_nan(b),
        r.1 == f64_key(b),
{
    let mag: u64 = if b >= F64_SIGN {
        b - F64_SIGN
    } else {
        b
    };
    let nan = mag > F64_INFINITY;
    let key: i128 = if b >= F64_SIGN {
        -(mag as i128)
    } else {
        mag as i128
    };
    (nan, key)
}

fn f32_key_of(b: u32) -> (r: (bool, i64))
    ensures
        r.0 == f32_is_nan(b),
        r.1 == f32_key(b),
{
    let mag: u32 = if b >= F32_SIGN {
        b - F32_SIGN
    } else {
        b
    };
    let nan = mag > F32_INFINITY;
    let key: i64 = if b >= F32_SIGN {
        -(mag as i64)
    } else {
        mag as i64
    };
    (nan, key)
}

/// `a > b` for binary64 values given by their bits.
pub fn f64_bits_gt(a: u64, b: u64) -> (r: bool)
    ensures
        r == f64_gt(a, b),
{
    let (na, ka) = f64_key_of(a);
    let (nb, kb) = f64_key_of(b);
    !na && !nb && ka > kb
}

/// `a < b` on binary64 values given by their bits.
pub open spec fn f64_lt(a: u64, b: u64) -> bool {
    !f64_is_nan(a) && !f64_is_nan(b) && f64_key(a) < f64_key(b)
}

pub fn f64_bits_lt(a: u64, b: u64) -> (r: bool)
    ensures
        r == f64_lt(a, b),
{
    let ma: u64 = if a >= F64_SIGN { a - F64_SIGN } else { a };
    let mb: u64 = if b >= F64_SIGN { b - F64_SIGN } else { b };
    let ka: i128 = if a >= F64_SIGN { -(ma as i128) } else { ma as i128 };
    let kb: i128 = if b >= F64_SIGN { -(mb as i128) } else { mb as i128 };
    ma <= F64_INFINITY && mb <= F64_INFINITY && ka < kb
}

/// `a >= b` on binary64 values given by their bits.
pub open spec fn f64_ge(a: u64, b: u64) -> bool {
    !f64_is_nan(a) && !f64_is_nan(b) && f64_key(a) >= f64_key(b)
}

pub fn f64_bits_ge(a: u64, b: u64) -> (r: bool)
    ensures
        r == f64_ge(a, b),
{
    let ma: u64 = if a >= F64_SIGN { a - F64_SIGN } else { a };
    let mb: u64 = if b >= F64_SIGN { b - F64_SIGN } else { b };
    let ka: i128 = if a >= F64_SIGN { -(ma as i128) } else { ma as i128 };
    let kb: i128 = if b >= F64_SIGN { -(mb as i128) } else { mb as i128 };
    ma <= F64_INFINITY && mb <= F64_INFINITY && ka >= kb
}

/// `a > b` for binary32 values given by their bits.
pub fn f32_bits_gt(a: u32, b: u32) -> (r: bool)
    ensures
        r == f32_gt(a, b),
{
    let (na, ka) = f32_key_of(a);
    let (nb, kb) = f32_key_of(b);
    !na && !nb && ka > kb
}

/// `a >= b` for binary32 values given by their bits.
pub fn f32_bits_ge(a: u32, b: u32) -> (r: bool)
    ensures
        r == f32_ge(a, b),
{
    let (na, ka) = f32_key_of(a);
    let (nb, kb) = f32_key_of(b);
    !na && !nb && ka >= kb
}

/// `a < b` for binary32 values given by their bits.
pub fn f32_bits_lt(a: u32, b: u32) -> (r: bool)
    ensures
        r == f32_lt(a, b),
{
    let (na, ka) = f32_key_of(a);
    let (nb, kb) = f32_key_of(b);
    !na && !nb && ka < kb
}

/// The key by which `total_cmp` orders binary64 values with bits `b`: negative
/// values below `-0.0`, then `+0.0` and the positive values, NaN with the
/// sign bit at the bottom and without it at the top.
pub open spec fn total_key(b: u64) -> int {
    if b >= F64_SIGN {
        -(b - F64_SIGN) - 1
    } else {
        b as int
    }
}

pub fn total_key_of(b: u64) -> (r: i128)
    ensures
        r == total_key(b),
{
    if b >= F64_SIGN {
        -((b - F64_SIGN) as i128) - 1
    } else {
        b as i128
    }
}

/// Bits of what `strsim::jaro_winkler` returns for two strings with
/// characters `a` and `b` (in that argument order). It depends on the
/// characters alone.
pub uninterp spec fn jaro_winkler_of(a: Seq<char>, b: Seq<char>) -> u64;

/// `strsim::jaro_winkler(a, b)`, as the bits of the `f64` it returns. The
/// contract claims that the result is what the function gives for these
/// characters and a value between 0.0 and 1.0, never -0.0 or NaN (whose bits
/// are therefore at most those of 1.0), as its source gives: the Jaro
/// similarity lies in that range and the Winkler prefix bonus (at most four
/// characters, weight 0.1) keeps it there. The algorithm itself is not
/// restated.
#[verifier::external_body]
pub(crate) fn jaro_winkler_bits(a: &str, b: &str) -> (r: u64)
    ensures
        r == jaro_winkler_of(a@, b@),
        r <= F64_ONE,
{
    strsim::jaro_winkler(a, b).to_bits()
}

/// `2^n`.
pub open spec fn pow2(n: nat) -> nat
    decreases n,
{
    if n == 0 {
        1
    } else {
        2 * pow2((n - 1) as nat)
    }
}

/// `s / 2^sh` rounded to nearest, ties to even.
pub open spec fn round_shift(s: nat, sh: nat) -> nat {
    let q = s / pow2(sh);
    let rem = s % pow2(sh);
    if sh == 0 {
        q
    } else if rem > pow2(sh) / 2 || (rem == pow2(sh) / 2 && q % 2 == 1) {
        q + 1
    } else {
        q
    }
}

/// Bits of the binary32 value nearest (ties to even) the binary64 value with
/// bits `b`, for `0 <= b <= 1.0`: the `as f32` conversion on that range.
/// Binary64 subnormals round to zero; results below the binary32 normal range
/// come out subnormal, and a carry out of the mantissa moves into the
/// exponent.
pub open spec fn narrow_unit(b: u64) -> u32 {
    let e = b as nat / pow2(52);
    let m = b as nat % pow2(52);
    if e == 0 {
        0
    } else if e >= 897 {
        ((e - 896) * pow2(23) + round_shift(m, 29)) as u32
    } else {
        let sh = (926 - e) as nat;
        if sh >= 64 {
            0
        } else {
            round_shift(pow2(52) + m, sh) as u32
        }
    }
}

proof fn lemma_pow2_values()
    ensures
        pow2(23) == 0x80_0000,
        pow2(28) == 0x1000_0000,
        pow2(29) == 0x2000_0000,
        pow2(52) == 0x10_0000_0000_0000,
{
    reveal_with_fuel(pow2, 53);
}

proof fn lemma_pow2_monotone(a: nat, b: nat)
    requires
        a <= b,
    ensures
        pow2(a) <= pow2(b),
        pow2(a) >= 1,
    decreases b,
{
    if b > a {
        lemma_pow2_monotone(a, (b - 1) as nat);
    } else if a > 0 {
        lemma_pow2_monotone((a - 1) as nat, (a - 1) as nat);
    }
}

proof fn lemma_pow2_63()
    ensures
        pow2(63) == 0x8000_0000_0000_0000,
{
    reveal_with_fuel(pow2, 64);
}

/// `2^n`, for `n < 64`.
fn pow2_u64(n: u64) -> (p: u64)
    requires
        n < 64,
    ensures
        p == pow2(n as nat),
{
    let mut p: u64 = 1;
    let mut i: u64 = 0;
    proof {
        lemma_pow2_63();
    }
    while i < n
        invariant
            i <= n,
            n < 64,
            p == pow2(i as nat),
            pow2(63) == 0x8000_0000_0000_0000,
        decreases n - i,
    {
        proof {
            lemma_pow2_monotone((i + 1) as nat, 63);
        }
        p = p * 2;
        i = i + 1;
    }
    p
}

/// `s / 2^sh` rounded to nearest, ties to even, for `0 < sh < 64`.
fn round_shift_u64(s: u64, sh: u64) -> (r: u64)
    requires
        0 < sh < 64,
        s < 0x40_0000_0000_0000,
    ensures
        r == round_shift(s as nat, sh as nat),
        r <= s,
{
    let p = pow2_u64(sh);
    proof {
        lemma_pow2_monotone(1, sh as nat);
        assert(pow2(1) == 2) by {
            reveal_with_fuel(pow2, 2);
        }
    }
    let q = s / p;
    let rem = s % p;
    let half = p / 2;
    if rem > half || (rem == half && q % 2 == 1) {
        proof {
            assert(q * p <= s) by (nonlinear_arith)
                requires
                    q == s / p,
                    p > 0,
            ;
            assert(q < s) by (nonlinear_arith)
                requires
                    q * p <= s,
                    p >= 2,
                    rem > 0 || q % 2 == 1,
                    rem == s % p,
                    q == s / p,
            ;
        }
        q + 1
    } else {
        proof {
            assert(q <= s) by (nonlinear_arith)
                requires
                    q == s / p,
                    p >= 1,
            ;
        }
        q
    }
}

/// `x as f32` for an `f64` `x` in `[0, 1]`, on bits.
pub fn narrow_unit_bits(b: u64) -> (r: u32)
    requires
        b <= F64_ONE,
    ensures
        r == narrow_unit(b),
{
    proof {
        lemma_pow2_values();
    }
    let e = b / 0x10_0000_0000_0000;
    let m = b % 0x10_0000_0000_0000;
    assert(e <= 1023);
    if e == 0 {
        0
    } else if e >= 897 {
        let mant = round_shift_u64(m, 29);
        proof {
            assert(mant <= 0x80_0000) by (nonlinear_arith)
                requires
                    mant == round_shift(m as nat, 29),
                    m < 0x10_0000_0000_0000,
                    pow2(29) == 0x2000_0000,
            {
                let q = m as nat / pow2(29);
                assert(q < 0x80_0000);
            }
        }
        ((e - 896) * 0x80_0000 + mant) as u32
    } else {
        let sh = 926 - e;
        if sh >= 64 {
            0
        } else {
            let s = 0x10_0000_0000_0000 + m;
            let q = round_shift_u64(s, sh);
            proof {
                assert(sh >= 30);
                lemma_pow2_monotone(30, sh as nat);
                assert(pow2(30) == 0x4000_0000) by {
                    reveal_with_fuel(pow2, 31);
                }
                assert(q <= 0x80_0000) by (nonlinear_arith)
                    requires
                        q == round_shift(s as nat, sh as nat),
                        s < 0x20_0000_0000_0000,
                        pow2(sh as nat) >= 0x4000_0000,
                {
                    let qq = s as nat / pow2(sh as nat);
                    assert(qq * pow2(sh as nat) <= s);
                    assert(qq < 0x80_0000);
                }
            }
            q as u32
        }
    }
}

} // verus!
