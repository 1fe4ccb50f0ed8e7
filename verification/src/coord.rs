//! Coordinates held as IEEE 754 binary64 bit patterns.
//!
//! Every finite binary64 number is an integer multiple of `2^-1074`, so a
//! coordinate has an exact integer value in that unit. Geometry is stated and
//! computed on those integers: nothing is ever rounded.

use vstd::arithmetic::power2::{lemma2_to64, lemma2_to64_rest, lemma_pow2_adds, lemma_pow2_pos, pow2};
use vstd::prelude::*;

verus! {

/// Bit pattern of `1.0`.
pub const ONE_BITS: u64 = 0x3ff0_0000_0000_0000;

/// The pattern without its sign bit.
pub open spec fn unsigned_bits(bits: u64) -> nat {
    (bits % 0x8000_0000_0000_0000) as nat
}

/// Whether the sign bit is set.
pub open spec fn sign_bit(bits: u64) -> bool {
    bits >= 0x8000_0000_0000_0000
}

/// The biased exponent field.
pub open spec fn exponent_field(bits: u64) -> nat {
    unsigned_bits(bits) / 0x10_0000_0000_0000
}

/// The significand as an integer, hidden bit restored.
pub open spec fn significand(bits: u64) -> nat {
    let fraction = unsigned_bits(bits) % 0x10_0000_0000_0000;
    if exponent_field(bits) == 0 {
        fraction
    } else {
        fraction + 0x10_0000_0000_0000
    }
}

/// Power of two by which the significand is scaled, in units of `2^-1074`.
pub open spec fn scale(bits: u64) -> nat {
    if exponent_field(bits) == 0 {
        0
    } else {
        (exponent_field(bits) - 1) as nat
    }
}

/// Magnitude of a coordinate in units of `2^-1074`.
pub open spec fn abs_value(bits: u64) -> nat {
    significand(bits) * pow2(scale(bits))
}

/// Exact value of a coordinate in units of `2^-1074`. A pattern that is not
/// finite has the value that its fields spell, beyond every finite one.
pub open spec fn value(bits: u64) -> int {
    if sign_bit(bits) {
        -(abs_value(bits) as int)
    } else {
        abs_value(bits) as int
    }
}

/// An integer that orders bit patterns as their values.
pub open spec fn key(bits: u64) -> int {
    if sign_bit(bits) {
        -(unsigned_bits(bits) as int)
    } else {
        unsigned_bits(bits) as int
    }
}

/// Whether the pattern is that of a finite number.
pub open spec fn finite(bits: u64) -> bool {
    exponent_field(bits) != 0x7ff
}

proof fn lemma_abs_strict(a: u64, b: u64)
    requires
        unsigned_bits(a) < unsigned_bits(b),
    ensures
        abs_value(a) < abs_value(b),
{
    let (sa, sb) = (scale(a), scale(b));
    let (ma, mb) = (significand(a) as int, significand(b) as int);
    lemma_pow2_pos(sa);
    let p = pow2(sa) as int;
    if sa == sb {
        assert(ma < mb);
        assert(ma * p < mb * p) by (nonlinear_arith)
            requires
                ma < mb,
                p > 0,
        ;
    } else {
        assert(sa + 1 <= sb);
        lemma_pow2_adds(1, sa);
        lemma2_to64();
        lemma_pow2_adds((sa + 1) as nat, (sb - sa - 1) as nat);
        lemma_pow2_pos((sb - sa - 1) as nat);
        let q = pow2((sb - sa - 1) as nat) as int;
        assert(pow2(sb) == (2 * p) * q);
        assert(ma < 0x20_0000_0000_0000);
        assert(mb >= 0x10_0000_0000_0000);
        assert(ma * p < mb * ((2 * p) * q)) by (nonlinear_arith)
            requires
                ma < 0x20_0000_0000_0000,
                mb >= 0x10_0000_0000_0000,
                p > 0,
                q >= 1,
        ;
    }
}

/// Keys order coordinates exactly as their values do.
pub proof fn key_orders_values(a: u64, b: u64)
    ensures
        key(a) < key(b) <==> value(a) < value(b),
        key(a) == key(b) <==> value(a) == value(b),
{
    if unsigned_bits(a) < unsigned_bits(b) {
        lemma_abs_strict(a, b);
    } else if unsigned_bits(b) < unsigned_bits(a) {
        lemma_abs_strict(b, a);
    } else {
        assert(abs_value(a) == abs_value(b));
    }
    lemma_zero(a);
    lemma_zero(b);
}

proof fn lemma_zero(a: u64)
    ensures
        abs_value(a) == 0 <==> unsigned_bits(a) == 0,
{
    lemma_pow2_pos(scale(a));
    let m = significand(a) as int;
    let p = pow2(scale(a)) as int;
    assert(m * p == 0 <==> m == 0) by (nonlinear_arith)
        requires
            p > 0,
    ;
}

/// The ordering key of a coordinate.
pub fn coord_key(bits: u64) -> (r: i64)
    ensures
        r == key(bits),
{
    let u: i64 = (bits % 0x8000_0000_0000_0000) as i64;
    if bits >= 0x8000_0000_0000_0000 {
        -u
    } else {
        u
    }
}

/// Whether a bit pattern stands for a number, a finite one or an infinity.
pub open spec fn is_number(bits: u64) -> bool {
    unsigned_bits(bits) <= 0x7ff0_0000_0000_0000
}

/// Whether a bit pattern stands for a number.
pub fn coord_is_number(bits: u64) -> (r: bool)
    ensures
        r == is_number(bits),
{
    if bits >= 0x8000_0000_0000_0000 {
        bits - 0x8000_0000_0000_0000 <= 0x7ff0_0000_0000_0000
    } else {
        bits <= 0x7ff0_0000_0000_0000
    }
}

/// Whether coordinate `a` is less than coordinate `b`.
pub fn coord_less(a: u64, b: u64) -> (r: bool)
    ensures
        r == (value(a) < value(b)),
{
    proof {
        key_orders_values(a, b);
    }
    coord_key(a) < coord_key(b)
}

/// Whether two coordinates have the same value (both zeros count as equal).
pub fn coord_equal(a: u64, b: u64) -> (r: bool)
    ensures
        r == (value(a) == value(b)),
{
    proof {
        key_orders_values(a, b);
    }
    coord_key(a) == coord_key(b)
}

/// The exponent field of a pattern.
pub fn exponent_of(bits: u64) -> (r: u64)
    ensures
        r == exponent_field(bits),
        r < 2048,
{
    (bits % 0x8000_0000_0000_0000) / 0x10_0000_0000_0000
}

/// Scale of a coordinate, as an executable number.
pub fn scale_of(bits: u64) -> (r: u32)
    ensures
        r == scale(bits),
        r < 2048,
{
    let e: u64 = exponent_of(bits);
    if e == 0 {
        0
    } else {
        (e - 1) as u32
    }
}

/// Significand of a coordinate, as an executable number.
pub fn significand_of(bits: u64) -> (r: u64)
    ensures
        r == significand(bits),
{
    let fraction: u64 = (bits % 0x8000_0000_0000_0000) % 0x10_0000_0000_0000;
    if exponent_of(bits) == 0 {
        fraction
    } else {
        fraction + 0x10_0000_0000_0000
    }
}

/// The coordinate of a number of halves.
pub fn coord_of_halves(h: u64) -> (bits: u64)
    requires
        h <= 0x2_0000_0000,
    ensures
        value(bits) == h * pow2(1073),
        finite(bits),
{
    if h == 0 {
        proof {
            assert(0 * pow2(scale(0)) == 0) by (nonlinear_arith);
            assert(0 * pow2(1073) == 0) by (nonlinear_arith);
        }
        return 0;
    }
    let mut e: u64 = 0;
    let mut p: u64 = 1;
    let mut q: u64 = 0x10_0000_0000_0000;
    proof {
        lemma2_to64();
        lemma2_to64_rest();
    }
    while 2 * p <= h
        invariant
            1 <= p <= h <= 0x2_0000_0000,
            e < 34,
            p == pow2(e as nat),
            q == pow2((52 - e) as nat),
            p * q == 0x10_0000_0000_0000,
        decreases h - p,
    {
        proof {
            lemma_pow2_adds(1, e as nat);
            lemma_pow2_adds(1, (51 - e) as nat);
            lemma2_to64();
            lemma2_to64_rest();
            assert(e != 33);
            assert(p * q == (2 * p) * (q / 2)) by (nonlinear_arith)
                requires
                    q % 2 == 0,
            ;
        }
        p = 2 * p;
        q = q / 2;
        e += 1;
    }
    proof {
        lemma_pow2_pos((52 - e) as nat);
        assert(0x10_0000_0000_0000 <= h * q < 0x20_0000_0000_0000) by (nonlinear_arith)
            requires
                p <= h < 2 * p,
                p * q == 0x10_0000_0000_0000,
                q > 0,
        ;
    }
    let whole: u64 = h * q;
    let bits: u64 = (1022 + e) * 0x10_0000_0000_0000 + (whole - 0x10_0000_0000_0000);
    proof {
        assert(exponent_field(bits) == 1022 + e);
        assert(significand(bits) == whole);
        assert(scale(bits) == 1021 + e);
        let (a, b) = (pow2((52 - e) as nat) as int, pow2((1021 + e) as nat) as int);
        lemma_pow2_adds((52 - e) as nat, (1021 + e) as nat);
        assert((h * a) * b == h * (a * b)) by (nonlinear_arith);
        assert(!sign_bit(bits));
    }
    bits
}

/// The coordinate of a whole number.
pub fn coord_of(n: u32) -> (bits: u64)
    ensures
        value(bits) == n * pow2(1074),
        finite(bits),
{
    proof {
        lemma_pow2_adds(1, 1073);
        lemma2_to64();
        let k = pow2(1073) as int;
        assert((2 * n) * k == n * (2 * k)) by (nonlinear_arith);
    }
    coord_of_halves(2 * n as u64)
}

} // verus!
