//! Meshes in binary STL: a header, a count, and fifty bytes for each triangle.

use crate::coord::{abs_value, exponent_field, scale, sign_bit, significand, unsigned_bits, value};
use crate::polysoup::PolySoup;
use crate::world::Point3;
use vstd::arithmetic::power2::{lemma2_to64, lemma_pow2_adds, lemma_pow2_pos, pow2};
use vstd::prelude::*;

verus! {

// --- Single precision -------------------------------------------------------

/// The exponent field of a binary32 pattern.
pub open spec fn exponent32(bits: u32) -> nat {
    ((bits % 0x8000_0000) / 0x80_0000) as nat
}

/// The fraction field of a binary32 pattern.
pub open spec fn fraction32(bits: u32) -> nat {
    (bits % 0x80_0000) as nat
}

/// Whether a binary32 pattern is that of a finite number.
pub open spec fn finite32(bits: u32) -> bool {
    exponent32(bits) != 0xff
}

/// The magnitude of a binary32 pattern in units of `2^-149`.
pub open spec fn abs32(bits: u32) -> nat {
    if exponent32(bits) == 0 {
        fraction32(bits)
    } else {
        (fraction32(bits) + 0x80_0000) * pow2((exponent32(bits) - 1) as nat)
    }
}

/// The exact value of a binary32 pattern in units of `2^-1074`.
pub open spec fn value32(bits: u32) -> int {
    let m = (abs32(bits) * pow2(925)) as int;
    if bits >= 0x8000_0000 {
        -m
    } else {
        m
    }
}

/// The place of the highest bit of a number that is not zero.
fn highest_bit(n: u32) -> (p: u32)
    requires
        0 < n < 0x80_0000,
    ensures
        p < 23,
        pow2(p as nat) <= n < 2 * pow2(p as nat),
{
    let mut p: u32 = 0;
    let mut bound: u32 = 1;
    proof {
        lemma2_to64();
    }
    while 2 * bound <= n
        invariant
            0 < n < 0x80_0000,
            bound == pow2(p as nat),
            1 <= bound <= n,
            p < 23,
        decreases n - bound,
    {
        proof {
            lemma_pow2_adds(1, p as nat);
            lemma2_to64();
            if p == 22 {
                assert(2 * bound >= 0x80_0000);
            }
        }
        bound = 2 * bound;
        p += 1;
    }
    p
}

/// The binary64 pattern from its sign, exponent field and fraction field.
fn assembled(negative: bool, exponent: u64, fraction: u64) -> (bits: u64)
    requires
        exponent <= 0x7ff,
        fraction < 0x10_0000_0000_0000,
    ensures
        sign_bit(bits) == negative,
        exponent_field(bits) == exponent,
        unsigned_bits(bits) % 0x10_0000_0000_0000 == fraction,
{
    let low: u64 = exponent * 0x10_0000_0000_0000 + fraction;
    if negative {
        low + 0x8000_0000_0000_0000
    } else {
        low
    }
}

/// The binary64 pattern of the same number; infinities stay infinite, and what
/// is no number stays none.
pub fn widened(bits: u32) -> (r: u64)
    ensures
        finite32(bits) ==> value(r) == value32(bits) && exponent_field(r) != 0x7ff,
        sign_bit(r) == (bits >= 0x8000_0000),
        !finite32(bits) ==> exponent_field(r) == 0x7ff,
        !finite32(bits) ==> (unsigned_bits(r) % 0x10_0000_0000_0000 == 0) == (fraction32(bits) == 0),
{
    let negative = bits >= 0x8000_0000;
    let e: u32 = (bits % 0x8000_0000) / 0x80_0000;
    let f: u32 = bits % 0x80_0000;
    if e == 0xff {
        return assembled(negative, 0x7ff, f as u64 * 0x2000_0000);
    }
    if e > 0 {
        let r: u64 = assembled(negative, e as u64 + 896, f as u64 * 0x2000_0000);
        proof {
            // The significand gains 29 bits, the scale loses as many.
            lemma2_to64();
            let k = (e - 1) as nat;
            assert(significand(r) == (f + 0x80_0000) * 0x2000_0000);
            assert(scale(r) == k + 896);
            lemma_pow2_adds(k, 896);
            lemma_pow2_adds(29, 896);
            assert(pow2(29) == 0x2000_0000);
            let (m, x, y) = ((f + 0x80_0000) as int, pow2(k) as int, pow2(896) as int);
            assert((m * 0x2000_0000) * (x * y) == (m * x) * (0x2000_0000 * y)) by (nonlinear_arith);
            assert(abs_value(r) == abs32(bits) * pow2(925));
        }
        return r;
    }
    if f == 0 {
        let r: u64 = assembled(negative, 0, 0);
        proof {
            assert(significand(r) == 0);
            assert(abs_value(r) == 0) by (nonlinear_arith)
                requires
                    significand(r) == 0,
                    abs_value(r) == significand(r) * pow2(scale(r)),
            ;
            assert(abs32(bits) * pow2(925) == 0) by (nonlinear_arith)
                requires
                    abs32(bits) == 0,
            ;
        }
        return r;
    }
    let p: u32 = highest_bit(f);
    let mut low: u64 = 1;
    let mut shift: u64 = 0x10_0000_0000_0000;
    let mut i: u32 = 0;
    proof {
        lemma2_to64();
        vstd::arithmetic::power2::lemma2_to64_rest();
        assert(pow2(52) == 0x10_0000_0000_0000);
    }
    while i < p
        invariant
            i <= p < 23,
            low == pow2(i as nat),
            low * shift == 0x10_0000_0000_0000,
            shift == pow2((52 - i) as nat),
            low <= 0x80_0000,
            shift <= 0x10_0000_0000_0000,
        decreases p - i,
    {
        proof {
            lemma_pow2_adds(1, i as nat);
            lemma_pow2_adds(1, (51 - i) as nat);
            lemma2_to64();
            if i < 22 {
                vstd::arithmetic::power2::lemma_pow2_strictly_increases(i as nat, 22);
            }
            let (a, b) = (low as int, pow2((51 - i) as nat) as int);
            assert(a * (2 * b) == (2 * a) * b) by (nonlinear_arith);
        }
        low = 2 * low;
        shift = shift / 2;
        i += 1;
    }
    let rest: u64 = f as u64 - low;
    proof {
        let (g, h, s) = (rest as int, low as int, shift as int);
        assert(g * s < h * s) by (nonlinear_arith)
            requires
                0 <= g < h,
                s > 0,
        ;
        lemma_pow2_pos((52 - p) as nat);
        assert(g * s >= 0) by (nonlinear_arith)
            requires
                g >= 0,
                s >= 0,
        ;
    }
    let r: u64 = assembled(negative, p as u64 + 874, rest * shift);
    proof {
        // f * 2^925 == (f * 2^(52-p)) * 2^(p+873).
        let (g, h, s) = (rest as int, low as int, shift as int);
        assert(g * s + h * s == (g + h) * s) by (nonlinear_arith);
        assert(significand(r) == f * s);
        assert(scale(r) == p + 873);
        lemma_pow2_adds((52 - p) as nat, (p + 873) as nat);
        let (x, y, q) = (f as int, pow2((p + 873) as nat) as int, s);
        assert((x * q) * y == x * (q * y)) by (nonlinear_arith);
        assert(abs_value(r) == abs32(bits) * pow2(925));
    }
    r
}

// --- Framing ----------------------------------------------------------------

/// Four bytes, the lowest first.
pub open spec fn word_at(b: Seq<u8>, i: int) -> u32 {
    (b[i] + 0x100 * b[i + 1] + 0x1_0000 * b[i + 2] + 0x100_0000 * b[i + 3]) as u32
}

fn read_word(b: &Vec<u8>, i: usize) -> (w: u32)
    requires
        i + 3 < b@.len(),
    ensures
        w == word_at(b@, i as int),
{
    let n: usize = b.len();
    assert(i + 3 < n);
    b[i] as u32 + 0x100 * b[i + 1] as u32 + 0x1_0000 * b[i + 2] as u32 + 0x100_0000 * b[i
        + 3] as u32
}

/// The bytes before the first triangle.
pub const HEADER_BYTES: usize = 84;

/// The bytes of a triangle.
pub const TRIANGLE_BYTES: usize = 50;

/// The number of triangles that a file announces.
pub open spec fn announced(b: Seq<u8>) -> nat {
    word_at(b, 80) as nat
}

/// Whether a file has all that it announces.
pub open spec fn complete(b: Seq<u8>) -> bool {
    b.len() >= HEADER_BYTES && b.len() >= HEADER_BYTES + TRIANGLE_BYTES * announced(b)
}

/// Where number `k` of corner `c` of triangle `t` begins: after its normal.
pub open spec fn number_at(t: int, c: int, k: int) -> int {
    84 + 50 * t + 12 + 12 * c + 4 * k
}

/// Whether a point has the coordinates of corner `c` of triangle `t`.
pub open spec fn is_corner(b: Seq<u8>, t: int, c: int, p: Point3) -> bool {
    &&& is_wide(word_at(b, number_at(t, c, 0)), p.x)
    &&& is_wide(word_at(b, number_at(t, c, 1)), p.y)
    &&& is_wide(word_at(b, number_at(t, c, 2)), p.z)
}

/// Whether a binary64 pattern is the widened form of a binary32 pattern.
pub open spec fn is_wide(narrow: u32, wide: u64) -> bool {
    &&& finite32(narrow) ==> value(wide) == value32(narrow) && exponent_field(wide) != 0x7ff
    &&& !finite32(narrow) ==> exponent_field(wide) == 0x7ff && (unsigned_bits(wide)
        % 0x10_0000_0000_0000 == 0) == (fraction32(narrow) == 0)
    &&& sign_bit(wide) == (narrow >= 0x8000_0000)
}

/// The mesh of a file: each triangle has three vertices of its own. None where
/// the file ends too early; what follows the last triangle does not matter.
pub fn read_binary_stl(bytes: &Vec<u8>) -> (r: Option<PolySoup>)
    requires
        bytes@.len() <= 0x10_0000_0000,
    ensures
        match r {
            None => !complete(bytes@),
            Some(soup) => {
                &&& complete(bytes@)
                &&& soup.triangles@.len() == announced(bytes@)
                &&& soup.vertices@.len() == 3 * announced(bytes@)
                &&& forall|t: int, c: int|
                    0 <= t < soup.triangles@.len() && 0 <= c < 3 ==> (
                    #[trigger] soup.triangles@[t]@[c]) == 3 * t + c
                &&& forall|t: int, c: int|
                    #![trigger number_at(t, c, 0)]
                    0 <= t < soup.triangles@.len() && 0 <= c < 3 ==> is_corner(
                        bytes@,
                        t,
                        c,
                        soup.vertices@[3 * t + c],
                    )
            },
        },
{
    if bytes.len() < HEADER_BYTES {
        return None;
    }
    let count: u32 = read_word(bytes, 80);
    if (bytes.len() as u64) < 84 + 50 * count as u64 {
        return None;
    }
    let mut soup = PolySoup::new();
    let mut t: u32 = 0;
    while t < count
        invariant
            t <= count,
            count == announced(bytes@),
            84 + 50 * count <= bytes@.len() <= 0x10_0000_0000,
            bytes@.len() <= usize::MAX,
            soup.triangles@.len() == t,
            soup.vertices@.len() == 3 * t,
            forall|j: int, c: int|
                0 <= j < t && 0 <= c < 3 ==> (#[trigger] soup.triangles@[j]@[c]) == 3 * j + c,
            forall|j: int, c: int|
                #![trigger number_at(j, c, 0)]
                0 <= j < t && 0 <= c < 3 ==> is_corner(bytes@, j, c, soup.vertices@[3 * j + c]),
        decreases count - t,
    {
        let base: u32 = 3 * t;
        let ghost before = soup.vertices@;
        let mut c: usize = 0;
        while c < 3
            invariant
                c <= 3,
                t < count,
                84 + 50 * count <= bytes@.len() <= 0x10_0000_0000,
                bytes@.len() <= usize::MAX,
                before.len() == 3 * t,
                soup.triangles@.len() == t,
                soup.vertices@.len() == 3 * t + c,
                forall|j: int| 0 <= j < 3 * t ==> soup.vertices@[j] == before[j],
                forall|j: int, d: int|
                    0 <= j < t && 0 <= d < 3 ==> (#[trigger] soup.triangles@[j]@[d]) == 3 * j + d,
                forall|d: int|
                    #![trigger number_at(t as int, d, 0)]
                    0 <= d < c ==> is_corner(bytes@, t as int, d, soup.vertices@[3 * t + d]),
            decreases 3 - c,
        {
            let at: usize = 84 + 50 * t as usize + 12 + 12 * c;
            assert(at == number_at(t as int, c as int, 0));
            let x: u64 = widened(read_word(bytes, at));
            let y: u64 = widened(read_word(bytes, at + 4));
            let z: u64 = widened(read_word(bytes, at + 8));
            soup.vertices.push(Point3 { x, y, z });
            c += 1;
        }
        let tri = [base, base + 1, base + 2];
        soup.triangles.push(tri);
        proof {
            assert forall|j: int, d: int|
                #![trigger number_at(j, d, 0)]
                0 <= j < t + 1 && 0 <= d < 3 implies is_corner(
                bytes@,
                j,
                d,
                soup.vertices@[3 * j + d],
            ) by {
                if j < t {
                    assert(soup.vertices@[3 * j + d] == before[3 * j + d]);
                }
            }
        }
        t += 1;
    }
    Some(soup)
}

} // verus!
