//! Exact signed integers of any size, as sign and little-endian limbs.

use vstd::arithmetic::power2::{lemma2_to64, lemma_pow2_adds, pow2};
use vstd::prelude::*;

verus! {

pub const LIMB: u64 = 0x1_0000_0000;

/// Weight of limb `i`: the `i`-th power of the limb base.
pub open spec fn weight(i: nat) -> nat
    decreases i,
{
    if i == 0 {
        1
    } else {
        0x1_0000_0000 * weight((i - 1) as nat)
    }
}

/// Limb `i`, or zero past the end.
pub open spec fn limb_at(s: Seq<u32>, i: int) -> nat {
    if 0 <= i < s.len() {
        s[i] as nat
    } else {
        0
    }
}

/// Value of the lowest `n` limbs.
pub open spec fn low(s: Seq<u32>, n: nat) -> nat
    decreases n,
{
    if n == 0 {
        0
    } else {
        low(s, (n - 1) as nat) + limb_at(s, n - 1) * weight((n - 1) as nat)
    }
}

/// Value of a limb sequence.
pub open spec fn magnitude(s: Seq<u32>) -> nat {
    low(s, s.len())
}

proof fn lemma_low_same(a: Seq<u32>, b: Seq<u32>, n: nat)
    requires
        forall|i: int| 0 <= i < n ==> limb_at(a, i) == limb_at(b, i),
    ensures
        low(a, n) == low(b, n),
    decreases n,
{
    if n > 0 {
        lemma_low_same(a, b, (n - 1) as nat);
    }
}

proof fn lemma_low_past_end(s: Seq<u32>, n: nat)
    requires
        n >= s.len(),
    ensures
        low(s, n) == magnitude(s),
    decreases n,
{
    if n > s.len() {
        lemma_low_past_end(s, (n - 1) as nat);
        assert(0 * weight((n - 1) as nat) == 0) by (nonlinear_arith);
    }
}

proof fn lemma_low_bound(s: Seq<u32>, n: nat)
    ensures
        low(s, n) < weight(n),
    decreases n,
{
    if n > 0 {
        lemma_low_bound(s, (n - 1) as nat);
        let w = weight((n - 1) as nat);
        let x = limb_at(s, n - 1);
        assert(x * w + w <= 0x1_0000_0000 * w) by (nonlinear_arith)
            requires
                x <= 0xffff_ffff,
                w >= 0,
        ;
    }
}

proof fn lemma_weight_pos(n: nat)
    ensures
        weight(n) > 0,
    decreases n,
{
    if n > 0 {
        lemma_weight_pos((n - 1) as nat);
    }
}

proof fn lemma_weight_add(a: nat, b: nat)
    ensures
        weight(a + b) == weight(a) * weight(b),
    decreases b,
{
    if b == 0 {
        assert(weight(a) * 1 == weight(a)) by (nonlinear_arith);
    } else {
        lemma_weight_add(a, (b - 1) as nat);
        let x = weight(a);
        let y = weight((b - 1) as nat);
        assert(0x1_0000_0000 * (x * y) == x * (0x1_0000_0000 * y)) by (nonlinear_arith);
        assert((a + b - 1) as nat == a + (b - 1) as nat);
    }
}

proof fn lemma_weight_pow2(n: nat)
    ensures
        weight(n) == pow2(32 * n),
    decreases n,
{
    lemma2_to64();
    if n > 0 {
        lemma_weight_pow2((n - 1) as nat);
        lemma_pow2_adds(32, (32 * (n - 1)) as nat);
        assert((32 + 32 * (n - 1)) as nat == 32 * n);
    }
}

proof fn lemma_low_push(s: Seq<u32>, x: u32, n: nat)
    requires
        n <= s.len(),
    ensures
        low(s.push(x), n) == low(s, n),
        magnitude(s.push(x)) == magnitude(s) + x * weight(s.len()),
{
    lemma_low_same(s.push(x), s, n);
    lemma_low_same(s.push(x), s, s.len());
}

proof fn lemma_low_update(s: Seq<u32>, k: int, x: u32, n: nat)
    requires
        0 <= k < s.len(),
    ensures
        low(s.update(k, x), n) == if k < n {
            low(s, n) + (x - s[k]) * weight(k as nat)
        } else {
            low(s, n) as int
        },
    decreases n,
{
    if n > 0 {
        lemma_low_update(s, k, x, (n - 1) as nat);
        let w = weight((n - 1) as nat) as int;
        if k == n - 1 {
            lemma_low_same(s.update(k, x), s, (n - 1) as nat);
            let old_x = s[k] as int;
            let new_x = x as int;
            assert(new_x * w == old_x * w + (new_x - old_x) * w) by (nonlinear_arith);
        }
    }
}

proof fn lemma_zeros(s: Seq<u32>, n: nat)
    requires
        forall|i: int| 0 <= i < s.len() ==> s[i] == 0,
    ensures
        low(s, n) == 0,
    decreases n,
{
    if n > 0 {
        lemma_zeros(s, (n - 1) as nat);
        assert(0 * weight((n - 1) as nat) == 0) by (nonlinear_arith);
    }
}

fn limb(v: &Vec<u32>, i: usize) -> (r: u32)
    ensures
        r == limb_at(v@, i as int),
{
    if i < v.len() {
        v[i]
    } else {
        0
    }
}

fn mag_add(a: &Vec<u32>, b: &Vec<u32>) -> (out: Vec<u32>)
    requires
        a.len() < usize::MAX,
        b.len() < usize::MAX,
    ensures
        magnitude(out@) == magnitude(a@) + magnitude(b@),
        out.len() == 1 + if a.len() > b.len() {
            a.len()
        } else {
            b.len()
        },
{
    let n: usize = if a.len() > b.len() {
        a.len()
    } else {
        b.len()
    };
    let mut out: Vec<u32> = Vec::new();
    let mut carry: u64 = 0;
    let mut i: usize = 0;
    while i < n
        invariant
            i <= n,
            out.len() == i,
            carry <= 1,
            low(out@, i as nat) + carry * weight(i as nat) == low(a@, i as nat) + low(b@, i as nat),
        decreases n - i,
    {
        let x: u64 = limb(a, i) as u64;
        let y: u64 = limb(b, i) as u64;
        let s: u64 = x + y + carry;
        let lo: u32 = (s % LIMB) as u32;
        let hi: u64 = s / LIMB;
        proof {
            let w = weight(i as nat) as int;
            lemma_low_push(out@, lo, i as nat);
            assert(lo * w + hi * (0x1_0000_0000 * w) == x * w + y * w + carry * w)
                by (nonlinear_arith)
                requires
                    lo + 0x1_0000_0000 * hi == x + y + carry,
            ;
        }
        out.push(lo);
        carry = hi;
        i += 1;
    }
    let ghost before = out@;
    out.push(carry as u32);
    proof {
        lemma_low_push(before, carry as u32, n as nat);
        lemma_low_past_end(a@, n as nat);
        lemma_low_past_end(b@, n as nat);
    }
    out
}

fn mag_sub(a: &Vec<u32>, b: &Vec<u32>) -> (out: Vec<u32>)
    requires
        magnitude(a@) >= magnitude(b@),
    ensures
        magnitude(out@) == magnitude(a@) - magnitude(b@),
        out.len() == if a.len() > b.len() {
            a.len()
        } else {
            b.len()
        },
{
    let n: usize = if a.len() > b.len() {
        a.len()
    } else {
        b.len()
    };
    let mut out: Vec<u32> = Vec::new();
    let mut borrow: u64 = 0;
    let mut i: usize = 0;
    while i < n
        invariant
            i <= n,
            out.len() == i,
            borrow <= 1,
            low(out@, i as nat) - borrow * weight(i as nat) == low(a@, i as nat) - low(
                b@,
                i as nat,
            ),
        decreases n - i,
    {
        let x: u64 = limb(a, i) as u64;
        let y: u64 = limb(b, i) as u64;
        let s: u64 = LIMB + x - y - borrow;
        let lo: u32 = (s % LIMB) as u32;
        let next: u64 = 1 - s / LIMB;
        proof {
            let w = weight(i as nat) as int;
            lemma_low_push(out@, lo, i as nat);
            assert(lo * w - next * (0x1_0000_0000 * w) == x * w - y * w - borrow * w)
                by (nonlinear_arith)
                requires
                    lo - 0x1_0000_0000 * next == x - y - borrow,
            ;
        }
        out.push(lo);
        borrow = next;
        i += 1;
    }
    proof {
        lemma_low_past_end(a@, n as nat);
        lemma_low_past_end(b@, n as nat);
        lemma_low_bound(out@, n as nat);
        lemma_weight_pos(n as nat);
        if borrow == 1 {
            assert(1 * weight(n as nat) == weight(n as nat)) by (nonlinear_arith);
        }
        assert(0 * weight(n as nat) == 0) by (nonlinear_arith);
    }
    out
}

fn mag_less(a: &Vec<u32>, b: &Vec<u32>) -> (r: bool)
    ensures
        r == (magnitude(a@) < magnitude(b@)),
{
    let n: usize = if a.len() > b.len() {
        a.len()
    } else {
        b.len()
    };
    proof {
        lemma_low_past_end(a@, n as nat);
        lemma_low_past_end(b@, n as nat);
    }
    let mut i: usize = n;
    while i > 0
        invariant
            i <= n,
            magnitude(a@) == low(a@, n as nat),
            magnitude(b@) == low(b@, n as nat),
            low(a@, n as nat) - low(a@, i as nat) == low(b@, n as nat) - low(b@, i as nat),
        decreases i,
    {
        let x: u32 = limb(a, i - 1);
        let y: u32 = limb(b, i - 1);
        proof {
            let w = weight((i - 1) as nat) as int;
            lemma_low_bound(a@, (i - 1) as nat);
            lemma_low_bound(b@, (i - 1) as nat);
            if x < y {
                assert(x * w + w <= y * w) by (nonlinear_arith)
                    requires
                        x < y,
                        w >= 0,
                ;
            } else if y < x {
                assert(y * w + w <= x * w) by (nonlinear_arith)
                    requires
                        y < x,
                        w >= 0,
                ;
            }
        }
        if x < y {
            return true;
        }
        if y < x {
            return false;
        }
        i -= 1;
    }
    false
}

fn mag_mul(a: &Vec<u32>, b: &Vec<u32>) -> (out: Vec<u32>)
    requires
        a.len() + b.len() <= usize::MAX,
    ensures
        magnitude(out@) == magnitude(a@) * magnitude(b@),
        out.len() == a.len() + b.len(),
{
    let n: usize = a.len();
    let m: usize = b.len();
    let mut out: Vec<u32> = vec![0u32; n + m];
    proof {
        lemma_zeros(out@, (n + m) as nat);
        assert(magnitude(a@) * 0 == 0) by (nonlinear_arith);
    }
    let mut j: usize = 0;
    while j < m
        invariant
            j <= m,
            n == a.len(),
            m == b.len(),
            n + m <= usize::MAX,
            out.len() == n + m,
            forall|k: int| n + j <= k < n + m ==> out@[k] == 0,
            magnitude(out@) == magnitude(a@) * low(b@, j as nat),
        decreases m - j,
    {
        let y: u64 = b[j] as u64;
        let ghost start = out@;
        let mut carry: u64 = 0;
        let mut i: usize = 0;
        assert(0 * weight(j as nat) == 0 && (y * 0) * weight(j as nat) == 0) by (nonlinear_arith);
        while i < n
            invariant
                i <= n,
                j < m,
                m == b.len(),
                n == a.len(),
                n + m <= usize::MAX,
                out.len() == n + m,
                start.len() == n + m,
                y == b@[j as int],
                carry < LIMB,
                forall|k: int| n + j <= k < n + m ==> out@[k] == 0,
                magnitude(out@) + carry * weight((i + j) as nat) == magnitude(start) + (y * low(
                    a@,
                    i as nat,
                )) * weight(j as nat),
            decreases n - i,
        {
            let x: u64 = a[i] as u64;
            let o: u64 = out[i + j] as u64;
            assert(x * y <= 0xffff_ffff * 0xffff_ffff) by (nonlinear_arith)
                requires
                    x <= 0xffff_ffff,
                    y <= 0xffff_ffff,
            ;
            let t: u64 = o + x * y + carry;
            let lo: u32 = (t % LIMB) as u32;
            let hi: u64 = t / LIMB;
            proof {
                let w = weight((i + j) as nat) as int;
                let wi = weight(i as nat) as int;
                let wj = weight(j as nat) as int;
                let la = low(a@, i as nat) as int;
                lemma_low_update(out@, (i + j) as int, lo, (n + m) as nat);
                lemma_weight_add(i as nat, j as nat);
                let xy = (x * y) as int;
                assert((lo - o) * w + hi * (0x1_0000_0000 * w) == xy * w + carry * w)
                    by (nonlinear_arith)
                    requires
                        lo + 0x1_0000_0000 * hi == o + xy + carry,
                ;
                assert((y * (la + x * wi)) * wj == (y * la) * wj + (x * y) * (wi * wj))
                    by (nonlinear_arith);
                assert(((i + 1) + j - 1) as nat == (i + j) as nat);
            }
            out.set(i + j, lo);
            carry = hi;
            i += 1;
        }
        proof {
            lemma_low_update(out@, (n + j) as int, carry as u32, (n + m) as nat);
            let ma = magnitude(a@) as int;
            let lb = low(b@, j as nat) as int;
            let wj = weight(j as nat) as int;
            assert((y * ma) * wj + ma * lb == ma * (lb + y * wj)) by (nonlinear_arith);
        }
        out.set(n + j, carry as u32);
        j += 1;
    }
    out
}

/// A signed integer: sign and magnitude.
pub struct BigInt {
    neg: bool,
    mag: Vec<u32>,
}

impl View for BigInt {
    type V = int;

    closed spec fn view(&self) -> int {
        if self.neg {
            -(magnitude(self.mag@) as int)
        } else {
            magnitude(self.mag@) as int
        }
    }
}

impl BigInt {
    /// Number of limbs held.
    pub closed spec fn size(&self) -> nat {
        self.mag@.len()
    }

    /// `m * 2^shift`, negated where `neg` holds.
    pub fn scaled(neg: bool, m: u64, shift: u32) -> (r: BigInt)
        requires
            shift < 0x1_0000,
        ensures
            r@ == if neg {
                -(m * pow2(shift as nat))
            } else {
                m * pow2(shift as nat)
            },
            r.size() <= shift / 32 + 3,
    {
        let whole: usize = (shift / 32) as usize;
        let part: u32 = shift % 32;
        let mut p: u64 = 1;
        let mut i: u32 = 0;
        proof {
            lemma2_to64();
        }
        while i < part
            invariant
                i <= part < 32,
                p == pow2(i as nat),
                p <= 0x8000_0000,
                i < 31 ==> p <= 0x4000_0000,
                pow2(31) == 0x8000_0000,
            decreases part - i,
        {
            proof {
                lemma2_to64();
                lemma_pow2_adds(1, i as nat);
                vstd::arithmetic::power2::lemma_pow2_strictly_increases((i + 1) as nat, 32);
                if i + 1 < 31 {
                    vstd::arithmetic::power2::lemma_pow2_strictly_increases((i + 1) as nat, 31);
                    lemma_pow2_adds(1, (i + 1) as nat);
                    vstd::arithmetic::power2::lemma_pow2_strictly_increases((i + 2) as nat, 32);
                }
            }
            p = p * 2;
            i += 1;
        }
        assert(m * p <= 0xffff_ffff_ffff_ffff * 0x8000_0000) by (nonlinear_arith)
            requires
                m <= 0xffff_ffff_ffff_ffff,
                p <= 0x8000_0000,
        ;
        let x: u128 = m as u128 * p as u128;
        let b: u128 = LIMB as u128;
        let l0: u32 = (x % b) as u32;
        let l1: u32 = ((x / b) % b) as u32;
        let l2: u32 = (x / b / b) as u32;
        let mut mag: Vec<u32> = vec![0u32; whole];
        proof {
            lemma_zeros(mag@, whole as nat);
        }
        let ghost s0 = mag@;
        mag.push(l0);
        let ghost s1 = mag@;
        mag.push(l1);
        let ghost s2 = mag@;
        mag.push(l2);
        proof {
            lemma_low_push(s0, l0, 0);
            lemma_low_push(s1, l1, 0);
            lemma_low_push(s2, l2, 0);
            let w = weight(whole as nat) as int;
            assert(l0 + 0x1_0000_0000 * l1 + 0x1_0000_0000 * (0x1_0000_0000 * l2) == x);
            assert(l0 * w + l1 * (0x1_0000_0000 * w) + l2 * (0x1_0000_0000 * (0x1_0000_0000 * w))
                == x * w) by (nonlinear_arith)
                requires
                    l0 + 0x1_0000_0000 * l1 + 0x1_0000_0000 * (0x1_0000_0000 * l2) == x,
            ;
            lemma_weight_pow2(whole as nat);
            lemma_pow2_adds(part as nat, 32 * whole as nat);
            let pp = p as int;
            assert((m * pp) * w == m * (pp * w)) by (nonlinear_arith);
            assert((part + 32 * whole) as nat == shift as nat);
        }
        BigInt { neg, mag }
    }

    /// Sum of two integers.
    pub fn plus(&self, other: &BigInt) -> (r: BigInt)
        requires
            self.size() < 0x1_0000,
            other.size() < 0x1_0000,
        ensures
            r@ == self@ + other@,
            r.size() <= 1 + if self.size() > other.size() {
                self.size()
            } else {
                other.size()
            },
    {
        if self.neg == other.neg {
            BigInt { neg: self.neg, mag: mag_add(&self.mag, &other.mag) }
        } else if mag_less(&self.mag, &other.mag) {
            BigInt { neg: other.neg, mag: mag_sub(&other.mag, &self.mag) }
        } else {
            BigInt { neg: self.neg, mag: mag_sub(&self.mag, &other.mag) }
        }
    }

    /// Difference of two integers.
    pub fn minus(&self, other: &BigInt) -> (r: BigInt)
        requires
            self.size() < 0x1_0000,
            other.size() < 0x1_0000,
        ensures
            r@ == self@ - other@,
            r.size() <= 1 + if self.size() > other.size() {
                self.size()
            } else {
                other.size()
            },
    {
        if self.neg != other.neg {
            BigInt { neg: self.neg, mag: mag_add(&self.mag, &other.mag) }
        } else if mag_less(&self.mag, &other.mag) {
            BigInt { neg: !self.neg, mag: mag_sub(&other.mag, &self.mag) }
        } else {
            BigInt { neg: self.neg, mag: mag_sub(&self.mag, &other.mag) }
        }
    }

    /// Product of two integers.
    pub fn times(&self, other: &BigInt) -> (r: BigInt)
        requires
            self.size() < 0x1_0000,
            other.size() < 0x1_0000,
        ensures
            r@ == self@ * other@,
            r.size() == self.size() + other.size(),
    {
        let mag = mag_mul(&self.mag, &other.mag);
        proof {
            let x = magnitude(self.mag@) as int;
            let y = magnitude(other.mag@) as int;
            assert((-x) * y == -(x * y)) by (nonlinear_arith);
            assert(x * (-y) == -(x * y)) by (nonlinear_arith);
            assert((-x) * (-y) == x * y) by (nonlinear_arith);
        }
        BigInt { neg: self.neg != other.neg, mag }
    }

    /// The sign: 1, 0 or -1.
    pub fn sign(&self) -> (r: i32)
        ensures
            r == 1 <==> self@ > 0,
            r == 0 <==> self@ == 0,
            r == -1 <==> self@ < 0,
            -1 <= r <= 1,
    {
        let zero: Vec<u32> = Vec::new();
        if mag_less(&zero, &self.mag) {
            if self.neg {
                -1
            } else {
                1
            }
        } else {
            0
        }
    }
}

} // verus!
