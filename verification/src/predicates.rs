//! Exact orientation and in-circle predicates.
//!
//! Both predicates evaluate their determinant on the exact integer values of
//! the coordinates, so the sign is right for every input.

use crate::bigint::BigInt;
use crate::coord::{scale, scale_of, sign_bit, significand, significand_of, value};
use vstd::arithmetic::power2::{lemma2_to64, lemma_pow2_adds, lemma_pow2_pos, pow2};
use vstd::prelude::*;

verus! {

/// A point of the plane; each coordinate is an IEEE 754 binary64 bit pattern.
#[derive(Copy, Clone, Debug, PartialEq, Eq, Structural)]
pub struct Vertex {
    pub x: u64,
    pub y: u64,
}

impl Vertex {
    pub fn new(x: u64, y: u64) -> (r: Vertex)
        ensures
            r.x == x,
            r.y == y,
    {
        Vertex { x, y }
    }

    /// Exact x value.
    pub open spec fn vx(self) -> int {
        value(self.x)
    }

    /// Exact y value.
    pub open spec fn vy(self) -> int {
        value(self.y)
    }
}

/// Sign of an integer: 1, 0 or -1.
pub open spec fn sgn(x: int) -> int {
    if x > 0 {
        1
    } else if x < 0 {
        -1
    } else {
        0
    }
}

/// `ux * vy - uy * vx`.
pub open spec fn cross(ux: int, uy: int, wx: int, wy: int) -> int {
    ux * wy - uy * wx
}

/// Squared length of `(x, y)`.
pub open spec fn lift(x: int, y: int) -> int {
    x * x + y * y
}

/// Twice the signed area of the triangle `a`, `b`, `c`.
pub open spec fn orient_det(a: Vertex, b: Vertex, c: Vertex) -> int {
    cross(a.vx() - c.vx(), a.vy() - c.vy(), b.vx() - c.vx(), b.vy() - c.vy())
}

/// The in-circle determinant of three difference vectors.
pub open spec fn circle_det(ax: int, ay: int, bx: int, by: int, cx: int, cy: int) -> int {
    lift(ax, ay) * cross(bx, by, cx, cy) + lift(bx, by) * cross(cx, cy, ax, ay) + lift(cx, cy)
        * cross(ax, ay, bx, by)
}

/// Positive when `d` is inside the circle through the counter-clockwise
/// triangle `a`, `b`, `c`, zero when on it.
pub open spec fn incircle_det(a: Vertex, b: Vertex, c: Vertex, d: Vertex) -> int {
    circle_det(
        a.vx() - d.vx(),
        a.vy() - d.vy(),
        b.vx() - d.vx(),
        b.vy() - d.vy(),
        c.vx() - d.vx(),
        c.vy() - d.vy(),
    )
}

/// Sign of the orientation determinant.
pub open spec fn orient(a: Vertex, b: Vertex, c: Vertex) -> int {
    sgn(orient_det(a, b, c))
}

/// Sign of the in-circle determinant.
pub open spec fn in_circle(a: Vertex, b: Vertex, c: Vertex, d: Vertex) -> int {
    sgn(incircle_det(a, b, c, d))
}

/// A coordinate's value divided by `2^unit`.
pub(crate) open spec fn relative(bits: u64, unit: nat) -> int {
    let m = significand(bits) * pow2((scale(bits) - unit) as nat);
    if sign_bit(bits) {
        -(m as int)
    } else {
        m as int
    }
}

pub(crate) proof fn lemma_relative(bits: u64, unit: nat)
    requires
        unit <= scale(bits),
    ensures
        value(bits) == pow2(unit) * relative(bits, unit),
{
    lemma_pow2_adds(unit, (scale(bits) - unit) as nat);
    let m = significand(bits) as int;
    let p = pow2(unit) as int;
    let q = pow2((scale(bits) - unit) as nat) as int;
    assert(m * (p * q) == p * (m * q)) by (nonlinear_arith);
    assert(p * (-(m * q)) == -(p * (m * q))) by (nonlinear_arith);
}

pub(crate) proof fn lemma_cross_scaled(p: int, ux: int, uy: int, wx: int, wy: int)
    ensures
        cross(p * ux, p * uy, p * wx, p * wy) == (p * p) * cross(ux, uy, wx, wy),
{
    assert((p * ux) * (p * wy) == (p * p) * (ux * wy)) by (nonlinear_arith);
    assert((p * uy) * (p * wx) == (p * p) * (uy * wx)) by (nonlinear_arith);
    let (s, t) = (ux * wy, uy * wx);
    assert((p * p) * s - (p * p) * t == (p * p) * (s - t)) by (nonlinear_arith);
}

proof fn lemma_lift_scaled(p: int, x: int, y: int)
    ensures
        lift(p * x, p * y) == (p * p) * lift(x, y),
{
    assert((p * x) * (p * x) == (p * p) * (x * x)) by (nonlinear_arith);
    assert((p * y) * (p * y) == (p * p) * (y * y)) by (nonlinear_arith);
    let (s, t) = (x * x, y * y);
    assert((p * p) * s + (p * p) * t == (p * p) * (s + t)) by (nonlinear_arith);
}

proof fn lemma_circle_scaled(p: int, ax: int, ay: int, bx: int, by: int, cx: int, cy: int)
    ensures
        circle_det(p * ax, p * ay, p * bx, p * by, p * cx, p * cy) == ((p * p) * (p * p))
            * circle_det(ax, ay, bx, by, cx, cy),
{
    lemma_cross_scaled(p, bx, by, cx, cy);
    lemma_cross_scaled(p, cx, cy, ax, ay);
    lemma_cross_scaled(p, ax, ay, bx, by);
    lemma_lift_scaled(p, ax, ay);
    lemma_lift_scaled(p, bx, by);
    lemma_lift_scaled(p, cx, cy);
    let q = p * p;
    let (l1, m1) = (lift(ax, ay), cross(bx, by, cx, cy));
    let (l2, m2) = (lift(bx, by), cross(cx, cy, ax, ay));
    let (l3, m3) = (lift(cx, cy), cross(ax, ay, bx, by));
    assert((q * l1) * (q * m1) == (q * q) * (l1 * m1)) by (nonlinear_arith);
    assert((q * l2) * (q * m2) == (q * q) * (l2 * m2)) by (nonlinear_arith);
    assert((q * l3) * (q * m3) == (q * q) * (l3 * m3)) by (nonlinear_arith);
    let (t1, t2, t3, qq) = (l1 * m1, l2 * m2, l3 * m3, q * q);
    assert(qq * t1 + qq * t2 + qq * t3 == qq * (t1 + t2 + t3)) by (nonlinear_arith);
}

pub(crate) proof fn lemma_sgn_scaled(k: int, x: int)
    requires
        k > 0,
    ensures
        sgn(k * x) == sgn(x),
{
    assert(x > 0 ==> k * x > 0) by (nonlinear_arith)
        requires
            k > 0,
    ;
    assert(x < 0 ==> k * x < 0) by (nonlinear_arith)
        requires
            k > 0,
    ;
    assert(x == 0 ==> k * x == 0) by (nonlinear_arith);
}

pub(crate) fn min_scale(unit: u32, p: Vertex) -> (r: u32)
    ensures
        r <= unit,
        r <= scale(p.x),
        r <= scale(p.y),
{
    let mut r: u32 = unit;
    let sx: u32 = scale_of(p.x);
    if sx < r {
        r = sx;
    }
    let sy: u32 = scale_of(p.y);
    if sy < r {
        r = sy;
    }
    r
}

pub(crate) fn big_relative(bits: u64, unit: u32) -> (r: BigInt)
    requires
        unit <= scale(bits),
    ensures
        r@ == relative(bits, unit as nat),
        r.size() < 100,
{
    let neg: bool = bits >= 0x8000_0000_0000_0000;
    BigInt::scaled(neg, significand_of(bits), scale_of(bits) - unit)
}

/// Difference of two coordinates, in units of `2^unit`.
pub(crate) fn big_diff(a: u64, b: u64, unit: u32) -> (r: BigInt)
    requires
        unit <= scale(a),
        unit <= scale(b),
    ensures
        value(a) - value(b) == pow2(unit as nat) * r@,
        r.size() < 101,
{
    let x = big_relative(a, unit);
    let y = big_relative(b, unit);
    proof {
        lemma_relative(a, unit as nat);
        lemma_relative(b, unit as nat);
        let p = pow2(unit as nat) as int;
        let (s, t) = (x@, y@);
        assert(p * s - p * t == p * (s - t)) by (nonlinear_arith);
    }
    x.minus(&y)
}

pub(crate) fn big_cross(ux: &BigInt, uy: &BigInt, wx: &BigInt, wy: &BigInt) -> (r: BigInt)
    requires
        ux.size() < 101,
        uy.size() < 101,
        wx.size() < 101,
        wy.size() < 101,
    ensures
        r@ == cross(ux@, uy@, wx@, wy@),
        r.size() < 204,
{
    let s = ux.times(wy);
    let t = uy.times(wx);
    s.minus(&t)
}

fn big_lift(x: &BigInt, y: &BigInt) -> (r: BigInt)
    requires
        x.size() < 101,
        y.size() < 101,
    ensures
        r@ == lift(x@, y@),
        r.size() < 204,
{
    let s = x.times(x);
    let t = y.times(y);
    s.plus(&t)
}

/// Orientation of three points: 1 when `pc` lies to the left of the directed
/// line from `pa` to `pb`, -1 when to the right, 0 when exactly collinear.
pub fn orient2d(pa: Vertex, pb: Vertex, pc: Vertex) -> (r: i32)
    ensures
        r == orient(pa, pb, pc),
{
    let unit: u32 = min_scale(min_scale(min_scale(2048, pa), pb), pc);
    let ax = big_diff(pa.x, pc.x, unit);
    let ay = big_diff(pa.y, pc.y, unit);
    let bx = big_diff(pb.x, pc.x, unit);
    let by = big_diff(pb.y, pc.y, unit);
    let det = big_cross(&ax, &ay, &bx, &by);
    proof {
        let p = pow2(unit as nat) as int;
        lemma_pow2_pos(unit as nat);
        lemma_cross_scaled(p, ax@, ay@, bx@, by@);
        assert(p * p > 0) by (nonlinear_arith)
            requires
                p > 0,
        ;
        lemma_sgn_scaled(p * p, det@);
    }
    det.sign()
}

/// In-circle test: 1 when `pd` lies inside the circle through the
/// counter-clockwise points `pa`, `pb`, `pc`, -1 when outside, 0 when the four
/// points are exactly cocircular. For clockwise points the sign is reversed.
pub fn incircle(pa: Vertex, pb: Vertex, pc: Vertex, pd: Vertex) -> (r: i32)
    ensures
        r == in_circle(pa, pb, pc, pd),
{
    let unit: u32 = min_scale(min_scale(min_scale(min_scale(2048, pa), pb), pc), pd);
    let ax = big_diff(pa.x, pd.x, unit);
    let ay = big_diff(pa.y, pd.y, unit);
    let bx = big_diff(pb.x, pd.x, unit);
    let by = big_diff(pb.y, pd.y, unit);
    let cx = big_diff(pc.x, pd.x, unit);
    let cy = big_diff(pc.y, pd.y, unit);
    let t1 = big_lift(&ax, &ay).times(&big_cross(&bx, &by, &cx, &cy));
    let t2 = big_lift(&bx, &by).times(&big_cross(&cx, &cy, &ax, &ay));
    let t3 = big_lift(&cx, &cy).times(&big_cross(&ax, &ay, &bx, &by));
    let det = t1.plus(&t2).plus(&t3);
    proof {
        let p = pow2(unit as nat) as int;
        lemma_pow2_pos(unit as nat);
        lemma_circle_scaled(p, ax@, ay@, bx@, by@, cx@, cy@);
        assert((p * p) * (p * p) > 0) by (nonlinear_arith)
            requires
                p > 0,
        ;
        lemma_sgn_scaled((p * p) * (p * p), det@);
    }
    det.sign()
}

/// The absolute value.
pub open spec fn magnitude_of(x: int) -> int {
    if x < 0 {
        -x
    } else {
        x
    }
}

/// Whether the area of a triangle is less than `limit`, a positive finite
/// number given by its bits.
///
/// Coordinates count in units of 2^-1074, so areas count in the square of
/// that unit; the determinant is twice the area.
pub open spec fn area_less(a: Vertex, b: Vertex, c: Vertex, limit: u64) -> bool {
    magnitude_of(orient_det(a, b, c)) < 2 * value(limit) * pow2(1074)
}

/// Whether the area of the triangle `a`, `b`, `c` is less than `limit`.
pub fn area_below(a: Vertex, b: Vertex, c: Vertex, limit: u64) -> (r: bool)
    requires
        value(limit) > 0,
    ensures
        r == area_less(a, b, c, limit),
{
    let unit: u32 = min_scale(min_scale(min_scale(2048, a), b), c);
    let ax = big_diff(a.x, c.x, unit);
    let ay = big_diff(a.y, c.y, unit);
    let bx = big_diff(b.x, c.x, unit);
    let by = big_diff(b.y, c.y, unit);
    let det = big_cross(&ax, &ay, &bx, &by);
    let square = BigInt::scaled(det.sign() < 0, 1, 2 * unit);
    let twice = det.times(&square);
    let bound = BigInt::scaled(false, significand_of(limit), scale_of(limit) + 1075);
    proof {
        let p = pow2(unit as nat) as int;
        let q = pow2(2 * unit as nat) as int;
        let d = det@;
        lemma_pow2_adds(unit as nat, unit as nat);
        assert(q == p * p);
        lemma_cross_scaled(p, ax@, ay@, bx@, by@);
        lemma_pow2_pos(2 * unit as nat);
        assert(orient_det(a, b, c) == q * d);
        assert(1 * q == q);
        if d < 0 {
            assert(d * (-q) == -(q * d)) by (nonlinear_arith);
            assert(q * d < 0) by (nonlinear_arith)
                requires
                    q > 0,
                    d < 0,
            ;
        } else {
            assert(d * q == q * d) by (nonlinear_arith);
            assert(q * d >= 0) by (nonlinear_arith)
                requires
                    q > 0,
                    d >= 0,
            ;
        }
        assert(twice@ == magnitude_of(orient_det(a, b, c)));
        let (s, e) = (significand(limit) as int, scale(limit));
        let (pe, pu, pb) = (pow2(e) as int, pow2(1074) as int, pow2(e + 1075) as int);
        lemma_pow2_adds(e, 1075);
        lemma_pow2_adds(1, 1074);
        lemma2_to64();
        assert(pow2(1075) == 2 * pu);
        assert(value(limit) == s * pe);
        assert(pb == pe * (2 * pu));
        assert(2 * (s * pe) * pu == s * (pe * (2 * pu))) by (nonlinear_arith);
        assert(bound@ == 2 * value(limit) * pow2(1074));
    }
    twice.minus(&bound).sign() < 0
}

/// Turning the corners of a triangle round leaves its orientation; swapping
/// two of them reverses it.
pub proof fn orientation_turns(a: Vertex, b: Vertex, c: Vertex)
    ensures
        orient(b, c, a) == orient(a, b, c),
        orient(c, a, b) == orient(a, b, c),
        orient(b, a, c) == -orient(a, b, c),
        orient_det(b, c, a) == orient_det(a, b, c),
        orient_det(b, a, c) == -orient_det(a, b, c),
{
    lemma_cross_turns(a.vx(), a.vy(), b.vx(), b.vy(), c.vx(), c.vy());
    lemma_cross_turns(b.vx(), b.vy(), c.vx(), c.vy(), a.vx(), a.vy());
}

proof fn lemma_cross_turns(ax: int, ay: int, bx: int, by: int, cx: int, cy: int)
    ensures
        cross(bx - ax, by - ay, cx - ax, cy - ay) == cross(ax - cx, ay - cy, bx - cx, by - cy),
        cross(bx - cx, by - cy, ax - cx, ay - cy) == -cross(ax - cx, ay - cy, bx - cx, by - cy),
{
    assert((bx - ax) * (cy - ay) - (by - ay) * (cx - ax) == (ax - cx) * (by - cy) - (ay - cy) * (bx
        - cx)) by (nonlinear_arith);
    assert((bx - cx) * (ay - cy) - (by - cy) * (ax - cx) == -((ax - cx) * (by - cy) - (ay - cy) * (
    bx - cx))) by (nonlinear_arith);
}

/// Turning the three points of a circle round leaves the side a fourth lies
/// on; swapping two of them reverses it.
pub proof fn circle_turns(a: Vertex, b: Vertex, c: Vertex, d: Vertex)
    ensures
        in_circle(b, c, a, d) == in_circle(a, b, c, d),
        in_circle(b, a, c, d) == -in_circle(a, b, c, d),
{
    let (ax, ay) = (a.vx() - d.vx(), a.vy() - d.vy());
    let (bx, by) = (b.vx() - d.vx(), b.vy() - d.vy());
    let (cx, cy) = (c.vx() - d.vx(), c.vy() - d.vy());
    lemma_circle_turns(ax, ay, bx, by, cx, cy);
}

proof fn lemma_circle_turns(ax: int, ay: int, bx: int, by: int, cx: int, cy: int)
    ensures
        circle_det(bx, by, cx, cy, ax, ay) == circle_det(ax, ay, bx, by, cx, cy),
        circle_det(bx, by, ax, ay, cx, cy) == -circle_det(ax, ay, bx, by, cx, cy),
{
    let (la, lb, lc) = (lift(ax, ay), lift(bx, by), lift(cx, cy));
    let (p, q, r) = (cross(bx, by, cx, cy), cross(cx, cy, ax, ay), cross(ax, ay, bx, by));
    assert(cross(ax, ay, cx, cy) == -q && cross(cx, cy, bx, by) == -p && cross(bx, by, ax, ay)
        == -r) by {
        assert(ax * cy - ay * cx == -(cx * ay - cy * ax)) by (nonlinear_arith);
        assert(cx * by - cy * bx == -(bx * cy - by * cx)) by (nonlinear_arith);
        assert(bx * ay - by * ax == -(ax * by - ay * bx)) by (nonlinear_arith);
    }
    assert(la * -p == -(la * p)) by (nonlinear_arith);
    assert(lb * -q == -(lb * q)) by (nonlinear_arith);
    assert(lc * -r == -(lc * r)) by (nonlinear_arith);
}

/// Moving the first of four points behind the other three changes the sign of
/// their in-circle determinant: where `d` is inside the circle of `a`, `b`,
/// `c`, the point `a` is outside that of `b`, `c`, `d`.
pub proof fn circle_shifts(a: Vertex, b: Vertex, c: Vertex, d: Vertex)
    ensures
        in_circle(b, c, d, a) == -in_circle(a, b, c, d),
{
    let (ax, ay) = (a.vx() - d.vx(), a.vy() - d.vy());
    let (bx, by) = (b.vx() - d.vx(), b.vy() - d.vy());
    let (cx, cy) = (c.vx() - d.vx(), c.vy() - d.vy());
    assert(b.vx() - a.vx() == bx - ax && b.vy() - a.vy() == by - ay);
    assert(c.vx() - a.vx() == cx - ax && c.vy() - a.vy() == cy - ay);
    assert(d.vx() - a.vx() == -ax && d.vy() - a.vy() == -ay);
    lemma_circle_shifts(ax, ay, bx, by, cx, cy);
}

pub(crate) proof fn lemma_two_by_two(u: int, v: int, m: int, n: int)
    ensures
        (u + v) * (m - n) == u * m - u * n + v * m - v * n,
{
    assert((u + v) * (m - n) == u * m - u * n + v * m - v * n) by (nonlinear_arith);
}

/// Four factors multiplied in pairs, in each of the pairings that occur.
pub(crate) proof fn lemma_regroup(u: int, v: int, m: int, n: int)
    ensures
        (u * v) * (m * n) == (u * m) * (n * v),
        (u * v) * (m * n) == (u * m) * (v * n),
        (u * v) * (m * n) == (v * n) * (u * m),
        (u * v) * (m * n) == (u * n) * (v * m),
{
    assert((u * v) * (m * n) == (u * m) * (n * v)) by (nonlinear_arith);
    assert((u * v) * (m * n) == (u * m) * (v * n)) by (nonlinear_arith);
    assert((u * v) * (m * n) == (v * n) * (u * m)) by (nonlinear_arith);
    assert((u * v) * (m * n) == (u * n) * (v * m)) by (nonlinear_arith);
}

proof fn lemma_circle_shifts(ax: int, ay: int, bx: int, by: int, cx: int, cy: int)
    ensures
        circle_det(bx - ax, by - ay, cx - ax, cy - ay, -ax, -ay) == -circle_det(
            ax,
            ay,
            bx,
            by,
            cx,
            cy,
        ),
{
    let (la, lb, lc) = (lift(ax, ay), lift(bx, by), lift(cx, cy));
    let (p, q, r) = (cross(bx, by, cx, cy), cross(cx, cy, ax, ay), cross(ax, ay, bx, by));
    let (s, t) = (ax * bx + ay * by, ax * cx + ay * cy);
    assert(lift(bx - ax, by - ay) == lb - 2 * s + la) by {
        assert((bx - ax) * (bx - ax) + (by - ay) * (by - ay) == bx * bx + by * by - 2 * (ax * bx
            + ay * by) + (ax * ax + ay * ay)) by (nonlinear_arith);
    }
    assert(lift(cx - ax, cy - ay) == lc - 2 * t + la) by {
        assert((cx - ax) * (cx - ax) + (cy - ay) * (cy - ay) == cx * cx + cy * cy - 2 * (ax * cx
            + ay * cy) + (ax * ax + ay * ay)) by (nonlinear_arith);
    }
    assert(lift(-ax, -ay) == la) by {
        assert(-ax * -ax + -ay * -ay == ax * ax + ay * ay) by (nonlinear_arith);
    }
    assert(cross(cx - ax, cy - ay, -ax, -ay) == -q) by {
        assert((cx - ax) * -ay - (cy - ay) * -ax == -(cx * ay - cy * ax)) by (nonlinear_arith);
    }
    assert(cross(-ax, -ay, bx - ax, by - ay) == -r) by {
        assert(-ax * (by - ay) - -ay * (bx - ax) == -(ax * by - ay * bx)) by (nonlinear_arith);
    }
    assert(cross(bx - ax, by - ay, cx - ax, cy - ay) == p + r + q) by {
        assert((bx - ax) * (cy - ay) - (by - ay) * (cx - ax) == (bx * cy - by * cx) + (ax * by - ay
            * bx) + (cx * ay - cy * ax)) by (nonlinear_arith);
    }
    // The product of a length and a cross product, split along `a`.
    assert(la * p == -(s * q) - t * r) by {
        lemma_two_by_two(ax * ax, ay * ay, bx * cy, by * cx);
        lemma_two_by_two(ax * bx, ay * by, cx * ay, cy * ax);
        lemma_two_by_two(ax * cx, ay * cy, ax * by, ay * bx);
        lemma_regroup(ax, ax, bx, cy);
        lemma_regroup(ay, ay, bx, cy);
        lemma_regroup(ax, ax, by, cx);
        lemma_regroup(ay, ay, by, cx);
        lemma_regroup(ax, ay, bx, cx);
        lemma_regroup(ay, ax, by, cy);
    }
    assert((lb - 2 * s + la) * -q + (lc - 2 * t + la) * -r + la * (p + r + q) == -(lb * q) - lc * r
        + 2 * (s * q) + 2 * (t * r) + la * p) by (nonlinear_arith);
}

/// The corners of a triangle lie on its circle.
pub proof fn corners_lie_on_the_circle(a: Vertex, b: Vertex, c: Vertex)
    ensures
        in_circle(a, b, c, c) == 0,
        in_circle(a, b, c, a) == 0,
        in_circle(a, b, c, b) == 0,
{
    let (ax, ay) = (a.vx(), a.vy());
    let (bx, by) = (b.vx(), b.vy());
    let (cx, cy) = (c.vx(), c.vy());
    lemma_corner_on_circle(ax - cx, ay - cy, bx - cx, by - cy);
    lemma_corner_on_circle(bx - ax, by - ay, cx - ax, cy - ay);
    lemma_corner_on_circle(cx - bx, cy - by, ax - bx, ay - by);
    circle_turns(a, b, c, a);
    circle_turns(a, b, c, b);
    circle_turns(b, c, a, b);
}

proof fn lemma_corner_on_circle(ax: int, ay: int, bx: int, by: int)
    ensures
        circle_det(ax, ay, bx, by, 0, 0) == 0,
{
    assert(lift(0, 0) == 0);
    assert(cross(bx, by, 0, 0) == 0) by {
        assert(bx * 0 - by * 0 == 0) by (nonlinear_arith);
    }
    assert(cross(0, 0, ax, ay) == 0) by {
        assert(0 * ay - 0 * ax == 0) by (nonlinear_arith);
    }
    let (la, lb, r) = (lift(ax, ay), lift(bx, by), cross(ax, ay, bx, by));
    assert(la * 0 + lb * 0 + 0 * r == 0) by (nonlinear_arith);
}

} // verus!
