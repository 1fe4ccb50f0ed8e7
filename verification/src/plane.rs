//! Identities between the areas of triangles on a few points of the plane.

use crate::predicates::{
    cross, incircle_det, lemma_regroup, lemma_two_by_two, lift, orient, orient_det,
    orientation_turns, Vertex,
};
use vstd::prelude::*;

verus! {

/// The scalar product of the vectors from `p` to `a` and `b`.
pub open spec fn dot(a: Vertex, b: Vertex, p: Vertex) -> int {
    (a.vx() - p.vx()) * (b.vx() - p.vx()) + (a.vy() - p.vy()) * (b.vy() - p.vy())
}

/// The square of the distance from `p` to `a`.
pub open spec fn far2(a: Vertex, p: Vertex) -> int {
    lift(a.vx() - p.vx(), a.vy() - p.vy())
}

/// The area of a triangle is that of the three triangles that its sides span
/// with any point.
pub proof fn areas_add(a: Vertex, b: Vertex, c: Vertex, p: Vertex)
    ensures
        orient_det(a, b, c) == orient_det(a, b, p) + orient_det(b, c, p) + orient_det(c, a, p),
{
    let (ax, ay) = (a.vx() - p.vx(), a.vy() - p.vy());
    let (bx, by) = (b.vx() - p.vx(), b.vy() - p.vy());
    let (cx, cy) = (c.vx() - p.vx(), c.vy() - p.vy());
    assert((ax - cx) * (by - cy) - (ay - cy) * (bx - cx) == (ax * by - ay * bx) + (bx * cy - by
        * cx) + (cx * ay - cy * ax)) by (nonlinear_arith);
}

pub(crate) proof fn lemma_balance(ax: int, ay: int, bx: int, by: int, cx: int, cy: int)
    ensures
        ax * cross(bx, by, cx, cy) + bx * cross(cx, cy, ax, ay) + cx * cross(ax, ay, bx, by) == 0,
        ay * cross(bx, by, cx, cy) + by * cross(cx, cy, ax, ay) + cy * cross(ax, ay, bx, by) == 0,
{
    assert(ax * (bx * cy - by * cx) + bx * (cx * ay - cy * ax) + cx * (ax * by - ay * bx) == 0)
        by (nonlinear_arith);
    assert(ay * (bx * cy - by * cx) + by * (cx * ay - cy * ax) + cy * (ax * by - ay * bx) == 0)
        by (nonlinear_arith);
}

proof fn lemma_cross_term(ax: int, ay: int, wx: int, wy: int, k: int)
    ensures
        cross(ax, ay, wx, wy) * k == wy * (ax * k) - wx * (ay * k),
{
    assert((ax * wy - ay * wx) * k == wy * (ax * k) - wx * (ay * k)) by (nonlinear_arith);
}

/// Among four points seen from a fifth, the products of opposite areas cancel.
pub proof fn opposite_areas_cancel(a: Vertex, b: Vertex, c: Vertex, w: Vertex, p: Vertex)
    ensures
        orient_det(a, w, p) * orient_det(b, c, p) + orient_det(b, w, p) * orient_det(c, a, p)
            + orient_det(c, w, p) * orient_det(a, b, p) == 0,
{
    let (ax, ay) = (a.vx() - p.vx(), a.vy() - p.vy());
    let (bx, by) = (b.vx() - p.vx(), b.vy() - p.vy());
    let (cx, cy) = (c.vx() - p.vx(), c.vy() - p.vy());
    let (wx, wy) = (w.vx() - p.vx(), w.vy() - p.vy());
    let (bc, ca, ab) = (cross(bx, by, cx, cy), cross(cx, cy, ax, ay), cross(ax, ay, bx, by));
    lemma_balance(ax, ay, bx, by, cx, cy);
    lemma_cross_term(ax, ay, wx, wy, bc);
    lemma_cross_term(bx, by, wx, wy, ca);
    lemma_cross_term(cx, cy, wx, wy, ab);
    let (x1, x2, x3) = (ax * bc, bx * ca, cx * ab);
    let (y1, y2, y3) = (ay * bc, by * ca, cy * ab);
    assert(wy * x1 + wy * x2 + wy * x3 == wy * (x1 + x2 + x3)) by (nonlinear_arith);
    assert(wx * y1 + wx * y2 + wx * y3 == wx * (y1 + y2 + y3)) by (nonlinear_arith);
    assert(wy * 0 == 0 && wx * 0 == 0);
}

pub(crate) proof fn lemma_times_three(k: int, x: int, y: int, z: int)
    ensures
        k * (x + y + z) == k * x + k * y + k * z,
        (x + y + z) * k == x * k + y * k + z * k,
{
    assert(k * (x + y + z) == k * x + k * y + k * z) by (nonlinear_arith);
    assert((x + y + z) * k == x * k + y * k + z * k) by (nonlinear_arith);
}

proof fn lemma_tail(k: int, x: int, y: int)
    ensures
        (x - y) * k == x * k - y * k,
{
    assert((x - y) * k == x * k - y * k) by (nonlinear_arith);
}

pub(crate) proof fn lemma_swap(x: int, y: int)
    ensures
        x * y == y * x,
        -x * y == -(x * y),
        y * -x == -(x * y),
{
    assert(x * y == y * x) by (nonlinear_arith);
    assert(-x * y == -(x * y)) by (nonlinear_arith);
    assert(y * -x == -(x * y)) by (nonlinear_arith);
}

proof fn lemma_regroup3(x: int, y: int, z: int)
    ensures
        (x * y) * z == x * (y * z),
{
    assert((x * y) * z == x * (y * z)) by (nonlinear_arith);
}

/// Twice the area is antisymmetric.
pub proof fn areas_turn(a: Vertex, b: Vertex, p: Vertex)
    ensures
        orient_det(b, a, p) == -orient_det(a, b, p),
        orient_det(a, a, p) == 0,
        orient_det(p, a, p) == 0,
        orient_det(a, p, p) == 0,
        orient_det(b, p, a) == orient_det(a, b, p),
        orient_det(p, a, b) == orient_det(a, b, p),
{
    orientation_turns(a, b, p);
    orientation_turns(b, p, a);
    orientation_turns(a, a, p);
    orientation_turns(p, a, p);
    orientation_turns(a, p, p);
}

/// The height of a point above a line is the mean of the heights of three
/// corners, weighed by the areas that the point cuts their triangle into.
pub proof fn weights_balance(
    a: Vertex,
    b: Vertex,
    c: Vertex,
    p: Vertex,
    s: Vertex,
    t: Vertex,
)
    ensures
        orient_det(a, b, c) * orient_det(s, t, p) == orient_det(b, c, p) * orient_det(s, t, a)
            + orient_det(c, a, p) * orient_det(s, t, b) + orient_det(a, b, p) * orient_det(
            s,
            t,
            c,
        ),
{
    areas_add(a, b, c, p);
    areas_add(s, t, a, p);
    areas_add(s, t, b, p);
    areas_add(s, t, c, p);
    opposite_areas_cancel(a, b, c, s, p);
    opposite_areas_cancel(a, b, c, t, p);
    areas_turn(a, t, p);
    areas_turn(b, t, p);
    areas_turn(c, t, p);
    let (ab, bc, ca, st) = (
        orient_det(a, b, p),
        orient_det(b, c, p),
        orient_det(c, a, p),
        orient_det(s, t, p),
    );
    let (at, bt, ct) = (orient_det(a, t, p), orient_det(b, t, p), orient_det(c, t, p));
    let (ax, bx, cx) = (orient_det(a, s, p), orient_det(b, s, p), orient_det(c, s, p));
    lemma_times_three(bc, st, -at, ax);
    lemma_times_three(ca, st, -bt, bx);
    lemma_times_three(ab, st, -ct, cx);
    lemma_times_three(st, ab, bc, ca);
    lemma_swap(at, bc);
    lemma_swap(bt, ca);
    lemma_swap(ct, ab);
    lemma_swap(ax, bc);
    lemma_swap(bx, ca);
    lemma_swap(cx, ab);
    lemma_swap(st, ab);
    lemma_swap(st, bc);
    lemma_swap(st, ca);
}

/// The in-circle determinant with all distances taken from a fifth point.
pub proof fn circle_from_afar(a: Vertex, b: Vertex, c: Vertex, w: Vertex, v: Vertex)
    ensures
        incircle_det(a, b, c, w) == far2(a, v) * orient_det(b, c, w) + far2(b, v) * orient_det(
            c,
            a,
            w,
        ) + far2(c, v) * orient_det(a, b, w) - far2(w, v) * orient_det(a, b, c),
{
    let (p, q, r) = (orient_det(b, c, w), orient_det(c, a, w), orient_det(a, b, w));
    areas_add(a, b, c, w);
    // From `w` to the corners, and from `v` to `w`.
    let (ax, ay) = (a.vx() - w.vx(), a.vy() - w.vy());
    let (bx, by) = (b.vx() - w.vx(), b.vy() - w.vy());
    let (cx, cy) = (c.vx() - w.vx(), c.vy() - w.vy());
    let (wx, wy) = (w.vx() - v.vx(), w.vy() - v.vy());
    lemma_balance(ax, ay, bx, by, cx, cy);
    lemma_far(ax, ay, wx, wy);
    lemma_far(bx, by, wx, wy);
    lemma_far(cx, cy, wx, wy);
    let (la, lb, lc, lw) = (lift(ax, ay), lift(bx, by), lift(cx, cy), lift(wx, wy));
    let (sa, sb, sc) = (ax * wx + ay * wy, bx * wx + by * wy, cx * wx + cy * wy);
    assert(sa * p + sb * q + sc * r == 0) by {
        assert(sa * p == wx * (ax * p) + wy * (ay * p)) by (nonlinear_arith)
            requires
                sa == ax * wx + ay * wy,
        ;
        assert(sb * q == wx * (bx * q) + wy * (by * q)) by (nonlinear_arith)
            requires
                sb == bx * wx + by * wy,
        ;
        assert(sc * r == wx * (cx * r) + wy * (cy * r)) by (nonlinear_arith)
            requires
                sc == cx * wx + cy * wy,
        ;
        let (x1, x2, x3) = (ax * p, bx * q, cx * r);
        let (y1, y2, y3) = (ay * p, by * q, cy * r);
        assert(wx * x1 + wx * x2 + wx * x3 == wx * (x1 + x2 + x3)) by (nonlinear_arith);
        assert(wy * y1 + wy * y2 + wy * y3 == wy * (y1 + y2 + y3)) by (nonlinear_arith);
        assert(wx * 0 == 0 && wy * 0 == 0);
    }
    assert((la + 2 * sa + lw) * p + (lb + 2 * sb + lw) * q + (lc + 2 * sc + lw) * r - lw * (r + p
        + q) == la * p + lb * q + lc * r) by (nonlinear_arith)
        requires
            sa * p + sb * q + sc * r == 0,
    ;
}

proof fn lemma_far(ax: int, ay: int, wx: int, wy: int)
    ensures
        lift(ax + wx, ay + wy) == lift(ax, ay) + 2 * (ax * wx + ay * wy) + lift(wx, wy),
{
    assert((ax + wx) * (ax + wx) + (ay + wy) * (ay + wy) == ax * ax + ay * ay + 2 * (ax * wx + ay
        * wy) + (wx * wx + wy * wy)) by (nonlinear_arith);
}

/// How two triangles on one side, their corners raised to any heights, compare
/// over a point: the difference goes with the distance of the point from the
/// side.
pub proof fn heights_compare(
    la: int,
    lb: int,
    lc: int,
    lw: int,
    a: Vertex,
    b: Vertex,
    c: Vertex,
    w: Vertex,
    v: Vertex,
)
    ensures
        (lb * orient_det(a, w, v) + la * -orient_det(b, w, v) + lw * -orient_det(a, b, v))
            * orient_det(a, b, c) == (la * orient_det(b, c, v) + lb * orient_det(c, a, v) + lc
            * orient_det(a, b, v)) * orient_det(b, a, w) + (la * orient_det(b, c, w) + lb
            * orient_det(c, a, w) + lc * orient_det(a, b, w) - lw * orient_det(a, b, c))
            * orient_det(a, b, v),
{
    areas_add(b, c, w, v);
    areas_add(c, a, w, v);
    areas_add(a, b, w, v);
    areas_add(b, a, w, v);
    areas_add(a, b, c, v);
    opposite_areas_cancel(a, b, c, w, v);
    let (ab, bc, ca) = (orient_det(a, b, v), orient_det(b, c, v), orient_det(c, a, v));
    let (aw, bw, cw) = (orient_det(a, w, v), orient_det(b, w, v), orient_det(c, w, v));
    areas_turn(a, b, v);
    areas_turn(b, w, v);
    areas_turn(a, w, v);
    areas_turn(c, w, v);
    assert(orient_det(b, a, w) == -ab + aw - bw);
    assert(orient_det(b, c, w) == bc + cw - bw);
    assert(orient_det(c, a, w) == ca + aw - cw);
    assert(orient_det(a, b, w) == ab + bw - aw);
    let d = ab + bc + ca;
    let pa = -bw * d - bc * (-ab + aw - bw) - (bc + cw - bw) * ab;
    let pb = aw * d - ca * (-ab + aw - bw) - (ca + aw - cw) * ab;
    assert(pa == 0) by (nonlinear_arith)
        requires
            pa == -bw * d - bc * (-ab + aw - bw) - (bc + cw - bw) * ab,
            d == ab + bc + ca,
            aw * bc + bw * ca + cw * ab == 0,
    ;
    assert(pb == 0) by (nonlinear_arith)
        requires
            pb == aw * d - ca * (-ab + aw - bw) - (ca + aw - cw) * ab,
            d == ab + bc + ca,
            aw * bc + bw * ca + cw * ab == 0,
    ;
    let g = -ab + aw - bw;
    let (ea, eb, ec) = (bc + cw - bw, ca + aw - cw, ab + bw - aw);
    let e = la * ea + lb * eb + lc * ec - lw * d;
    lemma_times_three(d, lb * aw, la * -bw, lw * -ab);
    lemma_times_three(g, la * bc, lb * ca, lc * ab);
    lemma_times_three(ab, la * ea, lb * eb, lc * ec);
    lemma_tail(ab, la * ea + lb * eb + lc * ec, lw * d);
    lemma_regroup3(lb, aw, d);
    lemma_regroup3(la, -bw, d);
    lemma_regroup3(lw, -ab, d);
    lemma_regroup3(la, bc, g);
    lemma_regroup3(lb, ca, g);
    lemma_regroup3(lc, ab, g);
    lemma_regroup3(la, ea, ab);
    lemma_regroup3(lb, eb, ab);
    lemma_regroup3(lc, ec, ab);
    lemma_regroup3(lw, d, ab);
    lemma_times_three(la, -bw * d, -(bc * g), -(ea * ab));
    lemma_times_three(lb, aw * d, -(ca * g), -(eb * ab));
    assert(ec == -g);
    lemma_swap(d, ab);
    assert(-ab * d == -(ab * d)) by (nonlinear_arith);
    assert(lw * -(ab * d) == -(lw * (ab * d))) by (nonlinear_arith);
    assert(ec * ab == -(ab * g)) by (nonlinear_arith)
        requires
            ec == -g,
    ;
    assert(lc * -(ab * g) == -(lc * (ab * g))) by (nonlinear_arith);
    assert(la * -(bc * g) == -(la * (bc * g))) by (nonlinear_arith);
    assert(la * -(ea * ab) == -(la * (ea * ab))) by (nonlinear_arith);
    assert(lb * -(ca * g) == -(lb * (ca * g))) by (nonlinear_arith);
    assert(lb * -(eb * ab) == -(lb * (eb * ab))) by (nonlinear_arith);
    assert(la * pa + lb * pb == (lb * aw + la * -bw + lw * -ab) * d - (la * bc + lb * ca + lc * ab)
        * g - e * ab);
    assert(la * 0 == 0 && lb * 0 == 0);
}

/// How the circles of two triangles on one side compare at a point: the
/// difference goes with the height of the point above the side.
pub proof fn circles_compare(a: Vertex, b: Vertex, c: Vertex, w: Vertex, v: Vertex)
    ensures
        incircle_det(b, a, w, v) * orient_det(a, b, c) == incircle_det(a, b, c, v) * orient_det(
            b,
            a,
            w,
        ) + incircle_det(a, b, c, w) * orient_det(a, b, v),
{
    circle_from_afar(a, b, c, w, v);
    let (la, lb, lc, lw) = (far2(a, v), far2(b, v), far2(c, v), far2(w, v));
    heights_compare(la, lb, lc, lw, a, b, c, w, v);
    areas_turn(a, b, v);
    areas_turn(b, w, v);
    assert(incircle_det(b, a, w, v) == lb * orient_det(a, w, v) + la * -orient_det(b, w, v) + lw
        * -orient_det(a, b, v));
}

/// How the angles compare under which two points are seen beside a third.
pub proof fn angles_compare(a: Vertex, b: Vertex, w: Vertex, v: Vertex)
    ensures
        dot(a, b, v) * orient_det(a, w, v) - dot(a, w, v) * orient_det(a, b, v) == far2(a, v)
            * orient_det(b, w, v),
{
    let (ax, ay) = (a.vx() - v.vx(), a.vy() - v.vy());
    let (bx, by) = (b.vx() - v.vx(), b.vy() - v.vy());
    let (wx, wy) = (w.vx() - v.vx(), w.vy() - v.vy());
    lemma_angles(ax, ay, bx, by, wx, wy);
}

proof fn lemma_angles(ax: int, ay: int, bx: int, by: int, wx: int, wy: int)
    ensures
        (ax * bx + ay * by) * cross(ax, ay, wx, wy) - (ax * wx + ay * wy) * cross(ax, ay, bx, by)
            == lift(ax, ay) * cross(bx, by, wx, wy),
{
    lemma_two_by_two(ax * bx, ay * by, ax * wy, ay * wx);
    lemma_two_by_two(ax * wx, ay * wy, ax * by, ay * bx);
    lemma_two_by_two(ax * ax, ay * ay, bx * wy, by * wx);
    lemma_regroup(ax, ax, bx, wy);
    lemma_regroup(ax, ax, by, wx);
    lemma_regroup(ay, ay, bx, wy);
    lemma_regroup(ay, ay, by, wx);
    lemma_regroup(ax, ay, bx, wx);
    lemma_regroup(ay, ax, by, wy);
    lemma_regroup(ax, ax, wx, by);
    lemma_regroup(ay, ay, wy, bx);
    lemma_regroup(ax, ay, wx, bx);
    lemma_regroup(ay, ax, wy, by);
    lemma_swap(bx, wy);
    lemma_swap(by, wx);
    lemma_swap(bx, wx);
    lemma_swap(by, wy);
    lemma_swap(ax, ay);
}

// --- Seen from a point ------------------------------------------------------

/// Twice the area between two points as seen from `a`.
#[verifier::opaque]
pub open spec fn wedge(a: Vertex, p: Vertex, q: Vertex) -> int {
    orient_det(a, p, q)
}

/// Areas seen from a point are antisymmetric, and orientation is their sign.
pub proof fn wedges_turn(a: Vertex, p: Vertex, q: Vertex)
    ensures
        wedge(a, p, q) == -wedge(a, q, p),
        wedge(a, p, p) == 0,
        wedge(a, a, p) == 0,
        wedge(a, p, a) == 0,
        orient(a, p, q) > 0 <==> wedge(a, p, q) > 0,
        orient(a, p, q) < 0 <==> wedge(a, p, q) < 0,
{
    reveal(wedge);
    areas_turn(a, p, q);
    areas_turn(a, q, p);
    areas_turn(p, q, a);
    areas_turn(q, p, a);
    areas_turn(a, p, p);
    areas_turn(p, a, p);
    areas_turn(p, a, a);
    areas_turn(a, a, p);
}

/// The product of the areas between two pairs of points.
pub proof fn wedges_mix(a: Vertex, right: Vertex, left: Vertex, x: Vertex, y: Vertex)
    ensures
        wedge(a, right, left) * wedge(a, x, y) == wedge(a, x, left) * wedge(a, right, y) + wedge(
            a,
            right,
            x,
        ) * wedge(a, left, y),
{
    reveal(wedge);
    opposite_areas_cancel(right, x, left, y, a);
    areas_turn(a, right, y);
    areas_turn(a, x, y);
    areas_turn(a, left, y);
    areas_turn(a, x, left);
    areas_turn(a, left, right);
    areas_turn(a, right, left);
    areas_turn(a, right, x);
    assert(orient_det(right, y, a) == wedge(a, right, y));
    assert(orient_det(x, y, a) == wedge(a, x, y));
    assert(orient_det(left, y, a) == wedge(a, left, y));
    assert(orient_det(x, left, a) == wedge(a, x, left));
    assert(orient_det(left, right, a) == wedge(a, left, right));
    assert(orient_det(right, x, a) == wedge(a, right, x));
    wedges_turn(a, left, right);
    let (u, v) = (wedge(a, right, left), wedge(a, x, y));
    assert(v * (-u) == -(u * v)) by (nonlinear_arith);
    let (e, f) = (wedge(a, right, y), wedge(a, x, left));
    assert(e * f == f * e) by (nonlinear_arith);
    let (g, h) = (wedge(a, left, y), wedge(a, right, x));
    assert(g * h == h * g) by (nonlinear_arith);
}

} // verus!
