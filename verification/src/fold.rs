//! Folding the plane along a segment: edges that cross it are flipped until
//! none does.

use crate::plane::{
    areas_add, areas_turn, heights_compare, lemma_balance, lemma_swap, opposite_areas_cancel,
    weights_balance,
};
use crate::predicates::{cross, magnitude_of, orient, orient_det, orientation_turns, Vertex};
use crate::settle::bend;
use crate::trail::on_segment;
use vstd::prelude::*;

verus! {

// --- Heights over a folded plane --------------------------------------------

/// The distance of a point from the line through `s` and `t`, times their own.
pub open spec fn off(s: Vertex, t: Vertex, v: Vertex) -> int {
    magnitude_of(orient_det(s, t, v))
}

/// The plane folded along the line through `s` and `t`.
pub open spec fn fold(s: Vertex, t: Vertex) -> spec_fn(Vertex) -> int {
    |v: Vertex| off(s, t, v)
}

proof fn lemma_part(p: int, x: int)
    requires
        p >= 0,
    ensures
        p * x <= p * magnitude_of(x),
        -(p * x) <= p * magnitude_of(x),
{
    let y = magnitude_of(x);
    assert(p * x <= p * y && -(p * x) <= p * y) by (nonlinear_arith)
        requires
            p >= 0,
            y >= x,
            y >= -x,
    ;
}

proof fn lemma_mean(k: int, w: int, p: int, x: int, q: int, y: int, r: int, z: int)
    requires
        k >= 0 && p >= 0 && q >= 0 && r >= 0,
        k * w == p * x + q * y + r * z,
    ensures
        k * magnitude_of(w) <= p * magnitude_of(x) + q * magnitude_of(y) + r * magnitude_of(z),
{
    lemma_part(p, x);
    lemma_part(q, y);
    lemma_part(r, z);
    let v = magnitude_of(w);
    if w < 0 {
        assert(k * v == -(k * w)) by (nonlinear_arith)
            requires
                v == -w,
        ;
    }
}

/// Where the folded plane bends down at an edge, the quadrilateral on it is
/// convex.
pub proof fn lemma_bend_convex(
    s: Vertex,
    t: Vertex,
    a: Vertex,
    b: Vertex,
    c: Vertex,
    d: Vertex,
)
    requires
        orient(a, b, c) > 0,
        orient(b, a, d) > 0,
        bend(fold(s, t), a, b, c, d) > 0,
    ensures
        orient(d, c, a) > 0,
        orient(c, d, b) > 0,
{
    areas_add(a, b, c, d);
    areas_turn(a, b, d);
    weights_balance(a, b, c, d, s, t);
    let (p, q, r, k) = (
        orient_det(b, c, d),
        orient_det(c, a, d),
        orient_det(a, b, d),
        orient_det(a, b, c),
    );
    let (fa, fb, fc, fd) = (
        orient_det(s, t, a),
        orient_det(s, t, b),
        orient_det(s, t, c),
        orient_det(s, t, d),
    );
    let (la, lb, lc, ld) = (
        magnitude_of(fa),
        magnitude_of(fb),
        magnitude_of(fc),
        magnitude_of(fd),
    );
    assert(k * fd == p * fa + q * fb + r * fc);
    assert(la * p == p * la && lb * q == q * lb && lc * r == r * lc && ld * k == k * ld)
        by (nonlinear_arith);
    assert(-p * fa == -(p * fa) && -r * fc == -(r * fc) && -q * fb == -(q * fb))
        by (nonlinear_arith);
    assert(-p * la == -(p * la) && -r * lc == -(r * lc) && -q * lb == -(q * lb))
        by (nonlinear_arith);
    if p <= 0 {
        lemma_mean(q, fb, -p, fa, -r, fc, k, fd);
    }
    if q <= 0 {
        lemma_mean(p, fa, -q, fb, -r, fc, k, fd);
    }
    orientation_turns(b, c, d);
    orientation_turns(c, a, d);
    orientation_turns(d, c, a);
    orientation_turns(c, d, b);
}

// --- Along the segment ------------------------------------------------------

/// The height of the folded plane over `v`, as the triangle `a`, `b`, `c` has
/// it, times the area of the triangle.
pub open spec fn height(
    s: Vertex,
    t: Vertex,
    a: Vertex,
    b: Vertex,
    c: Vertex,
    v: Vertex,
) -> int {
    off(s, t, a) * orient_det(b, c, v) + off(s, t, b) * orient_det(c, a, v) + off(s, t, c)
        * orient_det(a, b, v)
}

/// Whether the way from `s` to `t` crosses the edge from `p` to `q` from its
/// left to its right.
pub open spec fn is_crossed(s: Vertex, t: Vertex, p: Vertex, q: Vertex) -> bool {
    &&& orient(s, t, p) < 0
    &&& orient(s, t, q) > 0
    &&& orient(p, q, s) > 0
    &&& orient(p, q, t) < 0
}

/// The height at the end of the segment does not fall from a triangle to the
/// next.
pub proof fn lemma_height_grows(
    s: Vertex,
    t: Vertex,
    p: Vertex,
    q: Vertex,
    r: Vertex,
    w: Vertex,
)
    requires
        is_crossed(s, t, p, q),
        orient(p, q, r) > 0,
        orient(q, p, w) > 0,
        height(s, t, p, q, r, t) > 0,
        bend(fold(s, t), p, q, r, w) <= 0,
    ensures
        height(s, t, q, p, w, t) > 0,
{
    let (lp, lq, lr, lw) = (off(s, t, p), off(s, t, q), off(s, t, r), off(s, t, w));
    heights_compare(lp, lq, lr, lw, p, q, r, w, t);
    areas_turn(q, w, t);
    areas_turn(p, q, t);
    let (x, y) = (height(s, t, q, p, w, t), orient_det(p, q, r));
    let (h, d) = (height(s, t, p, q, r, t), orient_det(q, p, w));
    let (e, f) = (bend(fold(s, t), p, q, r, w), orient_det(p, q, t));
    let (bw, ab) = (orient_det(q, w, t), f);
    assert(lp * -bw == -(lp * bw) && lw * -ab == -(lw * ab)) by (nonlinear_arith);
    assert(x * y == h * d + e * f);
    assert(h * d > 0) by (nonlinear_arith)
        requires
            h > 0,
            d > 0,
    ;
    assert(e * f >= 0) by (nonlinear_arith)
        requires
            e <= 0,
            f < 0,
    ;
    assert(x > 0) by (nonlinear_arith)
        requires
            x * y > 0,
            y > 0,
    ;
}

/// Whether the way from `s` to `t` crosses the edge `c`, `d` later than `a`,
/// `b`.
pub open spec fn later(s: Vertex, t: Vertex, a: Vertex, b: Vertex, c: Vertex, d: Vertex) -> bool {
    orient_det(a, b, s) * -orient_det(c, d, t) < orient_det(c, d, s) * -orient_det(a, b, t)
}

/// Past a crossed edge the way leaves the next triangle by the side between
/// corners on either side of it.
pub proof fn lemma_leaves_right(s: Vertex, t: Vertex, p: Vertex, q: Vertex, w: Vertex)
    requires
        is_crossed(s, t, p, q),
        orient(q, p, w) > 0,
        orient(s, t, w) > 0,
        orient(p, w, t) < 0 || orient(w, q, t) < 0,
    ensures
        is_crossed(s, t, p, w),
        later(s, t, p, q, p, w),
{
    weights_balance(q, p, w, t, s, t);
    areas_turn(s, t, t);
    areas_turn(t, s, t);
    areas_turn(p, q, t);
    areas_turn(p, q, s);
    let (fq, fp, fw) = (orient_det(s, t, q), orient_det(s, t, p), orient_det(s, t, w));
    let (k1, k2, k3) = (orient_det(p, w, t), orient_det(w, q, t), orient_det(q, p, t));
    let d = orient_det(q, p, w);
    assert(orient_det(s, t, t) == 0);
    assert(d * 0 == 0);
    assert(k1 < 0) by {
        if k1 >= 0 {
            assert(k2 > 0) by (nonlinear_arith)
                requires
                    0 == k1 * fq + k2 * fp + k3 * fw,
                    k1 >= 0,
                    k3 > 0,
                    fq > 0,
                    fw > 0,
                    fp < 0,
            ;
        }
    }
    // Seen from `p`.
    opposite_areas_cancel(q, w, s, t, p);
    orientation_turns(p, q, s);
    orientation_turns(p, q, t);
    orientation_turns(p, w, s);
    orientation_turns(p, w, t);
    orientation_turns(s, t, p);
    orientation_turns(q, p, w);
    orientation_turns(q, s, p);
    orientation_turns(q, t, p);
    orientation_turns(w, s, p);
    orientation_turns(w, t, p);
    orientation_turns(q, w, p);
    let (qs, qt, ws, wt) = (
        orient_det(p, q, s),
        orient_det(p, q, t),
        orient_det(p, w, s),
        orient_det(p, w, t),
    );
    assert(orient_det(q, s, p) == qs && orient_det(q, t, p) == qt);
    assert(orient_det(w, s, p) == ws && orient_det(w, t, p) == wt);
    assert(orient_det(q, w, p) == -d);
    assert(orient_det(s, q, p) == -qs) by {
        areas_turn(q, s, p);
    }
    assert(orient_det(s, t, p) == fp);
    let g = fp * -d;
    assert(g > 0) by (nonlinear_arith)
        requires
            g == fp * -d,
            fp < 0,
            d > 0,
    ;
    assert(qt * ws + wt * -qs + g == 0);
    assert(ws > 0) by (nonlinear_arith)
        requires
            qt * ws + wt * -qs + g == 0,
            g > 0,
            qt < 0,
            wt < 0,
            qs > 0,
    ;
    assert(qs * -wt < ws * -qt) by (nonlinear_arith)
        requires
            qt * ws + wt * -qs + g == 0,
            g > 0,
    ;
}

/// The same on the other side.
pub proof fn lemma_leaves_left(s: Vertex, t: Vertex, p: Vertex, q: Vertex, w: Vertex)
    requires
        is_crossed(s, t, p, q),
        orient(q, p, w) > 0,
        orient(s, t, w) < 0,
        orient(p, w, t) < 0 || orient(w, q, t) < 0,
    ensures
        is_crossed(s, t, w, q),
        later(s, t, p, q, w, q),
{
    weights_balance(q, p, w, t, s, t);
    areas_turn(s, t, t);
    areas_turn(t, s, t);
    areas_turn(p, q, t);
    areas_turn(p, q, s);
    let (fq, fp, fw) = (orient_det(s, t, q), orient_det(s, t, p), orient_det(s, t, w));
    let (k1, k2, k3) = (orient_det(p, w, t), orient_det(w, q, t), orient_det(q, p, t));
    let d = orient_det(q, p, w);
    assert(orient_det(s, t, t) == 0);
    assert(d * 0 == 0);
    assert(k2 < 0) by {
        if k2 >= 0 {
            assert(k1 > 0) by (nonlinear_arith)
                requires
                    0 == k1 * fq + k2 * fp + k3 * fw,
                    k2 >= 0,
                    k3 > 0,
                    fq > 0,
                    fw < 0,
                    fp < 0,
            ;
        }
    }
    // Seen from `q`.
    opposite_areas_cancel(p, w, s, t, q);
    areas_turn(p, q, s);
    areas_turn(p, q, t);
    areas_turn(w, q, s);
    areas_turn(w, q, t);
    areas_turn(s, t, q);
    areas_turn(q, p, w);
    areas_turn(q, s, p);
    areas_turn(p, t, q);
    areas_turn(q, t, p);
    areas_turn(p, s, q);
    areas_turn(w, s, q);
    areas_turn(q, s, w);
    areas_turn(w, t, q);
    areas_turn(q, t, w);
    areas_turn(p, w, q);
    areas_turn(s, p, q);
    let (ps, pt, ws, wt) = (
        orient_det(p, q, s),
        orient_det(p, q, t),
        orient_det(w, q, s),
        orient_det(w, q, t),
    );
    assert(orient_det(p, s, q) == -ps);
    assert(orient_det(p, t, q) == -pt);
    assert(orient_det(w, s, q) == -ws);
    assert(orient_det(w, t, q) == -wt);
    assert(orient_det(p, w, q) == d);
    assert(orient_det(s, p, q) == ps);
    assert(-pt * -ws + -wt * ps + fq * d == 0);
    let g = fq * d;
    assert(g > 0) by (nonlinear_arith)
        requires
            g == fq * d,
            fq > 0,
            d > 0,
    ;
    assert(ws > 0) by (nonlinear_arith)
        requires
            -pt * -ws + -wt * ps + g == 0,
            g > 0,
            pt < 0,
            wt < 0,
            ps > 0,
    ;
    assert(ps * -wt < ws * -pt) by (nonlinear_arith)
        requires
            -pt * -ws + -wt * ps + g == 0,
            g > 0,
    ;
}

/// Crossings come in order.
proof fn lemma_later_goes_on(u1: int, v1: int, u2: int, v2: int, u3: int, v3: int)
    requires
        v1 > 0 && v2 > 0 && v3 > 0,
        u1 * v2 < u2 * v1,
        u2 * v3 < u3 * v2,
    ensures
        u1 * v3 < u3 * v1,
{
    let x = u1 * v3;
    let y = u3 * v1;
    assert(x * v2 < y * v2) by {
        assert(x * v2 == (u1 * v2) * v3) by (nonlinear_arith)
            requires
                x == u1 * v3,
        ;
        assert(y * v2 == (u3 * v2) * v1) by (nonlinear_arith)
            requires
                y == u3 * v1,
        ;
        let (g, h) = (u1 * v2, u2 * v1);
        assert(g * v3 < h * v3) by (nonlinear_arith)
            requires
                g < h,
                v3 > 0,
        ;
        assert(h * v3 == (u2 * v3) * v1) by (nonlinear_arith)
            requires
                h == u2 * v1,
        ;
        let (i, j) = (u2 * v3, u3 * v2);
        assert(i * v1 < j * v1) by (nonlinear_arith)
            requires
                i < j,
                v1 > 0,
        ;
    }
    assert(x < y) by (nonlinear_arith)
        requires
            x * v2 < y * v2,
            v2 > 0,
    ;
}

/// Of three crossed edges, the last is later than the first.
pub proof fn crossings_come_in_order(
    s: Vertex,
    t: Vertex,
    a: Vertex,
    b: Vertex,
    c: Vertex,
    d: Vertex,
    e: Vertex,
    f: Vertex,
)
    requires
        is_crossed(s, t, a, b),
        is_crossed(s, t, c, d),
        is_crossed(s, t, e, f),
        later(s, t, a, b, c, d),
        later(s, t, c, d, e, f),
    ensures
        later(s, t, a, b, e, f),
{
    lemma_later_goes_on(
        orient_det(a, b, s),
        -orient_det(a, b, t),
        orient_det(c, d, s),
        -orient_det(c, d, t),
        orient_det(e, f, s),
        -orient_det(e, f, t),
    );
}

pub proof fn lemma_collinear(ux: int, uy: int, wx: int, wy: int, dx: int, dy: int)
    requires
        cross(ux, uy, wx, wy) == 0,
    ensures
        cross(dx, dy, ux, uy) * wx == cross(dx, dy, wx, wy) * ux,
        cross(dx, dy, ux, uy) * wy == cross(dx, dy, wx, wy) * uy,
{
    lemma_balance(dx, dy, ux, uy, wx, wy);
    let (k, n, z) = (cross(dx, dy, ux, uy), cross(dx, dy, wx, wy), cross(wx, wy, dx, dy));
    assert(z == -n) by {
        lemma_swap(wx, dy);
        lemma_swap(wy, dx);
    }
    assert(dx * 0 == 0 && dy * 0 == 0);
    lemma_swap(k, wx);
    lemma_swap(k, wy);
    lemma_swap(n, ux);
    lemma_swap(n, uy);
}

proof fn lemma_same_way(k: int, n: int, x: int, y: int)
    requires
        k * x == n * y,
        (k > 0 && n > 0) || (k < 0 && n < 0),
    ensures
        y > 0 ==> x > 0,
        y < 0 ==> x < 0,
        y == 0 ==> x == 0,
{
    assert((y > 0 ==> x > 0) && (y < 0 ==> x < 0) && (y == 0 ==> x == 0)) by (nonlinear_arith)
        requires
            k * x == n * y,
            (k > 0 && n > 0) || (k < 0 && n < 0),
    ;
}

/// A point that is ahead of `s` and short of `t` on their line, as another
/// point sees it, is between them.
pub proof fn lemma_amid(s: Vertex, t: Vertex, p: Vertex, w: Vertex)
    requires
        orient(s, t, w) == 0,
        orient(s, t, p) != 0,
        orient(p, w, t) == orient(p, s, t),
        orient(p, w, s) == orient(p, t, s),
    ensures
        on_segment(s, t, w),
{
    orientation_turns(s, t, p);
    orientation_turns(t, p, s);
    orientation_turns(p, s, t);
    orientation_turns(p, t, s);
    areas_turn(s, t, w);
    areas_turn(s, w, t);
    // From `t`.
    lemma_collinear(
        s.vx() - t.vx(),
        s.vy() - t.vy(),
        w.vx() - t.vx(),
        w.vy() - t.vy(),
        p.vx() - t.vx(),
        p.vy() - t.vy(),
    );
    lemma_same_way(orient_det(p, s, t), orient_det(p, w, t), w.vx() - t.vx(), s.vx() - t.vx());
    lemma_same_way(orient_det(p, s, t), orient_det(p, w, t), w.vy() - t.vy(), s.vy() - t.vy());
    // From `s`.
    assert(orient_det(t, w, s) == 0) by {
        areas_turn(w, s, t);
    }
    lemma_collinear(
        t.vx() - s.vx(),
        t.vy() - s.vy(),
        w.vx() - s.vx(),
        w.vy() - s.vy(),
        p.vx() - s.vx(),
        p.vy() - s.vy(),
    );
    lemma_same_way(orient_det(p, t, s), orient_det(p, w, s), w.vx() - s.vx(), t.vx() - s.vx());
    lemma_same_way(orient_det(p, t, s), orient_det(p, w, s), w.vy() - s.vy(), t.vy() - s.vy());
}

/// Past a crossed edge, a corner on the line is between its ends or has the
/// far end in the triangle.
pub proof fn lemma_stops(s: Vertex, t: Vertex, p: Vertex, q: Vertex, w: Vertex)
    requires
        is_crossed(s, t, p, q),
        orient(q, p, w) > 0,
        orient(s, t, w) == 0,
    ensures
        (orient(p, w, t) >= 0 && orient(w, q, t) >= 0) || on_segment(s, t, w),
        orient(p, w, t) < 0 || orient(w, q, t) < 0 ==> on_segment(s, t, w),
{
    let (fq, fp, fw) = (orient_det(s, t, q), orient_det(s, t, p), orient_det(s, t, w));
    weights_balance(q, p, w, t, s, t);
    weights_balance(q, p, w, s, s, t);
    areas_turn(s, t, t);
    areas_turn(t, s, t);
    areas_turn(s, t, s);
    areas_turn(t, s, s);
    areas_turn(s, s, t);
    areas_turn(p, q, t);
    areas_turn(p, q, s);
    areas_add(q, p, w, s);
    let d = orient_det(q, p, w);
    assert(d * 0 == 0);
    assert(orient_det(s, t, t) == 0 && orient_det(s, t, s) == 0);
    let (k1, k2, k3) = (orient_det(p, w, t), orient_det(w, q, t), orient_det(q, p, t));
    let (j1, j2, j3) = (orient_det(p, w, s), orient_det(w, q, s), orient_det(q, p, s));
    assert(k3 * 0 == 0 && j3 * 0 == 0);
    assert(k1 * fq + k2 * fp == 0);
    assert(j1 * fq + j2 * fp == 0);
    assert((k1 > 0 <==> k2 > 0) && (k1 < 0 <==> k2 < 0)) by (nonlinear_arith)
        requires
            k1 * fq + k2 * fp == 0,
            fq > 0,
            fp < 0,
    ;
    assert(j1 > 0 <==> j2 > 0) by (nonlinear_arith)
        requires
            j1 * fq + j2 * fp == 0,
            fq > 0,
            fp < 0,
    ;
    assert(j1 > 0);
    if k1 < 0 {
        orientation_turns(s, t, p);
        orientation_turns(t, p, s);
        orientation_turns(p, s, t);
        orientation_turns(s, p, t);
        orientation_turns(p, t, s);
        lemma_amid(s, t, p, w);
    }
}

} // verus!
