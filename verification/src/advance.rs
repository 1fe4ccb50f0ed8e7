//! A triangulation built outward, vertex after vertex: each comes to lie
//! outside the hull of those before and is joined to every hull edge that it
//! sees.

use crate::empty_circle::{
    encircles, face_count, is_anchored, is_constrained_delaunay, is_delaunay, is_delaunay_of,
    is_empty_face, is_face, is_good_side, is_live, is_locally_delaunay, is_side, lemma_no_faces,
    on_one_line, rim_count,
};
use crate::knitting::{
    is_edge, lemma_bonded, lemma_new_triangle, lemma_three, lemma_turns, lemma_with_corner,
};
use crate::lawson::{
    all_local, bounds_all, covers, flip_all, is_convex, is_corner, is_spread, is_tile, is_tiled,
    lemma_open_sides, lemma_rim_total, lemma_total_changes, local_is_global, rim_at, same_pools,
    total,
};
use crate::mesh::{no_tri, CdtMesh, MeshView, Otri, VertexId};
use crate::plane::{areas_add, areas_turn, lemma_balance, opposite_areas_cancel, weights_balance};
use crate::predicates::{cross, orient, orient2d, orient_det, orientation_turns, Vertex};
use crate::segment::{same_place, same_subsegs};
use crate::paving::{corners, is_plane};
use crate::survey::{
    fresh_meshes_are_plane, is_counted, lemma_tiled_is_plane, lemma_tiled_uses, uses_all,
};
use vstd::prelude::*;

verus! {

// --- From left to right -----------------------------------------------------

/// Whether a vector points to the right, or straight up.
pub open spec fn points_on(x: int, y: int) -> bool {
    x > 0 || (x == 0 && y > 0)
}

/// Whether `b` lies to the right of `a`, or straight above.
pub open spec fn ahead(a: Vertex, b: Vertex) -> bool {
    points_on(b.vx() - a.vx(), b.vy() - a.vy())
}

/// Whether `b` lies ahead of `a`, or the other way round.
pub open spec fn goes_on(a: Vertex, b: Vertex, forward: bool) -> bool {
    if forward {
        ahead(a, b)
    } else {
        ahead(b, a)
    }
}

/// Vectors that all point on do not cancel.
proof fn lemma_no_cancel(
    x1: int,
    y1: int,
    k1: int,
    x2: int,
    y2: int,
    k2: int,
    x3: int,
    y3: int,
    k3: int,
)
    requires
        points_on(x1, y1) || k1 == 0,
        points_on(x2, y2) || k2 == 0,
        points_on(x3, y3),
        k1 >= 0,
        k2 >= 0,
        k3 > 0,
    ensures
        x1 * k1 + x2 * k2 + x3 * k3 != 0 || y1 * k1 + y2 * k2 + y3 * k3 != 0,
{
    lemma_on_times(x1, y1, k1);
    lemma_on_times(x2, y2, k2);
    lemma_on_times(x3, y3, k3);
}

proof fn lemma_on_times(x: int, y: int, k: int)
    requires
        points_on(x, y) || k == 0,
        k >= 0,
    ensures
        x * k >= 0,
        x * k == 0 ==> y * k >= 0,
        k > 0 && x * k == 0 ==> y * k > 0,
{
    assert(x * k >= 0) by (nonlinear_arith)
        requires
            x >= 0 || k == 0,
            k >= 0,
    ;
    assert(x * k == 0 ==> x == 0 || k == 0) by (nonlinear_arith);
    if k > 0 && x * k == 0 {
        assert(y * k > 0) by (nonlinear_arith)
            requires
                y > 0,
                k > 0,
        ;
    }
    assert(y * 0 == 0);
}

/// The three areas at `q` balance the three vectors from it.
proof fn lemma_balance_at(a: Vertex, b: Vertex, c: Vertex, q: Vertex)
    ensures
        (a.vx() - q.vx()) * orient_det(b, c, q) + (b.vx() - q.vx()) * orient_det(c, a, q) + (c.vx()
            - q.vx()) * orient_det(a, b, q) == 0,
        (a.vy() - q.vy()) * orient_det(b, c, q) + (b.vy() - q.vy()) * orient_det(c, a, q) + (c.vy()
            - q.vy()) * orient_det(a, b, q) == 0,
{
    lemma_balance(
        a.vx() - q.vx(),
        a.vy() - q.vy(),
        b.vx() - q.vx(),
        b.vy() - q.vy(),
        c.vx() - q.vx(),
        c.vy() - q.vy(),
    );
}

proof fn lemma_negate(x: int, k: int)
    ensures
        -x * k == -(x * k),
        x * -k == -(x * k),
        -x * -k == x * k,
{
    assert(-x * k == -(x * k)) by (nonlinear_arith);
    assert(x * -k == -(x * k)) by (nonlinear_arith);
    assert(-x * -k == x * k) by (nonlinear_arith);
}

/// The three vectors from `q` balance when each is taken as often as the area
/// of the other two says. So where two of the terms point `on`, the third does
/// not. A vector's flag says which way it points by itself.
proof fn lemma_unbalanced(
    a: (Vertex, bool),
    b: (Vertex, bool),
    c: (Vertex, bool),
    q: Vertex,
    on: bool,
)
    requires
        goes_on(q, a.0, a.1) || orient_det(b.0, c.0, q) == 0,
        goes_on(q, b.0, b.1),
        goes_on(q, c.0, c.1),
        a.1 == on ==> orient_det(b.0, c.0, q) >= 0,
        a.1 != on ==> orient_det(b.0, c.0, q) <= 0,
        b.1 == on ==> orient_det(c.0, a.0, q) >= 0,
        b.1 != on ==> orient_det(c.0, a.0, q) <= 0,
    ensures
        c.1 == on ==> orient_det(a.0, b.0, q) <= 0,
        c.1 != on ==> orient_det(a.0, b.0, q) >= 0,
{
    lemma_balance_at(a.0, b.0, c.0, q);
    let (ka, kb, kc) = (
        orient_det(b.0, c.0, q),
        orient_det(c.0, a.0, q),
        orient_det(a.0, b.0, q),
    );
    let (ax, ay) = (a.0.vx() - q.vx(), a.0.vy() - q.vy());
    let (bx, by) = (b.0.vx() - q.vx(), b.0.vy() - q.vy());
    let (cx, cy) = (c.0.vx() - q.vx(), c.0.vy() - q.vy());
    let (sx, sy, sk) = lemma_turn_term(ax, ay, ka, a.1, on);
    let (tx, ty, tk) = lemma_turn_term(bx, by, kb, b.1, on);
    let (ux, uy, uk) = lemma_turn_term(cx, cy, kc, c.1, on);
    if uk > 0 {
        lemma_no_cancel(sx, sy, sk, tx, ty, tk, ux, uy, uk);
    }
}

/// A term with its vector turned to point on; where all terms are to point the
/// other way, all are negated.
proof fn lemma_turn_term(x: int, y: int, k: int, dir: bool, on: bool) -> (r: (int, int, int))
    ensures
        r.0 == (if dir {
            x
        } else {
            -x
        }) && r.1 == (if dir {
            y
        } else {
            -y
        }) && r.2 == (if dir == on {
            k
        } else {
            -k
        }),
        on ==> r.0 * r.2 == x * k && r.1 * r.2 == y * k,
        !on ==> r.0 * r.2 == -(x * k) && r.1 * r.2 == -(y * k),
{
    lemma_negate(x, k);
    lemma_negate(y, k);
    (
        if dir {
            x
        } else {
            -x
        },
        if dir {
            y
        } else {
            -y
        },
        if dir == on {
            k
        } else {
            -k
        },
    )
}

// --- Corners of a hull ------------------------------------------------------

/// The corner of a hull that lies farthest on is a proper corner. `z` is the
/// apex inside the first of its two edges.
proof fn lemma_tip_turns(prev: Vertex, q: Vertex, next: Vertex, z: Vertex, forward: bool)
    requires
        goes_on(prev, q, forward),
        goes_on(next, q, forward),
        orient(prev, q, next) >= 0,
        orient(prev, q, z) > 0,
        orient(q, next, z) >= 0,
    ensures
        orient(prev, q, next) > 0,
{
    lemma_seen_from(prev, q, next);
    lemma_seen_from(prev, q, z);
    lemma_seen_from(z, q, next);
    areas_turn(prev, next, q);
    areas_turn(z, next, q);
    areas_turn(prev, z, q);
    orientation_turns(q, next, z);
    if orient_det(prev, q, next) == 0 {
        lemma_unbalanced((z, true), (prev, !forward), (next, !forward), q, !forward);
    }
}

/// An area seen from its middle corner.
proof fn lemma_seen_from(a: Vertex, q: Vertex, b: Vertex)
    ensures
        orient_det(b, a, q) == orient_det(a, q, b),
        orient_det(q, b, a) == orient_det(a, q, b),
        orient_det(a, b, q) == -orient_det(a, q, b),
{
    orientation_turns(a, q, b);
    orientation_turns(q, b, a);
    orientation_turns(a, b, q);
}

/// Past the tip of a hull, a point sees one of the two edges there.
proof fn lemma_tip_seen(prev: Vertex, q: Vertex, next: Vertex, p: Vertex, forward: bool)
    requires
        goes_on(prev, q, forward),
        goes_on(next, q, forward),
        goes_on(q, p, forward),
        orient(prev, q, next) > 0,
    ensures
        orient(prev, q, p) < 0 || orient(q, next, p) < 0,
{
    lemma_seen_from(prev, q, next);
    lemma_seen_from(prev, q, p);
    orientation_turns(q, next, p);
    orientation_turns(next, p, q);
    if orient(prev, q, p) >= 0 && orient(q, next, p) >= 0 {
        lemma_unbalanced((prev, !forward), (next, !forward), (p, forward), q, !forward);
    }
}

/// A point behind the tip of a hull does not see both edges there.
proof fn lemma_tip_stays(prev: Vertex, q: Vertex, next: Vertex, x: Vertex, forward: bool)
    requires
        goes_on(prev, q, forward),
        goes_on(next, q, forward),
        goes_on(x, q, forward),
        orient(prev, q, next) > 0,
    ensures
        orient(prev, q, x) >= 0 || orient(q, next, x) >= 0,
{
    lemma_seen_from(prev, q, next);
    lemma_seen_from(prev, q, x);
    orientation_turns(q, next, x);
    orientation_turns(next, x, q);
    if orient(prev, q, x) < 0 && orient(q, next, x) < 0 {
        lemma_unbalanced((prev, !forward), (next, !forward), (x, !forward), q, forward);
    }
}

/// Points on one side of `p` are in order round it.
proof fn lemma_round_order(a: Vertex, b: Vertex, c: Vertex, p: Vertex, forward: bool)
    requires
        goes_on(a, p, forward),
        goes_on(b, p, forward),
        goes_on(c, p, forward),
        orient(a, b, p) > 0,
        orient(b, c, p) >= 0,
    ensures
        orient(a, c, p) >= 0,
{
    areas_turn(a, c, p);
    if orient_det(c, a, p) > 0 {
        lemma_unbalanced((a, !forward), (b, !forward), (c, !forward), p, !forward);
    }
}

/// Where a point sees the edge after a hull corner but not the one before, all
/// of the hull is on the left of the way from the corner to the point.
proof fn lemma_first_tangent(
    prev: Vertex,
    u: Vertex,
    next: Vertex,
    z: Vertex,
    p: Vertex,
    x: Vertex,
)
    requires
        orient(prev, u, p) >= 0,
        orient(u, next, p) < 0,
        orient(prev, u, next) >= 0,
        orient(prev, u, z) > 0,
        orient(u, next, z) >= 0,
        orient(prev, u, x) >= 0,
        orient(u, next, x) >= 0,
    ensures
        orient(u, p, x) >= 0,
{
    lemma_proper_start(prev, u, next, z, p);
    weights_balance(prev, u, next, p, u, x);
    lemma_seen_from(prev, u, x);
    orientation_turns(u, x, prev);
    orientation_turns(u, next, x);
    orientation_turns(u, x, next);
    areas_turn(u, x, u);
    areas_turn(x, u, u);
    let t = orient_det(prev, u, next);
    let (k1, k3) = (orient_det(u, next, p), orient_det(prev, u, p));
    let (h1, h3) = (orient_det(u, x, prev), orient_det(u, x, next));
    let g = orient_det(u, x, p);
    assert(orient_det(next, prev, p) * orient_det(u, x, u) == 0) by {
        let k2 = orient_det(next, prev, p);
        assert(k2 * 0 == 0) by (nonlinear_arith);
        assert(orient_det(u, x, u) == 0);
    }
    assert(h1 == orient_det(prev, u, x));
    assert(h3 == -orient_det(u, next, x)) by {
        orientation_turns(next, u, x);
        orientation_turns(u, next, x);
    }
    assert(g <= 0) by (nonlinear_arith)
        requires
            t * g == k1 * h1 + 0 + k3 * h3,
            t > 0,
            k1 < 0,
            h1 >= 0,
            k3 >= 0,
            h3 <= 0,
    ;
    orientation_turns(u, x, p);
    orientation_turns(x, p, u);
    orientation_turns(u, p, x);
}

proof fn lemma_proper_start(prev: Vertex, u: Vertex, next: Vertex, z: Vertex, p: Vertex)
    requires
        orient(prev, u, p) >= 0,
        orient(u, next, p) < 0,
        orient(prev, u, next) >= 0,
        orient(prev, u, z) > 0,
        orient(u, next, z) >= 0,
    ensures
        orient(prev, u, next) > 0,
{
    opposite_areas_cancel(prev, next, p, z, u);
    lemma_seen_from(prev, u, z);
    lemma_seen_from(prev, u, p);
    lemma_seen_from(prev, u, next);
    orientation_turns(u, next, p);
    orientation_turns(next, p, u);
    orientation_turns(u, next, z);
    orientation_turns(next, z, u);
    if orient_det(prev, u, next) == 0 {
        let (a, b) = (orient_det(prev, z, u), orient_det(next, p, u));
        let (c, d) = (orient_det(next, z, u), orient_det(p, prev, u));
        let e = orient_det(p, z, u);
        assert(e * 0 == 0);
        assert(a * b + c * d > 0) by (nonlinear_arith)
            requires
                a < 0,
                b < 0,
                c >= 0,
                d >= 0,
        ;
    }
}

/// Where a point sees the edge before a hull corner but not the one after, all
/// of the hull is on the left of the way from the point to the corner.
proof fn lemma_last_tangent(
    prev: Vertex,
    u: Vertex,
    next: Vertex,
    z: Vertex,
    p: Vertex,
    x: Vertex,
)
    requires
        orient(prev, u, p) < 0,
        orient(u, next, p) >= 0,
        orient(prev, u, next) >= 0,
        orient(u, next, z) > 0,
        orient(prev, u, z) >= 0,
        orient(prev, u, x) >= 0,
        orient(u, next, x) >= 0,
    ensures
        orient(p, u, x) >= 0,
{
    lemma_proper_end(prev, u, next, z, p);
    weights_balance(prev, u, next, p, u, x);
    lemma_seen_from(prev, u, x);
    orientation_turns(u, x, prev);
    orientation_turns(u, next, x);
    orientation_turns(u, x, next);
    areas_turn(u, x, u);
    areas_turn(x, u, u);
    let t = orient_det(prev, u, next);
    let (k1, k3) = (orient_det(u, next, p), orient_det(prev, u, p));
    let (h1, h3) = (orient_det(u, x, prev), orient_det(u, x, next));
    let g = orient_det(u, x, p);
    assert(orient_det(next, prev, p) * orient_det(u, x, u) == 0) by {
        let k2 = orient_det(next, prev, p);
        assert(k2 * 0 == 0) by (nonlinear_arith);
        assert(orient_det(u, x, u) == 0);
    }
    assert(h1 == orient_det(prev, u, x));
    assert(h3 == -orient_det(u, next, x)) by {
        orientation_turns(next, u, x);
        orientation_turns(u, next, x);
    }
    assert(g >= 0) by (nonlinear_arith)
        requires
            t * g == k1 * h1 + 0 + k3 * h3,
            t > 0,
            k1 >= 0,
            h1 >= 0,
            k3 < 0,
            h3 <= 0,
    ;
    orientation_turns(u, x, p);
    orientation_turns(x, p, u);
    orientation_turns(p, u, x);
}

proof fn lemma_proper_end(prev: Vertex, u: Vertex, next: Vertex, z: Vertex, p: Vertex)
    requires
        orient(prev, u, p) < 0,
        orient(u, next, p) >= 0,
        orient(prev, u, next) >= 0,
        orient(u, next, z) > 0,
        orient(prev, u, z) >= 0,
    ensures
        orient(prev, u, next) > 0,
{
    opposite_areas_cancel(prev, next, p, z, u);
    lemma_seen_from(prev, u, z);
    lemma_seen_from(prev, u, p);
    lemma_seen_from(prev, u, next);
    orientation_turns(u, next, p);
    orientation_turns(next, p, u);
    orientation_turns(u, next, z);
    orientation_turns(next, z, u);
    if orient_det(prev, u, next) == 0 {
        let (a, b) = (orient_det(prev, z, u), orient_det(next, p, u));
        let (c, d) = (orient_det(next, z, u), orient_det(p, prev, u));
        let e = orient_det(p, z, u);
        assert(e * 0 == 0);
        assert(a * b + c * d < 0) by (nonlinear_arith)
            requires
                a <= 0,
                b >= 0,
                c > 0,
                d < 0,
        ;
    }
}

/// Two hull corners in line with a point, the nearer one not on the left of
/// the farther one's edge that the point sees.
proof fn lemma_in_line(u: Vertex, next: Vertex, w: Vertex, p: Vertex, forward: bool)
    requires
        goes_on(u, p, forward),
        orient(u, p, w) == 0,
        orient(u, next, p) < 0,
        orient(u, next, w) >= 0,
    ensures
        !goes_on(u, w, forward),
{
    orientation_turns(u, p, w);
    orientation_turns(p, w, u);
    orientation_turns(u, next, p);
    orientation_turns(next, p, u);
    orientation_turns(u, next, w);
    orientation_turns(next, w, u);
    areas_turn(next, w, u);
    if goes_on(u, w, forward) {
        lemma_unbalanced((next, true), (p, forward), (w, forward), u, !forward);
    }
}

/// Where a point sees the edges after two hull corners but not those before,
/// the two are one.
proof fn lemma_one_start(
    u: Vertex,
    next: Vertex,
    w: Vertex,
    after: Vertex,
    p: Vertex,
    forward: bool,
)
    requires
        goes_on(u, p, forward),
        goes_on(w, p, forward),
        orient(u, p, w) >= 0,
        orient(w, p, u) >= 0,
        orient(u, next, p) < 0,
        orient(u, next, w) >= 0,
        orient(w, after, p) < 0,
        orient(w, after, u) >= 0,
    ensures
        same_place(u, w),
{
    lemma_seen_from(u, p, w);
    orientation_turns(w, p, u);
    orientation_turns(u, p, w);
    orientation_turns(p, u, w);
    lemma_in_line(u, next, w, p, forward);
    lemma_in_line(w, after, u, p, forward);
}

// --- Triangles on a seen edge -----------------------------------------------

/// A point of the triangle on a seen edge that is not beyond the edge is in
/// the triangle inside it.
proof fn lemma_on_the_edge(s: Vertex, t: Vertex, z: Vertex, p: Vertex, x: Vertex)
    requires
        orient(s, t, p) < 0,
        orient(s, t, z) > 0,
        orient(s, t, x) >= 0,
        orient(t, s, x) >= 0,
        orient(s, p, x) >= 0,
        orient(p, t, x) >= 0,
    ensures
        orient(s, t, x) == 0,
        orient(t, z, x) >= 0,
        orient(z, s, x) >= 0,
{
    areas_turn(s, t, x);
    areas_turn(s, t, p);
    weights_balance(t, s, p, x, t, z);
    weights_balance(t, s, p, x, z, s);
    areas_turn(t, z, t);
    areas_turn(z, s, s);
    areas_turn(s, z, s);
    orientation_turns(s, t, z);
    orientation_turns(t, z, s);
    orientation_turns(z, s, t);
    let d = orient_det(t, s, p);
    let (k1, k2, k3) = (orient_det(s, p, x), orient_det(p, t, x), orient_det(t, s, x));
    assert(k3 == 0);
    let (f, g) = (orient_det(t, z, x), orient_det(z, s, x));
    let (e, h1, h2) = (orient_det(s, t, z), orient_det(t, z, p), orient_det(z, s, p));
    assert(orient_det(t, z, s) == e && orient_det(z, s, t) == e);
    assert(orient_det(t, z, t) == 0 && orient_det(z, s, s) == 0);
    assert(f >= 0) by (nonlinear_arith)
        requires
            d * f == k1 * 0 + k2 * e + 0 * h1,
            d > 0,
            k2 >= 0,
            e > 0,
    ;
    assert(g >= 0) by (nonlinear_arith)
        requires
            d * g == k1 * e + k2 * 0 + 0 * h2,
            d > 0,
            k1 >= 0,
            e > 0,
    ;
}

/// A point beyond an edge is in no triangle on the other side of it.
proof fn lemma_outside(s: Vertex, t: Vertex, a: Vertex, b: Vertex, c: Vertex, p: Vertex)
    requires
        orient(s, t, p) < 0,
        orient(s, t, a) >= 0,
        orient(s, t, b) >= 0,
        orient(s, t, c) >= 0,
        orient(a, b, c) > 0,
    ensures
        orient(a, b, p) < 0 || orient(b, c, p) < 0 || orient(c, a, p) < 0,
{
    weights_balance(a, b, c, p, s, t);
    let d = orient_det(a, b, c);
    let (k1, k2, k3) = (orient_det(b, c, p), orient_det(c, a, p), orient_det(a, b, p));
    let (h1, h2, h3) = (orient_det(s, t, a), orient_det(s, t, b), orient_det(s, t, c));
    let f = orient_det(s, t, p);
    if k1 >= 0 && k2 >= 0 && k3 >= 0 {
        assert(f >= 0) by (nonlinear_arith)
            requires
                d * f == k1 * h1 + k2 * h2 + k3 * h3,
                d > 0,
                k1 >= 0,
                k2 >= 0,
                k3 >= 0,
                h1 >= 0,
                h2 >= 0,
                h3 >= 0,
        ;
    }
}

// --- Attaching triangles ----------------------------------------------------

/// A new triangle on the outer side of edge `o`, with the apex `p`.
pub open spec fn attached(m: MeshView, o: Otri, p: VertexId) -> MeshView {
    let n = Otri { tri: m.next_tri(), orient: 0 };
    m.with_triangle().with_corners(n, m.dest(o), m.org(o), p).bonded(n, o)
}

/// Whether the edges of `m` are in `w` with the same corners.
pub open spec fn keeps_corners(m: MeshView, w: MeshView) -> bool {
    &&& w.tri_count >= m.tri_count
    &&& w.vertices == m.vertices
    &&& forall|o: Otri| #[trigger]
        is_edge(m, o) ==> w.org(o) == m.org(o) && w.dest(o) == m.dest(o) && w.apex(o) == m.apex(o)
}

/// Whether a triangle on the outer side of edge `o` with the apex `p` has no
/// other vertex of `set` in it.
pub open spec fn is_clear(m: MeshView, set: Set<VertexId>, o: Otri, p: VertexId) -> bool {
    let (s, t) = (m.pos(m.org(o)), m.pos(m.dest(o)));
    forall|v: VertexId| #[trigger]
        set.contains(v) && orient(t, s, m.pos(v)) >= 0 && orient(s, m.pos(p), m.pos(v)) >= 0
            && orient(m.pos(p), t, m.pos(v)) >= 0 ==> v == m.org(o) || v == m.dest(o) || v == p
}

#[verifier::spinoff_prover]
#[verifier::rlimit(100)]
proof fn lemma_attached(m: MeshView, set: Set<VertexId>, o: Otri, p: VertexId)
    requires
        is_tiled(m, set),
        m.tri_room(),
        is_edge(m, o),
        m.nbr[o].tri == 0,
        set.contains(p),
        orient(m.pos(m.org(o)), m.pos(m.dest(o)), m.pos(p)) < 0,
        is_clear(m, set, o, p),
    ensures
        ({
            let w = attached(m, o, p);
            let n = Otri { tri: m.tri_count as u32, orient: 0 };
            &&& m.next_tri() == m.tri_count
            &&& w.wf()
            &&& is_tiled(w, set)
            &&& keeps_corners(m, w)
            &&& w.tri_count == m.tri_count + 1
            &&& same_subsegs(m, w) && w.hull_size == m.hull_size
            &&& w.nbr[n] == o && w.nbr[o] == n
            &&& w.nbr[n.next()].tri == 0 && w.nbr[n.prev()].tri == 0
            &&& w.org(n.next()) == m.org(o) && w.dest(n.next()) == p
            &&& w.org(n.prev()) == p && w.dest(n.prev()) == m.dest(o)
            &&& forall|q: Otri| #[trigger] is_edge(m, q) && q != o ==> w.nbr[q] == m.nbr[q]
            &&& rim_count(w, w.tri_count) == rim_count(m, m.tri_count) + 1
        }),
{
    let w = attached(m, o, p);
    let n = Otri { tri: m.next_tri(), orient: 0 };
    lemma_turns(n);
    lemma_turns(o);
    lemma_new_triangle(m);
    let m0 = m.with_triangle();
    let (s, t) = (m.org(o), m.dest(o));
    lemma_with_corner(m0, n.next(), t);
    lemma_with_corner(m0.with_corner(n.next(), t), n.prev(), s);
    let m1 = m0.with_corner(n.next(), t).with_corner(n.prev(), s);
    lemma_with_corner(m1, n, p);
    let m2 = m1.with_corner(n, p);
    assert(m2 == m0.with_corners(n, t, s, p));
    lemma_bonded(m2, n, o);
    assert(w == m2.bonded(n, o));
    assert(w.wf());
    assert forall|q: Otri| #[trigger] is_edge(m, q) implies w.org(q) == m.org(q) && w.dest(q)
        == m.dest(q) && w.apex(q) == m.apex(q) by {
        lemma_turns(q);
    }
    assert(w.org(n) == t && w.dest(n) == s && w.apex(n) == p);
    assert(is_tile(m, set, o));
    let (ps, pt, pp) = (m.pos(s), m.pos(t), m.pos(p));
    orientation_turns(ps, pt, pp);
    orientation_turns(pt, ps, pp);
    orientation_turns(ps, pp, pt);
    assert(0u8 & 2 == 0) by (bit_vector);
    assert(!w.dead(n.tri));
    assert forall|q: Otri| #[trigger] is_edge(m, q) implies w.dead(q.tri) == m.dead(q.tri) by {}
    assert forall|q: Otri| #[trigger] is_edge(w, q) implies is_face(w, q.tri) by {
        let first = Otri { tri: q.tri, orient: 0 };
        lemma_turns(first);
        if q.tri != n.tri {
            assert(is_edge(m, first));
            assert(is_tile(m, set, first));
        } else {
            assert(first == n);
        }
    }
    assert forall|q: Otri| #[trigger] is_edge(w, q) implies is_tile(w, set, q) by {
        if q.tri == n.tri {
            lemma_three(n, q);
            assert forall|v: VertexId| #[trigger]
                set.contains(v) && covers(w, q, w.pos(v)) implies is_corner(w, q, v) by {
                assert(covers(w, n, w.pos(v)));
            }
            assert(is_edge(w, o));
        } else {
            assert(is_edge(m, q));
            assert(is_tile(m, set, q));
            if m.nbr[q].tri != 0 {
                assert(is_edge(m, m.nbr[q]));
                assert(is_edge(w, m.nbr[q]));
            }
            assert(is_edge(w, n));
            assert forall|v: VertexId| #[trigger]
                set.contains(v) && covers(w, q, w.pos(v)) implies is_corner(w, q, v) by {
                assert(covers(m, q, m.pos(v)));
            }
        }
    }
    // Three open edges more, and the two that were glued less.
    let c = m.tri_count;
    lemma_rim_total(m, c);
    lemma_rim_total(w, c + 1);
    assert forall|k: int| 0 <= k < c && k != o.tri && k != -1 implies #[trigger] rim_at(w)(k)
        == rim_at(m)(k) by {
        if k != 0 {
            let first = Otri { tri: k as u32, orient: 0 };
            lemma_turns(first);
            assert(is_edge(m, first) && is_edge(m, first.next()) && is_edge(m, first.prev()));
            assert(is_tile(m, set, first));
            assert(is_edge(w, first));
            lemma_face_of(m, set, first);
            lemma_open_sides(m, first);
            lemma_open_sides(w, first);
        }
    }
    lemma_total_changes(rim_at(m), rim_at(w), c, o.tri as int, -1);
    lemma_face_of(m, set, o);
    assert(is_edge(w, o) && is_edge(w, n));
    lemma_open_sides(m, o);
    lemma_open_sides(w, o);
    lemma_open_sides(w, n);
    assert(is_edge(m, o.next()) && is_edge(m, o.prev()));
    assert(total(rim_at(w), c + 1) == total(rim_at(w), c) + rim_at(w)(c as int));
}

pub proof fn lemma_face_of(m: MeshView, set: Set<VertexId>, o: Otri)
    requires
        is_tiled(m, set),
        is_edge(m, o),
    ensures
        is_face(m, o.tri),
{
    let first = Otri { tri: o.tri, orient: 0 };
    assert(is_edge(m, first));
    assert(is_tile(m, set, first));
    lemma_turns(first);
}

/// Two open edges between the same corners glued together.
#[verifier::spinoff_prover]
#[verifier::rlimit(60)]
proof fn lemma_joined(m: MeshView, set: Set<VertexId>, a: Otri, b: Otri)
    requires
        is_tiled(m, set),
        is_edge(m, a) && is_edge(m, b),
        a.tri != b.tri,
        m.nbr[a].tri == 0 && m.nbr[b].tri == 0,
        m.org(a) == m.dest(b) && m.dest(a) == m.org(b),
    ensures
        ({
            let w = m.bonded(a, b);
            &&& is_tiled(w, set)
            &&& keeps_corners(m, w)
            &&& w.tri_count == m.tri_count
            &&& forall|q: Otri| #[trigger] is_edge(m, q) && q != a && q != b ==> w.nbr[q] == m.nbr[q]
            &&& w.nbr[a] == b && w.nbr[b] == a
            &&& rim_count(w, w.tri_count) == rim_count(m, m.tri_count) - 2
        }),
{
    let w = m.bonded(a, b);
    lemma_bonded(m, a, b);
    lemma_turns(a);
    lemma_turns(b);
    assert forall|q: Otri| #[trigger] is_edge(w, q) implies is_face(w, q.tri) by {
        lemma_face_of(m, set, q);
    }
    assert forall|q: Otri| #[trigger] is_edge(w, q) implies is_tile(w, set, q) by {
        assert(is_edge(m, q));
        assert(is_tile(m, set, q));
        if m.nbr[q].tri != 0 {
            assert(is_edge(m, m.nbr[q]));
            assert(is_edge(w, m.nbr[q]));
        }
        assert(is_edge(w, a) && is_edge(w, b));
        assert forall|v: VertexId| #[trigger]
            set.contains(v) && covers(w, q, w.pos(v)) implies is_corner(w, q, v) by {
            assert(covers(m, q, m.pos(v)));
        }
    }
    let c = m.tri_count;
    lemma_rim_total(m, c);
    lemma_rim_total(w, c);
    assert forall|k: int| 0 <= k < c && k != a.tri && k != b.tri implies #[trigger] rim_at(w)(k)
        == rim_at(m)(k) by {
        if k != 0 {
            let first = Otri { tri: k as u32, orient: 0 };
            lemma_turns(first);
            assert(is_edge(m, first) && is_edge(m, first.next()) && is_edge(m, first.prev()));
            lemma_face_of(m, set, first);
            lemma_open_sides(m, first);
            lemma_open_sides(w, first);
        }
    }
    lemma_total_changes(rim_at(m), rim_at(w), c, a.tri as int, b.tri as int);
    lemma_face_of(m, set, a);
    lemma_face_of(m, set, b);
    assert(is_edge(w, a) && is_edge(w, b));
    lemma_open_sides(m, a);
    lemma_open_sides(w, a);
    lemma_open_sides(m, b);
    lemma_open_sides(w, b);
}

// --- Hulls ------------------------------------------------------------------

/// The place after `i` on a ring of `n`.
pub open spec fn after(i: int, n: int) -> int {
    if i + 1 == n {
        0
    } else {
        i + 1
    }
}

/// The place before `i` on a ring of `n`.
pub open spec fn before(i: int, n: int) -> int {
    if i == 0 {
        n - 1
    } else {
        i - 1
    }
}

/// Whether an edge of a ring is open and leads to the start of the next.
pub open spec fn is_rim_edge(m: MeshView, rim: Seq<Otri>, i: int) -> bool {
    &&& is_edge(m, rim[i])
    &&& m.nbr[rim[i]].tri == 0
    &&& m.dest(rim[i]) == m.org(rim[after(i, rim.len() as int)])
}

/// Whether two edges of a ring start at different vertices.
pub open spec fn differ(m: MeshView, rim: Seq<Otri>, i: int, j: int) -> bool {
    m.org(rim[i]) != m.org(rim[j])
}

/// Whether a ring of edges is the rim of a mesh: the open edges, each leading
/// to the next, no corner met twice.
pub open spec fn is_rim(m: MeshView, rim: Seq<Otri>) -> bool {
    &&& rim.len() >= 3
    &&& forall|i: int| 0 <= i < rim.len() ==> #[trigger] is_rim_edge(m, rim, i)
    &&& forall|i: int, j: int| 0 <= i < j < rim.len() ==> #[trigger] differ(m, rim, i, j)
    &&& forall|o: Otri| #[trigger] is_edge(m, o) && m.nbr[o].tri == 0 ==> rim.contains(o)
}

/// Whether a mesh is a triangulation of `set` whose hull is `rim`.
pub open spec fn is_standing(m: MeshView, set: Set<VertexId>, rim: Seq<Otri>) -> bool {
    is_tiled(m, set) && is_convex(m, set) && is_rim(m, rim)
}

/// Whether `p` is beyond an edge.
pub open spec fn sees(m: MeshView, p: VertexId, o: Otri) -> bool {
    orient(m.pos(m.org(o)), m.pos(m.dest(o)), m.pos(p)) < 0
}

/// Whether a vertex is a corner of a ring.
pub open spec fn on_rim(m: MeshView, rim: Seq<Otri>, v: VertexId) -> bool {
    exists|i: int| 0 <= i < rim.len() && m.org(#[trigger] rim[i]) == v
}

/// Whether all of `set` but `q` lie behind `q`.
pub open spec fn is_tip(m: MeshView, set: Set<VertexId>, q: VertexId, forward: bool) -> bool {
    &&& set.contains(q)
    &&& forall|v: VertexId| #[trigger]
        set.contains(v) && v != q ==> goes_on(m.pos(v), m.pos(q), forward)
}

/// Whether all of `set` lies behind `p`.
pub open spec fn is_past(m: MeshView, set: Set<VertexId>, p: VertexId, forward: bool) -> bool {
    &&& m.has_vertex(p)
    &&& forall|v: VertexId| #[trigger] set.contains(v) ==> goes_on(m.pos(v), m.pos(p), forward)
}

/// What is known of two neighbors on the rim.
proof fn lemma_rim_corner(m: MeshView, set: Set<VertexId>, rim: Seq<Otri>, i: int)
    requires
        is_standing(m, set, rim),
        0 <= i < rim.len(),
    ensures
        ({
            let (a, b) = (rim[before(i, rim.len() as int)], rim[i]);
            let (prev, u, next) = (m.org(a), m.org(b), m.dest(b));
            &&& is_edge(m, a) && is_edge(m, b)
            &&& m.dest(a) == u
            &&& set.contains(prev) && set.contains(u) && set.contains(next)
            &&& set.contains(m.apex(a)) && set.contains(m.apex(b))
            &&& prev != u && u != next
            &&& bounds_all(m, set, a) && bounds_all(m, set, b)
            &&& orient(m.pos(prev), m.pos(u), m.pos(m.apex(a))) > 0
            &&& orient(m.pos(u), m.pos(next), m.pos(m.apex(b))) > 0
        }),
{
    let n = rim.len() as int;
    let j = before(i, n);
    assert(is_rim_edge(m, rim, i) && is_rim_edge(m, rim, j));
    assert(after(j, n) == i);
    assert(is_tile(m, set, rim[i]) && is_tile(m, set, rim[j]));
    let (a, b) = (rim[j], rim[i]);
    areas_turn(m.pos(m.org(a)), m.pos(m.org(a)), m.pos(m.apex(a)));
    areas_turn(m.pos(m.org(b)), m.pos(m.org(b)), m.pos(m.apex(b)));
}

/// The tip of a hull is a proper corner.
proof fn lemma_tip_proper(m: MeshView, set: Set<VertexId>, rim: Seq<Otri>, i: int, forward: bool)
    requires
        is_standing(m, set, rim),
        0 <= i < rim.len(),
        is_tip(m, set, m.org(rim[i]), forward),
    ensures
        ({
            let prev = m.org(rim[before(i, rim.len() as int)]);
            orient(m.pos(prev), m.pos(m.org(rim[i])), m.pos(m.dest(rim[i]))) > 0
        }),
{
    lemma_rim_corner(m, set, rim, i);
    let (a, b) = (rim[before(i, rim.len() as int)], rim[i]);
    lemma_tip_turns(
        m.pos(m.org(a)),
        m.pos(m.org(b)),
        m.pos(m.dest(b)),
        m.pos(m.apex(a)),
        forward,
    );
}

/// From past the tip, one of the edges there is seen.
proof fn lemma_some_seen(
    m: MeshView,
    set: Set<VertexId>,
    rim: Seq<Otri>,
    p: VertexId,
    q: VertexId,
    forward: bool,
) -> (i: int)
    requires
        is_standing(m, set, rim),
        on_rim(m, rim, q),
        is_tip(m, set, q, forward),
        is_past(m, set, p, forward),
    ensures
        0 <= i < rim.len(),
        sees(m, p, rim[i]),
{
    let n = rim.len() as int;
    let i = choose|i: int| 0 <= i < rim.len() && m.org(#[trigger] rim[i]) == q;
    lemma_rim_corner(m, set, rim, i);
    lemma_tip_proper(m, set, rim, i, forward);
    let (a, b) = (rim[before(i, n)], rim[i]);
    lemma_tip_seen(m.pos(m.org(a)), m.pos(q), m.pos(m.dest(b)), m.pos(p), forward);
    if sees(m, p, b) {
        i
    } else {
        before(i, n)
    }
}

/// A corner of the ring such that none of the first `n` is before it, seen
/// round `p`.
proof fn lemma_first_round(
    m: MeshView,
    set: Set<VertexId>,
    rim: Seq<Otri>,
    p: VertexId,
    forward: bool,
    n: int,
) -> (j: int)
    requires
        is_standing(m, set, rim),
        is_past(m, set, p, forward),
        1 <= n <= rim.len(),
    ensures
        0 <= j < n,
        forall|k: int|
            0 <= k < n ==> orient(m.pos(m.org(rim[j])), m.pos(m.org(#[trigger] rim[k])), m.pos(p))
                >= 0,
    decreases n,
{
    let pp = m.pos(p);
    if n == 1 {
        areas_turn(m.pos(m.org(rim[0])), m.pos(m.org(rim[0])), pp);
        0
    } else {
        let j = lemma_first_round(m, set, rim, p, forward, n - 1);
        let (a, b) = (m.pos(m.org(rim[j])), m.pos(m.org(rim[n - 1])));
        if orient(a, b, pp) >= 0 {
            j
        } else {
            areas_turn(a, b, pp);
            areas_turn(b, b, pp);
            assert forall|k: int| 0 <= k < n implies orient(b, m.pos(m.org(#[trigger] rim[k])), pp)
                >= 0 by {
                if k < n - 1 {
                    lemma_rim_corner(m, set, rim, k);
                    lemma_rim_corner(m, set, rim, j);
                    lemma_rim_corner(m, set, rim, n - 1);
                    lemma_round_order(b, a, m.pos(m.org(rim[k])), pp, forward);
                }
            }
            n - 1
        }
    }
}

/// Not all edges of the rim are seen.
proof fn lemma_some_unseen(
    m: MeshView,
    set: Set<VertexId>,
    rim: Seq<Otri>,
    p: VertexId,
    forward: bool,
) -> (j: int)
    requires
        is_standing(m, set, rim),
        is_past(m, set, p, forward),
    ensures
        0 <= j < rim.len(),
        !sees(m, p, rim[j]),
{
    let n = rim.len() as int;
    let j = lemma_first_round(m, set, rim, p, forward, n);
    assert(is_rim_edge(m, rim, j));
    assert(m.dest(rim[j]) == m.org(rim[after(j, n)]));
    j
}

/// Whether `p` sees the edge at `i` but not the one before.
spec fn starts(m: MeshView, rim: Seq<Otri>, p: VertexId, i: int) -> bool {
    &&& 0 <= i < rim.len()
    &&& sees(m, p, rim[i])
    &&& !sees(m, p, rim[before(i, rim.len() as int)])
}

/// Where the seen edges start nowhere, all are seen.
proof fn lemma_all_seen(m: MeshView, rim: Seq<Otri>, p: VertexId, i: int, j: int)
    requires
        0 <= i < rim.len(),
        0 <= j < rim.len(),
        sees(m, p, rim[i]),
        forall|k: int| 0 <= k < rim.len() ==> !#[trigger] starts(m, rim, p, k),
    ensures
        sees(m, p, rim[j]),
    decreases
            if j <= i {
                i - j
            } else {
                i + rim.len() - j
            },
{
    if i != j {
        assert(!starts(m, rim, p, i));
        lemma_all_seen(m, rim, p, before(i, rim.len() as int), j);
    }
}

/// All of the set is on the left of the way from where the seen edges start.
proof fn lemma_start_tangent(
    m: MeshView,
    set: Set<VertexId>,
    rim: Seq<Otri>,
    p: VertexId,
    i: int,
    x: VertexId,
)
    requires
        is_standing(m, set, rim),
        starts(m, rim, p, i),
        set.contains(x),
    ensures
        orient(m.pos(m.org(rim[i])), m.pos(p), m.pos(x)) >= 0,
{
    lemma_rim_corner(m, set, rim, i);
    let (a, b) = (rim[before(i, rim.len() as int)], rim[i]);
    lemma_first_tangent(
        m.pos(m.org(a)),
        m.pos(m.org(b)),
        m.pos(m.dest(b)),
        m.pos(m.apex(a)),
        m.pos(p),
        m.pos(x),
    );
}

/// All of the set is on the left of the way to where the seen edges end.
proof fn lemma_end_tangent(
    m: MeshView,
    set: Set<VertexId>,
    rim: Seq<Otri>,
    p: VertexId,
    i: int,
    x: VertexId,
)
    requires
        is_standing(m, set, rim),
        0 <= i < rim.len(),
        !sees(m, p, rim[i]),
        sees(m, p, rim[before(i, rim.len() as int)]),
        set.contains(x),
    ensures
        orient(m.pos(p), m.pos(m.org(rim[i])), m.pos(x)) >= 0,
{
    lemma_rim_corner(m, set, rim, i);
    let (a, b) = (rim[before(i, rim.len() as int)], rim[i]);
    lemma_last_tangent(
        m.pos(m.org(a)),
        m.pos(m.org(b)),
        m.pos(m.dest(b)),
        m.pos(m.apex(b)),
        m.pos(p),
        m.pos(x),
    );
}

/// The seen edges start at one place only.
proof fn lemma_starts_once(
    m: MeshView,
    set: Set<VertexId>,
    rim: Seq<Otri>,
    p: VertexId,
    forward: bool,
    i: int,
    j: int,
)
    requires
        is_standing(m, set, rim),
        is_past(m, set, p, forward),
        starts(m, rim, p, i),
        starts(m, rim, p, j),
    ensures
        i == j,
{
    lemma_rim_corner(m, set, rim, i);
    lemma_rim_corner(m, set, rim, j);
    let (u, w) = (m.org(rim[i]), m.org(rim[j]));
    lemma_start_tangent(m, set, rim, p, i, w);
    lemma_start_tangent(m, set, rim, p, j, u);
    lemma_one_start(
        m.pos(u),
        m.pos(m.dest(rim[i])),
        m.pos(w),
        m.pos(m.dest(rim[j])),
        m.pos(p),
        forward,
    );
    assert(u == w);
    if i < j {
        assert(differ(m, rim, i, j));
    } else if j < i {
        assert(differ(m, rim, j, i));
    }
}

/// Between an edge that is not seen and a later one that is, they start.
proof fn lemma_start_between(m: MeshView, rim: Seq<Otri>, p: VertexId, i: int, j: int) -> (k: int)
    requires
        0 <= i < j < rim.len(),
        !sees(m, p, rim[i]),
        sees(m, p, rim[j]),
    ensures
        i < k <= j,
        starts(m, rim, p, k),
    decreases j - i,
{
    if sees(m, p, rim[i + 1]) {
        i + 1
    } else {
        lemma_start_between(m, rim, p, i + 1, j)
    }
}

/// A ring taken from place `i` on.
pub open spec fn turned(rim: Seq<Otri>, i: int) -> Seq<Otri> {
    Seq::new(
        rim.len(),
        |k: int|
            if i + k < rim.len() {
                rim[i + k]
            } else {
                rim[i + k - rim.len()]
            },
    )
}

proof fn lemma_turned(m: MeshView, rim: Seq<Otri>, i: int)
    requires
        is_rim(m, rim),
        0 <= i < rim.len(),
    ensures
        is_rim(m, turned(rim, i)),
        forall|v: VertexId| #[trigger] on_rim(m, rim, v) ==> on_rim(m, turned(rim, i), v),
{
    let n = rim.len() as int;
    let t = turned(rim, i);
    assert forall|k: int| 0 <= k < n implies #[trigger] is_rim_edge(m, t, k) by {
        let j = if i + k < n {
            i + k
        } else {
            i + k - n
        };
        assert(is_rim_edge(m, rim, j));
        assert(t[k] == rim[j]);
        assert(t[after(k, n)] == rim[after(j, n)]);
    }
    assert forall|a: int, b: int| 0 <= a < b < n implies #[trigger] differ(m, t, a, b) by {
        let x = if i + a < n {
            i + a
        } else {
            i + a - n
        };
        let y = if i + b < n {
            i + b
        } else {
            i + b - n
        };
        assert(t[a] == rim[x] && t[b] == rim[y]);
        if x < y {
            assert(differ(m, rim, x, y));
        } else {
            assert(differ(m, rim, y, x));
        }
    }
    assert forall|o: Otri| #[trigger] is_edge(m, o) && m.nbr[o].tri == 0 implies t.contains(o) by {
        assert(rim.contains(o));
        let j = choose|j: int| 0 <= j < rim.len() && rim[j] == o;
        let k = if j >= i {
            j - i
        } else {
            j - i + n
        };
        assert(t[k] == o);
    }
    assert forall|v: VertexId| #[trigger] on_rim(m, rim, v) implies on_rim(m, t, v) by {
        let j = choose|j: int| 0 <= j < rim.len() && m.org(#[trigger] rim[j]) == v;
        let k = if j >= i {
            j - i
        } else {
            j - i + n
        };
        assert(t[k] == rim[j]);
    }
}

// --- Joining a vertex -------------------------------------------------------

/// A vertex beyond an edge of the hull is in no triangle.
proof fn lemma_outside_all(
    m: MeshView,
    set: Set<VertexId>,
    rim: Seq<Otri>,
    p: VertexId,
    forward: bool,
    i: int,
)
    requires
        is_standing(m, set, rim),
        is_past(m, set, p, forward),
        0 <= i < rim.len(),
        sees(m, p, rim[i]),
    ensures
        !set.contains(p),
        is_tiled(m, set.insert(p)),
        forall|j: int|
            0 <= j < rim.len() && sees(m, p, #[trigger] rim[j]) ==> is_clear(
                m,
                set.insert(p),
                rim[j],
                p,
            ),
{
    let more = set.insert(p);
    lemma_rim_corner(m, set, rim, i);
    let (s, t) = (m.pos(m.org(rim[i])), m.pos(m.dest(rim[i])));
    assert forall|o: Otri| #[trigger] is_edge(m, o) implies is_tile(m, more, o) by {
        assert(is_tile(m, set, o));
        let (a, b, c) = (m.pos(m.org(o)), m.pos(m.dest(o)), m.pos(m.apex(o)));
        lemma_outside(s, t, a, b, c, m.pos(p));
        assert forall|v: VertexId| #[trigger]
            more.contains(v) && covers(m, o, m.pos(v)) implies is_corner(m, o, v) by {
            if v != p {
                assert(set.contains(v));
            }
        }
    }
    assert forall|v: VertexId, w: VertexId| #[trigger]
        more.contains(v) && #[trigger] more.contains(w) && same_place(m.pos(v), m.pos(w)) implies v
        == w by {
        if v != p {
            assert(set.contains(v));
        }
        if w != p {
            assert(set.contains(w));
        }
    }
    assert forall|j: int| 0 <= j < rim.len() && sees(m, p, #[trigger] rim[j]) implies is_clear(
        m,
        more,
        rim[j],
        p,
    ) by {
        lemma_rim_corner(m, set, rim, j);
        let o = rim[j];
        assert(is_tile(m, set, o));
        let (a, b, z) = (m.pos(m.org(o)), m.pos(m.dest(o)), m.pos(m.apex(o)));
        assert forall|v: VertexId| #[trigger]
            more.contains(v) && orient(b, a, m.pos(v)) >= 0 && orient(a, m.pos(p), m.pos(v)) >= 0
                && orient(m.pos(p), b, m.pos(v)) >= 0 implies v == m.org(o) || v == m.dest(o) || v
            == p by {
            if v != p {
                assert(set.contains(v));
                lemma_on_the_edge(a, b, z, m.pos(p), m.pos(v));
                assert(covers(m, o, m.pos(v)));
            }
        }
    }
}

/// Where joining `p` to the first `k` edges of `rim` stands: `first` leads to
/// `p` from where they start, `last` from `p` to where the last one ends.
#[verifier::opaque]
spec fn is_joining(
    m0: MeshView,
    m: MeshView,
    set: Set<VertexId>,
    rim: Seq<Otri>,
    p: VertexId,
    k: int,
    first: Otri,
    last: Otri,
) -> bool {
    &&& is_tiled(m, set)
    &&& keeps_corners(m0, m)
    &&& m.tri_count == m0.tri_count + k
    &&& same_subsegs(m0, m) && m.hull_size == m0.hull_size
    &&& 1 <= k <= rim.len()
    &&& is_edge(m, first) && m.nbr[first].tri == 0
    &&& m.org(first) == m0.org(rim[0]) && m.dest(first) == p
    &&& is_edge(m, last) && m.nbr[last].tri == 0
    &&& m.org(last) == p && m.dest(last) == m0.dest(rim[k - 1])
    &&& forall|i: int| k <= i < rim.len() ==> m.nbr[#[trigger] rim[i]].tri == 0
    &&& forall|o: Otri| #[trigger]
        is_edge(m, o) && m.nbr[o].tri == 0 ==> o == first || o == last || (exists|i: int|
            k <= i < rim.len() && #[trigger] rim[i] == o)
    &&& rim_count(m, m.tri_count) == rim_count(m0, m0.tri_count) + 2 - k
}

proof fn lemma_keeps_going(a: MeshView, b: MeshView, c: MeshView)
    requires
        keeps_corners(a, b),
        keeps_corners(b, c),
    ensures
        keeps_corners(a, c),
{
    assert forall|o: Otri| #[trigger] is_edge(a, o) implies c.org(o) == a.org(o) && c.dest(o)
        == a.dest(o) && c.apex(o) == a.apex(o) by {
        assert(is_edge(b, o));
    }
}

fn attach(mesh: &mut CdtMesh, o: Otri, p: VertexId) -> (n: Otri)
    requires
        old(mesh)@.wf(),
        old(mesh)@.tri_room(),
        old(mesh)@.has(o),
        old(mesh)@.free_tris.len() == 0,
    ensures
        final(mesh)@ == attached(old(mesh)@, o, p),
        n == (Otri { tri: old(mesh)@.next_tri(), orient: 0 }),
        final(mesh)@.wf(),
{
    let (a, b) = (mesh.org(o), mesh.dest(o));
    proof {
        lemma_new_triangle(mesh@);
    }
    let n = mesh.make_triangle();
    mesh.set_corners(n, b, a, p);
    mesh.bond(n, o);
    n
}

fn does_see(mesh: &CdtMesh, Ghost(set): Ghost<Set<VertexId>>, p: VertexId, o: Otri) -> (r: bool)
    requires
        is_tiled(mesh@, set),
        is_edge(mesh@, o),
        mesh@.has_vertex(p),
    ensures
        r == sees(mesh@, p, o),
{
    proof {
        assert(is_tile(mesh@, set, o));
    }
    orient2d(
        mesh.vertex_pos(mesh.org(o)),
        mesh.vertex_pos(mesh.dest(o)),
        mesh.vertex_pos(p),
    ) < 0
}

/// Where the edges that `p` sees start.
fn find_start(
    mesh: &CdtMesh,
    rim: &Vec<Otri>,
    p: VertexId,
    Ghost(set): Ghost<Set<VertexId>>,
    Ghost(q): Ghost<VertexId>,
    Ghost(forward): Ghost<bool>,
) -> (i: usize)
    requires
        is_standing(mesh@, set, rim@),
        on_rim(mesh@, rim@, q),
        is_tip(mesh@, set, q, forward),
        is_past(mesh@, set, p, forward),
    ensures
        starts(mesh@, rim@, p, i as int),
{
    let n: usize = rim.len();
    let mut i: usize = 0;
    let last = rim[n - 1];
    proof {
        assert(is_rim_edge(mesh@, rim@, n - 1));
    }
    let mut seen_before: bool = does_see(mesh, Ghost(set), p, last);
    while i < n
        invariant
            n == rim@.len(),
            i <= n,
            is_standing(mesh@, set, rim@),
            is_past(mesh@, set, p, forward),
            i < n ==> seen_before == sees(mesh@, p, rim@[before(i as int, n as int)]),
            forall|k: int| 0 <= k < i ==> !#[trigger] starts(mesh@, rim@, p, k),
        decreases n - i,
    {
        proof {
            assert(is_rim_edge(mesh@, rim@, i as int));
        }
        let seen: bool = does_see(mesh, Ghost(set), p, rim[i]);
        if seen && !seen_before {
            return i;
        }
        seen_before = seen;
        i += 1;
    }
    proof {
        let a = lemma_some_seen(mesh@, set, rim@, p, q, forward);
        let b = lemma_some_unseen(mesh@, set, rim@, p, forward);
        lemma_all_seen(mesh@, rim@, p, a, b);
        assert(false);
    }
    0
}

fn turn_ring(rim: &Vec<Otri>, i: usize) -> (r: Vec<Otri>)
    requires
        i < rim@.len(),
    ensures
        r@ == turned(rim@, i as int),
{
    let n: usize = rim.len();
    let mut r: Vec<Otri> = Vec::new();
    let mut k: usize = 0;
    while k < n
        invariant
            n == rim@.len(),
            i < n,
            k <= n,
            r@.len() == k,
            forall|j: int| 0 <= j < k ==> #[trigger] r@[j] == turned(rim@, i as int)[j],
        decreases n - k,
    {
        if k < n - i {
            r.push(rim[i + k]);
        } else {
            r.push(rim[k - (n - i)]);
        }
        k += 1;
    }
    assert(r@ =~= turned(rim@, i as int));
    r
}

proof fn lemma_rest_unseen(
    m: MeshView,
    set: Set<VertexId>,
    rim: Seq<Otri>,
    p: VertexId,
    forward: bool,
    k: int,
)
    requires
        is_standing(m, set, rim),
        is_past(m, set, p, forward),
        starts(m, rim, p, 0),
        0 <= k < rim.len(),
        !sees(m, p, rim[k]),
    ensures
        forall|j: int| k <= j < rim.len() ==> !sees(m, p, #[trigger] rim[j]),
{
    assert forall|j: int| k <= j < rim.len() implies !sees(m, p, #[trigger] rim[j]) by {
        if sees(m, p, rim[j]) {
            let s = lemma_start_between(m, rim, p, k, j);
            lemma_starts_once(m, set, rim, p, forward, 0, s);
        }
    }
}

#[verifier::spinoff_prover]
#[verifier::rlimit(60)]
proof fn lemma_first_joined(
    m0: MeshView,
    set: Set<VertexId>,
    more: Set<VertexId>,
    rim: Seq<Otri>,
    p: VertexId,
)
    requires
        is_standing(m0, set, rim),
        more == set.insert(p),
        !set.contains(p),
        is_tiled(m0, more),
        m0.tri_room(),
        sees(m0, p, rim[0]),
        is_clear(m0, more, rim[0], p),
    ensures
        ({
            let w = attached(m0, rim[0], p);
            let n = Otri { tri: m0.next_tri(), orient: 0 };
            is_joining(m0, w, more, rim, p, 1, n.next(), n.prev())
        }),
{
    reveal(is_joining);
    let w = attached(m0, rim[0], p);
    let n = Otri { tri: m0.next_tri(), orient: 0 };
    assert(is_rim_edge(m0, rim, 0));
    lemma_attached(m0, more, rim[0], p);
    lemma_turns(n);
    assert forall|i: int| 1 <= i < rim.len() implies w.nbr[#[trigger] rim[i]].tri == 0 by {
        assert(is_rim_edge(m0, rim, i));
        assert(differ(m0, rim, 0, i));
    }
    assert forall|o: Otri| #[trigger] is_edge(w, o) && w.nbr[o].tri == 0 implies o == n.next() || o
        == n.prev() || (exists|i: int| 1 <= i < rim.len() && #[trigger] rim[i] == o) by {
        if o.tri == n.tri {
            lemma_three(n, o);
        } else {
            assert(is_edge(m0, o));
            assert(rim.contains(o));
            let j = choose|j: int| 0 <= j < rim.len() && rim[j] == o;
            assert(j != 0);
            assert(rim[j] == o);
        }
    }
}

#[verifier::spinoff_prover]
#[verifier::rlimit(100)]
proof fn lemma_next_joined(
    m0: MeshView,
    m: MeshView,
    set: Set<VertexId>,
    more: Set<VertexId>,
    rim: Seq<Otri>,
    p: VertexId,
    k: int,
    first: Otri,
    last: Otri,
)
    requires
        is_standing(m0, set, rim),
        more == set.insert(p),
        !set.contains(p),
        is_joining(m0, m, more, rim, p, k, first, last),
        k < rim.len(),
        m.tri_room(),
        sees(m0, p, rim[k]),
        is_clear(m0, more, rim[k], p),
    ensures
        ({
            let n = Otri { tri: m.next_tri(), orient: 0 };
            let w = attached(m, rim[k], p).bonded(last, n.next());
            is_joining(m0, w, more, rim, p, k + 1, first, n.prev())
        }),
{
    reveal(is_joining);
    let n = Otri { tri: m.next_tri(), orient: 0 };
    let w1 = attached(m, rim[k], p);
    let w = w1.bonded(last, n.next());
    let o = rim[k];
    assert(is_rim_edge(m0, rim, k) && is_rim_edge(m0, rim, k - 1) && is_rim_edge(m0, rim, 0));
    assert(is_edge(m, o));
    assert(m.org(o) == m0.org(o) && m.dest(o) == m0.dest(o));
    assert(is_clear(m, more, o, p));
    lemma_attached(m, more, o, p);
    lemma_turns(n);
    assert(is_tile(m0, set, o));
    assert(last != o) by {
        assert(m0.org(o) != p);
    }
    assert(is_edge(w1, last) && is_edge(w1, n.next()));
    assert(w1.nbr[last] == m.nbr[last]);
    lemma_joined(w1, more, last, n.next());
    lemma_keeps_going(m0, m, w1);
    lemma_keeps_going(m0, w1, w);
    assert(is_tile(m0, set, rim[0]));
    assert(first != last) by {
        assert(m0.org(rim[0]) != p);
    }
    assert(first != o) by {
        if k > 0 {
            assert(differ(m0, rim, 0, k));
        }
    }
    assert(is_edge(m, first));
    assert(is_edge(w1, first) && is_edge(w, first) && is_edge(w, n.prev()));
    assert(w1.nbr[first] == m.nbr[first] && w.nbr[first] == w1.nbr[first]);
    assert(w.nbr[n.prev()] == w1.nbr[n.prev()]);
    assert forall|i: int| k + 1 <= i < rim.len() implies w.nbr[#[trigger] rim[i]].tri == 0 by {
        assert(is_rim_edge(m0, rim, i));
        assert(is_tile(m0, set, rim[i]));
        assert(differ(m0, rim, k, i));
        assert(is_edge(m, rim[i]) && is_edge(w1, rim[i]));
        assert(m.nbr[rim[i]].tri == 0);
        assert(rim[i] != last);
        assert(rim[i] != n.next());
    }
    assert forall|q: Otri| #[trigger] is_edge(w, q) && w.nbr[q].tri == 0 implies q == first || q
        == n.prev() || (exists|i: int| k + 1 <= i < rim.len() && #[trigger] rim[i] == q) by {
        assert(is_edge(w1, q));
        if q.tri == n.tri {
            lemma_three(n, q);
        } else {
            assert(is_edge(m, q));
            assert(q != last && q != o);
            assert(m.nbr[q].tri == 0);
            if q != first {
                let j = choose|j: int| k <= j < rim.len() && #[trigger] rim[j] == q;
                assert(rim[j] == q);
                assert(j != k);
            }
        }
    }
}

/// The ring once `p` is joined to its first `k` edges.
spec fn joined_rim(rim: Seq<Otri>, k: int, first: Otri, last: Otri) -> Seq<Otri> {
    seq![first, last] + rim.skip(k)
}

/// An edge of the rim that is still to be joined is as it was.
proof fn lemma_joining_edge(
    m0: MeshView,
    m: MeshView,
    set: Set<VertexId>,
    more: Set<VertexId>,
    rim: Seq<Otri>,
    p: VertexId,
    k: int,
    first: Otri,
    last: Otri,
    j: int,
)
    requires
        is_standing(m0, set, rim),
        is_joining(m0, m, more, rim, p, k, first, last),
        0 <= j < rim.len(),
    ensures
        is_edge(m0, rim[j]) && is_edge(m, rim[j]),
        m.org(rim[j]) == m0.org(rim[j]) && m.dest(rim[j]) == m0.dest(rim[j]),
        m0.dest(rim[j]) == m0.org(rim[after(j, rim.len() as int)]),
        set.contains(m0.org(rim[j])),
        j >= k ==> m.nbr[rim[j]].tri == 0,
{
    reveal(is_joining);
    assert(is_rim_edge(m0, rim, j));
    assert(is_edge(m0, rim[j]));
    assert(is_tile(m0, set, rim[j]));
}

/// The ends of what is joined.
proof fn lemma_joining_ends(
    m0: MeshView,
    m: MeshView,
    more: Set<VertexId>,
    rim: Seq<Otri>,
    p: VertexId,
    k: int,
    first: Otri,
    last: Otri,
)
    requires
        is_joining(m0, m, more, rim, p, k, first, last),
    ensures
        is_edge(m, first) && m.nbr[first].tri == 0,
        m.org(first) == m0.org(rim[0]) && m.dest(first) == p,
        is_edge(m, last) && m.nbr[last].tri == 0,
        m.org(last) == p && m.dest(last) == m0.dest(rim[k - 1]),
        1 <= k <= rim.len(),
{
    reveal(is_joining);
}

/// What is open while `p` is joined.
proof fn lemma_joining_open(
    m0: MeshView,
    m: MeshView,
    more: Set<VertexId>,
    rim: Seq<Otri>,
    p: VertexId,
    k: int,
    first: Otri,
    last: Otri,
    o: Otri,
) -> (j: int)
    requires
        is_joining(m0, m, more, rim, p, k, first, last),
        is_edge(m, o),
        m.nbr[o].tri == 0,
        o != first,
        o != last,
    ensures
        k <= j < rim.len(),
        rim[j] == o,
{
    reveal(is_joining);
    choose|j: int| k <= j < rim.len() && #[trigger] rim[j] == o
}

#[verifier::spinoff_prover]
#[verifier::rlimit(100)]
proof fn lemma_rim_joined(
    m0: MeshView,
    m: MeshView,
    set: Set<VertexId>,
    more: Set<VertexId>,
    rim: Seq<Otri>,
    p: VertexId,
    forward: bool,
    k: int,
    first: Otri,
    last: Otri,
)
    requires
        is_standing(m0, set, rim),
        is_past(m0, set, p, forward),
        more == set.insert(p),
        !set.contains(p),
        is_joining(m0, m, more, rim, p, k, first, last),
        k < rim.len(),
        starts(m0, rim, p, 0),
        forall|i: int| 0 <= i < k ==> sees(m0, p, #[trigger] rim[i]),
        forall|i: int| k <= i < rim.len() ==> !sees(m0, p, #[trigger] rim[i]),
    ensures
        is_rim(m, joined_rim(rim, k, first, last)),
        on_rim(m, joined_rim(rim, k, first, last), p),
{
    let ring = joined_rim(rim, k, first, last);
    let n = ring.len() as int;
    let h = rim.len() as int;
    lemma_joining_ends(m0, m, more, rim, p, k, first, last);
    assert(n == h - k + 2);
    assert(ring[0] == first && ring[1] == last);
    assert forall|i: int| 0 <= i < n implies #[trigger] is_rim_edge(m, ring, i) by {
        if i == 1 {
            assert(ring[2] == rim[k]);
            lemma_joining_edge(m0, m, set, more, rim, p, k, first, last, k);
            lemma_joining_edge(m0, m, set, more, rim, p, k, first, last, k - 1);
        } else if i >= 2 {
            let j = i - 2 + k;
            assert(ring[i] == rim[j]);
            lemma_joining_edge(m0, m, set, more, rim, p, k, first, last, j);
            if i + 1 < n {
                assert(ring[i + 1] == rim[j + 1]);
                lemma_joining_edge(m0, m, set, more, rim, p, k, first, last, j + 1);
            }
        }
    }
    assert forall|i: int, j: int| 0 <= i < j < n implies #[trigger] differ(m, ring, i, j) by {
        let a = if i < 2 {
            0
        } else {
            i - 2 + k
        };
        let b = j - 2 + k;
        lemma_joining_edge(m0, m, set, more, rim, p, k, first, last, 0);
        if j >= 2 {
            assert(ring[j] == rim[b]);
            lemma_joining_edge(m0, m, set, more, rim, p, k, first, last, b);
            if i != 1 {
                if i >= 2 {
                    assert(ring[i] == rim[a]);
                }
                lemma_joining_edge(m0, m, set, more, rim, p, k, first, last, a);
                assert(differ(m0, rim, a, b));
            }
        }
    }
    assert forall|o: Otri| #[trigger] is_edge(m, o) && m.nbr[o].tri == 0 implies ring.contains(o) by {
        if o == first {
            assert(ring[0] == o);
        } else if o == last {
            assert(ring[1] == o);
        } else {
            let j = lemma_joining_open(m0, m, more, rim, p, k, first, last, o);
            assert(ring[j - k + 2] == o);
        }
    }
    assert(m.org(ring[1]) == p);
}

#[verifier::spinoff_prover]
#[verifier::rlimit(100)]
proof fn lemma_convex_joined(
    m0: MeshView,
    m: MeshView,
    set: Set<VertexId>,
    more: Set<VertexId>,
    rim: Seq<Otri>,
    p: VertexId,
    forward: bool,
    k: int,
    first: Otri,
    last: Otri,
)
    requires
        is_standing(m0, set, rim),
        is_past(m0, set, p, forward),
        more == set.insert(p),
        !set.contains(p),
        is_joining(m0, m, more, rim, p, k, first, last),
        k < rim.len(),
        starts(m0, rim, p, 0),
        forall|i: int| 0 <= i < k ==> sees(m0, p, #[trigger] rim[i]),
        forall|i: int| k <= i < rim.len() ==> !sees(m0, p, #[trigger] rim[i]),
    ensures
        is_convex(m, more),
{
    reveal(is_joining);
    let h = rim.len() as int;
    assert(is_rim_edge(m0, rim, 0) && is_rim_edge(m0, rim, k - 1) && is_rim_edge(m0, rim, k));
    // All stay on the left.
    let pp = m0.pos(p);
    assert forall|o: Otri| #[trigger] is_edge(m, o) && m.nbr[o].tri == 0 implies bounds_all(
        m,
        more,
        o,
    ) by {
        assert forall|v: VertexId| #[trigger] more.contains(v) implies orient(
            m.pos(m.org(o)),
            m.pos(m.dest(o)),
            m.pos(v),
        ) >= 0 by {
            if v != p {
                assert(set.contains(v));
            }
            if o == first {
                if v != p {
                    lemma_start_tangent(m0, set, rim, p, 0, v);
                } else {
                    areas_turn(m0.pos(m0.org(rim[0])), pp, pp);
                    areas_turn(pp, m0.pos(m0.org(rim[0])), pp);
                }
            } else if o == last {
                assert(m.dest(last) == m0.org(rim[k]));
                if v != p {
                    lemma_end_tangent(m0, set, rim, p, k, v);
                } else {
                    areas_turn(m0.pos(m0.org(rim[k])), pp, pp);
                }
            } else {
                let j = choose|j: int| k <= j < rim.len() && #[trigger] rim[j] == o;
                assert(is_rim_edge(m0, rim, j));
                assert(is_edge(m0, o));
                assert(bounds_all(m0, set, o));
                assert(!sees(m0, p, rim[j]));
            }
        }
    }
}

/// A vertex that lies farthest on stays on the hull.
proof fn lemma_top_stays(
    m0: MeshView,
    m: MeshView,
    set: Set<VertexId>,
    more: Set<VertexId>,
    rim: Seq<Otri>,
    p: VertexId,
    k: int,
    first: Otri,
    last: Otri,
    top: VertexId,
)
    requires
        is_standing(m0, set, rim),
        is_joining(m0, m, more, rim, p, k, first, last),
        k < rim.len(),
        forall|i: int| 0 <= i < k ==> sees(m0, p, #[trigger] rim[i]),
        on_rim(m0, rim, top),
        is_tip(m0, set, top, true),
        goes_on(m0.pos(p), m0.pos(top), true),
    ensures
        on_rim(m, joined_rim(rim, k, first, last), top),
{
    lemma_joining_ends(m0, m, more, rim, p, k, first, last);
    let ring = joined_rim(rim, k, first, last);
    let i = choose|i: int| 0 <= i < rim.len() && m0.org(#[trigger] rim[i]) == top;
    lemma_rim_corner(m0, set, rim, i);
    lemma_joining_edge(m0, m, set, more, rim, p, k, first, last, i);
    if i == 0 {
        assert(ring[0] == first);
    } else if i >= k {
        assert(ring[i - k + 2] == rim[i]);
    } else {
        lemma_tip_proper(m0, set, rim, i, true);
        let (a, b) = (rim[i - 1], rim[i]);
        lemma_tip_stays(
            m0.pos(m0.org(a)),
            m0.pos(top),
            m0.pos(m0.dest(b)),
            m0.pos(p),
            true,
        );
        assert(sees(m0, p, rim[i - 1]) && sees(m0, p, rim[i]));
    }
}

/// Join `p` to the first edge that it sees.
fn join_first(
    mesh: &mut CdtMesh,
    o: Otri,
    p: VertexId,
    Ghost(set): Ghost<Set<VertexId>>,
    Ghost(rim): Ghost<Seq<Otri>>,
) -> (r: (Otri, Otri))
    requires
        is_standing(old(mesh)@, set, rim),
        !set.contains(p),
        is_tiled(old(mesh)@, set.insert(p)),
        old(mesh)@.tri_room(),
        o == rim[0],
        sees(old(mesh)@, p, o),
        is_clear(old(mesh)@, set.insert(p), o, p),
    ensures
        is_joining(old(mesh)@, final(mesh)@, set.insert(p), rim, p, 1, r.0, r.1),
{
    proof {
        assert(is_rim_edge(mesh@, rim, 0));
        lemma_first_joined(mesh@, set, set.insert(p), rim, p);
    }
    let t = attach(mesh, o, p);
    (t.lnext(), t.lprev())
}

/// Join `p` to the next edge that it sees.
fn join_next(
    mesh: &mut CdtMesh,
    o: Otri,
    p: VertexId,
    last: Otri,
    Ghost(m0): Ghost<MeshView>,
    Ghost(set): Ghost<Set<VertexId>>,
    Ghost(rim): Ghost<Seq<Otri>>,
    Ghost(k): Ghost<int>,
    Ghost(first): Ghost<Otri>,
) -> (r: Otri)
    requires
        is_standing(m0, set, rim),
        !set.contains(p),
        is_joining(m0, old(mesh)@, set.insert(p), rim, p, k, first, last),
        k < rim.len(),
        m0.tri_count + k < crate::mesh::TRI_LIMIT,
        o == rim[k],
        sees(m0, p, o),
        is_clear(m0, set.insert(p), o, p),
    ensures
        is_joining(m0, final(mesh)@, set.insert(p), rim, p, k + 1, first, r),
{
    let ghost m = mesh@;
    proof {
        reveal(is_joining);
        assert(is_rim_edge(m0, rim, k));
        lemma_next_joined(m0, m, set, set.insert(p), rim, p, k, first, last);
        lemma_new_triangle(m);
    }
    let t = attach(mesh, o, p);
    mesh.bond(last, t.lnext());
    t.lprev()
}

/// Whether `p`, joined to the first `k` edges, sees the next.
fn does_still_see(
    mesh: &CdtMesh,
    o: Otri,
    p: VertexId,
    Ghost(m0): Ghost<MeshView>,
    Ghost(set): Ghost<Set<VertexId>>,
    Ghost(rim): Ghost<Seq<Otri>>,
    Ghost(k): Ghost<int>,
    Ghost(first): Ghost<Otri>,
    Ghost(last): Ghost<Otri>,
) -> (r: bool)
    requires
        is_standing(m0, set, rim),
        is_joining(m0, mesh@, set.insert(p), rim, p, k, first, last),
        0 <= k < rim.len(),
        o == rim[k],
    ensures
        r == sees(m0, p, o),
{
    proof {
        reveal(is_joining);
        assert(is_rim_edge(m0, rim, k));
        assert(is_edge(mesh@, o));
        assert(set.insert(p).contains(p));
    }
    does_see(mesh, Ghost(set.insert(p)), p, o)
}

/// The ring once `p` is joined to its first `k` edges.
fn rest_of_ring(ring: &Vec<Otri>, k: usize, first: Otri, last: Otri) -> (out: Vec<Otri>)
    requires
        k <= ring@.len(),
    ensures
        out@ == joined_rim(ring@, k as int, first, last),
{
    let n: usize = ring.len();
    let mut out: Vec<Otri> = Vec::new();
    out.push(first);
    out.push(last);
    let mut i: usize = k;
    while i < n
        invariant
            n == ring@.len(),
            k <= i <= n,
            out@ =~= seq![first, last] + ring@.subrange(k as int, i as int),
        decreases n - i,
    {
        out.push(ring[i]);
        i += 1;
    }
    assert(out@ =~= joined_rim(ring@, k as int, first, last));
    out
}

proof fn lemma_joining_counts(
    m0: MeshView,
    m: MeshView,
    set: Set<VertexId>,
    rim: Seq<Otri>,
    p: VertexId,
    k: int,
    first: Otri,
    last: Otri,
)
    requires
        is_joining(m0, m, set, rim, p, k, first, last),
    ensures
        is_tiled(m, set),
        1 <= k <= rim.len(),
        m.tri_count == m0.tri_count + k,
        m.vertices == m0.vertices,
        same_subsegs(m0, m),
        m.hull_size == m0.hull_size,
        rim_count(m, m.tri_count) == rim_count(m0, m0.tri_count) + 2 - k,
{
    reveal(is_joining);
}

/// Join a vertex past the tip of a triangulation to the hull edges that it
/// sees.
#[verifier::rlimit(60)]
fn join_vertex(
    mesh: &mut CdtMesh,
    rim: &mut Vec<Otri>,
    p: VertexId,
    Ghost(set): Ghost<Set<VertexId>>,
    Ghost(q): Ghost<VertexId>,
    Ghost(forward): Ghost<bool>,
    Ghost(top): Ghost<VertexId>,
)
    requires
        is_standing(old(mesh)@, set, old(rim)@),
        on_rim(old(mesh)@, old(rim)@, q),
        is_tip(old(mesh)@, set, q, forward),
        is_past(old(mesh)@, set, p, forward),
        old(mesh)@.tri_count + old(rim)@.len() <= crate::mesh::TRI_LIMIT,
    ensures
        !set.contains(p),
        is_standing(final(mesh)@, set.insert(p), final(rim)@),
        on_rim(final(mesh)@, final(rim)@, p),
        on_rim(old(mesh)@, old(rim)@, top) && is_tip(old(mesh)@, set, top, true) && goes_on(
            old(mesh)@.pos(p),
            old(mesh)@.pos(top),
            true,
        ) ==> on_rim(final(mesh)@, final(rim)@, top),
        final(mesh)@.tri_count + final(rim)@.len() == old(mesh)@.tri_count + old(rim)@.len() + 2,
        rim_count(final(mesh)@, final(mesh)@.tri_count) - final(rim)@.len() == rim_count(
            old(mesh)@,
            old(mesh)@.tri_count,
        ) - old(rim)@.len(),
        final(mesh)@.vertices == old(mesh)@.vertices,
        same_subsegs(old(mesh)@, final(mesh)@),
        final(mesh)@.hull_size == old(mesh)@.hull_size,
{
    let ghost m0 = mesh@;
    let start: usize = find_start(mesh, rim, p, Ghost(set), Ghost(q), Ghost(forward));
    let ring = turn_ring(rim, start);
    let ghost r = ring@;
    let ghost more = set.insert(p);
    let n: usize = ring.len();
    let ghost unseen;
    proof {
        lemma_turned(m0, rim@, start as int);
        assert(r[0] == rim@[start as int]);
        assert(r[n - 1] == rim@[before(start as int, n as int)]);
        assert(starts(m0, r, p, 0));
        lemma_outside_all(m0, set, r, p, forward, 0);
        unseen = lemma_some_unseen(m0, set, r, p, forward);
    }
    let (first, last0) = join_first(mesh, ring[0], p, Ghost(set), Ghost(r));
    let mut last = last0;
    let mut k: usize = 1;
    while k < n && does_still_see(
        mesh,
        ring[k],
        p,
        Ghost(m0),
        Ghost(set),
        Ghost(r),
        Ghost(k as int),
        Ghost(first),
        Ghost(last),
    )
        invariant
            n == ring@.len(),
            r == ring@,
            1 <= k <= n,
            is_standing(m0, set, r),
            m0.tri_count + n <= crate::mesh::TRI_LIMIT,
            more == set.insert(p),
            !set.contains(p),
            is_joining(m0, mesh@, more, r, p, k as int, first, last),
            forall|j: int| 0 <= j < k ==> sees(m0, p, #[trigger] r[j]),
            forall|j: int|
                0 <= j < r.len() && sees(m0, p, #[trigger] r[j]) ==> is_clear(m0, more, r[j], p),
        decreases n - k,
    {
        last = join_next(
            mesh,
            ring[k],
            p,
            last,
            Ghost(m0),
            Ghost(set),
            Ghost(r),
            Ghost(k as int),
            Ghost(first),
        );
        k += 1;
    }
    proof {
        lemma_joining_counts(m0, mesh@, more, r, p, k as int, first, last);
        assert(k < n) by {
            if k == n {
                assert(sees(m0, p, r[unseen]));
            }
        }
        lemma_rest_unseen(m0, set, r, p, forward, k as int);
        lemma_rim_joined(m0, mesh@, set, more, r, p, forward, k as int, first, last);
        lemma_convex_joined(m0, mesh@, set, more, r, p, forward, k as int, first, last);
        if on_rim(m0, old(rim)@, top) && is_tip(m0, set, top, true) && goes_on(
            m0.pos(p),
            m0.pos(top),
            true,
        ) {
            assert(on_rim(m0, r, top));
            lemma_top_stays(m0, mesh@, set, more, r, p, k as int, first, last, top);
        }
    }
    let out = rest_of_ring(&ring, k, first, last);
    assert(out@.len() == n - k + 2);
    *rim = out;
}

// --- The whole --------------------------------------------------------------

/// Whether vertices are listed from left to right, and from below where the x
/// is the same.
pub open spec fn is_in_order(m: MeshView, ids: Seq<VertexId>) -> bool {
    &&& forall|i: int| 0 <= i < ids.len() ==> m.has_vertex(#[trigger] ids[i])
    &&& forall|i: int, j: int|
        0 <= i < j < ids.len() ==> ahead(m.pos(#[trigger] ids[i]), m.pos(#[trigger] ids[j]))
}

/// The vertices listed from place `lo` up to `hi`.
pub open spec fn listed(ids: Seq<VertexId>, lo: int, hi: int) -> Set<VertexId> {
    Set::new(|v: VertexId| exists|i: int| lo <= i < hi && #[trigger] ids[i] == v)
}

/// Whether a mesh holds no triangle and no slot to reuse.
pub open spec fn is_fresh(m: MeshView) -> bool {
    m.wf() && m.tri_count == 1 && m.free_tris.len() == 0
}

/// A fresh mesh with one triangle.
#[verifier::spinoff_prover]
#[verifier::rlimit(60)]
proof fn lemma_one_triangle(m: MeshView, a: VertexId, b: VertexId, c: VertexId)
    requires
        is_fresh(m),
        m.has_vertex(a) && m.has_vertex(b) && m.has_vertex(c),
        orient(m.pos(a), m.pos(b), m.pos(c)) > 0,
    ensures
        ({
            let n = Otri { tri: 1, orient: 0 };
            let w = m.with_triangle().with_corners(n, a, b, c);
            let rim = seq![n, n.next(), n.prev()];
            let set = set![a, b, c];
            &&& m.next_tri() == 1
            &&& is_standing(w, set, rim)
            &&& w.org(rim[0]) == a && w.org(rim[1]) == b && w.org(rim[2]) == c
            &&& w.tri_count == 2
            &&& rim_count(w, 2) == 3
            &&& w.vertices == m.vertices
            &&& same_subsegs(m, w)
            &&& w.hull_size == m.hull_size
        }),
{
    let n = Otri { tri: 1, orient: 0 };
    let w = m.with_triangle().with_corners(n, a, b, c);
    let rim = seq![n, n.next(), n.prev()];
    let set = set![a, b, c];
    lemma_new_triangle(m);
    lemma_turns(n);
    let m0 = m.with_triangle();
    lemma_with_corner(m0, n.next(), a);
    lemma_with_corner(m0.with_corner(n.next(), a), n.prev(), b);
    lemma_with_corner(m0.with_corner(n.next(), a).with_corner(n.prev(), b), n, c);
    let (pa, pb, pc) = (m.pos(a), m.pos(b), m.pos(c));
    orientation_turns(pa, pb, pc);
    orientation_turns(pb, pc, pa);
    areas_turn(pa, pb, pa);
    areas_turn(pb, pa, pb);
    areas_turn(pb, pc, pb);
    areas_turn(pc, pb, pc);
    areas_turn(pc, pa, pc);
    areas_turn(pa, pc, pa);
    areas_turn(pa, pb, pb);
    areas_turn(pb, pc, pc);
    areas_turn(pc, pa, pa);
    assert(w.org(n) == a && w.dest(n) == b && w.apex(n) == c);
    assert(0u8 & 2 == 0) by (bit_vector);
    assert(is_spread(w, set)) by {
        assert forall|v: VertexId, x: VertexId| #[trigger]
            set.contains(v) && #[trigger] set.contains(x) && same_place(
                w.pos(v),
                w.pos(x),
            ) implies v == x by {
            lemma_apart_in_triangle(pa, pb, pc);
        }
    }
    assert forall|o: Otri| #[trigger] is_edge(w, o) implies is_tile(w, set, o) by {
        assert(o.tri == 1);
        lemma_three(n, o);
    }
    assert forall|o: Otri| #[trigger] is_edge(w, o) && w.nbr[o].tri == 0 implies bounds_all(
        w,
        set,
        o,
    ) by {
        assert(o.tri == 1);
        lemma_three(n, o);
    }
    assert forall|i: int| 0 <= i < 3 implies #[trigger] is_rim_edge(w, rim, i) by {
        assert(i == 0 || i == 1 || i == 2);
    }
    assert forall|i: int, j: int| 0 <= i < j < 3 implies #[trigger] differ(w, rim, i, j) by {
        lemma_apart_in_triangle(pa, pb, pc);
    }
    assert forall|o: Otri| #[trigger] is_edge(w, o) && w.nbr[o].tri == 0 implies rim.contains(o) by {
        assert(o.tri == 1);
        lemma_three(n, o);
        assert(rim[0] == n && rim[1] == n.next() && rim[2] == n.prev());
    }
    lemma_rim_total(w, 2);
    lemma_face_of(w, set, n);
    lemma_open_sides(w, n);
    assert(!is_face(w, 0));
    assert(total(rim_at(w), 2) == total(rim_at(w), 1) + rim_at(w)(1));
    assert(total(rim_at(w), 1) == total(rim_at(w), 0) + rim_at(w)(0));
}

/// The corners of a triangle lie at different places.
proof fn lemma_apart_in_triangle(a: Vertex, b: Vertex, c: Vertex)
    requires
        orient(a, b, c) > 0,
    ensures
        !same_place(a, b) && !same_place(b, c) && !same_place(a, c),
        !same_place(b, a) && !same_place(c, b) && !same_place(c, a),
{
    areas_turn(a, b, c);
    areas_turn(b, c, a);
    areas_turn(c, a, b);
    areas_turn(a, a, c);
    areas_turn(b, b, a);
    areas_turn(c, c, b);
    if same_place(a, b) {
        assert(orient_det(a, b, c) == orient_det(a, a, c));
    }
    if same_place(b, c) {
        assert(orient_det(b, c, a) == orient_det(b, b, a));
    }
    if same_place(a, c) {
        assert(orient_det(c, a, b) == orient_det(c, c, b));
    }
}

/// Whether a listed vertex is in line with the two before it.
pub open spec fn is_straight(m: MeshView, ids: Seq<VertexId>, k: int) -> bool {
    orient(m.pos(ids[k - 2]), m.pos(ids[k - 1]), m.pos(ids[k])) == 0
}

/// The first three vertices in a row that are not in line, by the place of the
/// last, or the number of vertices.
fn find_bend(mesh: &CdtMesh, ids: &Vec<VertexId>) -> (k: usize)
    requires
        is_in_order(mesh@, ids@),
        ids@.len() >= 2,
    ensures
        2 <= k <= ids@.len(),
        forall|i: int| 2 <= i < k ==> #[trigger] is_straight(mesh@, ids@, i),
        k < ids@.len() ==> orient(
            mesh@.pos(ids@[k - 2]),
            mesh@.pos(ids@[k - 1]),
            mesh@.pos(ids@[k as int]),
        ) != 0,
{
    let mut k: usize = 2;
    while k < ids.len() && orient2d(
        mesh.vertex_pos(ids[k - 2]),
        mesh.vertex_pos(ids[k - 1]),
        mesh.vertex_pos(ids[k]),
    ) == 0
        invariant
            2 <= k <= ids@.len(),
            is_in_order(mesh@, ids@),
            forall|i: int| 2 <= i < k ==> #[trigger] is_straight(mesh@, ids@, i),
        decreases ids.len() - k,
    {
        k += 1;
    }
    k
}

/// What stands once the vertices from `lo` up to `hi` are joined.
spec fn is_laid(m: MeshView, ids: Seq<VertexId>, rim: Seq<Otri>, lo: int, hi: int) -> bool {
    &&& is_standing(m, listed(ids, lo, hi), rim)
    &&& m.tri_count + rim.len() + 1 == 2 * (hi - lo)
    &&& rim_count(m, m.tri_count) == rim.len()
}

/// Lay the first triangle.
fn lay_first(mesh: &mut CdtMesh, ids: &Vec<VertexId>, k: usize) -> (rim: Vec<Otri>)
    requires
        is_fresh(old(mesh)@),
        is_in_order(old(mesh)@, ids@),
        2 <= k < ids@.len(),
        orient(
            old(mesh)@.pos(ids@[k - 2]),
            old(mesh)@.pos(ids@[k - 1]),
            old(mesh)@.pos(ids@[k as int]),
        ) != 0,
    ensures
        is_laid(final(mesh)@, ids@, rim@, k - 2, k + 1),
        on_rim(final(mesh)@, rim@, ids@[k - 2]),
        on_rim(final(mesh)@, rim@, ids@[k as int]),
        final(mesh)@.vertices == old(mesh)@.vertices,
        same_subsegs(old(mesh)@, final(mesh)@),
        final(mesh)@.hull_size == old(mesh)@.hull_size,
{
    let (a, b, c) = (ids[k - 2], ids[k - 1], ids[k]);
    let left: bool = orient2d(mesh.vertex_pos(a), mesh.vertex_pos(b), mesh.vertex_pos(c)) > 0;
    let (p, q) = if left {
        (a, b)
    } else {
        (b, a)
    };
    proof {
        orientation_turns(mesh@.pos(a), mesh@.pos(b), mesh@.pos(c));
        lemma_new_triangle(mesh@);
        lemma_one_triangle(mesh@, p, q, c);
    }
    let n = mesh.make_triangle();
    mesh.set_corners(n, p, q, c);
    let mut rim: Vec<Otri> = Vec::new();
    rim.push(n);
    rim.push(n.lnext());
    rim.push(n.lprev());
    proof {
        assert(rim@ =~= seq![n, n.next(), n.prev()]);
        let set = listed(ids@, k - 2, k + 1);
        assert(set =~= set![p, q, c]) by {
            assert(ids@[k - 2] == a && ids@[k - 1] == b && ids@[k as int] == c);
            assert forall|v: VertexId| #[trigger] set.contains(v) <==> set![p, q, c].contains(v) by {
                if set.contains(v) {
                    let i = choose|i: int| k - 2 <= i < k + 1 && #[trigger] ids@[i] == v;
                    assert(i == k - 2 || i == k - 1 || i == k);
                }
            }
        }
        assert(mesh@.org(rim@[0]) == p && mesh@.org(rim@[1]) == q && mesh@.org(rim@[2]) == c);
    }
    rim
}

/// The vertices from `lo` to `hi` are between the two at the ends.
proof fn lemma_ends_are_tips(m: MeshView, ids: Seq<VertexId>, lo: int, hi: int)
    requires
        is_in_order(m, ids),
        0 <= lo < hi <= ids.len(),
    ensures
        is_tip(m, listed(ids, lo, hi), ids[lo], false),
        is_tip(m, listed(ids, lo, hi), ids[hi - 1], true),
        lo > 0 ==> is_past(m, listed(ids, lo, hi), ids[lo - 1], false),
        hi < ids.len() ==> is_past(m, listed(ids, lo, hi), ids[hi], true),
        lo > 0 ==> listed(ids, lo, hi).insert(ids[lo - 1]) == listed(ids, lo - 1, hi),
        hi < ids.len() ==> listed(ids, lo, hi).insert(ids[hi]) == listed(ids, lo, hi + 1),
{
    let set = listed(ids, lo, hi);
    assert(ids[lo] == ids[lo] && ids[hi - 1] == ids[hi - 1]);
    assert forall|v: VertexId| #[trigger] set.contains(v) && v != ids[lo] implies goes_on(
        m.pos(v),
        m.pos(ids[lo]),
        false,
    ) by {
        let i = choose|i: int| lo <= i < hi && #[trigger] ids[i] == v;
        assert(lo < i);
    }
    assert forall|v: VertexId| #[trigger] set.contains(v) && v != ids[hi - 1] implies goes_on(
        m.pos(v),
        m.pos(ids[hi - 1]),
        true,
    ) by {
        let i = choose|i: int| lo <= i < hi && #[trigger] ids[i] == v;
        assert(i < hi - 1);
    }
    if lo > 0 {
        assert forall|v: VertexId| #[trigger] set.contains(v) implies goes_on(
            m.pos(v),
            m.pos(ids[lo - 1]),
            false,
        ) by {
            let i = choose|i: int| lo <= i < hi && #[trigger] ids[i] == v;
            assert(lo - 1 < i);
        }
        assert(set.insert(ids[lo - 1]) =~= listed(ids, lo - 1, hi));
    }
    if hi < ids.len() {
        assert forall|v: VertexId| #[trigger] set.contains(v) implies goes_on(
            m.pos(v),
            m.pos(ids[hi]),
            true,
        ) by {
            let i = choose|i: int| lo <= i < hi && #[trigger] ids[i] == v;
            assert(i < hi);
        }
        assert(set.insert(ids[hi]) =~= listed(ids, lo, hi + 1));
    }
}

proof fn lemma_order_lasts(m: MeshView, w: MeshView, ids: Seq<VertexId>)
    requires
        is_in_order(m, ids),
        w.vertices == m.vertices,
    ensures
        is_in_order(w, ids),
{
}

/// Triangulate vertices that are not all on one line: from the first three in
/// a row that bend, back to the first vertex and on to the last.
fn lay_all(mesh: &mut CdtMesh, ids: &Vec<VertexId>, k: usize) -> (rim: Vec<Otri>)
    requires
        is_fresh(old(mesh)@),
        is_in_order(old(mesh)@, ids@),
        2 <= k < ids@.len(),
        2 * ids@.len() <= crate::mesh::TRI_LIMIT,
        orient(
            old(mesh)@.pos(ids@[k - 2]),
            old(mesh)@.pos(ids@[k - 1]),
            old(mesh)@.pos(ids@[k as int]),
        ) != 0,
    ensures
        is_laid(final(mesh)@, ids@, rim@, 0, ids@.len() as int),
        final(mesh)@.vertices == old(mesh)@.vertices,
        same_subsegs(old(mesh)@, final(mesh)@),
        final(mesh)@.hull_size == old(mesh)@.hull_size,
{
    let mut rim = lay_first(mesh, ids, k);
    let ghost top = ids@[k as int];
    let mut lo: usize = k - 2;
    while lo > 0
        invariant
            lo <= k - 2,
            2 <= k < ids@.len(),
            2 * ids@.len() <= crate::mesh::TRI_LIMIT,
            is_in_order(mesh@, ids@),
            is_laid(mesh@, ids@, rim@, lo as int, k + 1),
            on_rim(mesh@, rim@, ids@[lo as int]),
            on_rim(mesh@, rim@, top),
            top == ids@[k as int],
            mesh@.vertices == old(mesh)@.vertices,
            same_subsegs(old(mesh)@, mesh@),
            mesh@.hull_size == old(mesh)@.hull_size,
        decreases lo,
    {
        let ghost m = mesh@;
        proof {
            lemma_ends_are_tips(m, ids@, lo as int, k + 1);
            assert(ahead(m.pos(ids@[lo - 1]), m.pos(ids@[k as int])));
        }
        join_vertex(
            mesh,
            &mut rim,
            ids[lo - 1],
            Ghost(listed(ids@, lo as int, k + 1)),
            Ghost(ids@[lo as int]),
            Ghost(false),
            Ghost(top),
        );
        lo -= 1;
        proof {
            lemma_order_lasts(m, mesh@, ids@);
        }
    }
    let mut hi: usize = k + 1;
    while hi < ids.len()
        invariant
            k < hi <= ids@.len(),
            2 <= k < ids@.len(),
            2 * ids@.len() <= crate::mesh::TRI_LIMIT,
            is_in_order(mesh@, ids@),
            is_laid(mesh@, ids@, rim@, 0, hi as int),
            on_rim(mesh@, rim@, ids@[hi - 1]),
            mesh@.vertices == old(mesh)@.vertices,
            same_subsegs(old(mesh)@, mesh@),
            mesh@.hull_size == old(mesh)@.hull_size,
        decreases ids.len() - hi,
    {
        let ghost m = mesh@;
        proof {
            lemma_ends_are_tips(m, ids@, 0, hi as int);
        }
        join_vertex(
            mesh,
            &mut rim,
            ids[hi],
            Ghost(listed(ids@, 0, hi as int)),
            Ghost(ids@[hi - 1]),
            Ghost(true),
            Ghost(top),
        );
        hi += 1;
        proof {
            lemma_order_lasts(m, mesh@, ids@);
        }
    }
    rim
}

// --- The Delaunay triangulation ---------------------------------------------

/// Whether every vertex of a mesh lies at the place of a listed one.
#[verifier::opaque]
pub open spec fn lists_places(m: MeshView, ids: Seq<VertexId>) -> bool {
    forall|v: VertexId| #[trigger]
        m.has_vertex(v) ==> exists|i: int|
            0 <= i < ids.len() && same_place(m.pos(#[trigger] ids[i]), m.pos(v))
}

proof fn lemma_height_changes(s: Vertex, t: Vertex, a: Vertex, x: Vertex)
    ensures
        orient_det(s, t, x) - orient_det(s, t, a) == cross(
            t.vx() - s.vx(),
            t.vy() - s.vy(),
            x.vx() - a.vx(),
            x.vy() - a.vy(),
        ),
{
    let (sx, sy, tx, ty) = (s.vx() - a.vx(), s.vy() - a.vy(), t.vx() - a.vx(), t.vy() - a.vy());
    let (fx, fy) = (x.vx() - a.vx(), x.vy() - a.vy());
    areas_add(s, t, x, a);
    assert(tx * fy - ty * fx + (fx * sy - fy * sx) == (tx - sx) * fy - (ty - sy) * fx)
        by (nonlinear_arith);
}

/// What is in line with two different points of a line is on it.
proof fn lemma_line_goes_on(s: Vertex, t: Vertex, a: Vertex, b: Vertex, c: Vertex)
    requires
        orient(s, t, a) == 0,
        orient(s, t, b) == 0,
        orient(a, b, c) == 0,
        !same_place(a, b),
    ensures
        orient(s, t, c) == 0,
{
    lemma_height_changes(s, t, a, b);
    lemma_height_changes(s, t, a, c);
    let (ex, ey) = (b.vx() - a.vx(), b.vy() - a.vy());
    let (fx, fy) = (c.vx() - a.vx(), c.vy() - a.vy());
    let (ux, uy) = (t.vx() - s.vx(), t.vy() - s.vy());
    lemma_balance(ex, ey, fx, fy, ux, uy);
    orientation_turns(a, b, c);
    assert(cross(ex, ey, fx, fy) == 0) by {
        areas_turn(b, c, a);
        assert(orient_det(b, c, a) == cross(ex, ey, fx, fy));
    }
    assert(fx * 0 == 0 && ux * 0 == 0 && fy * 0 == 0 && uy * 0 == 0);
    let g = cross(fx, fy, ux, uy);
    assert(g == 0) by (nonlinear_arith)
        requires
            ex * g == 0,
            ey * g == 0,
            ex != 0 || ey != 0,
    ;
    assert(cross(ux, uy, fx, fy) == -g) by {
        assert(ux * fy - uy * fx == -(fx * uy - fy * ux)) by (nonlinear_arith);
    }
}

/// Three points of a line are in line.
proof fn lemma_line_is_straight(s: Vertex, t: Vertex, a: Vertex, b: Vertex, c: Vertex)
    requires
        orient(s, t, a) == 0,
        orient(s, t, b) == 0,
        orient(s, t, c) == 0,
        !same_place(s, t),
    ensures
        orient(a, b, c) == 0,
{
    lemma_height_changes(s, t, a, b);
    lemma_height_changes(s, t, a, c);
    let (ex, ey) = (b.vx() - a.vx(), b.vy() - a.vy());
    let (fx, fy) = (c.vx() - a.vx(), c.vy() - a.vy());
    let (ux, uy) = (t.vx() - s.vx(), t.vy() - s.vy());
    lemma_balance(ux, uy, ex, ey, fx, fy);
    assert(cross(fx, fy, ux, uy) == -cross(ux, uy, fx, fy)) by {
        assert(fx * uy - fy * ux == -(ux * fy - uy * fx)) by (nonlinear_arith);
    }
    assert(ex * 0 == 0 && fx * 0 == 0 && ey * 0 == 0 && fy * 0 == 0);
    let g = cross(ex, ey, fx, fy);
    assert(g == 0) by (nonlinear_arith)
        requires
            ux * g == 0,
            uy * g == 0,
            ux != 0 || uy != 0,
    ;
    orientation_turns(a, b, c);
    assert(orient_det(b, c, a) == g);
}

/// Where no three in a row bend, all are on one line.
proof fn lemma_no_bend(m: MeshView, ids: Seq<VertexId>, i: int)
    requires
        is_in_order(m, ids),
        ids.len() >= 2,
        0 <= i < ids.len(),
        forall|k: int| 2 <= k < ids.len() ==> #[trigger] is_straight(m, ids, k),
    ensures
        orient(m.pos(ids[0]), m.pos(ids[1]), m.pos(ids[i])) == 0,
    decreases i,
{
    let (s, t) = (m.pos(ids[0]), m.pos(ids[1]));
    if i < 2 {
        areas_turn(s, t, s);
        areas_turn(t, s, s);
        areas_turn(s, t, t);
        areas_turn(t, s, t);
        assert(i == 0 || i == 1);
    } else {
        lemma_no_bend(m, ids, i - 1);
        lemma_no_bend(m, ids, i - 2);
        assert(ahead(m.pos(ids[i - 2]), m.pos(ids[i - 1])));
        assert(is_straight(m, ids, i));
        lemma_line_goes_on(s, t, m.pos(ids[i - 2]), m.pos(ids[i - 1]), m.pos(ids[i]));
    }
}

proof fn lemma_all_faces(m: MeshView, set: Set<VertexId>, n: nat)
    requires
        is_tiled(m, set),
        1 <= n <= m.tri_count,
    ensures
        face_count(m, n) == n - 1,
    decreases n,
{
    if n > 1 {
        lemma_all_faces(m, set, (n - 1) as nat);
        let o = Otri { tri: (n - 1) as u32, orient: 0 };
        assert(is_edge(m, o));
        lemma_face_of(m, set, o);
    } else {
        assert(!is_face(m, 0));
        assert(face_count(m, 0) == 0);
    }
}

/// No vertex lies inside the circle of the triangle in slot `t`.
proof fn lemma_face_is_empty(m: MeshView, ids: Seq<VertexId>, set: Set<VertexId>, t: u32)
    requires
        set == listed(ids, 0, ids.len() as int),
        is_tiled(m, set),
        is_convex(m, set),
        all_local(m),
        lists_places(m, ids),
        is_face(m, t),
    ensures
        is_empty_face(m, t),
{
    reveal(lists_places);
    let o = Otri { tri: t, orient: 0 };
    assert(is_edge(m, o));
    assert(is_tile(m, set, o));
    assert forall|v: VertexId| m.has_vertex(v) implies !#[trigger] encircles(m, t, v) by {
        let i = choose|i: int| 0 <= i < ids.len() && same_place(m.pos(#[trigger] ids[i]), m.pos(v));
        assert(set.contains(ids[i]));
        local_is_global(m, set, o, ids[i]);
    }
}

/// Vertices three of which bend are not on one line.
proof fn lemma_bend(m: MeshView, ids: Seq<VertexId>, k: int)
    requires
        is_in_order(m, ids),
        2 <= k < ids.len(),
        orient(m.pos(ids[k - 2]), m.pos(ids[k - 1]), m.pos(ids[k])) != 0,
    ensures
        !on_one_line(m, ids),
{
    if on_one_line(m, ids) {
        assert(ahead(m.pos(ids[0]), m.pos(ids[1])));
        lemma_line_is_straight(
            m.pos(ids[0]),
            m.pos(ids[1]),
            m.pos(ids[k - 2]),
            m.pos(ids[k - 1]),
            m.pos(ids[k]),
        );
    }
}

proof fn lemma_sides_good(m: MeshView, set: Set<VertexId>)
    requires
        is_tiled(m, set),
        all_local(m),
        is_anchored(m),
    ensures
        is_constrained_delaunay(m),
{
    assert forall|o: Otri| #[trigger] is_live(m, o) implies is_side(m, o) && is_good_side(m, o) by {
        assert(is_edge(m, o));
        assert(is_tile(m, set, o));
        lemma_face_of(m, set, o);
    }
}

/// A triangulated convex hull whose edges are all locally Delaunay is the
/// Delaunay triangulation.
proof fn lemma_delaunay_built(m: MeshView, ids: Seq<VertexId>, set: Set<VertexId>, hull: u32, k: int)
    requires
        set == listed(ids, 0, ids.len() as int),
        is_tiled(m, set),
        is_convex(m, set),
        all_local(m),
        is_anchored(m),
        is_in_order(m, ids),
        lists_places(m, ids),
        rim_count(m, m.tri_count) == hull,
        m.tri_count + hull + 1 == 2 * ids.len(),
        2 <= k < ids.len(),
        orient(m.pos(ids[k - 2]), m.pos(ids[k - 1]), m.pos(ids[k])) != 0,
    ensures
        is_delaunay_of(m, ids, hull),
        is_plane(m),
        is_counted(m),
        uses_all(m, ids),
{
    reveal(uses_all);
    lemma_tiled_is_plane(m, set);
    if m.tri_count <= 1 {
        lemma_rim_total(m, m.tri_count);
        assert(!is_face(m, 0));
        reveal_with_fuel(total, 2);
        assert(rim_at(m)(0) == 0);
    }
    assert forall|i: int| 0 <= i < ids.len() implies corners(m).contains(#[trigger] ids[i]) by {
        assert(set.contains(ids[i]));
        lemma_tiled_uses(m, set, ids[i]);
    }
    lemma_sides_good(m, set);
    lemma_all_faces(m, set, m.tri_count);
    lemma_bend(m, ids, k);
    assert(is_delaunay(m)) by {
        assert forall|t: u32| #[trigger] is_face(m, t) implies is_empty_face(m, t) by {
            lemma_face_is_empty(m, ids, set, t);
        }
    }
}

/// Vertices on one line, and no triangle.
proof fn lemma_straight_built(m: MeshView, ids: Seq<VertexId>, hull: u32)
    requires
        m.wf(),
        m.tri_count == 1,
        is_in_order(m, ids),
        ids.len() >= 2,
        forall|k: int| 2 <= k < ids.len() ==> #[trigger] is_straight(m, ids, k),
    ensures
        is_delaunay_of(m, ids, hull),
        uses_all(m, ids),
{
    reveal(uses_all);
    assert forall|t: u32| !#[trigger] is_face(m, t) by {}
    assert(m.has(m.nbr[no_tri()])) by {
        assert(m.has(no_tri()));
    }
    lemma_no_faces(m, m.tri_count);
    assert forall|i: int| 0 <= i < ids.len() implies orient(
        m.pos(ids[0]),
        m.pos(ids[1]),
        m.pos(#[trigger] ids[i]),
    ) == 0 by {
        lemma_no_bend(m, ids, i);
    }
}

/// Some edge with nothing across.
fn find_open_edge(mesh: &CdtMesh) -> (r: Option<Otri>)
    requires
        mesh@.wf(),
    ensures
        match r {
            Some(o) => is_edge(mesh@, o) && mesh@.nbr[o].tri == 0,
            None => forall|o: Otri| #[trigger] is_edge(mesh@, o) ==> mesh@.nbr[o].tri != 0,
        },
{
    let n: usize = mesh.tri_slots();
    let mut t: usize = 1;
    while t < n
        invariant
            1 <= t,
            n == mesh@.tri_count,
            mesh@.wf(),
            forall|o: Otri| o.tri < t && #[trigger] is_edge(mesh@, o) ==> mesh@.nbr[o].tri != 0,
        decreases n - t,
    {
        let a = Otri { tri: t as u32, orient: 0 };
        proof {
            lemma_turns(a);
            assert forall|o: Otri| o.tri == t && #[trigger] is_edge(mesh@, o) implies o == a || o
                == a.next() || o == a.prev() by {
                lemma_three(a, o);
            }
        }
        if mesh.sym(a).tri == 0 {
            return Some(a);
        }
        if mesh.sym(a.lnext()).tri == 0 {
            return Some(a.lnext());
        }
        if mesh.sym(a.lprev()).tri == 0 {
            return Some(a.lprev());
        }
        t += 1;
    }
    None
}

/// The dummy glued to an open edge.
#[verifier::spinoff_prover]
#[verifier::rlimit(60)]
proof fn lemma_dummy_glued(m: MeshView, set: Set<VertexId>, o: Otri)
    requires
        is_tiled(m, set),
        is_convex(m, set),
        all_local(m),
        is_edge(m, o),
        m.nbr[o].tri == 0,
    ensures
        ({
            let w = m.bonded(no_tri(), o);
            &&& is_tiled(w, set)
            &&& is_convex(w, set)
            &&& all_local(w)
            &&& is_anchored(w)
            &&& rim_count(w, w.tri_count) == rim_count(m, m.tri_count)
        }),
{
    let w = m.bonded(no_tri(), o);
    lemma_bonded(m, no_tri(), o);
    assert forall|q: Otri| #[trigger] is_edge(w, q) implies is_tile(w, set, q)
        && is_locally_delaunay(w, q) && (w.nbr[q].tri == 0 <==> m.nbr[q].tri == 0) by {
        assert(is_edge(m, q));
        assert(is_tile(m, set, q));
        assert(is_locally_delaunay(m, q));
        let p = m.nbr[q];
        if p.tri != 0 {
            assert(is_edge(m, p));
            assert(w.nbr[p] == m.nbr[p]);
            lemma_face_of(m, set, p);
            assert(is_face(w, p.tri));
        }
        assert forall|v: VertexId| #[trigger]
            set.contains(v) && covers(w, q, w.pos(v)) implies is_corner(w, q, v) by {
            assert(covers(m, q, m.pos(v)));
        }
    }
    assert forall|q: Otri| #[trigger] is_edge(w, q) && w.nbr[q].tri == 0 implies bounds_all(
        w,
        set,
        q,
    ) by {
        assert(is_edge(m, q));
        assert(bounds_all(m, set, q));
    }
    let c = m.tri_count;
    lemma_rim_total(m, c);
    lemma_rim_total(w, c);
    assert forall|k: int| 0 <= k < c && k != -1 && k != -2 implies #[trigger] rim_at(w)(k) == rim_at(
        m,
    )(k) by {
        if k != 0 {
            let first = Otri { tri: k as u32, orient: 0 };
            lemma_turns(first);
            assert(is_edge(w, first) && is_edge(w, first.next()) && is_edge(w, first.prev()));
            lemma_face_of(m, set, first);
            lemma_face_of(w, set, first);
            lemma_open_sides(m, first);
            lemma_open_sides(w, first);
        }
    }
    lemma_total_changes(rim_at(m), rim_at(w), c, -1, -2);
}

proof fn lemma_none_open(m: MeshView, set: Set<VertexId>, n: nat)
    requires
        is_tiled(m, set),
        n <= m.tri_count,
        forall|o: Otri| #[trigger] is_edge(m, o) ==> m.nbr[o].tri != 0,
    ensures
        total(rim_at(m), n) == 0,
    decreases n,
{
    if n > 0 {
        lemma_none_open(m, set, (n - 1) as nat);
        if n > 1 {
            let o = Otri { tri: (n - 1) as u32, orient: 0 };
            lemma_turns(o);
            assert(is_edge(m, o) && is_edge(m, o.next()) && is_edge(m, o.prev()));
            lemma_face_of(m, set, o);
            lemma_open_sides(m, o);
        }
    }
}

/// What stands once all edges are flipped, `hull` edges being open.
#[verifier::opaque]
spec fn is_settled(m: MeshView, set: Set<VertexId>, hull: int) -> bool {
    &&& is_tiled(m, set) && is_convex(m, set) && all_local(m)
    &&& is_anchored(m)
    &&& rim_count(m, m.tri_count) == hull
}

/// Flip all edges that are not locally Delaunay, and glue the dummy to the
/// hull.
fn settle(mesh: &mut CdtMesh, Ghost(set): Ghost<Set<VertexId>>)
    requires
        is_tiled(old(mesh)@, set),
        is_convex(old(mesh)@, set),
        rim_count(old(mesh)@, old(mesh)@.tri_count) > 0,
    ensures
        is_settled(
            final(mesh)@,
            set,
            rim_count(old(mesh)@, old(mesh)@.tri_count) as int,
        ),
        final(mesh)@.wf(),
        same_pools(old(mesh)@, final(mesh)@),
{
    flip_all(mesh, Ghost(set));
    let open = find_open_edge(mesh);
    proof {
        reveal(is_settled);
        if open is None {
            lemma_rim_total(mesh@, mesh@.tri_count);
            lemma_none_open(mesh@, set, mesh@.tri_count);
        }
    }
    if let Some(o) = open {
        proof {
            lemma_dummy_glued(mesh@, set, o);
        }
        mesh.bond(Otri::dummy(), o);
    }
}

proof fn lemma_settled(m: MeshView, ids: Seq<VertexId>, hull: u32, k: int)
    requires
        is_settled(m, listed(ids, 0, ids.len() as int), hull as int),
        is_in_order(m, ids),
        lists_places(m, ids),
        m.tri_count + hull + 1 == 2 * ids.len(),
        2 <= k < ids.len(),
        orient(m.pos(ids[k - 2]), m.pos(ids[k - 1]), m.pos(ids[k])) != 0,
    ensures
        is_delaunay_of((MeshView { hull_size: hull, ..m }), ids, hull),
        is_plane((MeshView { hull_size: hull, ..m })),
        is_counted((MeshView { hull_size: hull, ..m })),
        uses_all((MeshView { hull_size: hull, ..m }), ids),
{
    reveal(is_settled);
    let set = listed(ids, 0, ids.len() as int);
    lemma_hull_size_only(m, hull, set);
    let w = MeshView { hull_size: hull, ..m };
    lemma_order_lasts(m, w, ids);
    lemma_places_last(m, w, ids);
    lemma_delaunay_built(w, ids, set, hull, k);
}

proof fn lemma_places_last(m: MeshView, w: MeshView, ids: Seq<VertexId>)
    requires
        lists_places(m, ids),
        w.vertices == m.vertices,
    ensures
        lists_places(w, ids),
{
    reveal(lists_places);
    assert forall|v: VertexId| #[trigger] w.has_vertex(v) implies exists|i: int|
        0 <= i < ids.len() && same_place(w.pos(#[trigger] ids[i]), w.pos(v)) by {
        assert(m.has_vertex(v));
        let i = choose|i: int| 0 <= i < ids.len() && same_place(m.pos(#[trigger] ids[i]), m.pos(v));
        assert(same_place(w.pos(ids[i]), w.pos(v)));
    }
}

/// Build the Delaunay triangulation of vertices listed from left to right, in
/// a mesh without triangles: triangulate outward, then flip. Returns the number
/// of edges on the hull.
pub fn build_outward(mesh: &mut CdtMesh, ids: &Vec<VertexId>) -> (hull: u32)
    requires
        is_fresh(old(mesh)@),
        is_in_order(old(mesh)@, ids@),
        lists_places(old(mesh)@, ids@),
        2 <= ids@.len(),
        2 * ids@.len() <= crate::mesh::TRI_LIMIT,
    ensures
        is_delaunay_of(final(mesh)@, ids@, hull),
        is_plane(final(mesh)@),
        is_counted(final(mesh)@),
        uses_all(final(mesh)@, ids@),
        final(mesh)@.hull_size == hull,
        final(mesh)@.wf(),
        final(mesh)@.vertices == old(mesh)@.vertices,
        same_subsegs(old(mesh)@, final(mesh)@),
{
    let k: usize = find_bend(mesh, ids);
    if k == ids.len() {
        let hull: u32 = 2 * ids.len() as u32 - 2;
        mesh.set_hull_size(hull);
        proof {
            lemma_order_lasts(old(mesh)@, mesh@, ids@);
            assert forall|i: int| 2 <= i < ids@.len() implies #[trigger] is_straight(
                mesh@,
                ids@,
                i,
            ) by {
                assert(is_straight(old(mesh)@, ids@, i));
            }
            lemma_straight_built(mesh@, ids@, hull);
            fresh_meshes_are_plane(mesh@);
        }
        return hull;
    }
    let rim = lay_all(mesh, ids, k);
    let ghost laid = mesh@;
    settle(mesh, Ghost(listed(ids@, 0, ids@.len() as int)));
    let hull: u32 = rim.len() as u32;
    proof {
        assert(mesh@.vertices == laid.vertices && mesh@.tri_count == laid.tri_count);
        lemma_order_lasts(old(mesh)@, mesh@, ids@);
        lemma_places_last(old(mesh)@, mesh@, ids@);
        lemma_settled(mesh@, ids@, hull, k as int);
    }
    mesh.set_hull_size(hull);
    hull
}

proof fn lemma_hull_size_only(m: MeshView, hull: u32, set: Set<VertexId>)
    requires
        is_tiled(m, set),
        is_convex(m, set),
        all_local(m),
    ensures
        ({
            let w = MeshView { hull_size: hull, ..m };
            &&& is_tiled(w, set)
            &&& is_convex(w, set)
            &&& all_local(w)
            &&& rim_count(w, w.tri_count) == rim_count(m, m.tri_count)
        }),
{
    let w = MeshView { hull_size: hull, ..m };
    assert forall|q: Otri| #[trigger] is_edge(w, q) implies is_tile(w, set, q)
        && is_locally_delaunay(w, q) by {
        assert(is_edge(m, q));
        assert(is_tile(m, set, q));
        let p = m.nbr[q];
        if p.tri != 0 {
            assert(is_edge(m, p));
            lemma_face_of(m, set, p);
            assert(is_face(w, p.tri));
        }
        assert forall|v: VertexId| #[trigger]
            set.contains(v) && covers(w, q, w.pos(v)) implies is_corner(w, q, v) by {
            assert(covers(m, q, m.pos(v)));
        }
    }
    assert forall|q: Otri| #[trigger] is_edge(w, q) && w.nbr[q].tri == 0 implies bounds_all(
        w,
        set,
        q,
    ) by {
        assert(is_edge(m, q));
        assert(bounds_all(m, set, q));
    }
    lemma_rim_total(m, m.tri_count);
    lemma_rim_total(w, m.tri_count);
    assert forall|k: int| 0 <= k < m.tri_count && k != -1 && k != -2 implies #[trigger] rim_at(w)(k)
        == rim_at(m)(k) by {
        assert(is_face(w, k as u32) == is_face(m, k as u32));
    }
    lemma_total_changes(rim_at(m), rim_at(w), m.tri_count, -1, -2);
}

} // verus!
