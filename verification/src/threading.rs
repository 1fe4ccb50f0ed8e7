//! Putting a segment between two corners into a triangulation: it is led from
//! corner to corner along its line, each stretch straightened and constrained.

use crate::empty_circle::{is_anchored, is_joined, is_live};
use crate::fold::{is_crossed, lemma_collinear};
use crate::forcing::{is_clear, is_crossing, is_free, lemma_total_less, straighten};
use crate::lawson::{bounds_all, covers, is_corner, is_spread, total};
use crate::mesh::{no_tri, CdtMesh, MeshView, Osub, Otri, VertexId, SUB_LIMIT};
use crate::paving::{
    corners, corners_are_apart, corners_are_vertices, edges_are_joined, is_bound, is_cell,
    is_plane, is_used, joins,
};
use crate::plane::{areas_add, areas_turn, lemma_swap};
use crate::predicates::{
    cross, lemma_cross_scaled, magnitude_of, orient, orient2d, orient_det, orientation_turns,
    Vertex,
};
use crate::segment::{insert_subseg, known, same_frame, same_place, subseg_inserted, MeshFault};
use crate::settle::same_but_links;
use crate::trail::{
    followed, is_in_range, is_traced, lasting_goes_on, lasts, leads, lemma_followed_lasts,
    next_place, on_segment, tidy,
};
use vstd::prelude::*;

verus! {

// --- Points of a segment ----------------------------------------------------

/// Positive weights that take a point of a segment from one end to the other.
proof fn lemma_share(a: Vertex, b: Vertex, c: Vertex) -> (r: (int, int))
    requires
        on_segment(a, b, c),
        !same_place(a, b),
    ensures
        r.0 > 0,
        0 <= r.1 <= r.0,
        r.1 == 0 ==> same_place(a, c),
        r.0 == r.1 ==> same_place(b, c),
        r.0 * (c.vx() - a.vx()) == r.1 * (b.vx() - a.vx()),
        r.0 * (c.vy() - a.vy()) == r.1 * (b.vy() - a.vy()),
        r.0 == if b.vx() != a.vx() {
            magnitude_of(b.vx() - a.vx())
        } else {
            magnitude_of(b.vy() - a.vy())
        },
{
    let (ux, uy) = (b.vx() - a.vx(), b.vy() - a.vy());
    let (wx, wy) = (c.vx() - a.vx(), c.vy() - a.vy());
    areas_turn(a, b, c);
    areas_turn(b, c, a);
    assert(cross(ux, uy, wx, wy) == orient_det(b, c, a));
    assert(cross(ux, uy, wx, wy) == 0);
    if ux != 0 {
        lemma_collinear(ux, uy, wx, wy, 0, 1);
        assert(0 * uy - 1 * ux == -ux && 0 * wy - 1 * wx == -wx);
        assert(-ux * wx == -wx * ux && -ux * wy == -wx * uy);
        assert(ux * wy == wx * uy) by (nonlinear_arith)
            requires
                -ux * wy == -wx * uy,
        ;
        assert(ux * wx == wx * ux) by (nonlinear_arith);
        if wx == ux {
            assert(wy == uy) by (nonlinear_arith)
                requires
                    ux * wy == ux * uy,
                    ux != 0,
            ;
        }
        if wx == 0 {
            assert(wy == 0) by (nonlinear_arith)
                requires
                    ux * wy == 0 * uy,
                    ux != 0,
            ;
        }
        if ux > 0 {
            (ux, wx)
        } else {
            assert((-ux) * wy == (-wx) * uy) by (nonlinear_arith)
                requires
                    ux * wy == wx * uy,
            ;
            assert((-ux) * wx == (-wx) * ux) by (nonlinear_arith);
            (-ux, -wx)
        }
    } else {
        assert(wx == 0);
        assert(uy != 0);
        assert(uy * 0 == 0 && wy * 0 == 0);
        assert(uy * wy == wy * uy) by (nonlinear_arith);
        assert((-uy) * wy == (-wy) * uy) by (nonlinear_arith);
        assert((-uy) * 0 == 0 && (-wy) * 0 == 0);
        if uy > 0 {
            (uy, wy)
        } else {
            (-uy, -wy)
        }
    }
}

/// Weights carry over to areas.
proof fn lemma_share_areas(k: int, n: int, a: Vertex, b: Vertex, c: Vertex, p: Vertex, q: Vertex)
    requires
        k * (c.vx() - a.vx()) == n * (b.vx() - a.vx()),
        k * (c.vy() - a.vy()) == n * (b.vy() - a.vy()),
    ensures
        k * orient_det(a, c, p) == n * orient_det(a, b, p),
        k * (orient_det(p, q, c) - orient_det(p, q, a)) == n * (orient_det(p, q, b) - orient_det(
            p,
            q,
            a,
        )),
{
    let (cx, cy) = (c.vx() - a.vx(), c.vy() - a.vy());
    let (bx, by) = (b.vx() - a.vx(), b.vy() - a.vy());
    let (px, py) = (p.vx() - a.vx(), p.vy() - a.vy());
    let (dx, dy) = (p.vx() - q.vx(), p.vy() - q.vy());
    areas_turn(a, c, p);
    areas_turn(a, b, p);
    assert(orient_det(c, p, a) == cx * py - cy * px);
    assert(orient_det(b, p, a) == bx * py - by * px);
    assert(k * (cx * py - cy * px) == (k * cx) * py - (k * cy) * px) by (nonlinear_arith);
    assert(n * (bx * py - by * px) == (n * bx) * py - (n * by) * px) by (nonlinear_arith);
    lemma_area_moves(p, q, a, c);
    lemma_area_moves(p, q, a, b);
    assert(k * (dx * cy - dy * cx) == dx * (k * cy) - dy * (k * cx)) by (nonlinear_arith);
    assert(n * (dx * by - dy * bx) == dx * (n * by) - dy * (n * bx)) by (nonlinear_arith);
    assert(k * -(dx * cy - dy * cx) == -(k * (dx * cy - dy * cx))) by (nonlinear_arith);
    assert(n * -(dx * by - dy * bx) == -(n * (dx * by - dy * bx))) by (nonlinear_arith);
}

proof fn lemma_area_moves(p: Vertex, q: Vertex, a: Vertex, c: Vertex)
    ensures
        orient_det(p, q, c) - orient_det(p, q, a) == -((p.vx() - q.vx()) * (c.vy() - a.vy()) - (
        p.vy() - q.vy()) * (c.vx() - a.vx())),
{
    let (px, py, qx, qy) = (p.vx() - a.vx(), p.vy() - a.vy(), q.vx() - a.vx(), q.vy() - a.vy());
    let (cx, cy) = (c.vx() - a.vx(), c.vy() - a.vy());
    areas_add(p, q, c, a);
    assert((px - qx) * cy == px * cy - qx * cy) by (nonlinear_arith);
    assert((py - qy) * cx == py * cx - qy * cx) by (nonlinear_arith);
    lemma_swap(cx, py);
    lemma_swap(cy, px);
}

/// What is crossed short of a point of the segment is crossed on the whole way.
proof fn lemma_crossed_further(a: Vertex, b: Vertex, c: Vertex, p: Vertex, q: Vertex)
    requires
        on_segment(a, b, c),
        !same_place(a, b),
        is_crossed(a, c, p, q),
    ensures
        is_crossed(a, b, p, q),
{
    let (k, n) = lemma_share(a, b, c);
    lemma_share_areas(k, n, a, b, c, p, q);
    lemma_share_areas(k, n, a, b, c, q, p);
    let (cp, bp) = (orient_det(a, c, p), orient_det(a, b, p));
    let (cq, bq) = (orient_det(a, c, q), orient_det(a, b, q));
    let (fa, fb, fc) = (orient_det(p, q, a), orient_det(p, q, b), orient_det(p, q, c));
    assert(n > 0) by {
        if n == 0 {
            assert(0 * bp == 0);
            assert(cp == 0) by (nonlinear_arith)
                requires
                    k * cp == 0,
                    k > 0,
            ;
        }
    }
    assert(bp < 0) by (nonlinear_arith)
        requires
            k * cp == n * bp,
            k > 0,
            n > 0,
            cp < 0,
    ;
    assert(bq > 0) by (nonlinear_arith)
        requires
            k * cq == n * bq,
            k > 0,
            n > 0,
            cq > 0,
    ;
    let (x, y) = (fc - fa, fb - fa);
    assert(y <= x) by (nonlinear_arith)
        requires
            k * x == n * y,
            k > 0,
            0 < n <= k,
            x < 0,
    ;
}

proof fn lemma_turned(s: Vertex, t: Vertex, p: Vertex, q: Vertex)
    ensures
        is_crossed(s, t, p, q) == is_crossed(t, s, q, p),
        on_segment(s, t, p) == on_segment(t, s, p),
{
    orientation_turns(s, t, p);
    orientation_turns(s, t, q);
    orientation_turns(p, q, s);
    orientation_turns(p, q, t);
}

/// A point of a part of a segment is a point of the segment.
proof fn lemma_on_part(a: Vertex, b: Vertex, c: Vertex, d: Vertex)
    requires
        on_segment(a, b, c),
        on_segment(a, c, d),
        !same_place(a, c),
    ensures
        on_segment(a, b, d),
{
    if same_place(a, b) {
        assert(same_place(a, c));
    }
    let (k, n) = lemma_share(a, b, c);
    lemma_share_areas(k, n, a, b, c, d, d);
    let (x, y) = (orient_det(a, c, d), orient_det(a, b, d));
    assert(n > 0) by {
        if n == 0 {
            assert(same_place(a, c));
        }
    }
    assert(y == 0) by (nonlinear_arith)
        requires
            k * x == n * y,
            x == 0,
            n > 0,
    ;
}

/// The far end of a part of a segment may be left out.
proof fn lemma_on_rest(a: Vertex, b: Vertex, c: Vertex, d: Vertex)
    requires
        on_segment(a, b, c),
        on_segment(c, b, d),
        !same_place(b, c),
    ensures
        on_segment(a, b, d),
{
    lemma_turned(a, b, c, c);
    lemma_turned(c, b, d, d);
    lemma_turned(a, b, d, d);
    lemma_on_part(b, a, c, d);
}

proof fn lemma_between_values(k: int, i: int, j: int, u: int, x: int, y: int)
    requires
        k > 0,
        0 <= i <= j,
        k * x == i * u,
        k * y == j * u,
    ensures
        0 <= x <= y || y <= x <= 0,
{
    if u >= 0 {
        assert(0 <= x <= y) by (nonlinear_arith)
            requires
                k > 0,
                0 <= i <= j,
                k * x == i * u,
                k * y == j * u,
                u >= 0,
        ;
    } else {
        assert(y <= x <= 0) by (nonlinear_arith)
            requires
                k > 0,
                0 <= i <= j,
                k * x == i * u,
                k * y == j * u,
                u < 0,
        ;
    }
}

proof fn lemma_parallel(k: int, i: int, j: int, ux: int, uy: int, x: int, y: int, v: int, w: int)
    requires
        k > 0,
        k * x == i * ux,
        k * y == i * uy,
        k * v == j * ux,
        k * w == j * uy,
    ensures
        x * w - y * v == 0,
{
    assert((k * x) * (k * w) == (k * y) * (k * v)) by {
        assert((i * ux) * (j * uy) == (i * uy) * (j * ux)) by (nonlinear_arith);
    }
    lemma_cross_scaled(k, x, y, v, w);
    let (kk, z) = (k * k, x * w - y * v);
    assert(kk > 0) by (nonlinear_arith)
        requires
            kk == k * k,
            k > 0,
    ;
    assert(z == 0) by (nonlinear_arith)
        requires
            kk * z == 0,
            kk > 0,
    ;
}

/// Of two points of a segment, the second is ahead of the first or behind it.
proof fn lemma_ordered(c: Vertex, d: Vertex, p: Vertex, q: Vertex)
    requires
        on_segment(c, d, p),
        on_segment(c, d, q),
        !same_place(c, d),
    ensures
        on_segment(p, d, q) || on_segment(p, c, q),
{
    let (k, i) = lemma_share(c, d, p);
    let (k2, j) = lemma_share(c, d, q);
    assert(k == k2);
    let (ux, uy) = (d.vx() - c.vx(), d.vy() - c.vy());
    let (px, py) = (p.vx() - c.vx(), p.vy() - c.vy());
    let (qx, qy) = (q.vx() - c.vx(), q.vy() - c.vy());
    if i <= j {
        assert(k * (qx - px) == (j - i) * ux && k * (qy - py) == (j - i) * uy) by (nonlinear_arith)
            requires
                k * px == i * ux && k * py == i * uy,
                k * qx == j * ux && k * qy == j * uy,
        ;
        assert(k * (ux - px) == (k - i) * ux && k * (uy - py) == (k - i) * uy) by (nonlinear_arith)
            requires
                k * px == i * ux && k * py == i * uy,
        ;
        lemma_between_values(k, j - i, k - i, ux, qx - px, ux - px);
        lemma_between_values(k, j - i, k - i, uy, qy - py, uy - py);
        lemma_parallel(k, k - i, j - i, ux, uy, ux - px, uy - py, qx - px, qy - py);
        areas_turn(p, d, q);
        areas_turn(d, q, p);
        assert(orient_det(d, q, p) == (ux - px) * (qy - py) - (uy - py) * (qx - px));
        assert(on_segment(p, d, q));
    } else {
        assert(k * (px - qx) == (i - j) * ux && k * (py - qy) == (i - j) * uy) by (nonlinear_arith)
            requires
                k * px == i * ux && k * py == i * uy,
                k * qx == j * ux && k * qy == j * uy,
        ;
        lemma_between_values(k, i - j, i, ux, px - qx, px);
        lemma_between_values(k, i - j, i, uy, py - qy, py);
        lemma_parallel(k, i, i - j, ux, uy, px, py, px - qx, py - qy);
        areas_turn(p, c, q);
        areas_turn(c, q, p);
        assert(orient_det(c, q, p) == (-px) * (qy - py) - (-py) * (qx - px));
        assert((-px) * (qy - py) - (-py) * (qx - px) == px * (py - qy) - py * (px - qx))
            by (nonlinear_arith);
        assert(on_segment(p, c, q));
    }
}

/// What crosses a part of a segment crosses the segment.
pub proof fn parts_cross_as_wholes(
    a: Vertex,
    b: Vertex,
    c: Vertex,
    d: Vertex,
    p: Vertex,
    q: Vertex,
)
    requires
        on_segment(c, d, p),
        on_segment(c, d, q),
        is_crossed(a, b, p, q),
    ensures
        is_crossed(a, b, c, d) || is_crossed(a, b, d, c),
{
    if same_place(c, d) {
        assert(same_place(p, q));
        assert(orient_det(a, b, p) == orient_det(a, b, q));
    }
    lemma_ordered(c, d, p, q);
    lemma_mutual(a, b, p, q);
    lemma_mutual(a, b, c, d);
    lemma_mutual(a, b, d, c);
    if on_segment(p, d, q) {
        lemma_wholes(a, b, c, d, p, q);
    } else {
        lemma_turned(c, d, p, p);
        lemma_turned(c, d, q, q);
        lemma_wholes(a, b, d, c, p, q);
    }
}

/// Crossing is mutual.
proof fn lemma_mutual(s: Vertex, t: Vertex, p: Vertex, q: Vertex)
    ensures
        is_crossed(s, t, p, q) == is_crossed(p, q, t, s),
{
    orientation_turns(s, t, p);
    orientation_turns(s, t, q);
}

proof fn lemma_wholes(a: Vertex, b: Vertex, c: Vertex, d: Vertex, p: Vertex, q: Vertex)
    requires
        on_segment(c, d, p),
        on_segment(p, d, q),
        !same_place(c, d),
        is_crossed(p, q, b, a),
    ensures
        is_crossed(c, d, b, a),
{
    if same_place(p, d) {
        assert(same_place(q, p));
        assert(orient_det(b, a, p) == orient_det(b, a, q));
    }
    lemma_crossed_further(p, d, q, b, a);
    lemma_turned(p, d, b, a);
    lemma_turned(c, d, p, p);
    lemma_crossed_further(d, c, p, a, b);
    lemma_turned(c, d, b, a);
}

fn is_on_segment(a: Vertex, b: Vertex, p: Vertex) -> (r: bool)
    ensures
        r == on_segment(a, b, p),
{
    is_in_range(a.x, b.x, p.x) && is_in_range(a.y, b.y, p.y) && orient2d(a, b, p) == 0
}

// --- Crossing subsegments ---------------------------------------------------

/// Whether subsegment `k` is live and has its ends in the mesh.
pub open spec fn is_sub(m: MeshView, k: u32) -> bool {
    &&& 0 < k < m.sub_count
    &&& !m.sub_dead(k)
    &&& m.has_vertex(m.svert[Osub { sub: k, orient: 0 }])
    &&& m.has_vertex(m.svert[Osub { sub: k, orient: 1 }])
}

/// The place of an end of subsegment `k`.
pub open spec fn sub_end(m: MeshView, k: u32, e: u8) -> Vertex {
    m.pos(m.svert[Osub { sub: k, orient: e }])
}

/// Whether a live subsegment and the segment from `s` to `t` cross, each with
/// its ends strictly on both sides of the other.
pub open spec fn crosses(m: MeshView, k: u32, s: Vertex, t: Vertex) -> bool {
    is_sub(m, k) && (is_crossed(s, t, sub_end(m, k, 0), sub_end(m, k, 1)) || is_crossed(
        s,
        t,
        sub_end(m, k, 1),
        sub_end(m, k, 0),
    ))
}

/// Whether some live subsegment crosses the segment from `s` to `t`.
pub open spec fn crosses_any(m: MeshView, s: Vertex, t: Vertex) -> bool {
    exists|k: u32| #[trigger] crosses(m, k, s, t)
}

proof fn lemma_free(m: MeshView, s: Vertex, t: Vertex)
    requires
        is_plane(m),
        !crosses_any(m, s, t),
    ensures
        is_free(m, s, t),
{
    assert forall|e: Otri| #[trigger] is_crossing(m, s, t, e) implies m.tsub[e].sub == 0 by {
        edges_are_joined(m, e);
        let k = m.tsub[e].sub;
        if k != 0 {
            assert(joins(m, k, m.org(e), m.dest(e)));
            assert(crosses(m, k, s, t));
        }
    }
}

/// The rest of a way is crossed by no more than the whole.
proof fn lemma_parts_uncrossed(m: MeshView, a: Vertex, b: Vertex, c: Vertex)
    requires
        on_segment(a, b, c),
        !same_place(a, b),
        !crosses_any(m, a, b),
    ensures
        !crosses_any(m, a, c),
        !crosses_any(m, c, b),
{
    if crosses_any(m, a, c) {
        let k = choose|k: u32| #[trigger] crosses(m, k, a, c);
        let (p, q) = (sub_end(m, k, 0), sub_end(m, k, 1));
        if is_crossed(a, c, p, q) {
            lemma_crossed_further(a, b, c, p, q);
        } else {
            lemma_crossed_further(a, b, c, q, p);
        }
        assert(crosses(m, k, a, b));
    }
    if crosses_any(m, c, b) {
        let k = choose|k: u32| #[trigger] crosses(m, k, c, b);
        let (p, q) = (sub_end(m, k, 0), sub_end(m, k, 1));
        lemma_turned(a, b, c, c);
        lemma_turned(a, b, p, q);
        lemma_turned(a, b, q, p);
        lemma_turned(c, b, p, q);
        lemma_turned(c, b, q, p);
        if is_crossed(c, b, p, q) {
            lemma_crossed_further(b, a, c, q, p);
        } else {
            lemma_crossed_further(b, a, c, p, q);
        }
        assert(crosses(m, k, a, b));
    }
}

/// Whether some live subsegment crosses the segment from `s` to `t`.
pub fn find_crossing(mesh: &CdtMesh, s: Vertex, t: Vertex) -> (r: bool)
    requires
        mesh@.wf(),
    ensures
        r == crosses_any(mesh@, s, t),
{
    let n: usize = mesh.sub_slots();
    let mut k: u32 = 1;
    while (k as usize) < n
        invariant
            mesh@.wf(),
            1 <= k <= n,
            n == mesh@.sub_count,
            forall|j: u32| j < k ==> !#[trigger] crosses(mesh@, j, s, t),
        decreases n - k,
    {
        if !mesh.is_sub_dead(k) {
            let u = mesh.sorg(Osub { sub: k, orient: 0 });
            let v = mesh.sorg(Osub { sub: k, orient: 1 });
            if known(mesh, u) && known(mesh, v) {
                let (p, q) = (mesh.vertex_pos(u), mesh.vertex_pos(v));
                let (x, y) = (orient2d(s, t, p), orient2d(s, t, q));
                proof {
                    orientation_turns(p, q, s);
                    orientation_turns(p, q, t);
                }
                if (x < 0 && y > 0 && orient2d(p, q, s) > 0 && orient2d(p, q, t) < 0) || (x > 0 && y
                    < 0 && orient2d(p, q, s) < 0 && orient2d(p, q, t) > 0) {
                    assert(crosses(mesh@, k, s, t));
                    return true;
                }
            }
        }
        k += 1;
    }
    false
}

// --- New subsegments --------------------------------------------------------

/// How many subsegments can still be made.
pub open spec fn spare(m: MeshView) -> int {
    m.free_subs.len() + SUB_LIMIT - m.sub_count
}

/// Whether subsegment `k` is in `w` as it was in `m`.
pub open spec fn is_old(m: MeshView, w: MeshView, k: u32) -> bool {
    is_sub(m, k) && sub_end(w, k, 0) == sub_end(m, k, 0) && sub_end(w, k, 1) == sub_end(m, k, 1)
}

/// Whether subsegment `k` lies on the segment from `s` to `t`.
pub open spec fn is_part(m: MeshView, k: u32, s: Vertex, t: Vertex) -> bool {
    on_segment(s, t, sub_end(m, k, 0)) && on_segment(s, t, sub_end(m, k, 1))
}

/// Whether every live subsegment of `w` was in `m` or lies on the segment from
/// `s` to `t`.
pub open spec fn grows_along(m: MeshView, w: MeshView, s: Vertex, t: Vertex) -> bool {
    forall|k: u32| #[trigger] is_sub(w, k) ==> is_old(m, w, k) || is_part(w, k, s, t)
}

/// What a new subsegment changes.
#[verifier::spinoff_prover]
#[verifier::rlimit(60)]
pub(crate) proof fn lemma_subseg_links(m: MeshView, o: Otri, marker: i32)
    requires
        is_plane(m),
        m.wf(),
        tidy(m),
        is_live(m, o),
        subseg_inserted(m, o, marker).1 is Ok,
        lasts(m, subseg_inserted(m, o, marker).0),
        same_frame(m, subseg_inserted(m, o, marker).0),
        subseg_inserted(m, o, marker).0.wf(),
    ensures
        ({
            let w = subseg_inserted(m, o, marker).0;
            let k = w.tsub[o].sub;
            &&& w.nbr == m.nbr && w.corner == m.corner && w.tflags == m.tflags && w.tri_count
                == m.tri_count
            &&& is_sub(w, k)
            &&& joins(w, k, m.org(o), m.dest(o))
            &&& m.nbr[o].tri != 0 ==> w.tsub[m.nbr[o]].sub == k
            &&& forall|x: Otri| #[trigger]
                is_live(m, x) && x != o && x != m.nbr[o] ==> w.tsub[x].sub == m.tsub[x].sub
            &&& forall|j: u32| #[trigger] is_sub(w, j) ==> j == k || is_old(m, w, j)
            &&& spare(w) >= spare(m) - 1
            &&& marker != 0 ==> w.smark[k as int] != 0
        }),
{
    reveal(subseg_inserted);
    edges_are_joined(m, o);
    let w = subseg_inserted(m, o, marker).0;
    let k = w.tsub[o].sub;
    let (a, b) = (m.org(o), m.dest(o));
    let (k0, k1) = (Osub { sub: k, orient: 0 }, Osub { sub: k, orient: 1 });
    assert(k0.other() == k1);
    assert(w.has_sub(w.tsub[o]));
    if m.tsub[o].sub == 0 {
        assert(k == m.next_sub());
        assert(w.sflags[k as int] == 0u8);
        assert(0u8 & 1 == 0) by (bit_vector);
        assert(!w.sub_dead(k));
        assert(w.svert[k0] == b && w.svert[k1] == a);
        if m.free_subs.len() > 0 {
            assert(m.sub_dead(m.free_subs[m.free_subs.len() - 1]));
        }
        assert forall|j: u32| #[trigger] is_sub(w, j) implies j == k || is_old(m, w, j) by {
            if j != k {
                let (j0, j1) = (Osub { sub: j, orient: 0 }, Osub { sub: j, orient: 1 });
                assert(w.svert[j0] == m.svert[j0] && w.svert[j1] == m.svert[j1]);
                assert(w.sflags[j as int] == m.sflags[j as int]);
                let (u, v) = (m.svert[j0], m.svert[j1]);
                assert(w.vertices[u.0 as int].position == m.pos(u));
                assert(w.vertices[v.0 as int].position == m.pos(v));
            }
        }
    } else {
        assert(joins(m, k, a, b));
        assert forall|j: u32| #[trigger] is_sub(w, j) implies is_old(m, w, j) by {
            let (j0, j1) = (Osub { sub: j, orient: 0 }, Osub { sub: j, orient: 1 });
            let (u, v) = (m.svert[j0], m.svert[j1]);
            assert(w.vertices[u.0 as int].position == m.pos(u));
            assert(w.vertices[v.0 as int].position == m.pos(v));
        }
    }
}

/// A triangulation with one more constrained edge is one.
#[verifier::spinoff_prover]
#[verifier::rlimit(60)]
pub(crate) proof fn lemma_subseg_plane(m: MeshView, o: Otri, marker: i32)
    requires
        is_plane(m),
        m.wf(),
        tidy(m),
        is_live(m, o),
        subseg_inserted(m, o, marker).1 is Ok,
        lasts(m, subseg_inserted(m, o, marker).0),
        same_frame(m, subseg_inserted(m, o, marker).0),
        subseg_inserted(m, o, marker).0.wf(),
    ensures
        is_plane(subseg_inserted(m, o, marker).0),
        corners(subseg_inserted(m, o, marker).0) == corners(m),
{
    let w = subseg_inserted(m, o, marker).0;
    lemma_subseg_links(m, o, marker);
    let set = corners(m);
    assert(corners(w) == corners(m)) by {
        lemma_corners_same(m, w);
    }
    assert(forall|v: VertexId| #[trigger] m.has_vertex(v) ==> w.pos(v) == m.pos(v)) by {
        assert forall|v: VertexId| #[trigger] m.has_vertex(v) implies w.pos(v) == m.pos(v) by {
            assert(w.vertices[v.0 as int].position == m.vertices[v.0 as int].position);
        }
    }
    reveal(is_plane);
    edges_are_joined(m, o);
    assert forall|x: Otri| #[trigger] is_live(w, x) implies is_cell(w, set, x) by {
        assert(is_live(m, x));
        assert(is_cell(m, set, x));
        edges_are_joined(m, x);
        assert forall|v: VertexId| #[trigger]
            set.contains(v) && covers(w, x, w.pos(v)) implies is_corner(w, x, v) by {
            assert(m.has_vertex(v));
            assert(covers(m, x, m.pos(v)));
        }
        assert(is_joined(w, x));
        assert(is_bound(w, x)) by {
            let k = w.tsub[x].sub;
            if x != o && x != m.nbr[o] {
                let n = m.nbr[x];
                if n.tri != 0 {
                    assert(is_live(m, n));
                    assert(m.nbr[n] == x);
                    assert(n != o);
                    if n == m.nbr[o] {
                        assert(m.nbr[m.nbr[o]] == o);
                    }
                }
                if k != 0 {
                    let (k0, k1) = (Osub { sub: k, orient: 0 }, Osub { sub: k, orient: 1 });
                    assert(m.has_sub(k0) && m.has_sub(k1));
                }
            } else if x == m.nbr[o] {
                assert(m.nbr[x] == o);
            }
        }
    }
    assert(is_spread(w, set));
    assert forall|x: Otri| #[trigger] is_live(w, x) && w.nbr[x].tri == 0 implies bounds_all(
        w,
        set,
        x,
    ) by {
        assert(is_live(m, x));
        assert(bounds_all(m, set, x));
        edges_are_joined(m, x);
        assert forall|v: VertexId| #[trigger] set.contains(v) implies orient(
            w.pos(w.org(x)),
            w.pos(w.dest(x)),
            w.pos(v),
        ) >= 0 by {
            assert(m.has_vertex(v));
            assert(orient(m.pos(m.org(x)), m.pos(m.dest(x)), m.pos(v)) >= 0);
        }
    }
    assert(is_live(m, m.nbr[no_tri()]) ==> is_live(w, m.nbr[no_tri()]));
    assert(is_anchored(w));
}

proof fn lemma_corners_same(m: MeshView, w: MeshView)
    requires
        w.corner == m.corner,
        w.tflags == m.tflags,
        w.tri_count == m.tri_count,
    ensures
        corners(w) == corners(m),
{
    reveal(corners);
    assert forall|v: VertexId| is_used(m, v) implies #[trigger] is_used(w, v) by {
        let o = choose|o: Otri| #[trigger] is_live(m, o) && m.org(o) == v;
        assert(is_live(w, o) && w.org(o) == v);
    }
    assert forall|v: VertexId| is_used(w, v) implies #[trigger] is_used(m, v) by {
        let o = choose|o: Otri| #[trigger] is_live(w, o) && w.org(o) == v;
        assert(is_live(m, o) && m.org(o) == v);
    }
    assert(corners(w) =~= corners(m));
}

// --- From corner to corner --------------------------------------------------

/// Which vertices are corners of live triangles.
pub fn find_used(mesh: &CdtMesh) -> (used: Vec<bool>)
    requires
        mesh@.wf(),
    ensures
        used@.len() == mesh@.vertices.len(),
        forall|v: VertexId| #[trigger]
            mesh@.has_vertex(v) ==> used@[v.0 as int] == is_used(mesh@, v),
{
    let count: usize = mesh.vertex_count();
    let mut used: Vec<bool> = Vec::new();
    let mut i: usize = 0;
    while i < count
        invariant
            i <= count,
            used@.len() == i,
            forall|k: int| 0 <= k < i ==> !#[trigger] used@[k],
        decreases count - i,
    {
        used.push(false);
        i += 1;
    }
    let n: usize = mesh.tri_slots();
    let mut t: u32 = 1;
    while (t as usize) < n
        invariant
            mesh@.wf(),
            1 <= t <= n,
            n == mesh@.tri_count,
            used@.len() == mesh@.vertices.len(),
            forall|v: VertexId| #[trigger]
                mesh@.has_vertex(v) && used@[v.0 as int] ==> is_used(mesh@, v),
            forall|o: Otri| #[trigger]
                is_live(mesh@, o) && o.tri < t && mesh@.has_vertex(mesh@.org(o))
                    ==> used@[mesh@.org(o).0 as int],
        decreases n - t,
    {
        let mut k: u8 = 0;
        while k < 3 && !mesh.is_dead(t)
            invariant
                mesh@.wf(),
                k <= 3,
                0 < t < n,
                n == mesh@.tri_count,
                used@.len() == mesh@.vertices.len(),
                forall|v: VertexId| #[trigger]
                    mesh@.has_vertex(v) && used@[v.0 as int] ==> is_used(mesh@, v),
                forall|o: Otri| #[trigger]
                    is_live(mesh@, o) && (o.tri < t || (o.tri == t && o.orient < k))
                        && mesh@.has_vertex(mesh@.org(o)) ==> used@[mesh@.org(o).0 as int],
            decreases 3 - k,
        {
            let o = Otri { tri: t, orient: k };
            let v = mesh.org(o);
            if known(mesh, v) {
                assert(is_live(mesh@, o));
                used.set(v.0 as usize, true);
            }
            k += 1;
        }
        t += 1;
    }
    proof {
        assert forall|v: VertexId| #[trigger] mesh@.has_vertex(v) implies used@[v.0 as int]
            == is_used(mesh@, v) by {
            if is_used(mesh@, v) {
                let o = choose|o: Otri| #[trigger] is_live(mesh@, o) && mesh@.org(o) == v;
                assert(used@[mesh@.org(o).0 as int]);
            }
        }
    }
    used
}

/// Whether a list marks the corners of live triangles.
spec fn marks_corners(m: MeshView, used: Seq<bool>) -> bool {
    &&& used.len() == m.vertices.len()
    &&& forall|v: VertexId| #[trigger] m.has_vertex(v) ==> used[v.0 as int] == corners(m).contains(v)
}

/// The next corner on the way from one to another.
fn find_next_corner(mesh: &CdtMesh, used: &Vec<bool>, a: VertexId, b: VertexId) -> (c: VertexId)
    requires
        mesh@.wf(),
        is_plane(mesh@),
        marks_corners(mesh@, used@),
        corners(mesh@).contains(a),
        corners(mesh@).contains(b),
        mesh@.has_vertex(a),
        mesh@.has_vertex(b),
        a != b,
    ensures
        corners(mesh@).contains(c),
        mesh@.has_vertex(c),
        c != a,
        on_segment(mesh@.pos(a), mesh@.pos(b), mesh@.pos(c)),
        is_clear(mesh@, a, c),
{
    let (s, t) = (mesh.vertex_pos(a), mesh.vertex_pos(b));
    let mut best = b;
    let mut far = t;
    let mut i: usize = 0;
    proof {
        areas_turn(s, t, t);
        areas_turn(t, s, t);
    }
    while i < used.len()
        invariant
            i <= used@.len(),
            mesh@.wf(),
            is_plane(mesh@),
            marks_corners(mesh@, used@),
            corners(mesh@).contains(a),
            corners(mesh@).contains(best),
            mesh@.has_vertex(best),
            best != a,
            s == mesh@.pos(a),
            t == mesh@.pos(b),
            far == mesh@.pos(best),
            on_segment(s, t, far),
            forall|v: VertexId|
                v.0 < i && #[trigger] corners(mesh@).contains(v) && on_segment(
                    s,
                    far,
                    mesh@.pos(v),
                ) ==> v == a || v == best,
        decreases used.len() - i,
    {
        let v = VertexId(i as u32);
        assert(mesh@.has_vertex(v));
        if used[i] && v != a && v != best {
            let p = mesh.vertex_pos(v);
            if is_on_segment(s, far, p) {
                proof {
                    if same_place(s, far) {
                        corners_are_apart(mesh@, a, best);
                    }
                    if same_place(s, p) {
                        corners_are_apart(mesh@, a, v);
                    }
                    lemma_on_part(s, t, far, p);
                    assert forall|x: VertexId|
                        x.0 < i + 1 && #[trigger] corners(mesh@).contains(x) && on_segment(
                            s,
                            p,
                            mesh@.pos(x),
                        ) implies x == a || x == v by {
                        if x != v {
                            lemma_on_part(s, far, p, mesh@.pos(x));
                            if x == best {
                                assert(same_place(p, far));
                                corners_are_apart(mesh@, v, best);
                            }
                        }
                    }
                }
                best = v;
                far = p;
            }
        }
        i += 1;
    }
    proof {
        assert forall|v: VertexId| #[trigger]
            corners(mesh@).contains(v) && on_segment(s, far, mesh@.pos(v)) implies v == a || v
            == best by {
            corners_are_vertices(mesh@, v);
        }
    }
    best
}

/// Counts a vertex ahead of `a` on the way to `b`.
spec fn ahead_at(m: MeshView, a: VertexId, b: VertexId) -> spec_fn(int) -> int {
    |k: int|
        if k != a.0 && on_segment(m.pos(a), m.pos(b), m.vertices[k].position) {
            1
        } else {
            0
        }
}

/// How many vertices are ahead of `a` on the way to `b`.
spec fn ahead(m: MeshView, a: VertexId, b: VertexId) -> int {
    total(ahead_at(m, a, b), m.vertices.len())
}

proof fn lemma_total_at_most(f: spec_fn(int) -> int, n: nat)
    requires
        forall|k: int| 0 <= k < n ==> 0 <= #[trigger] f(k) <= 1,
    ensures
        0 <= total(f, n) <= n,
    decreases n,
{
    if n > 0 {
        lemma_total_at_most(f, (n - 1) as nat);
        assert(0 <= f(n - 1) <= 1);
    }
}

proof fn lemma_ahead_bounds(m: MeshView, a: VertexId, b: VertexId)
    ensures
        0 <= ahead(m, a, b) <= m.vertices.len(),
{
    lemma_total_at_most(ahead_at(m, a, b), m.vertices.len());
}

proof fn lemma_ahead_less(m: MeshView, a: VertexId, b: VertexId, c: VertexId)
    requires
        m.has_vertex(a),
        m.has_vertex(b),
        m.has_vertex(c),
        c != a,
        !same_place(m.pos(a), m.pos(c)),
        on_segment(m.pos(a), m.pos(b), m.pos(c)),
    ensures
        ahead(m, c, b) < ahead(m, a, b),
{
    let (f, g) = (ahead_at(m, c, b), ahead_at(m, a, b));
    let (s, t, p) = (m.pos(a), m.pos(b), m.pos(c));
    assert forall|k: int| 0 <= k < m.vertices.len() implies #[trigger] f(k) <= g(k) by {
        if f(k) == 1 {
            let x = m.vertices[k].position;
            if same_place(t, p) {
                lemma_on_end(p, t, x);
                assert(on_segment(s, t, x)) by {
                    assert(orient_det(s, t, x) == orient_det(s, t, p));
                }
            } else {
                lemma_on_rest(s, t, p, x);
            }
            if k == a.0 {
                assert(same_place(s, p));
            }
        }
    }
    assert(f(c.0 as int) == 0);
    assert(g(c.0 as int) == 1);
    lemma_total_less(f, g, m.vertices.len(), c.0 as int);
}

proof fn lemma_on_end(p: Vertex, t: Vertex, x: Vertex)
    requires
        same_place(t, p),
        on_segment(p, t, x),
    ensures
        same_place(x, p),
{
}

/// The stretch just made.
proof fn lemma_stretch(
    m: MeshView,
    w: MeshView,
    trail: Seq<u32>,
    s: Vertex,
    t: Vertex,
    k: u32,
    a: VertexId,
    b: VertexId,
)
    requires
        tidy(m),
        lasts(m, w),
        followed(m, trail, s, trail.len()) == Some(m.pos(a)),
        forall|n: int|
            0 <= n <= trail.len() ==> (#[trigger] followed(m, trail, s, n as nat) matches Some(p)
                && on_segment(s, t, p)),
        is_sub(w, k),
        joins(w, k, a, b),
        m.pos(a) == w.pos(a),
        !same_place(w.pos(a), w.pos(b)),
        on_segment(s, t, w.pos(b)),
    ensures
        followed(w, trail.push(k), s, trail.len() + 1) == Some(w.pos(b)),
        forall|n: int|
            0 <= n <= trail.len() + 1 ==> (#[trigger] followed(
                w,
                trail.push(k),
                s,
                n as nat,
            ) matches Some(p) && on_segment(s, t, p)),
{
    let all = trail.push(k);
    assert forall|n: int| 0 <= n <= trail.len() implies #[trigger] followed(w, all, s, n as nat)
        == followed(m, trail, s, n as nat) by {
        assert(followed(m, trail, s, n as nat) is Some);
        lemma_followed_lasts(m, w, trail, s, n as nat);
        lemma_followed_pushed(w, trail, k, s, n as nat);
    }
    assert(followed(w, all, s, trail.len()) == Some(w.pos(a)));
    assert(all[trail.len() as int] == k);
    assert(next_place(w, k, w.pos(a)) == Some(w.pos(b)));
    assert(followed(w, all, s, trail.len() + 1) == next_place(w, k, w.pos(a)));
    assert forall|n: int| 0 <= n <= trail.len() + 1 implies (#[trigger] followed(
        w,
        all,
        s,
        n as nat,
    ) matches Some(p) && on_segment(s, t, p)) by {
        if n <= trail.len() {
            assert(followed(m, trail, s, n as nat) is Some);
        }
    }
}

proof fn lemma_followed_pushed(m: MeshView, trail: Seq<u32>, k: u32, from: Vertex, n: nat)
    requires
        n <= trail.len(),
    ensures
        followed(m, trail.push(k), from, n) == followed(m, trail, from, n),
    decreases n,
{
    if n > 0 {
        lemma_followed_pushed(m, trail, k, from, (n - 1) as nat);
        assert(trail.push(k)[n - 1] == trail[n - 1]);
    }
}

/// Flips leave the subsegments alone.
pub(crate) proof fn lemma_flipped_subs(m: MeshView, w: MeshView, s: Vertex, t: Vertex)
    requires
        same_but_links(m, w),
    ensures
        lasts(m, w),
        same_frame(m, w),
        tidy(w) == tidy(m),
        crosses_any(w, s, t) == crosses_any(m, s, t),
        spare(w) == spare(m),
        forall|k: u32| #[trigger] is_sub(w, k) ==> is_old(m, w, k),
{
    if crosses_any(w, s, t) {
        let k = choose|k: u32| #[trigger] crosses(w, k, s, t);
        assert(crosses(m, k, s, t));
    }
    if crosses_any(m, s, t) {
        let k = choose|k: u32| #[trigger] crosses(m, k, s, t);
        assert(crosses(w, k, s, t));
    }
    assert forall|k: u32| #[trigger] is_sub(w, k) implies is_old(m, w, k) by {
        assert(is_sub(m, k));
    }
}

/// A subsegment that joins two corners of the way does not cross the rest.
proof fn lemma_rest_uncrossed(
    m: MeshView,
    w: MeshView,
    k: u32,
    a: VertexId,
    c: VertexId,
    s: Vertex,
    t: Vertex,
)
    requires
        same_place(w.pos(c), s),
        !crosses_any(m, s, t),
        joins(w, k, a, c),
        forall|j: u32| #[trigger] is_sub(w, j) ==> j == k || is_old(m, w, j),
    ensures
        !crosses_any(w, s, t),
{
    if crosses_any(w, s, t) {
        let j = choose|j: u32| #[trigger] crosses(w, j, s, t);
        assert(is_sub(w, j));
        if j == k {
            let p = w.pos(c);
            assert(orient_det(s, t, p) == orient_det(s, t, s));
            areas_turn(s, t, s);
            areas_turn(t, s, s);
            areas_turn(s, s, t);
        } else {
            assert(crosses(m, j, s, t));
        }
    }
}

/// Where every subsegment of a chain of meshes comes from.
proof fn lemma_grows_on(
    m: MeshView,
    v: MeshView,
    w: MeshView,
    s: Vertex,
    t: Vertex,
    k: u32,
)
    requires
        grows_along(m, v, s, t),
        forall|j: u32| #[trigger] is_sub(w, j) ==> j == k || is_old(v, w, j),
        is_part(w, k, s, t),
    ensures
        grows_along(m, w, s, t),
{
    assert forall|j: u32| #[trigger] is_sub(w, j) implies is_old(m, w, j) || is_part(
        w,
        j,
        s,
        t,
    ) by {
        if j != k {
            assert(is_old(v, w, j));
            assert(is_sub(v, j));
        }
    }
}

/// Whether `k` is a subsegment, a marked one unless `marker` is zero.
pub open spec fn is_marked(m: MeshView, k: u32, marker: i32) -> bool {
    0 < k < m.sub_count && (marker != 0 ==> m.smark[k as int] != 0)
}

/// Whether a subsegment is in the mesh, a marked one unless `marker` is zero.
pub open spec fn has_marked(m: MeshView, marker: i32) -> bool {
    exists|k: u32| #[trigger] is_marked(m, k, marker)
}

/// Put the segment between two corners into a triangulation.
#[verifier::spinoff_prover]
#[verifier::rlimit(100)]
pub fn thread_segment(mesh: &mut CdtMesh, a: VertexId, b: VertexId, marker: i32) -> (r: Result<
    (),
    MeshFault,
>)
    requires
        old(mesh)@.wf(),
        is_plane(old(mesh)@),
        tidy(old(mesh)@),
        corners(old(mesh)@).contains(a),
        corners(old(mesh)@).contains(b),
        a != b,
        !crosses_any(old(mesh)@, old(mesh)@.pos(a), old(mesh)@.pos(b)),
    ensures
        final(mesh)@.wf(),
        is_plane(final(mesh)@),
        tidy(final(mesh)@),
        corners(final(mesh)@) == corners(old(mesh)@),
        same_frame(old(mesh)@, final(mesh)@),
        lasts(old(mesh)@, final(mesh)@),
        grows_along(old(mesh)@, final(mesh)@, old(mesh)@.pos(a), old(mesh)@.pos(b)),
        spare(final(mesh)@) >= spare(old(mesh)@) - old(mesh)@.vertices.len(),
        match r {
            Ok(_) => is_traced(final(mesh)@, a, b) && has_marked(final(mesh)@, marker),
            Err(fault) => fault is Full && spare(old(mesh)@) < old(mesh)@.vertices.len(),
        },
{
    let ghost m0 = mesh@;
    proof {
        corners_are_vertices(m0, a);
        corners_are_vertices(m0, b);
        lemma_ahead_bounds(m0, a, b);
        if same_place(m0.pos(a), m0.pos(b)) {
            corners_are_apart(m0, a, b);
        }
    }
    let used = find_used(mesh);
    assert(marks_corners(m0, used@)) by {
        reveal(corners);
    }
    let mut cur = a;
    let ghost mut trail: Seq<u32> = Seq::empty();
    let ghost (s, t) = (m0.pos(a), m0.pos(b));
    proof {
        areas_turn(s, t, s);
        areas_turn(t, s, s);
        areas_turn(s, s, t);
        assert(on_segment(s, t, s));
        assert(followed(m0, trail, s, 0) == Some(s));
        assert forall|n: int| 0 <= n <= trail.len() implies (#[trigger] followed(
            m0,
            trail,
            s,
            n as nat,
        ) matches Some(p) && on_segment(s, t, p)) by {
            assert(n == 0);
        }
        assert(grows_along(m0, m0, s, t));
    }
    while cur != b
        invariant
            m0 == old(mesh)@,
            mesh@.wf(),
            is_plane(mesh@),
            tidy(mesh@),
            tidy(m0),
            corners(mesh@) == corners(m0),
            marks_corners(m0, used@),
            corners(m0).contains(cur),
            corners(m0).contains(b),
            m0.has_vertex(a) && m0.has_vertex(b) && m0.has_vertex(cur),
            s == m0.pos(a) && t == m0.pos(b),
            !same_place(s, t),
            on_segment(s, t, m0.pos(cur)),
            same_frame(m0, mesh@),
            lasts(m0, mesh@),
            grows_along(m0, mesh@, s, t),
            !crosses_any(mesh@, m0.pos(cur), t),
            followed(mesh@, trail, s, trail.len()) == Some(m0.pos(cur)),
            forall|n: int|
                0 <= n <= trail.len() ==> (#[trigger] followed(
                    mesh@,
                    trail,
                    s,
                    n as nat,
                ) matches Some(p) && on_segment(s, t, p)),
            spare(mesh@) >= spare(m0) - trail.len(),
            trail.len() + ahead(m0, cur, b) <= m0.vertices.len(),
            cur == a || has_marked(mesh@, marker),
            a != b,
        decreases ahead(m0, cur, b),
    {
        let ghost m1 = mesh@;
        proof {
            assert(m1.vertices[cur.0 as int].position == m0.pos(cur));
            assert(m1.vertices[b.0 as int].position == m0.pos(b));
            assert forall|v: VertexId| #[trigger] m1.has_vertex(v) implies used@[v.0 as int]
                == corners(m1).contains(v) by {
                assert(m0.has_vertex(v));
            }
            assert(marks_corners(m1, used@));
        }
        let next = find_next_corner(mesh, &used, cur, b);
        proof {
            assert(m1.vertices[next.0 as int].position == m0.pos(next));
            if same_place(m0.pos(cur), m0.pos(next)) {
                corners_are_apart(m1, cur, next);
            }
            if same_place(m0.pos(cur), t) {
                corners_are_apart(m1, cur, b);
            }
            lemma_parts_uncrossed(m1, m0.pos(cur), t, m0.pos(next));
            lemma_free(m1, m1.pos(cur), m1.pos(next));
            lemma_on_rest(s, t, m0.pos(cur), m0.pos(next));
            lemma_ahead_less(m0, cur, b, next);
            lemma_ahead_bounds(m0, next, b);
        }
        let o = straighten(mesh, cur, next);
        let ghost m2 = mesh@;
        proof {
            lemma_flipped_subs(m1, m2, m0.pos(next), t);
            lasting_goes_on(m0, m1, m2);
            edges_are_joined(m2, o);
        }
        let put = insert_subseg(mesh, o, marker);
        let ghost w = mesh@;
        proof {
            lasting_goes_on(m0, m2, w);
        }
        if let Err(fault) = put {
            proof {
                lemma_subseg_full(m2, o, marker);
                lemma_full_kept(m2, w);
                assert forall|k: u32| #[trigger] is_sub(w, k) implies is_old(m0, w, k) || is_part(
                    w,
                    k,
                    s,
                    t,
                ) by {
                    assert(is_old(m2, w, k));
                    assert(is_old(m1, m2, k));
                    assert(is_sub(m1, k));
                }
            }
            return Err(fault);
        }
        proof {
            lemma_subseg_links(m2, o, marker);
            lemma_subseg_plane(m2, o, marker);
            let k = w.tsub[o].sub;
            assert(joins(w, k, cur, next));
            assert(w.vertices[cur.0 as int].position == m0.pos(cur));
            assert(w.vertices[next.0 as int].position == m0.pos(next));
            lemma_rest_uncrossed(m2, w, k, cur, next, m0.pos(next), t);
            assert(is_part(w, k, s, t));
            assert(grows_along(m0, m2, s, t)) by {
                assert forall|j: u32| #[trigger] is_sub(m2, j) implies is_old(m0, m2, j) || is_part(
                    m2,
                    j,
                    s,
                    t,
                ) by {
                    assert(is_old(m1, m2, j));
                    assert(is_sub(m1, j));
                }
            }
            lemma_grows_on(m0, m2, w, s, t, k);
            assert forall|n: int| 0 <= n <= trail.len() implies (#[trigger] followed(
                m2,
                trail,
                s,
                n as nat,
            ) matches Some(p) && on_segment(s, t, p)) by {
                assert(followed(m1, trail, s, n as nat) is Some);
                lemma_followed_lasts(m1, m2, trail, s, n as nat);
            }
            assert(followed(m1, trail, s, trail.len()) is Some);
            lemma_followed_lasts(m1, m2, trail, s, trail.len());
            lemma_stretch(m2, w, trail, s, t, k, cur, next);
            trail = trail.push(k);
            assert(is_marked(w, k, marker));
            assert(has_marked(w, marker));
        }
        cur = next;
    }
    proof {
        assert(mesh@.vertices[a.0 as int].position == s);
        assert(mesh@.vertices[b.0 as int].position == t);
        assert(leads(mesh@, trail, s, t));
        lemma_ahead_bounds(m0, b, b);
    }
    Ok(())
}

/// When a subsegment cannot be made.
pub(crate) proof fn lemma_subseg_full(m: MeshView, o: Otri, marker: i32)
    requires
        is_plane(m),
        m.wf(),
        is_live(m, o),
        subseg_inserted(m, o, marker).1 is Err,
    ensures
        subseg_inserted(m, o, marker).1 == Err::<(), MeshFault>(MeshFault::Full),
        spare(m) <= 0,
        ({
            let w = subseg_inserted(m, o, marker).0;
            w == (MeshView { vertices: w.vertices, ..m })
        }),
{
    reveal(subseg_inserted);
    edges_are_joined(m, o);
}

/// Marking vertices leaves a triangulation alone.
#[verifier::spinoff_prover]
pub(crate) proof fn lemma_full_kept(m: MeshView, w: MeshView)
    requires
        is_plane(m),
        m.wf(),
        w.wf(),
        same_frame(m, w),
        w == (MeshView { vertices: w.vertices, ..m }),
    ensures
        is_plane(w),
        corners(w) == corners(m),
        tidy(w) == tidy(m),
        spare(w) == spare(m),
        forall|k: u32| #[trigger] is_sub(w, k) ==> is_old(m, w, k),
{
    let set = corners(m);
    lemma_corners_same(m, w);
    assert forall|v: VertexId| #[trigger] m.has_vertex(v) implies w.pos(v) == m.pos(v) by {
        assert(w.vertices[v.0 as int].position == m.vertices[v.0 as int].position);
    }
    assert forall|k: u32| #[trigger] is_sub(w, k) implies is_old(m, w, k) by {
        let (k0, k1) = (Osub { sub: k, orient: 0 }, Osub { sub: k, orient: 1 });
        assert(m.has_vertex(m.svert[k0]) && m.has_vertex(m.svert[k1]));
    }
    reveal(is_plane);
    assert forall|x: Otri| #[trigger] is_live(w, x) implies is_cell(w, set, x) by {
        assert(is_live(m, x));
        assert(is_cell(m, set, x));
        edges_are_joined(m, x);
        assert forall|v: VertexId| #[trigger]
            set.contains(v) && covers(w, x, w.pos(v)) implies is_corner(w, x, v) by {
            assert(m.has_vertex(v));
            assert(covers(m, x, m.pos(v)));
        }
    }
    assert(is_spread(w, set));
    assert forall|x: Otri| #[trigger] is_live(w, x) && w.nbr[x].tri == 0 implies bounds_all(
        w,
        set,
        x,
    ) by {
        assert(is_live(m, x));
        assert(bounds_all(m, set, x));
        edges_are_joined(m, x);
        assert forall|v: VertexId| #[trigger] set.contains(v) implies orient(
            w.pos(w.org(x)),
            w.pos(w.dest(x)),
            w.pos(v),
        ) >= 0 by {
            assert(m.has_vertex(v));
            assert(orient(m.pos(m.org(x)), m.pos(m.dest(x)), m.pos(v)) >= 0);
        }
    }
    assert(is_live(m, m.nbr[no_tri()]) ==> is_live(w, m.nbr[no_tri()]));
    assert(is_anchored(w));
}

} // verus!
