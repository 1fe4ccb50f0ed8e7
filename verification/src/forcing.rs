//! Edges that cross a segment between two corners of a triangulation are flipped
//! until the segment is an edge.

use crate::bigint::BigInt;
use crate::coord::scale;
use crate::empty_circle::is_live;
use crate::flip::{flip, flipped};
use crate::fold::{
    crossings_come_in_order, fold, height, is_crossed, later, lemma_amid, lemma_bend_convex,
    lemma_collinear, lemma_height_grows, lemma_leaves_left, lemma_leaves_right, lemma_stops, off,
};
use crate::knitting::{lemma_three, lemma_turns};
use crate::lawson::{covers, is_corner, lemma_total_positive, numbered, total};
use crate::mesh::{CdtMesh, MeshView, Otri, VertexId};
use crate::paving::{
    corners, corners_are_vertices, edges_are_joined, flips_keep_meshes_plane, is_paved, is_plane,
    is_laid, is_turnable, is_used, laid_corners_are_apart, laid_edges_are_joined,
    laid_triangles_hold_their_corners, laid_walls_bound_all, planes_are_laid, lemma_flip_links,
};
use crate::plane::{areas_turn, wedge, wedges_mix, wedges_turn};
use crate::predicates::{
    big_cross, big_diff, cross, lemma_cross_scaled, lemma_sgn_scaled, magnitude_of, min_scale,
    orient, orient2d, orient_det, orientation_turns, Vertex,
};
use crate::segment::same_place;
use crate::settle::{
    bend, bend_at, flips_let_surfaces_down, room, rooms_are_not_negative, same_but_links,
};
use crate::trail::on_segment;
use vstd::arithmetic::power2::{lemma2_to64, lemma_pow2_pos, pow2};
use vstd::prelude::*;

verus! {

// --- The way from corner to corner ------------------------------------------

/// Whether a live edge is crossed on the way from `s` to `t`, its triangle
/// being on the near side.
pub open spec fn is_crossing(m: MeshView, s: Vertex, t: Vertex, e: Otri) -> bool {
    is_live(m, e) && is_crossed(s, t, m.pos(m.org(e)), m.pos(m.dest(e)))
}

/// Whether no vertex of a set lies between two others.
pub open spec fn is_clear_of(
    m: MeshView,
    set: Set<VertexId>,
    a: VertexId,
    b: VertexId,
) -> bool {
    forall|v: VertexId| #[trigger]
        set.contains(v) && on_segment(m.pos(a), m.pos(b), m.pos(v)) ==> v == a || v == b
}

/// Whether no corner lies between two others.
pub open spec fn is_clear(m: MeshView, a: VertexId, b: VertexId) -> bool {
    is_clear_of(m, corners(m), a, b)
}

/// Whether an edge runs between two vertices.
pub open spec fn is_span(m: MeshView, o: Otri, a: VertexId, b: VertexId) -> bool {
    &&& is_live(m, o)
    &&& (m.org(o) == a && m.dest(o) == b) || (m.org(o) == b && m.dest(o) == a)
}

/// Counts an edge that is crossed later than `e`.
spec fn later_at(m: MeshView, s: Vertex, t: Vertex, e: Otri) -> spec_fn(int) -> int {
    |k: int|
        {
            let x = numbered(k);
            if is_crossing(m, s, t, x) && later(
                s,
                t,
                m.pos(m.org(e)),
                m.pos(m.dest(e)),
                m.pos(m.org(x)),
                m.pos(m.dest(x)),
            ) {
                1
            } else {
                0
            }
        }
}

/// How many edges are crossed later than `e`.
spec fn later_count(m: MeshView, s: Vertex, t: Vertex, e: Otri) -> int {
    total(later_at(m, s, t, e), 3 * m.tri_count)
}

pub(crate) proof fn lemma_total_less(f: spec_fn(int) -> int, g: spec_fn(int) -> int, n: nat, i: int)
    requires
        forall|k: int| 0 <= k < n ==> #[trigger] f(k) <= g(k),
        i < n ==> f(i) < g(i),
        0 <= i,
    ensures
        total(f, n) <= total(g, n),
        i < n ==> total(f, n) < total(g, n),
    decreases n,
{
    if n > 0 {
        lemma_total_less(f, g, (n - 1) as nat, i);
        assert(f(n - 1) <= g(n - 1));
    }
}

proof fn lemma_later_less(m: MeshView, s: Vertex, t: Vertex, e: Otri, x: Otri)
    requires
        m.wf(),
        is_crossing(m, s, t, e),
        is_crossing(m, s, t, x),
        later(s, t, m.pos(m.org(e)), m.pos(m.dest(e)), m.pos(m.org(x)), m.pos(m.dest(x))),
    ensures
        0 <= later_count(m, s, t, x) < later_count(m, s, t, e),
{
    let (f, g) = (later_at(m, s, t, x), later_at(m, s, t, e));
    let n = 3 * m.tri_count;
    assert forall|k: int| 0 <= k < n implies #[trigger] f(k) <= g(k) by {
        let y = numbered(k);
        if f(k) == 1 {
            crossings_come_in_order(
                s,
                t,
                m.pos(m.org(e)),
                m.pos(m.dest(e)),
                m.pos(m.org(x)),
                m.pos(m.dest(x)),
                m.pos(m.org(y)),
                m.pos(m.dest(y)),
            );
        }
    }
    let i = 3 * x.tri as int + x.orient as int;
    assert(numbered(i) == x);
    assert(f(i) == 0);
    assert(g(i) == 1);
    lemma_total_less(f, g, n, i);
    assert forall|k: int| 0 <= k < n implies #[trigger] f(k) >= 0 by {}
    lemma_total_positive(f, n);
}

/// From a crossed edge to one where the folded plane bends down.
#[verifier::spinoff_prover]
#[verifier::rlimit(80)]
proof fn lemma_walk(m: MeshView, set: Set<VertexId>, a: VertexId, b: VertexId, e: Otri) -> (f: Otri)
    requires
        is_laid(m, set),
        is_used(m, a),
        set.contains(b),
        is_clear_of(m, set, a, b),
        is_crossing(m, m.pos(a), m.pos(b), e),
        height(
            m.pos(a),
            m.pos(b),
            m.pos(m.org(e)),
            m.pos(m.dest(e)),
            m.pos(m.apex(e)),
            m.pos(b),
        ) > 0,
    ensures
        is_crossing(m, m.pos(a), m.pos(b), f),
        m.nbr[f].tri != 0,
        bend_at(fold(m.pos(a), m.pos(b)), m, f) > 0,
    decreases later_count(m, m.pos(a), m.pos(b), e),
{
    let (s, t) = (m.pos(a), m.pos(b));
    let top = m.nbr[e];
    laid_edges_are_joined(m, set, e);
    let (p, q, r) = (m.pos(m.org(e)), m.pos(m.dest(e)), m.pos(m.apex(e)));
    assert(top.tri != 0) by {
        if top.tri == 0 {
            laid_walls_bound_all(m, set, e, b);
        }
    }
    if bend_at(fold(s, t), m, e) > 0 {
        e
    } else {
        assert(is_live(m, top));
        laid_edges_are_joined(m, set, top);
        lemma_turns(top);
        let w = m.pos(m.apex(top));
        lemma_height_grows(s, t, p, q, r, w);
        areas_turn(s, t, t);
        areas_turn(t, s, t);
        areas_turn(p, t, t);
        areas_turn(t, p, t);
        areas_turn(t, q, t);
        areas_turn(q, t, t);
        orientation_turns(p, q, t);
        orientation_turns(p, q, s);
        if m.apex(top) == b {
            assert(off(s, t, t) == 0);
            let (x, y) = (off(s, t, q), off(s, t, p));
            areas_turn(p, q, t);
            areas_turn(q, p, t);
            assert(orient_det(p, w, t) == 0 && orient_det(w, q, t) == 0);
            assert(x * 0 == 0 && y * 0 == 0 && 0 * orient_det(q, p, t) == 0);
            assert(height(s, t, q, p, w, t) == 0);
        }
        assert(m.org(top) != b && m.dest(top) != b);
        assert(orient(p, w, t) < 0 || orient(w, q, t) < 0) by {
            if orient(p, w, t) >= 0 && orient(w, q, t) >= 0 {
                assert(covers(m, top, t));
                laid_triangles_hold_their_corners(m, set, top, b);
            }
        }
        if orient(s, t, w) == 0 {
            lemma_stops(s, t, p, q, w);
            assert(set.contains(m.apex(top)));
            assert(m.apex(top) == a);
            assert(orient(q, p, s) > 0);
            e
        } else if orient(s, t, w) > 0 {
            let x = top.next();
            lemma_leaves_right(s, t, p, q, w);
            assert(is_crossing(m, s, t, x));
            assert(height(s, t, p, w, q, t) == height(s, t, q, p, w, t));
            lemma_later_less(m, s, t, e, x);
            lemma_walk(m, set, a, b, x)
        } else {
            let x = top.prev();
            lemma_leaves_left(s, t, p, q, w);
            assert(is_crossing(m, s, t, x));
            assert(height(s, t, w, q, p, t) == height(s, t, q, p, w, t));
            lemma_later_less(m, s, t, e, x);
            lemma_walk(m, set, a, b, x)
        }
    }
}

// --- Where the way begins ---------------------------------------------------

/// One of the edges that `pick` picks, none of them beyond it.
proof fn lemma_best(
    pick: spec_fn(Otri) -> bool,
    beyond: spec_fn(Otri, Otri) -> bool,
    n: int,
    first: Otri,
) -> (best: Otri)
    requires
        0 <= n,
        pick(first),
        forall|x: Otri, y: Otri, z: Otri|
            pick(x) && pick(y) && pick(z) && #[trigger] beyond(x, y) && #[trigger] beyond(y, z)
                ==> beyond(x, z),
        forall|x: Otri| !#[trigger] beyond(x, x),
    ensures
        pick(best),
        forall|i: int| 0 <= i < n && pick(#[trigger] numbered(i)) ==> !beyond(best, numbered(i)),
    decreases n,
{
    if n == 0 {
        first
    } else {
        let best = lemma_best(pick, beyond, n - 1, first);
        let e = numbered(n - 1);
        if pick(e) && beyond(best, e) {
            assert forall|i: int| 0 <= i < n && pick(#[trigger] numbered(i)) implies !beyond(
                e,
                numbered(i),
            ) by {
                if beyond(e, numbered(i)) && i < n - 1 {
                    assert(beyond(best, numbered(i)));
                }
            }
            e
        } else {
            best
        }
    }
}

/// On one side of a line through `a`, points that follow each other around it
/// come in order.
proof fn lemma_around(a: Vertex, b: Vertex, x: Vertex, y: Vertex, z: Vertex)
    requires
        wedge(a, x, y) > 0,
        wedge(a, y, z) > 0,
        (wedge(a, b, x) < 0 && wedge(a, b, y) < 0 && wedge(a, b, z) < 0) || (wedge(a, b, x) > 0
            && wedge(a, b, y) > 0 && wedge(a, b, z) > 0),
    ensures
        wedge(a, x, z) > 0,
{
    wedges_mix(a, y, b, x, z);
    wedges_turn(a, y, b);
    wedges_turn(a, x, b);
    wedges_turn(a, y, x);
    let (k, n) = (wedge(a, y, b), wedge(a, x, z));
    let (p, q) = (wedge(a, x, b), wedge(a, y, z));
    let (u, v) = (wedge(a, y, x), wedge(a, b, z));
    assert(k * n == p * q + u * v);
    if k > 0 {
        assert(n > 0) by (nonlinear_arith)
            requires
                k * n == p * q + u * v,
                k > 0,
                p > 0,
                q > 0,
                u < 0,
                v < 0,
        ;
    } else {
        assert(n > 0) by (nonlinear_arith)
            requires
                k * n == p * q + u * v,
                k < 0,
                p < 0,
                q > 0,
                u < 0,
                v > 0,
        ;
    }
}

proof fn lemma_index(m: MeshView, o: Otri) -> (i: int)
    requires
        m.wf(),
        m.has(o),
    ensures
        0 <= i < 3 * m.tri_count,
        numbered(i) == o,
{
    3 * o.tri as int + o.orient as int
}

/// Whether an edge leaves `a` to the right of the way to `b`.
spec fn leaves_right(m: MeshView, a: VertexId, b: VertexId, o: Otri) -> bool {
    is_live(m, o) && m.org(o) == a && wedge(m.pos(a), m.pos(b), m.pos(m.dest(o))) < 0
}

/// Whether the triangle of an edge from `a` has its third corner to the left
/// of the way to `b`.
spec fn leaves_left(m: MeshView, a: VertexId, b: VertexId, o: Otri) -> bool {
    is_live(m, o) && m.org(o) == a && wedge(m.pos(a), m.pos(b), m.pos(m.apex(o))) > 0
}

/// What is known of the way into a triangle from a corner.
#[verifier::spinoff_prover]
#[verifier::rlimit(60)]
proof fn lemma_enters(m: MeshView, set: Set<VertexId>, a: VertexId, b: VertexId, o: Otri) -> (e: Otri)
    requires
        is_laid(m, set),
        is_used(m, a),
        set.contains(b),
        a != b,
        is_clear_of(m, set, a, b),
        is_live(m, o),
        m.org(o) == a,
        orient(m.pos(a), m.pos(b), m.pos(m.dest(o))) <= 0,
        orient(m.pos(a), m.pos(b), m.pos(m.apex(o))) >= 0,
    ensures
        is_span(m, e, a, b) || (is_crossing(m, m.pos(a), m.pos(b), e) && m.apex(e) == a),
{
    let (s, t) = (m.pos(a), m.pos(b));
    laid_edges_are_joined(m, set, o);
    lemma_turns(o);
    let (x, y) = (m.pos(m.dest(o)), m.pos(m.apex(o)));
    orientation_turns(s, x, y);
    orientation_turns(x, y, s);
    orientation_turns(s, t, x);
    orientation_turns(s, x, t);
    orientation_turns(s, t, y);
    orientation_turns(t, y, s);
    orientation_turns(y, s, t);
    orientation_turns(s, y, t);
    orientation_turns(x, y, t);
    orientation_turns(x, s, t);
    orientation_turns(x, t, s);
    orientation_turns(y, x, s);
    orientation_turns(y, x, t);
    orientation_turns(y, t, s);
    orientation_turns(s, y, x);
    areas_turn(s, t, t);
    areas_turn(t, s, t);
    assert(set.contains(a));
    if same_place(s, t) {
        laid_corners_are_apart(m, set, a, b);
    }
    assert(m.dest(o) != a && m.apex(o) != a) by {
        areas_turn(s, s, y);
        areas_turn(s, x, s);
        areas_turn(x, s, s);
    }
    if orient(x, y, t) >= 0 {
        assert(covers(m, o, t));
        laid_triangles_hold_their_corners(m, set, o, b);
        if m.dest(o) == b {
            o
        } else {
            o.prev()
        }
    } else if orient(s, t, x) < 0 && orient(s, t, y) > 0 {
        o.next()
    } else if orient(s, t, x) == 0 && orient(s, t, y) == 0 {
        // Both on the line.
        let (ux, uy) = (t.vx() - s.vx(), t.vy() - s.vy());
        let (xx, xy) = (x.vx() - s.vx(), x.vy() - s.vy());
        let (yx, yy) = (y.vx() - s.vx(), y.vy() - s.vy());
        lemma_collinear(ux, uy, xx, xy, yx, yy);
        assert(orient_det(t, x, s) == 0 && orient_det(t, y, s) == 0 && orient_det(y, t, s) == 0);
        let k = cross(yx, yy, xx, xy);
        assert(k == orient_det(y, x, s));
        assert(0 * xx == 0 && 0 * xy == 0);
        assert(k * ux == 0 && k * uy == 0);
        assert(k == 0) by (nonlinear_arith)
            requires
                k * ux == 0,
                k * uy == 0,
                ux != 0 || uy != 0,
        ;
        o
    } else if orient(s, t, x) == 0 {
        lemma_amid(s, t, y, x);
        assert(set.contains(m.dest(o)));
        o
    } else {
        lemma_amid(s, t, x, y);
        assert(set.contains(m.apex(o)));
        o.prev()
    }
}

/// The way from a corner to another begins along an edge, or inside a triangle
/// that it leaves by the side across.
#[verifier::spinoff_prover]
#[verifier::rlimit(60)]
proof fn lemma_begins(m: MeshView, set: Set<VertexId>, a: VertexId, b: VertexId) -> (e: Otri)
    requires
        is_laid(m, set),
        is_used(m, a),
        set.contains(b),
        a != b,
        is_clear_of(m, set, a, b),
    ensures
        is_span(m, e, a, b) || (is_crossing(m, m.pos(a), m.pos(b), e) && m.apex(e) == a),
{
    let (s, t) = (m.pos(a), m.pos(b));
    let n = 3 * m.tri_count as int;
    if exists|o: Otri| leaves_right(m, a, b, o) {
        let first = choose|o: Otri| leaves_right(m, a, b, o);
        let pick = |o: Otri| leaves_right(m, a, b, o);
        let beyond = |x: Otri, y: Otri| wedge(s, m.pos(m.dest(x)), m.pos(m.dest(y))) > 0;
        assert forall|x: Otri, y: Otri, z: Otri|
            pick(x) && pick(y) && pick(z) && #[trigger] beyond(x, y) && #[trigger] beyond(
                y,
                z,
            ) implies beyond(x, z) by {
            lemma_around(s, t, m.pos(m.dest(x)), m.pos(m.dest(y)), m.pos(m.dest(z)));
        }
        assert forall|x: Otri| !#[trigger] beyond(x, x) by {
            wedges_turn(s, m.pos(m.dest(x)), t);
        }
        let o = lemma_best(pick, beyond, n, first);
        assert(leaves_right(m, a, b, o));
        lemma_right_end(m, set, a, b, o, pick, beyond);
        wedges_turn(s, t, m.pos(m.dest(o)));
        wedges_turn(s, t, m.pos(m.apex(o)));
        lemma_enters(m, set, a, b, o)
    } else if exists|o: Otri| leaves_left(m, a, b, o) {
        let first = choose|o: Otri| leaves_left(m, a, b, o);
        let pick = |o: Otri| leaves_left(m, a, b, o);
        let beyond = |x: Otri, y: Otri| wedge(s, m.pos(m.apex(y)), m.pos(m.apex(x))) > 0;
        assert forall|x: Otri, y: Otri, z: Otri|
            pick(x) && pick(y) && pick(z) && #[trigger] beyond(x, y) && #[trigger] beyond(
                y,
                z,
            ) implies beyond(x, z) by {
            lemma_around(s, t, m.pos(m.apex(z)), m.pos(m.apex(y)), m.pos(m.apex(x)));
        }
        assert forall|x: Otri| !#[trigger] beyond(x, x) by {
            wedges_turn(s, m.pos(m.apex(x)), t);
        }
        let o = lemma_best(pick, beyond, n, first);
        assert(leaves_left(m, a, b, o));
        lemma_left_end(m, set, a, b, o, pick, beyond);
        wedges_turn(s, t, m.pos(m.dest(o)));
        wedges_turn(s, t, m.pos(m.apex(o)));
        lemma_enters(m, set, a, b, o)
    } else {
        let o = choose|o: Otri| #[trigger] is_live(m, o) && m.org(o) == a;
        lemma_no_way(m, set, a, b, o);
        wedges_turn(s, t, m.pos(m.dest(o)));
        wedges_turn(s, t, m.pos(m.apex(o)));
        lemma_enters(m, set, a, b, o)
    }
}

/// The last edge on the right has its triangle reach the other side.
proof fn lemma_right_end(
    m: MeshView,
    set: Set<VertexId>,
    a: VertexId,
    b: VertexId,
    o: Otri,
    pick: spec_fn(Otri) -> bool,
    beyond: spec_fn(Otri, Otri) -> bool,
)
    requires
        is_laid(m, set),
        set.contains(b),
        leaves_right(m, a, b, o),
        pick == (|o: Otri| leaves_right(m, a, b, o)),
        beyond == (|x: Otri, y: Otri|
            wedge(m.pos(a), m.pos(m.dest(x)), m.pos(m.dest(y))) > 0),
        forall|i: int|
            0 <= i < 3 * m.tri_count && pick(#[trigger] numbered(i)) ==> !beyond(o, numbered(i)),
    ensures
        wedge(m.pos(a), m.pos(b), m.pos(m.apex(o))) >= 0,
{
    let (s, t) = (m.pos(a), m.pos(b));
    laid_edges_are_joined(m, set, o);
    lemma_turns(o);
    let (x, y) = (m.pos(m.dest(o)), m.pos(m.apex(o)));
    if wedge(s, t, y) < 0 {
        let side = o.prev();
        assert(is_live(m, side));
        laid_edges_are_joined(m, set, side);
        let n = m.nbr[side];
        wedges_turn(s, t, y);
        wedges_turn(s, x, y);
        if n.tri == 0 {
            laid_walls_bound_all(m, set, side, b);
            orientation_turns(s, t, y);
            orientation_turns(t, y, s);
        } else {
            assert(is_live(m, n));
            assert(m.org(n) == a && m.dest(n) == m.apex(o));
            assert(leaves_right(m, a, b, n));
            let i = lemma_index(m, n);
            assert(pick(numbered(i)));
            assert(!beyond(o, n));
        }
    }
}

/// The last triangle on the left has its edge reach the other side.
proof fn lemma_left_end(
    m: MeshView,
    set: Set<VertexId>,
    a: VertexId,
    b: VertexId,
    o: Otri,
    pick: spec_fn(Otri) -> bool,
    beyond: spec_fn(Otri, Otri) -> bool,
)
    requires
        is_laid(m, set),
        set.contains(b),
        leaves_left(m, a, b, o),
        pick == (|o: Otri| leaves_left(m, a, b, o)),
        beyond == (|x: Otri, y: Otri|
            wedge(m.pos(a), m.pos(m.apex(y)), m.pos(m.apex(x))) > 0),
        forall|i: int|
            0 <= i < 3 * m.tri_count && pick(#[trigger] numbered(i)) ==> !beyond(o, numbered(i)),
    ensures
        wedge(m.pos(a), m.pos(b), m.pos(m.dest(o))) <= 0,
{
    let (s, t) = (m.pos(a), m.pos(b));
    laid_edges_are_joined(m, set, o);
    lemma_turns(o);
    let (x, y) = (m.pos(m.dest(o)), m.pos(m.apex(o)));
    if wedge(s, t, x) > 0 {
        let n = m.nbr[o];
        wedges_turn(s, t, x);
        wedges_turn(s, x, y);
        if n.tri == 0 {
            laid_walls_bound_all(m, set, o, b);
            wedges_turn(s, x, t);
        } else {
            assert(is_live(m, n));
            lemma_turns(n);
            let k = n.next();
            assert(is_live(m, k));
            assert(m.org(k) == a && m.apex(k) == m.dest(o));
            assert(leaves_left(m, a, b, k));
            let i = lemma_index(m, k);
            assert(pick(numbered(i)));
            assert(!beyond(o, k));
        }
    }
}

/// A triangle that lies on neither side of the way.
proof fn lemma_no_way(m: MeshView, set: Set<VertexId>, a: VertexId, b: VertexId, o: Otri)
    requires
        is_laid(m, set),
        set.contains(b),
        is_live(m, o),
        m.org(o) == a,
        forall|o: Otri| !leaves_right(m, a, b, o),
        forall|o: Otri| !leaves_left(m, a, b, o),
    ensures
        wedge(m.pos(a), m.pos(b), m.pos(m.dest(o))) <= 0,
        wedge(m.pos(a), m.pos(b), m.pos(m.apex(o))) >= 0,
{
    let (s, t) = (m.pos(a), m.pos(b));
    laid_edges_are_joined(m, set, o);
    lemma_turns(o);
    let (x, y) = (m.pos(m.dest(o)), m.pos(m.apex(o)));
    if wedge(s, t, x) > 0 {
        let n = m.nbr[o];
        wedges_turn(s, t, x);
        if n.tri == 0 {
            laid_walls_bound_all(m, set, o, b);
            wedges_turn(s, x, t);
        } else {
            assert(is_live(m, n));
            lemma_turns(n);
            assert(is_live(m, n.next()));
            assert(leaves_left(m, a, b, n.next()));
        }
    }
    if wedge(s, t, y) < 0 {
        let side = o.prev();
        assert(is_live(m, side));
        laid_edges_are_joined(m, set, side);
        wedges_turn(s, t, y);
        if m.nbr[side].tri == 0 {
            laid_walls_bound_all(m, set, side, b);
            orientation_turns(s, t, y);
            orientation_turns(t, y, s);
        } else {
            assert(leaves_right(m, a, b, m.nbr[side]));
        }
    }
}

/// Between two corners with none between them there is an edge, or an edge
/// across it at which the plane, folded along the way, bends down.
pub proof fn ways_can_be_straightened(m: MeshView, a: VertexId, b: VertexId) -> (e: Otri)
    requires
        is_plane(m),
        corners(m).contains(a),
        corners(m).contains(b),
        a != b,
        is_clear(m, a, b),
    ensures
        is_span(m, e, a, b) || (is_crossing(m, m.pos(a), m.pos(b), e) && m.nbr[e].tri != 0
            && bend_at(fold(m.pos(a), m.pos(b)), m, e) > 0),
{
    let set = corners(m);
    planes_are_laid(m);
    assert(is_used(m, a)) by {
        reveal(corners);
    }
    let e = lemma_begins(m, set, a, b);
    if is_span(m, e, a, b) {
        e
    } else {
        let (s, t) = (m.pos(a), m.pos(b));
        let (p, q) = (m.pos(m.org(e)), m.pos(m.dest(e)));
        areas_turn(s, t, s);
        areas_turn(t, s, s);
        areas_turn(s, s, t);
        orientation_turns(s, t, q);
        orientation_turns(t, q, s);
        orientation_turns(s, t, p);
        orientation_turns(s, p, t);
        orientation_turns(t, p, s);
        assert(off(s, t, s) == 0);
        let (x, y) = (off(s, t, p), off(s, t, q));
        let (u, v) = (orient_det(q, s, t), orient_det(s, p, t));
        assert(u > 0 && v > 0);
        assert(x * u > 0) by (nonlinear_arith)
            requires
                x > 0,
                u > 0,
        ;
        assert(y * v > 0) by (nonlinear_arith)
            requires
                y > 0,
                v > 0,
        ;
        assert(0 * orient_det(p, q, t) == 0);
        lemma_walk(m, set, a, b, e)
    }
}

// --- Every vertex is a corner -----------------------------------------------

proof fn lemma_corner_used(m: MeshView, set: Set<VertexId>, o: Otri, v: VertexId)
    requires
        is_laid(m, set),
        is_live(m, o),
        is_corner(m, o, v),
    ensures
        is_used(m, v),
{
    laid_edges_are_joined(m, set, o);
    lemma_turns(o);
    if v == m.org(o) {
        assert(is_live(m, o) && m.org(o) == v);
    } else if v == m.dest(o) {
        assert(is_live(m, o.next()) && m.org(o.next()) == v);
    } else {
        assert(is_live(m, o.prev()) && m.org(o.prev()) == v);
    }
}

/// From a crossed edge on, the way ends in a corner.
#[verifier::spinoff_prover]
#[verifier::rlimit(80)]
proof fn lemma_arrives(m: MeshView, set: Set<VertexId>, a: VertexId, b: VertexId, e: Otri)
    requires
        is_laid(m, set),
        is_used(m, a),
        set.contains(b),
        is_clear_of(m, set, a, b),
        is_crossing(m, m.pos(a), m.pos(b), e),
    ensures
        is_used(m, b),
    decreases later_count(m, m.pos(a), m.pos(b), e),
{
    let (s, t) = (m.pos(a), m.pos(b));
    let top = m.nbr[e];
    laid_edges_are_joined(m, set, e);
    let (p, q) = (m.pos(m.org(e)), m.pos(m.dest(e)));
    assert(top.tri != 0) by {
        if top.tri == 0 {
            laid_walls_bound_all(m, set, e, b);
        }
    }
    laid_edges_are_joined(m, set, top);
    lemma_turns(top);
    let w = m.pos(m.apex(top));
    orientation_turns(p, q, t);
    orientation_turns(p, q, s);
    if m.apex(top) == b {
        lemma_corner_used(m, set, top, b);
    } else if orient(p, w, t) >= 0 && orient(w, q, t) >= 0 {
        assert(covers(m, top, t));
        laid_triangles_hold_their_corners(m, set, top, b);
        lemma_corner_used(m, set, top, b);
    } else if orient(s, t, w) == 0 {
        lemma_stops(s, t, p, q, w);
        assert(set.contains(m.apex(top)));
        assert(m.apex(top) == a);
        assert(orient(q, p, s) > 0);
    } else if orient(s, t, w) > 0 {
        let x = top.next();
        lemma_leaves_right(s, t, p, q, w);
        assert(is_crossing(m, s, t, x));
        lemma_later_less(m, s, t, e, x);
        lemma_arrives(m, set, a, b, x);
    } else {
        let x = top.prev();
        lemma_leaves_left(s, t, p, q, w);
        assert(is_crossing(m, s, t, x));
        lemma_later_less(m, s, t, e, x);
        lemma_arrives(m, set, a, b, x);
    }
}

/// How far apart two points are, on both axes together.
pub open spec fn apart(a: Vertex, b: Vertex) -> nat {
    (magnitude_of(a.vx() - b.vx()) + magnitude_of(a.vy() - b.vy())) as nat
}

/// In a triangulation of the convex hull of a set, every vertex of the set is a
/// corner.
pub proof fn every_vertex_is_a_corner(m: MeshView, set: Set<VertexId>, a: VertexId, b: VertexId)
    requires
        is_laid(m, set),
        is_used(m, a),
        set.contains(b),
    ensures
        is_used(m, b),
    decreases apart(m.pos(a), m.pos(b)),
{
    let (s, t) = (m.pos(a), m.pos(b));
    if a != b {
        let o = choose|o: Otri| #[trigger] is_live(m, o) && m.org(o) == a;
        laid_edges_are_joined(m, set, o);
        if is_clear_of(m, set, a, b) {
            let e = lemma_begins(m, set, a, b);
            if is_span(m, e, a, b) {
                lemma_corner_used(m, set, e, b);
            } else {
                lemma_arrives(m, set, a, b, e);
            }
        } else {
            let v = choose|v: VertexId| #[trigger]
                set.contains(v) && on_segment(m.pos(a), m.pos(b), m.pos(v)) && v != a && v != b;
            let p = m.pos(v);
            if same_place(p, s) {
                laid_corners_are_apart(m, set, v, a);
            }
            if same_place(p, t) {
                laid_corners_are_apart(m, set, v, b);
            }
            assert(apart(s, p) < apart(s, t));
            assert(apart(p, t) < apart(s, t));
            every_vertex_is_a_corner(m, set, a, v);
            every_vertex_is_a_corner(m, set, v, b);
        }
    }
}

// --- Straightening ----------------------------------------------------------

fn big_area(a: Vertex, b: Vertex, c: Vertex, unit: u32) -> (r: BigInt)
    requires
        unit <= scale(a.x) && unit <= scale(a.y),
        unit <= scale(b.x) && unit <= scale(b.y),
        unit <= scale(c.x) && unit <= scale(c.y),
    ensures
        orient_det(a, b, c) == (pow2(unit as nat) * pow2(unit as nat)) * r@,
        r.size() < 204,
{
    let ax = big_diff(a.x, c.x, unit);
    let ay = big_diff(a.y, c.y, unit);
    let bx = big_diff(b.x, c.x, unit);
    let by = big_diff(b.y, c.y, unit);
    proof {
        lemma_cross_scaled(pow2(unit as nat) as int, ax@, ay@, bx@, by@);
    }
    big_cross(&ax, &ay, &bx, &by)
}

/// The distance of `v` from the line, times an area.
fn big_weight(line: &BigInt, area: &BigInt) -> (r: BigInt)
    requires
        line.size() < 204,
        area.size() < 204,
    ensures
        r@ == magnitude_of(line@) * area@,
        r.size() < 420,
{
    let one = BigInt::scaled(line.sign() < 0, 1, 0);
    proof {
        lemma2_to64();
        let x = line@;
        assert(x * -1 == -x && x * 1 == x);
    }
    line.times(&one).times(area)
}

proof fn lemma_weight_scaled(k: int, x: int, y: int)
    requires
        k > 0,
    ensures
        magnitude_of(k * x) * (k * y) == (k * k) * (magnitude_of(x) * y),
{
    lemma_sgn_scaled(k, x);
    let z = magnitude_of(x);
    assert(magnitude_of(k * x) == k * z) by {
        if x < 0 {
            assert(k * z == -(k * x)) by (nonlinear_arith)
                requires
                    z == -x,
            ;
        }
    }
    assert((k * z) * (k * y) == (k * k) * (z * y)) by (nonlinear_arith);
}

/// Whether the plane, folded along the line through `s` and `t`, bends down at
/// the edge from `a` to `b`.
fn does_bend(s: Vertex, t: Vertex, a: Vertex, b: Vertex, c: Vertex, d: Vertex) -> (r: bool)
    ensures
        r == (bend(fold(s, t), a, b, c, d) > 0),
{
    let unit: u32 = min_scale(
        min_scale(min_scale(min_scale(min_scale(min_scale(2048, s), t), a), b), c),
        d,
    );
    let (la, lb) = (big_area(s, t, a, unit), big_area(s, t, b, unit));
    let (lc, ld) = (big_area(s, t, c, unit), big_area(s, t, d, unit));
    let (pa, pb) = (big_area(b, c, d, unit), big_area(c, a, d, unit));
    let (pc, pd) = (big_area(a, b, d, unit), big_area(a, b, c, unit));
    let sum = big_weight(&la, &pa).plus(&big_weight(&lb, &pb)).plus(&big_weight(&lc, &pc));
    let det = sum.minus(&big_weight(&ld, &pd));
    proof {
        let p = pow2(unit as nat) as int;
        lemma_pow2_pos(unit as nat);
        let k = p * p;
        assert(k > 0) by (nonlinear_arith)
            requires
                k == p * p,
                p > 0,
        ;
        lemma_weight_scaled(k, la@, pa@);
        lemma_weight_scaled(k, lb@, pb@);
        lemma_weight_scaled(k, lc@, pc@);
        lemma_weight_scaled(k, ld@, pd@);
        let kk = k * k;
        assert(kk > 0) by (nonlinear_arith)
            requires
                kk == k * k,
                k > 0,
        ;
        let (w, x) = (magnitude_of(la@) * pa@, magnitude_of(lb@) * pb@);
        let (y, z) = (magnitude_of(lc@) * pc@, magnitude_of(ld@) * pd@);
        assert(kk * w + kk * x + kk * y - kk * z == kk * (w + x + y - z)) by (nonlinear_arith);
        assert(det@ == w + x + y - z);
        lemma_sgn_scaled(kk, det@);
    }
    det.sign() > 0
}

/// Whether no edge with a subsegment is crossed on the way from `s` to `t`.
pub open spec fn is_free(m: MeshView, s: Vertex, t: Vertex) -> bool {
    forall|e: Otri| #[trigger] is_crossing(m, s, t, e) ==> m.tsub[e].sub == 0
}

/// What is found on the way between two corners: the edge itself, or one to be
/// flipped.
enum Found {
    Span(Otri),
    Bend(Otri),
}

fn does_cross(s: Vertex, t: Vertex, p: Vertex, q: Vertex) -> (r: bool)
    ensures
        r == is_crossed(s, t, p, q),
{
    orient2d(s, t, p) < 0 && orient2d(s, t, q) > 0 && orient2d(p, q, s) > 0 && orient2d(p, q, t) < 0
}

fn find_on_way(mesh: &CdtMesh, a: VertexId, b: VertexId) -> (r: Found)
    requires
        mesh@.wf(),
        is_plane(mesh@),
        corners(mesh@).contains(a),
        corners(mesh@).contains(b),
        a != b,
        mesh@.has_vertex(a),
        mesh@.has_vertex(b),
        is_clear(mesh@, a, b),
    ensures
        match r {
            Found::Span(o) => is_span(mesh@, o, a, b),
            Found::Bend(e) => is_crossing(mesh@, mesh@.pos(a), mesh@.pos(b), e)
                && mesh@.nbr[e].tri != 0 && bend_at(
                fold(mesh@.pos(a), mesh@.pos(b)),
                mesh@,
                e,
            ) > 0,
        },
{
    let (s, t) = (mesh.vertex_pos(a), mesh.vertex_pos(b));
    let n: usize = mesh.tri_slots();
    let ghost aim = ways_can_be_straightened(mesh@, a, b);
    let mut found = Otri { tri: 0, orient: 0 };
    let mut ti: u32 = 1;
    while (ti as usize) < n
        invariant
            1 <= ti <= n,
            n == mesh@.tri_count,
            mesh@.wf(),
            is_plane(mesh@),
            s == mesh@.pos(a),
            t == mesh@.pos(b),
            aim.tri >= ti || (found.tri != 0 && !is_span(mesh@, aim, a, b)),
            mesh@.has(aim),
            is_span(mesh@, aim, a, b) || (is_crossing(mesh@, s, t, aim) && mesh@.nbr[aim].tri != 0
                && bend_at(fold(s, t), mesh@, aim) > 0),
            found.tri != 0 ==> is_crossing(mesh@, s, t, found) && mesh@.nbr[found].tri != 0
                && bend_at(fold(s, t), mesh@, found) > 0,
        decreases n - ti,
    {
        let mut k: u8 = 0;
        while k < 3 && !mesh.is_dead(ti)
            invariant
                k <= 3,
                0 < ti < n,
                n == mesh@.tri_count,
                mesh@.wf(),
                is_plane(mesh@),
                s == mesh@.pos(a),
                t == mesh@.pos(b),
                aim.tri > ti || (aim.tri == ti && aim.orient >= k) || (found.tri != 0 && !is_span(
                    mesh@,
                    aim,
                    a,
                    b,
                )),
                mesh@.has(aim),
                is_span(mesh@, aim, a, b) || (is_crossing(mesh@, s, t, aim) && mesh@.nbr[aim].tri
                    != 0 && bend_at(fold(s, t), mesh@, aim) > 0),
                found.tri != 0 ==> is_crossing(mesh@, s, t, found) && mesh@.nbr[found].tri != 0
                    && bend_at(fold(s, t), mesh@, found) > 0,
            decreases 3 - k,
        {
            let o = Otri { tri: ti, orient: k };
            proof {
                edges_are_joined(mesh@, o);
                lemma_turns(o);
            }
            let (u, v) = (mesh.org(o), mesh.dest(o));
            if (u == a && v == b) || (u == b && v == a) {
                return Found::Span(o);
            }
            let p = mesh.sym(o);
            if p.tri != 0 && found.tri == 0 {
                proof {
                    edges_are_joined(mesh@, p);
                }
                let (pu, pv) = (mesh.vertex_pos(u), mesh.vertex_pos(v));
                if does_cross(s, t, pu, pv) && does_bend(
                    s,
                    t,
                    pu,
                    pv,
                    mesh.vertex_pos(mesh.apex(o)),
                    mesh.vertex_pos(mesh.apex(p)),
                ) {
                    found = o;
                }
            }
            k += 1;
        }
        ti += 1;
    }
    Found::Bend(found)
}

/// Flip edges until one runs between two corners.
pub fn straighten(mesh: &mut CdtMesh, a: VertexId, b: VertexId) -> (r: Otri)
    requires
        old(mesh)@.wf(),
        is_plane(old(mesh)@),
        corners(old(mesh)@).contains(a),
        corners(old(mesh)@).contains(b),
        a != b,
        is_clear(old(mesh)@, a, b),
        is_free(old(mesh)@, old(mesh)@.pos(a), old(mesh)@.pos(b)),
    ensures
        final(mesh)@.wf(),
        is_plane(final(mesh)@),
        corners(final(mesh)@) == corners(old(mesh)@),
        same_but_links(old(mesh)@, final(mesh)@),
        is_span(final(mesh)@, r, a, b),
{
    loop
        invariant
            mesh@.wf(),
            is_plane(mesh@),
            corners(mesh@) == corners(old(mesh)@),
            corners(mesh@).contains(a),
            corners(mesh@).contains(b),
            a != b,
            is_clear(mesh@, a, b),
            is_free(mesh@, mesh@.pos(a), mesh@.pos(b)),
            same_but_links(old(mesh)@, mesh@),
        decreases room(fold(mesh@.pos(a), mesh@.pos(b)), mesh@),
    {
        proof {
            corners_are_vertices(mesh@, a);
            corners_are_vertices(mesh@, b);
        }
        match find_on_way(mesh, a, b) {
            Found::Span(o) => {
                return o;
            },
            Found::Bend(o) => {
                let mut e = o;
                let ghost before = mesh@;
                let ghost h = fold(before.pos(a), before.pos(b));
                proof {
                    lemma_flip_on_way(before, a, b, o);
                }
                flip(mesh, &mut e);
                proof {
                    flips_keep_meshes_plane(before, o);
                    assert forall|p: Vertex| #[trigger] h(p) >= 0 by {}
                    rooms_are_not_negative(h, mesh@);
                    lemma_still_clear(before, mesh@, a, b);
                    lemma_still_free(before, a, b, o);
                }
            },
        }
    }
}

proof fn lemma_flip_on_way(m: MeshView, a: VertexId, b: VertexId, e: Otri)
    requires
        m.wf(),
        is_plane(m),
        is_free(m, m.pos(a), m.pos(b)),
        is_crossing(m, m.pos(a), m.pos(b), e),
        m.nbr[e].tri != 0,
        bend_at(fold(m.pos(a), m.pos(b)), m, e) > 0,
    ensures
        is_turnable(m, e),
        same_but_links(m, flipped(m, e)),
        room(fold(m.pos(a), m.pos(b)), flipped(m, e)) < room(fold(m.pos(a), m.pos(b)), m),
{
    edges_are_joined(m, e);
    edges_are_joined(m, m.nbr[e]);
    lemma_bend_convex(
        m.pos(a),
        m.pos(b),
        m.pos(m.org(e)),
        m.pos(m.dest(e)),
        m.pos(m.apex(e)),
        m.pos(m.apex(m.nbr[e])),
    );
    flips_let_surfaces_down(fold(m.pos(a), m.pos(b)), m, e);
    reveal(is_plane);
    lemma_flip_links(m, corners(m), e);
}

proof fn lemma_still_clear(m: MeshView, w: MeshView, a: VertexId, b: VertexId)
    requires
        corners(w) == corners(m),
        w.vertices == m.vertices,
        is_clear(m, a, b),
    ensures
        is_clear(w, a, b),
{
    assert forall|v: VertexId| #[trigger]
        corners(w).contains(v) && on_segment(w.pos(a), w.pos(b), w.pos(v)) implies v == a || v
        == b by {
        assert(corners(m).contains(v));
    }
}

/// A flip brings no edge with a subsegment across the way.
#[verifier::spinoff_prover]
#[verifier::rlimit(60)]
proof fn lemma_still_free(m: MeshView, a: VertexId, b: VertexId, e: Otri)
    requires
        m.wf(),
        is_plane(m),
        is_free(m, m.pos(a), m.pos(b)),
        is_turnable(m, e),
    ensures
        is_free(flipped(m, e), m.pos(a), m.pos(b)),
{
    let w = flipped(m, e);
    let (s, t) = (m.pos(a), m.pos(b));
    let top = m.nbr[e];
    assert(is_paved(m, corners(m))) by {
        reveal(is_plane);
    }
    lemma_flip_links(m, corners(m), e);
    edges_are_joined(m, e);
    edges_are_joined(m, top);
    lemma_turns(e);
    lemma_turns(top);
    assert forall|o: Otri| #[trigger] is_crossing(w, s, t, o) implies w.tsub[o].sub == 0 by {
        assert(is_live(m, o));
        if o.tri == e.tri {
            lemma_three(e, o);
        } else if o.tri == top.tri {
            lemma_three(top, o);
        }
        let was = if o == e.next() {
            e.prev()
        } else if o == e.prev() {
            top.next()
        } else if o == top.next() {
            top.prev()
        } else if o == top.prev() {
            e.next()
        } else {
            o
        };
        if o != e && o != top {
            assert(is_live(m, was));
            assert(w.org(o) == m.org(was) && w.dest(o) == m.dest(was));
            assert(is_crossing(m, s, t, was));
        }
    }
}

} // verus!
