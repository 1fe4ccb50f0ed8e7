//! From any triangulation of a convex hull to the Delaunay triangulation:
//! edges are flipped until all are locally Delaunay, and then no vertex lies
//! inside the circle of any triangle.

use crate::empty_circle::{is_face, is_joined, is_live, is_locally_delaunay, open_sides, rim_count};
use crate::flip::{flip, flipped};
use crate::knitting::{
    is_edge, lemma_inside_is_above_base, lemma_inside_is_above_base_right, lemma_three,
    lemma_turns,
};
use crate::mesh::{CdtMesh, MeshView, Otri, VertexId};
use crate::plane::{
    angles_compare, areas_add, areas_turn, circle_from_afar, circles_compare, dot, far2,
    lemma_swap, lemma_times_three, weights_balance,
};
use crate::predicates::{
    circle_turns, corners_lie_on_the_circle, in_circle, incircle, incircle_det, orient, orient_det,
    orientation_turns, Vertex,
};
use crate::segment::same_place;
use crate::paving::{
    is_cell, is_paved, is_turnable, lemma_flip_convex, lemma_flip_links, lemma_flip_tiles,
};
use vstd::prelude::*;

verus! {

// --- Triangulations ---------------------------------------------------------

/// Whether a point lies in the triangle of an edge, its sides counted.
pub open spec fn covers(m: MeshView, o: Otri, p: Vertex) -> bool {
    let (a, b, c) = (m.pos(m.org(o)), m.pos(m.dest(o)), m.pos(m.apex(o)));
    orient(a, b, p) >= 0 && orient(b, c, p) >= 0 && orient(c, a, p) >= 0
}

/// Whether `v` is a corner of the triangle of an edge.
pub open spec fn is_corner(m: MeshView, o: Otri, v: VertexId) -> bool {
    v == m.org(o) || v == m.dest(o) || v == m.apex(o)
}

/// Whether a set of vertices of a mesh has one for each place.
pub open spec fn is_spread(m: MeshView, set: Set<VertexId>) -> bool {
    &&& forall|v: VertexId| #[trigger] set.contains(v) ==> m.has_vertex(v)
    &&& forall|v: VertexId, w: VertexId| #[trigger]
        set.contains(v) && #[trigger] set.contains(w) && same_place(m.pos(v), m.pos(w)) ==> v == w
}

/// Whether the triangle of an edge is one of a triangulation of `set`: its
/// corners are in the set, counter-clockwise, no other vertex of the set lies
/// in it, and the edge is joined to its partner and not constrained.
pub open spec fn is_tile(m: MeshView, set: Set<VertexId>, o: Otri) -> bool {
    &&& !m.dead(o.tri)
    &&& set.contains(m.org(o)) && set.contains(m.dest(o)) && set.contains(m.apex(o))
    &&& orient(m.pos(m.org(o)), m.pos(m.dest(o)), m.pos(m.apex(o))) > 0
    &&& is_joined(m, o)
    &&& m.tsub[o].sub == 0
    &&& forall|v: VertexId| #[trigger]
        set.contains(v) && covers(m, o, m.pos(v)) ==> is_corner(m, o, v)
}

/// Whether all triangles of a mesh are those of a triangulation of `set`.
pub open spec fn is_tiled(m: MeshView, set: Set<VertexId>) -> bool {
    &&& m.wf()
    &&& m.free_tris.len() == 0
    &&& is_spread(m, set)
    &&& forall|o: Otri| #[trigger] is_edge(m, o) ==> is_tile(m, set, o)
}

/// Whether `set` lies on the left of an edge or on it.
pub open spec fn bounds_all(m: MeshView, set: Set<VertexId>, o: Otri) -> bool {
    forall|v: VertexId| #[trigger]
        set.contains(v) ==> orient(m.pos(m.org(o)), m.pos(m.dest(o)), m.pos(v)) >= 0
}

/// Whether every edge with nothing across has all of `set` on its left.
pub open spec fn is_convex(m: MeshView, set: Set<VertexId>) -> bool {
    forall|o: Otri| #[trigger] is_edge(m, o) && m.nbr[o].tri == 0 ==> bounds_all(m, set, o)
}

// --- The empty circle -------------------------------------------------------

/// Whether `v` lies beyond an edge and inside the circle of its triangle.
spec fn peeks(m: MeshView, v: Vertex, o: Otri) -> bool {
    let (a, b, c) = (m.pos(m.org(o)), m.pos(m.dest(o)), m.pos(m.apex(o)));
    is_edge(m, o) && orient(a, b, v) < 0 && in_circle(a, b, c, v) > 0
}

/// Whether `v`, beyond both, sees edge `p` under a wider angle than `o`.
spec fn wider(m: MeshView, v: Vertex, o: Otri, p: Otri) -> bool {
    let (a, b) = (m.pos(m.org(o)), m.pos(m.dest(o)));
    let (c, d) = (m.pos(m.org(p)), m.pos(m.dest(p)));
    dot(c, d, v) * -orient_det(a, b, v) < dot(a, b, v) * -orient_det(c, d, v)
}

proof fn lemma_wider_goes_on(m: MeshView, v: Vertex, o: Otri, p: Otri, q: Otri)
    requires
        peeks(m, v, o) && peeks(m, v, p) && peeks(m, v, q),
        wider(m, v, o, p),
        wider(m, v, p, q),
    ensures
        wider(m, v, o, q),
{
    let (d1, c1) = (
        dot(m.pos(m.org(o)), m.pos(m.dest(o)), v),
        -orient_det(m.pos(m.org(o)), m.pos(m.dest(o)), v),
    );
    let (d2, c2) = (
        dot(m.pos(m.org(p)), m.pos(m.dest(p)), v),
        -orient_det(m.pos(m.org(p)), m.pos(m.dest(p)), v),
    );
    let (d3, c3) = (
        dot(m.pos(m.org(q)), m.pos(m.dest(q)), v),
        -orient_det(m.pos(m.org(q)), m.pos(m.dest(q)), v),
    );
    lemma_fractions(d1, c1, d2, c2, d3, c3);
}

proof fn lemma_fractions(d1: int, c1: int, d2: int, c2: int, d3: int, c3: int)
    requires
        c1 > 0 && c2 > 0 && c3 > 0,
        d2 * c1 < d1 * c2,
        d3 * c2 < d2 * c3,
    ensures
        d3 * c1 < d1 * c3,
{
    assert((d2 * c1) * c3 < (d1 * c2) * c3) by (nonlinear_arith)
        requires
            d2 * c1 < d1 * c2,
            c3 > 0,
    ;
    assert((d3 * c2) * c1 < (d2 * c3) * c1) by (nonlinear_arith)
        requires
            d3 * c2 < d2 * c3,
            c1 > 0,
    ;
    assert((d2 * c1) * c3 == (d2 * c3) * c1) by (nonlinear_arith);
    assert((d3 * c2) * c1 == (d3 * c1) * c2) by (nonlinear_arith);
    assert((d1 * c2) * c3 == (d1 * c3) * c2) by (nonlinear_arith);
    assert(d3 * c1 < d1 * c3) by (nonlinear_arith)
        requires
            (d3 * c1) * c2 < (d1 * c3) * c2,
            c2 > 0,
    ;
}

/// Edge number `n`.
pub open spec fn numbered(n: int) -> Otri {
    Otri { tri: (n / 3) as u32, orient: (n % 3) as u8 }
}

/// Among the first `n` edges that `v` peeks over, one that it sees widest.
proof fn lemma_widest(m: MeshView, v: Vertex, n: int, first: Otri) -> (best: Otri)
    requires
        0 <= n <= 0xc000_0000,
        peeks(m, v, first),
    ensures
        peeks(m, v, best),
        forall|i: int|
            0 <= i < n && peeks(m, v, #[trigger] numbered(i)) ==> !wider(m, v, best, numbered(i)),
    decreases n,
{
    if n == 0 {
        first
    } else {
        let best = lemma_widest(m, v, n - 1, first);
        let e = numbered(n - 1);
        if peeks(m, v, e) && wider(m, v, best, e) {
            assert forall|i: int| 0 <= i < n && peeks(m, v, #[trigger] numbered(i)) implies !wider(
                m,
                v,
                e,
                numbered(i),
            ) by {
                if wider(m, v, e, numbered(i)) {
                    if i < n - 1 {
                        lemma_wider_goes_on(m, v, best, e, numbered(i));
                    }
                }
            }
            e
        } else {
            best
        }
    }
}

/// From an edge that `v` peeks over to one that it sees wider.
proof fn lemma_look_further(m: MeshView, set: Set<VertexId>, u: VertexId, o: Otri) -> (next: Otri)
    requires
        is_tiled(m, set),
        is_convex(m, set),
        forall|o: Otri| #[trigger] is_edge(m, o) ==> is_locally_delaunay(m, o),
        set.contains(u),
        peeks(m, m.pos(u), o),
    ensures
        peeks(m, m.pos(u), next),
        wider(m, m.pos(u), o, next),
{
    let v = m.pos(u);
    let p = m.nbr[o];
    lemma_turns(o);
    assert(is_tile(m, set, o));
    assert(p.tri != 0) by {
        if p.tri == 0 {
            assert(bounds_all(m, set, o));
        }
    }
    assert(is_edge(m, p));
    assert(is_tile(m, set, p));
    assert(is_locally_delaunay(m, o));
    lemma_turns(p);
    let (a, b, c, w) = (m.pos(m.org(o)), m.pos(m.dest(o)), m.pos(m.apex(o)), m.pos(m.apex(p)));
    assert(m.pos(m.org(p)) == b && m.pos(m.dest(p)) == a);
    // Inside the circle of the neighbor too.
    circles_compare(a, b, c, w, v);
    assert(incircle_det(b, a, w, v) > 0) by {
        let (x, y) = (incircle_det(b, a, w, v), orient_det(a, b, c));
        let (s, t) = (incircle_det(a, b, c, v), orient_det(b, a, w));
        let (k, l) = (incircle_det(a, b, c, w), orient_det(a, b, v));
        assert(s * t > 0) by (nonlinear_arith)
            requires
                s > 0,
                t > 0,
        ;
        assert(k * l >= 0) by (nonlinear_arith)
            requires
                k <= 0,
                l < 0,
        ;
        assert(x > 0) by (nonlinear_arith)
            requires
                x * y > 0,
                y > 0,
        ;
    }
    areas_turn(a, b, v);
    areas_turn(a, w, v);
    areas_turn(b, w, v);
    assert(orient(b, a, v) > 0);
    // Not in the neighbor, so beyond one of its other sides.
    let (pn, pp) = (p.next(), p.prev());
    assert(is_edge(m, pn) && is_edge(m, pp));
    assert(m.pos(m.org(pn)) == a && m.pos(m.dest(pn)) == w && m.pos(m.apex(pn)) == b);
    assert(m.pos(m.org(pp)) == w && m.pos(m.dest(pp)) == b && m.pos(m.apex(pp)) == a);
    circle_turns(b, a, w, v);
    circle_turns(a, w, b, v);
    orientation_turns(b, a, w);
    if orient(a, w, v) < 0 {
        // Then it is on the inner side of the third.
        assert(orient(w, b, v) > 0) by {
            orientation_turns(w, a, v);
            orientation_turns(a, w, v);
            lemma_inside_is_above_base(w, b, a, v);
        }
        angles_compare(a, b, w, v);
        assert(far2(a, v) > 0) by {
            lemma_apart(a, b, v);
        }
        let (f, g) = (far2(a, v), orient_det(b, w, v));
        assert(f * g < 0) by (nonlinear_arith)
            requires
                f > 0,
                g < 0,
        ;
        lemma_signs(dot(a, b, v), orient_det(a, w, v), dot(a, w, v), orient_det(a, b, v));
        pn
    } else {
        assert(orient(w, b, v) < 0) by {
            if orient(w, b, v) >= 0 {
                assert(covers(m, p, v));
                assert(is_corner(m, p, u));
                corners_lie_on_the_circle(b, a, w);
            }
        }
        assert(orient(a, w, v) > 0) by {
            orientation_turns(w, b, v);
            orientation_turns(b, w, v);
            lemma_inside_is_above_base_right(a, w, b, v);
        }
        angles_compare(b, a, w, v);
        assert(far2(b, v) > 0) by {
            lemma_apart(b, a, v);
        }
        let (f, g) = (far2(b, v), orient_det(a, w, v));
        assert(f * g > 0) by (nonlinear_arith)
            requires
                f > 0,
                g > 0,
        ;
        assert(dot(b, a, v) == dot(a, b, v) && dot(b, w, v) == dot(w, b, v)) by {
            lemma_dot_turns(a, b, v);
            lemma_dot_turns(w, b, v);
        }
        lemma_signs(dot(a, b, v), orient_det(b, w, v), dot(w, b, v), orient_det(b, a, v));
        lemma_signs(dot(a, b, v), orient_det(w, b, v), dot(w, b, v), orient_det(a, b, v));
        assert(orient_det(b, w, v) == -orient_det(w, b, v));
        pp
    }
}

proof fn lemma_signs(d: int, x: int, e: int, y: int)
    ensures
        d * -x == -(d * x),
        e * -y == -(e * y),
{
    assert(d * -x == -(d * x)) by (nonlinear_arith);
    assert(e * -y == -(e * y)) by (nonlinear_arith);
}

proof fn lemma_dot_turns(a: Vertex, b: Vertex, v: Vertex)
    ensures
        dot(a, b, v) == dot(b, a, v),
{
    let (ax, ay) = (a.vx() - v.vx(), a.vy() - v.vy());
    let (bx, by) = (b.vx() - v.vx(), b.vy() - v.vy());
    assert(ax * bx + ay * by == bx * ax + by * ay) by (nonlinear_arith);
}

proof fn lemma_apart(a: Vertex, b: Vertex, v: Vertex)
    requires
        orient(a, b, v) != 0,
    ensures
        far2(a, v) > 0,
{
    let (x, y) = (a.vx() - v.vx(), a.vy() - v.vy());
    let (bx, by) = (b.vx() - v.vx(), b.vy() - v.vy());
    assert(x != 0 || y != 0) by {
        assert(0 * by - 0 * bx == 0) by (nonlinear_arith);
    }
    assert(x * x + y * y > 0) by (nonlinear_arith)
        requires
            x != 0 || y != 0,
    ;
}

/// Where every edge of a triangulated convex hull is locally Delaunay, no
/// vertex lies inside the circle of any triangle.
pub proof fn local_is_global(m: MeshView, set: Set<VertexId>, o: Otri, u: VertexId)
    requires
        is_tiled(m, set),
        is_convex(m, set),
        forall|o: Otri| #[trigger] is_edge(m, o) ==> is_locally_delaunay(m, o),
        is_edge(m, o),
        set.contains(u),
    ensures
        in_circle(m.pos(m.org(o)), m.pos(m.dest(o)), m.pos(m.apex(o)), m.pos(u)) <= 0,
{
    let v = m.pos(u);
    let (a, b, c) = (m.pos(m.org(o)), m.pos(m.dest(o)), m.pos(m.apex(o)));
    if in_circle(a, b, c, v) > 0 {
        assert(is_tile(m, set, o));
        lemma_turns(o);
        let (on, op) = (o.next(), o.prev());
        assert(is_edge(m, on) && is_edge(m, op));
        circle_turns(a, b, c, v);
        circle_turns(b, c, a, v);
        assert(!covers(m, o, v)) by {
            if covers(m, o, v) {
                corners_lie_on_the_circle(a, b, c);
            }
        }
        let first = if orient(a, b, v) < 0 {
            o
        } else if orient(b, c, v) < 0 {
            on
        } else {
            op
        };
        assert(peeks(m, v, first));
        let best = lemma_widest(m, v, 3 * m.tri_count as int, first);
        let next = lemma_look_further(m, set, u, best);
        let i = 3 * next.tri as int + next.orient as int;
        assert(numbered(i) == next);
    }
}

// --- Sums over triangles ----------------------------------------------------

/// The sum of `f` over the numbers below `n`.
pub open spec fn total(f: spec_fn(int) -> int, n: nat) -> int
    decreases n,
{
    if n == 0 {
        0
    } else {
        total(f, (n - 1) as nat) + f(n - 1)
    }
}

/// A sum changes by as much as its terms do.
pub proof fn lemma_total_changes(
    f: spec_fn(int) -> int,
    g: spec_fn(int) -> int,
    n: nat,
    i: int,
    j: int,
)
    requires
        i != j,
        forall|k: int| 0 <= k < n && k != i && k != j ==> #[trigger] g(k) == f(k),
    ensures
        total(g, n) == total(f, n) + (if 0 <= i < n {
            g(i) - f(i)
        } else {
            0
        }) + (if 0 <= j < n {
            g(j) - f(j)
        } else {
            0
        }),
    decreases n,
{
    if n > 0 {
        lemma_total_changes(f, g, (n - 1) as nat, i, j);
        let k = n - 1;
        if k != i && k != j {
            assert(g(k) == f(k));
        }
    }
}

pub(crate) proof fn lemma_total_positive(f: spec_fn(int) -> int, n: nat)
    requires
        forall|k: int| 0 <= k < n ==> #[trigger] f(k) >= 0,
    ensures
        total(f, n) >= 0,
    decreases n,
{
    if n > 0 {
        lemma_total_positive(f, (n - 1) as nat);
        assert(f(n - 1) >= 0);
    }
}

/// The number of open edges in slot `t`.
pub open spec fn rim_at(m: MeshView) -> spec_fn(int) -> int {
    |t: int|
        if is_face(m, t as u32) {
            open_sides(m, t as u32) as int
        } else {
            0
        }
}

pub proof fn lemma_rim_total(m: MeshView, n: nat)
    ensures
        rim_count(m, n) == total(rim_at(m), n),
    decreases n,
{
    if n > 0 {
        lemma_rim_total(m, (n - 1) as nat);
        assert(rim_at(m)(n - 1) == if is_face(m, (n - 1) as u32) {
            open_sides(m, (n - 1) as u32) as int
        } else {
            0
        });
    }
}

// --- Flips ------------------------------------------------------------------

/// The point where both coordinates are zero.
pub open spec fn origin() -> Vertex {
    Vertex { x: 0, y: 0 }
}

/// The room under a triangle whose corners are raised to the squares of their
/// distances from the origin, six times.
spec fn raised(a: Vertex, b: Vertex, c: Vertex) -> int {
    orient_det(a, b, c) * (far2(a, origin()) + far2(b, origin()) + far2(c, origin()))
}

/// The room under the triangle in slot `t`.
spec fn room_at(m: MeshView) -> spec_fn(int) -> int {
    |t: int|
        {
            let o = Otri { tri: t as u32, orient: 0 };
            if t == 0 {
                0
            } else {
                raised(m.pos(m.org(o)), m.pos(m.dest(o)), m.pos(m.apex(o)))
            }
        }
}

/// The room under all triangles.
spec fn room(m: MeshView) -> int {
    total(room_at(m), m.tri_count)
}

proof fn lemma_raised_turns(a: Vertex, b: Vertex, c: Vertex)
    ensures
        raised(b, c, a) == raised(a, b, c),
        raised(c, a, b) == raised(a, b, c),
{
    orientation_turns(a, b, c);
    orientation_turns(b, c, a);
}

proof fn lemma_room_of(m: MeshView, o: Otri)
    requires
        is_edge(m, o),
    ensures
        room_at(m)(o.tri as int) == raised(m.pos(m.org(o)), m.pos(m.dest(o)), m.pos(m.apex(o))),
{
    let first = Otri { tri: o.tri, orient: 0 };
    lemma_turns(first);
    lemma_turns(o);
    lemma_three(first, o);
    lemma_raised_turns(m.pos(m.org(first)), m.pos(m.dest(first)), m.pos(m.apex(first)));
}

/// Turning the diagonal of a quadrilateral changes the room by the in-circle
/// determinant.
proof fn lemma_flip_room(a: Vertex, b: Vertex, c: Vertex, d: Vertex)
    ensures
        raised(a, b, c) + raised(b, a, d) == raised(d, c, a) + raised(c, d, b) + incircle_det(
            a,
            b,
            c,
            d,
        ),
{
    let z = origin();
    circle_from_afar(a, b, c, d, z);
    areas_add(a, b, c, d);
    areas_turn(a, b, d);
    areas_turn(b, c, d);
    areas_turn(c, a, d);
    areas_turn(d, c, a);
    areas_turn(c, d, b);
    let (la, lb, lc, ld) = (far2(a, z), far2(b, z), far2(c, z), far2(d, z));
    let (p, q, r) = (orient_det(b, c, d), orient_det(c, a, d), orient_det(a, b, d));
    orientation_turns(d, c, a);
    orientation_turns(c, d, b);
    orientation_turns(b, c, d);
    orientation_turns(c, a, d);
    assert(orient_det(a, b, c) == r + p + q);
    assert(orient_det(b, a, d) == -r);
    assert(orient_det(d, c, a) == q);
    assert(orient_det(c, d, b) == p);
    lemma_times_three(la + lb + lc, r, p, q);
    lemma_times_three(r, la, lb, lc);
    lemma_times_three(p, la, lb, lc);
    lemma_times_three(q, la, lb, lc);
    lemma_times_three(-r, lb, la, ld);
    lemma_times_three(q, ld, lc, la);
    lemma_times_three(p, lc, ld, lb);
    lemma_times_three(ld, r, p, q);
    lemma_swap(r, la);
    lemma_swap(r, lb);
    lemma_swap(r, lc);
    lemma_swap(r, ld);
    lemma_swap(p, la);
    lemma_swap(p, ld);
    lemma_swap(q, lb);
    lemma_swap(q, ld);
}

/// The quadrilateral on an edge whose neighbor's apex is inside the circle is
/// convex.
pub(crate) proof fn lemma_quad_convex(a: Vertex, b: Vertex, c: Vertex, d: Vertex)
    requires
        orient(a, b, c) > 0,
        orient(b, a, d) > 0,
        in_circle(a, b, c, d) > 0,
    ensures
        orient(d, c, a) > 0,
        orient(c, d, b) > 0,
{
    orientation_turns(a, b, c);
    orientation_turns(b, c, a);
    orientation_turns(a, b, d);
    circle_turns(a, b, c, d);
    circle_turns(b, c, a, d);
    // Beyond the side from `a` to `b`, so on the inner side of the others.
    assert(orient(b, c, d) > 0) by {
        lemma_inside_is_above_base(b, c, a, d);
    }
    assert(orient(c, a, d) > 0) by {
        lemma_inside_is_above_base_right(c, a, b, d);
    }
    orientation_turns(b, c, d);
    orientation_turns(c, a, d);
}

/// A point of the triangle `d`, `c`, `a` is in one of `a`, `b`, `c` and `b`,
/// `a`, `d`.
pub(crate) proof fn lemma_quad_covered(a: Vertex, b: Vertex, c: Vertex, d: Vertex, v: Vertex)
    requires
        orient(d, c, a) > 0,
        orient(c, d, b) > 0,
        orient(a, b, c) > 0,
        orient(b, a, d) > 0,
        orient(d, c, v) >= 0,
        orient(c, a, v) >= 0,
        orient(a, d, v) >= 0,
    ensures
        orient(a, b, v) >= 0 ==> orient(b, c, v) >= 0,
        orient(a, b, v) < 0 ==> orient(b, a, v) >= 0 && orient(d, b, v) >= 0,
{
    areas_turn(a, b, v);
    weights_balance(d, c, a, v, b, c);
    weights_balance(d, c, a, v, d, b);
    areas_turn(b, c, c);
    areas_turn(c, b, c);
    areas_turn(d, b, d);
    orientation_turns(b, c, d);
    orientation_turns(c, d, b);
    orientation_turns(b, c, a);
    orientation_turns(a, b, c);
    orientation_turns(d, b, c);
    orientation_turns(d, b, a);
    orientation_turns(b, a, d);
    let (t, x, y, z) = (
        orient_det(d, c, a),
        orient_det(c, a, v),
        orient_det(a, d, v),
        orient_det(d, c, v),
    );
    let (k1, k3) = (orient_det(b, c, d), orient_det(b, c, a));
    let (l2, l3) = (orient_det(d, b, c), orient_det(d, b, a));
    assert(orient_det(b, c, c) == 0 && orient_det(d, b, d) == 0);
    assert(k1 > 0 && k3 > 0 && l2 > 0 && l3 > 0);
    let (p, q) = (orient_det(b, c, v), orient_det(d, b, v));
    assert(y * 0 == 0 && x * 0 == 0);
    assert(p >= 0) by (nonlinear_arith)
        requires
            t * p == x * k1 + 0 + z * k3,
            t > 0,
            x >= 0,
            z >= 0,
            k1 > 0,
            k3 > 0,
    ;
    assert(q >= 0) by (nonlinear_arith)
        requires
            t * q == 0 + y * l2 + z * l3,
            t > 0,
            y >= 0,
            z >= 0,
            l2 > 0,
            l3 > 0,
    ;
}

/// Whether flipping an edge is called for: it has a triangle across whose apex
/// is inside the circle of its own.
spec fn wants_flip(m: MeshView, o: Otri) -> bool {
    is_edge(m, o) && !is_locally_delaunay(m, o)
}

/// Such a triangulation is one without subsegments.
proof fn lemma_tiled_paved(m: MeshView, set: Set<VertexId>)
    requires
        is_tiled(m, set),
    ensures
        is_paved(m, set),
        forall|o: Otri| #[trigger] is_edge(m, o) ==> is_live(m, o),
{
    assert forall|o: Otri| #[trigger] is_edge(m, o) implies is_live(m, o) by {
        assert(is_tile(m, set, o));
    }
    assert forall|o: Otri| #[trigger] is_live(m, o) implies is_cell(m, set, o) by {
        assert(is_edge(m, o));
        assert(is_tile(m, set, o));
        let p = m.nbr[o];
        if p.tri != 0 {
            assert(is_edge(m, p));
            assert(is_tile(m, set, p));
        }
    }
}

proof fn lemma_turnable(m: MeshView, set: Set<VertexId>, e: Otri)
    requires
        is_tiled(m, set),
        wants_flip(m, e),
    ensures
        is_turnable(m, e),
{
    let top = m.nbr[e];
    assert(is_tile(m, set, e));
    assert(is_edge(m, top));
    assert(is_tile(m, set, top));
    lemma_quad_convex(
        m.pos(m.org(e)),
        m.pos(m.dest(e)),
        m.pos(m.apex(e)),
        m.pos(m.apex(top)),
    );
}

#[verifier::spinoff_prover]
#[verifier::rlimit(60)]
proof fn lemma_flip_sides(m: MeshView, set: Set<VertexId>, e: Otri)
    requires
        is_tiled(m, set),
        wants_flip(m, e),
    ensures
        ({
            let w = flipped(m, e);
            let top = m.nbr[e];
            &&& is_edge(m, top) && top.tri != e.tri
            &&& w == (MeshView { nbr: w.nbr, corner: w.corner, tsub: w.tsub, stri: w.stri, ..m })
            &&& w.org(e) == m.apex(top) && w.dest(e) == m.apex(e) && w.apex(e) == m.org(e)
            &&& w.org(top) == m.apex(e) && w.dest(top) == m.apex(top) && w.apex(top) == m.dest(e)
            &&& w.nbr[e] == top && w.nbr[top] == e
            &&& w.nbr[top.prev()] == m.nbr[e.next()]
            &&& w.nbr[e.next()] == m.nbr[e.prev()]
            &&& w.nbr[e.prev()] == m.nbr[top.next()]
            &&& w.nbr[top.next()] == m.nbr[top.prev()]
            &&& forall|o: Otri| #[trigger]
                is_edge(m, o) && o.tri != e.tri && o.tri != top.tri ==> w.org(o) == m.org(o)
                    && w.dest(o) == m.dest(o) && w.apex(o) == m.apex(o) && w.nbr[o]
                    == if m.nbr[o] == e.next() {
                    top.prev()
                } else if m.nbr[o] == e.prev() {
                    e.next()
                } else if m.nbr[o] == top.next() {
                    e.prev()
                } else if m.nbr[o] == top.prev() {
                    top.next()
                } else {
                    m.nbr[o]
                }
            &&& forall|o: Otri| #[trigger] is_edge(m, o) ==> w.tsub[o].sub == 0
        }),
{
    let w = flipped(m, e);
    let top = m.nbr[e];
    lemma_tiled_paved(m, set);
    lemma_turnable(m, set, e);
    lemma_flip_links(m, set, e);
    lemma_turns(e);
    lemma_turns(top);
    assert forall|o: Otri| #[trigger] is_edge(m, o) implies w.tsub[o].sub == 0 by {
        assert(is_live(m, o));
        assert(is_tile(m, set, o));
        if o.tri == e.tri {
            lemma_three(e, o);
        } else if o.tri == top.tri {
            lemma_three(top, o);
        }
        assert(is_edge(m, e.next()) && is_edge(m, e.prev()));
        assert(is_edge(m, top.next()) && is_edge(m, top.prev()));
        assert(is_tile(m, set, e.next()) && is_tile(m, set, e.prev()));
        assert(is_tile(m, set, top.next()) && is_tile(m, set, top.prev()));
    }
}

proof fn lemma_flip_stays_tiled(m: MeshView, set: Set<VertexId>, e: Otri)
    requires
        is_tiled(m, set),
        wants_flip(m, e),
        flipped(m, e).wf(),
    ensures
        is_tiled(flipped(m, e), set),
{
    let w = flipped(m, e);
    lemma_tiled_paved(m, set);
    lemma_turnable(m, set, e);
    lemma_flip_sides(m, set, e);
    lemma_flip_tiles(m, set, e);
    assert forall|o: Otri| #[trigger] is_edge(w, o) implies is_tile(w, set, o) by {
        assert(is_edge(m, o));
        assert(is_live(m, o));
        assert(is_live(w, o));
        assert(is_cell(w, set, o));
    }
}

#[verifier::spinoff_prover]
#[verifier::rlimit(60)]
proof fn lemma_flip_shrinks(m: MeshView, set: Set<VertexId>, e: Otri)
    requires
        is_tiled(m, set),
        is_convex(m, set),
        wants_flip(m, e),
    ensures
        is_convex(flipped(m, e), set),
        rim_count(flipped(m, e), m.tri_count) == rim_count(m, m.tri_count),
        room(flipped(m, e)) < room(m),
{
    let w = flipped(m, e);
    let top = m.nbr[e];
    lemma_flip_sides(m, set, e);
    assert(is_tile(m, set, e) && is_tile(m, set, top));
    lemma_turns(e);
    lemma_turns(top);
    let (tl, tr, bl, br) = (top.prev(), top.next(), e.next(), e.prev());
    assert(is_edge(m, tl) && is_edge(m, tr) && is_edge(m, bl) && is_edge(m, br));
    lemma_tiled_paved(m, set);
    lemma_turnable(m, set, e);
    assert forall|o: Otri| #[trigger] is_live(m, o) && m.nbr[o].tri == 0 implies bounds_all(
        m,
        set,
        o,
    ) by {
        assert(is_edge(m, o));
    }
    lemma_flip_convex(m, set, e);
    assert forall|o: Otri| #[trigger] is_edge(w, o) && w.nbr[o].tri == 0 implies bounds_all(
        w,
        set,
        o,
    ) by {
        assert(is_edge(m, o));
        assert(is_live(w, o));
    }
    // The open edges only move between the two triangles.
    let n = m.tri_count;
    lemma_rim_total(m, n);
    lemma_rim_total(w, n);
    assert forall|q: Otri| #[trigger] is_edge(m, q) implies is_face(w, q.tri) && is_face(m, q.tri) by {
        let first = Otri { tri: q.tri, orient: 0 };
        assert(is_edge(m, first));
        assert(is_tile(m, set, first));
        assert(w.dead(q.tri) == m.dead(q.tri));
        lemma_turns(first);
        if q.tri == e.tri {
            lemma_three(first, e);
        } else if q.tri == top.tri {
            lemma_three(first, top);
        }
    }
    lemma_open_sides(m, e);
    lemma_open_sides(w, e);
    lemma_open_sides(m, top);
    lemma_open_sides(w, top);
    assert forall|k: int| 0 <= k < n && k != e.tri && k != top.tri implies #[trigger] rim_at(w)(k)
        == rim_at(m)(k) by {
        if k != 0 {
            let first = Otri { tri: k as u32, orient: 0 };
            lemma_turns(first);
            assert(is_edge(m, first) && is_edge(m, first.next()) && is_edge(m, first.prev()));
            lemma_open_sides(m, first);
            lemma_open_sides(w, first);
        }
    }
    lemma_total_changes(rim_at(m), rim_at(w), n, e.tri as int, top.tri as int);
    // The room shrinks by the determinant.
    let (pa, pb, pc, pd) = (m.pos(m.org(e)), m.pos(m.dest(e)), m.pos(m.apex(e)), m.pos(m.apex(top)));
    lemma_flip_room(pa, pb, pc, pd);
    lemma_room_of(m, e);
    lemma_room_of(m, top);
    lemma_room_of(w, e);
    lemma_room_of(w, top);
    assert forall|k: int| 0 <= k < n && k != e.tri && k != top.tri implies #[trigger] room_at(w)(k)
        == room_at(m)(k) by {
        if k != 0 {
            let first = Otri { tri: k as u32, orient: 0 };
            assert(is_edge(m, first));
            lemma_room_of(m, first);
            lemma_room_of(w, first);
        }
    }
    lemma_total_changes(room_at(m), room_at(w), n, e.tri as int, top.tri as int);
}

/// One where an edge is open, else zero.
pub open spec fn gap(m: MeshView, o: Otri) -> int {
    if m.nbr[o].tri == 0 {
        1
    } else {
        0
    }
}

pub proof fn lemma_open_sides(m: MeshView, o: Otri)
    requires
        is_edge(m, o),
        is_face(m, o.tri),
    ensures
        rim_at(m)(o.tri as int) == gap(m, o) + gap(m, o.next()) + gap(m, o.prev()),
{
    let first = Otri { tri: o.tri, orient: 0 };
    lemma_turns(first);
    lemma_turns(o);
    lemma_three(first, o);
    assert(first.next() == (Otri { tri: o.tri, orient: 1 }));
    assert(first.prev() == (Otri { tri: o.tri, orient: 2 }));
}

// --- Flipping ---------------------------------------------------------------

/// Whether only the triangles' corners and links differ.
pub open spec fn same_pools(m: MeshView, w: MeshView) -> bool {
    w == (MeshView { nbr: w.nbr, corner: w.corner, tsub: w.tsub, stri: w.stri, ..m })
}

/// Whether all edges are locally Delaunay.
pub open spec fn all_local(m: MeshView) -> bool {
    forall|o: Otri| #[trigger] is_edge(m, o) ==> is_locally_delaunay(m, o)
}

/// The first edge that is not locally Delaunay.
fn find_bad_edge(mesh: &CdtMesh, Ghost(set): Ghost<Set<VertexId>>) -> (r: Option<Otri>)
    requires
        is_tiled(mesh@, set),
    ensures
        match r {
            Some(o) => wants_flip(mesh@, o),
            None => all_local(mesh@),
        },
{
    let n: usize = mesh.tri_slots();
    let mut t: usize = 1;
    while t < n
        invariant
            1 <= t,
            n == mesh@.tri_count,
            is_tiled(mesh@, set),
            forall|o: Otri|
                o.tri < t && #[trigger] is_edge(mesh@, o) ==> is_locally_delaunay(mesh@, o),
        decreases n - t,
    {
        let ti: u32 = t as u32;
        let mut k: u8 = 0;
        while k < 3
            invariant
                k <= 3,
                0 < ti < n,
                n == mesh@.tri_count,
                is_tiled(mesh@, set),
                forall|o: Otri|
                    o.tri == ti && o.orient < k && #[trigger] is_edge(mesh@, o)
                        ==> is_locally_delaunay(mesh@, o),
            decreases 3 - k,
        {
            let o = Otri { tri: ti, orient: k };
            proof {
                assert(is_edge(mesh@, o));
                assert(is_tile(mesh@, set, o));
                lemma_turns(o);
            }
            let p = mesh.sym(o);
            if p.tri != 0 {
                proof {
                    assert(is_edge(mesh@, p));
                    assert(is_tile(mesh@, set, p));
                }
                let a = mesh.vertex_pos(mesh.org(o));
                let b = mesh.vertex_pos(mesh.dest(o));
                let c = mesh.vertex_pos(mesh.apex(o));
                let d = mesh.vertex_pos(mesh.apex(p));
                if incircle(a, b, c, d) > 0 {
                    return Some(o);
                }
            }
            k += 1;
        }
        t += 1;
    }
    None
}

/// Flip edges until all are locally Delaunay.
pub(crate) fn flip_all(mesh: &mut CdtMesh, Ghost(set): Ghost<Set<VertexId>>)
    requires
        is_tiled(old(mesh)@, set),
        is_convex(old(mesh)@, set),
    ensures
        is_tiled(final(mesh)@, set),
        is_convex(final(mesh)@, set),
        all_local(final(mesh)@),
        same_pools(old(mesh)@, final(mesh)@),
        rim_count(final(mesh)@, final(mesh)@.tri_count) == rim_count(
            old(mesh)@,
            old(mesh)@.tri_count,
        ),
{
    loop
        invariant
            is_tiled(mesh@, set),
            is_convex(mesh@, set),
            same_pools(old(mesh)@, mesh@),
            rim_count(mesh@, mesh@.tri_count) == rim_count(old(mesh)@, old(mesh)@.tri_count),
        decreases room(mesh@),
    {
        match find_bad_edge(mesh, Ghost(set)) {
            None => {
                return;
            },
            Some(o) => {
                let mut e = o;
                let ghost before = mesh@;
                proof {
                    assert(is_tile(before, set, o));
                    lemma_flip_sides(before, set, o);
                    lemma_flip_shrinks(before, set, o);
                }
                flip(mesh, &mut e);
                proof {
                    lemma_flip_stays_tiled(before, set, o);
                    lemma_room_positive(mesh@, set);
                }
            },
        }
    }
}

proof fn lemma_room_positive(m: MeshView, set: Set<VertexId>)
    requires
        is_tiled(m, set),
    ensures
        room(m) >= 0,
{
    assert forall|k: int| 0 <= k < m.tri_count implies #[trigger] room_at(m)(k) >= 0 by {
        if k != 0 {
            let o = Otri { tri: k as u32, orient: 0 };
            assert(is_edge(m, o));
            assert(is_tile(m, set, o));
            let (a, b, c) = (m.pos(m.org(o)), m.pos(m.dest(o)), m.pos(m.apex(o)));
            lemma_far_positive(a);
            lemma_far_positive(b);
            lemma_far_positive(c);
            let (x, y) = (
                orient_det(a, b, c),
                far2(a, origin()) + far2(b, origin()) + far2(c, origin()),
            );
            assert(x * y >= 0) by (nonlinear_arith)
                requires
                    x > 0,
                    y >= 0,
            ;
        }
    }
    lemma_total_positive(room_at(m), m.tri_count);
}

pub(crate) proof fn lemma_far_positive(a: Vertex)
    ensures
        far2(a, origin()) >= 0,
{
    let (x, y) = (a.vx() - origin().vx(), a.vy() - origin().vy());
    assert(x * x + y * y >= 0) by (nonlinear_arith);
}

} // verus!
