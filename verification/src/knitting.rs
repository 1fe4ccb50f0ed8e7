//! What building and merging triangulations keeps: every edge stays glued to
//! its partner, and every triangle stays counter-clockwise.

use crate::divconq::{
    beyond, breaks_circle, cleared, climbed, edge_pair, finished, four_made, joins_right, knitted,
    left_edge_out, left_lowered, left_purged, lowered, merge_prepared, merged, one_triangle,
    right_edge_out, right_lowered, right_purged, seam_closed, seam_opened, slid, toothed,
    triangle_or_edges, two_edges, Seam, Tangent,
};
use crate::mesh::{no_vertex, MeshView, Otri, VertexId};
use crate::predicates::{
    circle_det, circle_shifts, circle_turns, cross, in_circle, lift, orient, orientation_turns,
    Vertex,
};
use crate::segment::{MeshFault, STEP_LIMIT};
use vstd::prelude::*;

verus! {

/// Whether `o` is an edge of a triangle other than the dummy.
pub open spec fn is_edge(m: MeshView, o: Otri) -> bool {
    m.has(o) && o.tri != 0
}

/// Whether an edge and the edge it is glued to run between the same corners,
/// opposite ways, and each is glued to the other.
pub open spec fn is_glued(m: MeshView, o: Otri) -> bool {
    let p = m.nbr[o];
    &&& is_edge(m, p)
    &&& m.nbr[p] == o
    &&& m.org(p) == m.dest(o)
    &&& m.dest(p) == m.org(o)
}

/// Whether a corner is a vertex or unset.
pub open spec fn corner_fits(m: MeshView, v: VertexId) -> bool {
    v == no_vertex() || m.has_vertex(v)
}

/// Whether the corners of a triangle differ, and where all are set, it is
/// counter-clockwise. `o` is any of its edges.
pub open spec fn is_proper(m: MeshView, o: Otri) -> bool {
    let (a, b, c) = (m.org(o), m.dest(o), m.apex(o));
    &&& corner_fits(m, a) && corner_fits(m, b) && corner_fits(m, c)
    &&& a != b && b != c && a != c
    &&& a != no_vertex() && b != no_vertex() && c != no_vertex() ==> orient(
        m.pos(a),
        m.pos(b),
        m.pos(c),
    ) > 0
}

/// Whether every triangle of a mesh is proper and every edge that is not
/// `open` is glued to one that is not.
pub open spec fn is_sound_but(m: MeshView, open: Set<Otri>) -> bool {
    &&& m.wf()
    &&& m.free_tris.len() == 0
    &&& m.vertices.len() < u32::MAX
    &&& forall|o: Otri| #[trigger] is_edge(m, o) ==> is_proper(m, o)
    &&& forall|o: Otri| #[trigger]
        is_edge(m, o) && !open.contains(o) ==> is_glued(m, o) && !open.contains(m.nbr[o])
}

/// Whether every triangle of a mesh is proper and every edge is glued.
pub open spec fn is_sound(m: MeshView) -> bool {
    is_sound_but(m, Set::empty())
}

// --- Geometry ---------------------------------------------------------------

pub(crate) proof fn lemma_inside_is_above_base(a: Vertex, b: Vertex, c: Vertex, d: Vertex)
    requires
        orient(a, b, c) > 0,
        orient(a, c, d) > 0,
        in_circle(a, b, c, d) > 0,
    ensures
        orient(a, b, d) > 0,
{
    orientation_turns(a, b, c);
    orientation_turns(b, c, a);
    orientation_turns(a, c, d);
    orientation_turns(c, d, a);
    orientation_turns(a, b, d);
    orientation_turns(b, d, a);
    circle_shifts(a, b, c, d);
    circle_turns(b, c, d, a);
    let (bx, by) = (b.vx() - a.vx(), b.vy() - a.vy());
    let (cx, cy) = (c.vx() - a.vx(), c.vy() - a.vy());
    let (dx, dy) = (d.vx() - a.vx(), d.vy() - a.vy());
    assert(cross(bx, by, cx, cy) > 0);
    assert(cross(cx, cy, dx, dy) > 0);
    assert(circle_det(bx, by, cx, cy, dx, dy) < 0);
    let (lb, lc, ld) = (lift(bx, by), lift(cx, cy), lift(dx, dy));
    let (p, q, r) = (cross(cx, cy, dx, dy), cross(dx, dy, bx, by), cross(bx, by, cx, cy));
    assert(lb >= 0 && lc >= 0 && ld >= 0) by {
        assert(bx * bx + by * by >= 0) by (nonlinear_arith);
        assert(cx * cx + cy * cy >= 0) by (nonlinear_arith);
        assert(dx * dx + dy * dy >= 0) by (nonlinear_arith);
    }
    assert(q < 0) by {
        assert(lb * p >= 0) by (nonlinear_arith)
            requires
                lb >= 0,
                p > 0,
        ;
        assert(ld * r >= 0) by (nonlinear_arith)
            requires
                ld >= 0,
                r > 0,
        ;
        assert(lc * q < 0);
        assert(q < 0) by (nonlinear_arith)
            requires
                lc * q < 0,
                lc >= 0,
        ;
    }
    assert(cross(bx, by, dx, dy) == -q) by {
        assert(bx * dy - by * dx == -(dx * by - dy * bx)) by (nonlinear_arith);
    }
}

pub(crate) proof fn lemma_inside_is_above_base_right(a: Vertex, b: Vertex, c: Vertex, d: Vertex)
    requires
        orient(a, b, c) > 0,
        orient(c, b, d) > 0,
        in_circle(a, b, c, d) > 0,
    ensures
        orient(a, b, d) > 0,
{
    orientation_turns(a, b, c);
    orientation_turns(b, c, a);
    orientation_turns(c, b, d);
    orientation_turns(b, d, c);
    orientation_turns(a, b, d);
    orientation_turns(b, d, a);
    circle_shifts(a, b, c, d);
    circle_shifts(b, c, d, a);
    let (ax, ay) = (a.vx() - b.vx(), a.vy() - b.vy());
    let (cx, cy) = (c.vx() - b.vx(), c.vy() - b.vy());
    let (dx, dy) = (d.vx() - b.vx(), d.vy() - b.vy());
    assert(cross(cx, cy, ax, ay) > 0);
    assert(cross(dx, dy, cx, cy) > 0);
    assert(circle_det(cx, cy, dx, dy, ax, ay) > 0);
    let (la, lc, ld) = (lift(ax, ay), lift(cx, cy), lift(dx, dy));
    let (p, q, r) = (cross(dx, dy, ax, ay), cross(ax, ay, cx, cy), cross(cx, cy, dx, dy));
    assert(la >= 0 && lc >= 0 && ld >= 0) by {
        assert(ax * ax + ay * ay >= 0) by (nonlinear_arith);
        assert(cx * cx + cy * cy >= 0) by (nonlinear_arith);
        assert(dx * dx + dy * dy >= 0) by (nonlinear_arith);
    }
    assert(q < 0) by {
        assert(ax * cy - ay * cx == -(cx * ay - cy * ax)) by (nonlinear_arith);
    }
    assert(r < 0) by {
        assert(cx * dy - cy * dx == -(dx * cy - dy * cx)) by (nonlinear_arith);
    }
    assert(ld * q <= 0) by (nonlinear_arith)
        requires
            ld >= 0,
            q < 0,
    ;
    assert(la * r <= 0) by (nonlinear_arith)
        requires
            la >= 0,
            r < 0,
    ;
    assert(lc * p > 0);
    assert(p > 0) by (nonlinear_arith)
        requires
            lc * p > 0,
            lc >= 0,
    ;
}

// --- Seams ------------------------------------------------------------------

/// The edges of a seam that are still to be glued.
pub open spec fn open_edges(s: Seam) -> Set<Otri> {
    set![s.base, s.left_cand, s.right_cand]
}

/// Whether a seam fits a mesh: the base runs from `lower_right` to
/// `lower_left`, each candidate is an edge of a triangle with an unset corner
/// above it, and apart from these three the mesh is sound.
pub open spec fn seam_fits(m: MeshView, s: Seam) -> bool {
    &&& is_sound_but(m, open_edges(s))
    &&& is_edge(m, s.base) && is_edge(m, s.left_cand) && is_edge(m, s.right_cand)
    &&& m.has_vertex(s.lower_left) && m.has_vertex(s.lower_right)
    &&& s.lower_left != s.lower_right
    &&& m.org(s.base) == s.lower_right && m.dest(s.base) == s.lower_left
    &&& m.org(s.left_cand) == s.lower_left && m.dest(s.left_cand) == no_vertex()
    &&& m.apex(s.left_cand) == s.upper_left
    &&& m.org(s.right_cand) == no_vertex() && m.dest(s.right_cand) == s.lower_right
    &&& m.apex(s.right_cand) == s.upper_right
}

pub(crate) proof fn lemma_turns(o: Otri)
    requires
        o.orient < 3,
    ensures
        o.next().next() == o.prev(),
        o.prev().prev() == o.next(),
        o.next().prev() == o,
        o.prev().next() == o,
        o.next() != o && o.prev() != o && o.next() != o.prev(),
        o.next().tri == o.tri && o.prev().tri == o.tri,
        o.next().orient < 3 && o.prev().orient < 3,
{
}

/// The edges of a triangle are any one of them and the two beside it.
pub(crate) proof fn lemma_three(o: Otri, q: Otri)
    requires
        o.orient < 3,
        q.orient < 3,
        q.tri == o.tri,
    ensures
        q == o || q == o.next() || q == o.prev(),
{
}

#[verifier::spinoff_prover]
#[verifier::rlimit(60)]
proof fn lemma_right_tooth(m: MeshView, s: Seam)
    requires
        seam_fits(m, s),
        orient(m.pos(s.lower_left), m.pos(s.lower_right), m.pos(s.upper_right)) > 0,
    ensures
        seam_fits(toothed(m, s, true).0, toothed(m, s, true).1),
{
    let (w, t) = toothed(m, s, true);
    let c = s.right_cand;
    let (cn, cp) = (c.next(), c.prev());
    lemma_turns(c);
    lemma_turns(cp);
    let (ll, lr, ur) = (s.lower_left, s.lower_right, s.upper_right);
    assert(is_proper(m, c));
    assert(ur != no_vertex() && m.has_vertex(ur));
    orientation_turns(m.pos(ll), m.pos(lr), m.pos(ur));
    orientation_turns(m.pos(lr), m.pos(ur), m.pos(ll));
    assert(ur != ll && ur != lr) by {
        orientation_turns(m.pos(ll), m.pos(lr), m.pos(ll));
        orientation_turns(m.pos(ur), m.pos(ll), m.pos(lr));
    }
    // The edge above becomes the base, its partner the candidate.
    let q = m.nbr[cp];
    assert(is_edge(m, cp) && is_edge(m, cn));
    assert(m.org(cp) == ur && m.dest(cp) == no_vertex());
    assert(cp != s.base && cp != s.left_cand);
    assert(!open_edges(s).contains(cp));
    assert(is_glued(m, cp));
    assert(m.org(q) == no_vertex() && m.dest(q) == ur);
    assert(q.tri != c.tri) by {
        if q.tri == c.tri {
            lemma_three(c, q);
        }
    }
    assert(s.left_cand.tri != c.tri) by {
        if s.left_cand.tri == c.tri {
            lemma_three(c, s.left_cand);
        }
    }
    assert(s.base.tri != c.tri) by {
        if s.base.tri == c.tri {
            lemma_three(c, s.base);
        }
    }
    assert(w.corner == m.corner.insert(cn, ll));
    assert(w.nbr == m.nbr.insert(s.base, c).insert(c, s.base));
    assert(t.base == cp && t.right_cand == q);
    assert forall|o: Otri| #[trigger] is_edge(w, o) implies is_proper(w, o) by {
        assert(is_edge(m, o));
        assert(is_proper(m, o));
        if o.tri == c.tri {
            lemma_three(c, o);
        } else {
            assert(w.org(o) == m.org(o) && w.dest(o) == m.dest(o) && w.apex(o) == m.apex(o));
        }
    }
    assert forall|o: Otri| #[trigger] is_edge(w, o) && !open_edges(t).contains(o) implies is_glued(
        w,
        o,
    ) && !open_edges(t).contains(w.nbr[o]) by {
        assert(is_edge(m, o));
        if o == s.base || o == c {
        } else {
            assert(!open_edges(s).contains(o));
            assert(is_glued(m, o));
            let p = m.nbr[o];
            assert(is_edge(w, p));
            if o.tri == c.tri {
                lemma_three(c, o);
            }
            if p.tri == c.tri {
                lemma_three(c, p);
            }
        }
    }
    assert(w.wf()) by {
        assert forall|o: Otri| w.has(o) <==> #[trigger] w.nbr.contains_key(o) by {
            assert(m.has(o) <==> m.nbr.contains_key(o));
        }
        assert forall|o: Otri| w.has(o) <==> #[trigger] w.corner.contains_key(o) by {
            assert(m.has(o) <==> m.corner.contains_key(o));
        }
    }
}

#[verifier::spinoff_prover]
#[verifier::rlimit(60)]
proof fn lemma_left_tooth(m: MeshView, s: Seam)
    requires
        seam_fits(m, s),
        orient(m.pos(s.lower_left), m.pos(s.lower_right), m.pos(s.upper_left)) > 0,
    ensures
        seam_fits(toothed(m, s, false).0, toothed(m, s, false).1),
{
    let (w, t) = toothed(m, s, false);
    let c = s.left_cand;
    let (cn, cp) = (c.next(), c.prev());
    lemma_turns(c);
    lemma_turns(cn);
    let (ll, lr, ul) = (s.lower_left, s.lower_right, s.upper_left);
    assert(is_proper(m, c));
    assert(ul != no_vertex() && m.has_vertex(ul));
    orientation_turns(m.pos(ll), m.pos(lr), m.pos(ul));
    orientation_turns(m.pos(lr), m.pos(ul), m.pos(ll));
    assert(ul != ll && ul != lr) by {
        orientation_turns(m.pos(ll), m.pos(lr), m.pos(ll));
        orientation_turns(m.pos(ul), m.pos(ll), m.pos(lr));
    }
    // The edge above becomes the base, its partner the candidate.
    let q = m.nbr[cn];
    assert(is_edge(m, cp) && is_edge(m, cn));
    assert(m.org(cn) == no_vertex() && m.dest(cn) == ul);
    assert(cn != s.base && cn != s.right_cand);
    assert(!open_edges(s).contains(cn));
    assert(is_glued(m, cn));
    assert(m.org(q) == ul && m.dest(q) == no_vertex());
    assert(q.tri != c.tri) by {
        if q.tri == c.tri {
            lemma_three(c, q);
        }
    }
    assert(s.right_cand.tri != c.tri) by {
        if s.right_cand.tri == c.tri {
            lemma_three(c, s.right_cand);
        }
    }
    assert(s.base.tri != c.tri) by {
        if s.base.tri == c.tri {
            lemma_three(c, s.base);
        }
    }
    assert(w.corner == m.corner.insert(cp, lr));
    assert(w.nbr == m.nbr.insert(s.base, c).insert(c, s.base));
    assert(t.base == cn && t.left_cand == q);
    assert forall|o: Otri| #[trigger] is_edge(w, o) implies is_proper(w, o) by {
        assert(is_edge(m, o));
        assert(is_proper(m, o));
        if o.tri == c.tri {
            lemma_three(c, o);
        } else {
            assert(w.org(o) == m.org(o) && w.dest(o) == m.dest(o) && w.apex(o) == m.apex(o));
        }
    }
    assert forall|o: Otri| #[trigger] is_edge(w, o) && !open_edges(t).contains(o) implies is_glued(
        w,
        o,
    ) && !open_edges(t).contains(w.nbr[o]) by {
        assert(is_edge(m, o));
        if o == s.base || o == c {
        } else {
            assert(!open_edges(s).contains(o));
            assert(is_glued(m, o));
            let p = m.nbr[o];
            assert(is_edge(w, p));
            if o.tri == c.tri {
                lemma_three(c, o);
            }
            if p.tri == c.tri {
                lemma_three(c, p);
            }
        }
    }
    assert(w.wf()) by {
        assert forall|o: Otri| w.has(o) <==> #[trigger] w.nbr.contains_key(o) by {
            assert(m.has(o) <==> m.nbr.contains_key(o));
        }
        assert forall|o: Otri| w.has(o) <==> #[trigger] w.corner.contains_key(o) by {
            assert(m.has(o) <==> m.corner.contains_key(o));
        }
    }
}

// --- Purging ----------------------------------------------------------------

/// The seam with another candidate on the left.
pub open spec fn with_left(s: Seam, cand: Otri, upper: VertexId) -> Seam {
    Seam { left_cand: cand, upper_left: upper, ..s }
}

/// The seam with another candidate on the right.
pub open spec fn with_right(s: Seam, cand: Otri, upper: VertexId) -> Seam {
    Seam { right_cand: cand, upper_right: upper, ..s }
}

#[verifier::spinoff_prover]
#[verifier::rlimit(100)]
proof fn lemma_left_out(m: MeshView, s: Seam)
    requires
        seam_fits(m, s),
        orient(m.pos(s.lower_left), m.pos(s.lower_right), m.pos(s.upper_left)) > 0,
        m.apex(m.sym(s.left_cand.prev())).valid(),
        in_circle(
            m.pos(s.lower_left),
            m.pos(s.lower_right),
            m.pos(s.upper_left),
            m.pos(m.apex(m.sym(s.left_cand.prev()))),
        ) > 0,
    ensures
        ({
            let next = m.sym(s.left_cand.prev());
            let far = m.apex(next);
            let w = left_edge_out(m, s.left_cand, next, s.lower_left, s.upper_left);
            let t = with_left(s, s.left_cand.next(), far);
            &&& seam_fits(w, t)
            &&& w.vertices == m.vertices
            &&& w.tri_count == m.tri_count
            &&& orient(m.pos(s.lower_left), m.pos(s.lower_right), m.pos(far)) > 0
            &&& w.sym(t.left_cand.prev()) == m.sym(next.next().next())
        }),
{
    let c = s.left_cand;
    let (cn, cp) = (c.next(), c.prev());
    lemma_turns(c);
    let (ll, lr, ul) = (s.lower_left, s.lower_right, s.upper_left);
    assert(is_proper(m, c));
    assert(ul != no_vertex() && m.has_vertex(ul));
    orientation_turns(m.pos(ll), m.pos(lr), m.pos(ul));
    orientation_turns(m.pos(lr), m.pos(ul), m.pos(ll));
    assert(ul != ll && ul != lr) by {
        orientation_turns(m.pos(ll), m.pos(lr), m.pos(ll));
        orientation_turns(m.pos(ul), m.pos(ll), m.pos(lr));
    }
    assert(is_edge(m, cp) && is_edge(m, cn));
    assert(m.org(cp) == ul && m.dest(cp) == ll);
    assert(!open_edges(s).contains(cp));
    assert(is_glued(m, cp));
    let n = m.nbr[cp];
    lemma_turns(n);
    let far = m.apex(n);
    assert(is_proper(m, n));
    assert(m.org(n) == ll && m.dest(n) == ul);
    lemma_inside_is_above_base(m.pos(ll), m.pos(lr), m.pos(ul), m.pos(far));
    assert(far != lr && far != ll && far != ul) by {
        orientation_turns(m.pos(ll), m.pos(lr), m.pos(far));
        orientation_turns(m.pos(lr), m.pos(far), m.pos(ll));
        orientation_turns(m.pos(far), m.pos(ll), m.pos(lr));
    }
    let (p, n2) = (n.next(), n.prev());
    assert(n.tri != c.tri) by {
        if n.tri == c.tri {
            lemma_three(c, n);
        }
    }
    assert(is_edge(m, p) && is_edge(m, n2));
    assert(m.org(p) == ul && m.dest(p) == far);
    assert(m.org(n2) == far && m.dest(n2) == ll);
    assert(m.org(cn) == no_vertex() && m.dest(cn) == ul);
    assert(!open_edges(s).contains(p) && !open_edges(s).contains(n2) && !open_edges(s).contains(cn));
    let (pp, qq, rr) = (m.nbr[p], m.nbr[n2], m.nbr[cn]);
    assert(is_glued(m, p) && is_glued(m, n2) && is_glued(m, cn));
    assert(m.org(pp) == far && m.dest(pp) == ul);
    assert(m.org(qq) == ll && m.dest(qq) == far);
    assert(m.org(rr) == ul && m.dest(rr) == no_vertex());
    assert(pp.tri != c.tri && pp.tri != n.tri) by {
        if pp.tri == c.tri {
            lemma_three(c, pp);
        }
        if pp.tri == n.tri {
            lemma_three(n, pp);
        }
    }
    assert(qq.tri != c.tri && qq.tri != n.tri) by {
        if qq.tri == c.tri {
            lemma_three(c, qq);
        }
        if qq.tri == n.tri {
            lemma_three(n, qq);
        }
    }
    assert(rr.tri != c.tri && rr.tri != n.tri) by {
        if rr.tri == c.tri {
            lemma_three(c, rr);
        }
        if rr.tri == n.tri {
            lemma_three(n, rr);
        }
    }
    assert(s.right_cand.tri != c.tri && s.right_cand.tri != n.tri) by {
        if s.right_cand.tri == c.tri {
            lemma_three(c, s.right_cand);
        }
        if s.right_cand.tri == n.tri {
            lemma_three(n, s.right_cand);
        }
    }
    assert(s.base.tri != c.tri && s.base.tri != n.tri) by {
        if s.base.tri == c.tri {
            lemma_three(c, s.base);
        }
        if s.base.tri == n.tri {
            lemma_three(n, s.base);
        }
    }
    let w = left_edge_out(m, c, n, ll, ul);
    let t = with_left(s, cn, far);
    assert(w.nbr == m.nbr.insert(n2, pp).insert(pp, n2).insert(c, qq).insert(qq, c).insert(
        p,
        rr,
    ).insert(rr, p));
    lemma_turns(cn);
    lemma_turns(p);
    lemma_turns(n2);
    assert(w.corner == m.corner.insert(cp, ll).insert(c, no_vertex()).insert(cn, far).insert(
        n2,
        no_vertex(),
    ).insert(n, ul).insert(p, far));
    assert(w.org(c) == far && w.dest(c) == ll && w.apex(c) == no_vertex());
    assert(w.org(n) == far && w.dest(n) == no_vertex() && w.apex(n) == ul);
    assert forall|o: Otri| #[trigger] is_edge(w, o) implies is_proper(w, o) by {
        assert(is_edge(m, o));
        assert(is_proper(m, o));
        if o.tri == c.tri {
            lemma_three(c, o);
        } else if o.tri == n.tri {
            lemma_three(n, o);
        } else {
            assert(w.org(o) == m.org(o) && w.dest(o) == m.dest(o) && w.apex(o) == m.apex(o));
        }
    }
    assert forall|o: Otri| #[trigger] is_edge(w, o) && !open_edges(t).contains(o) implies is_glued(
        w,
        o,
    ) && !open_edges(t).contains(w.nbr[o]) by {
        assert(is_edge(m, o));
        if o.tri == c.tri {
            lemma_three(c, o);
        } else if o.tri == n.tri {
            lemma_three(n, o);
        } else {
            assert(!open_edges(s).contains(o));
            assert(is_glued(m, o));
            let x = m.nbr[o];
            if x.tri == c.tri {
                lemma_three(c, x);
            }
            if x.tri == n.tri {
                lemma_three(n, x);
            }
            assert(is_edge(w, x));
        }
    }
    assert(w.wf()) by {
        assert forall|o: Otri| w.has(o) <==> #[trigger] w.nbr.contains_key(o) by {
            assert(m.has(o) <==> m.nbr.contains_key(o));
        }
        assert forall|o: Otri| w.has(o) <==> #[trigger] w.corner.contains_key(o) by {
            assert(m.has(o) <==> m.corner.contains_key(o));
        }
    }
}

#[verifier::spinoff_prover]
#[verifier::rlimit(100)]
proof fn lemma_right_out(m: MeshView, s: Seam)
    requires
        seam_fits(m, s),
        orient(m.pos(s.lower_left), m.pos(s.lower_right), m.pos(s.upper_right)) > 0,
        m.apex(m.sym(s.right_cand.next())).valid(),
        in_circle(
            m.pos(s.lower_left),
            m.pos(s.lower_right),
            m.pos(s.upper_right),
            m.pos(m.apex(m.sym(s.right_cand.next()))),
        ) > 0,
    ensures
        ({
            let next = m.sym(s.right_cand.next());
            let far = m.apex(next);
            let w = right_edge_out(m, s.right_cand, next, s.lower_right, s.upper_right);
            let t = with_right(s, s.right_cand.prev(), far);
            &&& seam_fits(w, t)
            &&& w.vertices == m.vertices
            &&& w.tri_count == m.tri_count
            &&& orient(m.pos(s.lower_left), m.pos(s.lower_right), m.pos(far)) > 0
            &&& w.sym(t.right_cand.next()) == m.sym(next.prev().prev())
        }),
{
    let c = s.right_cand;
    let (cn, cp) = (c.next(), c.prev());
    lemma_turns(c);
    let (ll, lr, ur) = (s.lower_left, s.lower_right, s.upper_right);
    assert(is_proper(m, c));
    assert(ur != no_vertex() && m.has_vertex(ur));
    orientation_turns(m.pos(ll), m.pos(lr), m.pos(ur));
    orientation_turns(m.pos(lr), m.pos(ur), m.pos(ll));
    assert(ur != ll && ur != lr) by {
        orientation_turns(m.pos(ll), m.pos(lr), m.pos(ll));
        orientation_turns(m.pos(ur), m.pos(ll), m.pos(lr));
    }
    assert(is_edge(m, cp) && is_edge(m, cn));
    assert(m.org(cn) == lr && m.dest(cn) == ur);
    assert(!open_edges(s).contains(cn));
    assert(is_glued(m, cn));
    let n = m.nbr[cn];
    lemma_turns(n);
    let far = m.apex(n);
    assert(is_proper(m, n));
    assert(m.org(n) == ur && m.dest(n) == lr);
    lemma_inside_is_above_base_right(m.pos(ll), m.pos(lr), m.pos(ur), m.pos(far));
    assert(far != lr && far != ll && far != ur) by {
        orientation_turns(m.pos(ll), m.pos(lr), m.pos(far));
        orientation_turns(m.pos(lr), m.pos(far), m.pos(ll));
        orientation_turns(m.pos(far), m.pos(ll), m.pos(lr));
    }
    let (p, n2) = (n.prev(), n.next());
    assert(n.tri != c.tri) by {
        if n.tri == c.tri {
            lemma_three(c, n);
        }
    }
    assert(is_edge(m, p) && is_edge(m, n2));
    assert(m.org(p) == far && m.dest(p) == ur);
    assert(m.org(n2) == lr && m.dest(n2) == far);
    assert(m.org(cp) == ur && m.dest(cp) == no_vertex());
    assert(!open_edges(s).contains(p) && !open_edges(s).contains(n2) && !open_edges(s).contains(cp));
    let (pp, qq, rr) = (m.nbr[p], m.nbr[n2], m.nbr[cp]);
    assert(is_glued(m, p) && is_glued(m, n2) && is_glued(m, cp));
    assert(m.org(pp) == ur && m.dest(pp) == far);
    assert(m.org(qq) == far && m.dest(qq) == lr);
    assert(m.org(rr) == no_vertex() && m.dest(rr) == ur);
    assert(pp.tri != c.tri && pp.tri != n.tri) by {
        if pp.tri == c.tri {
            lemma_three(c, pp);
        }
        if pp.tri == n.tri {
            lemma_three(n, pp);
        }
    }
    assert(qq.tri != c.tri && qq.tri != n.tri) by {
        if qq.tri == c.tri {
            lemma_three(c, qq);
        }
        if qq.tri == n.tri {
            lemma_three(n, qq);
        }
    }
    assert(rr.tri != c.tri && rr.tri != n.tri) by {
        if rr.tri == c.tri {
            lemma_three(c, rr);
        }
        if rr.tri == n.tri {
            lemma_three(n, rr);
        }
    }
    assert(s.left_cand.tri != c.tri && s.left_cand.tri != n.tri) by {
        if s.left_cand.tri == c.tri {
            lemma_three(c, s.left_cand);
        }
        if s.left_cand.tri == n.tri {
            lemma_three(n, s.left_cand);
        }
    }
    assert(s.base.tri != c.tri && s.base.tri != n.tri) by {
        if s.base.tri == c.tri {
            lemma_three(c, s.base);
        }
        if s.base.tri == n.tri {
            lemma_three(n, s.base);
        }
    }
    let w = right_edge_out(m, c, n, lr, ur);
    let t = with_right(s, cp, far);
    assert(w.nbr == m.nbr.insert(n2, pp).insert(pp, n2).insert(c, qq).insert(qq, c).insert(
        p,
        rr,
    ).insert(rr, p));
    lemma_turns(cp);
    lemma_turns(p);
    lemma_turns(n2);
    assert(w.corner == m.corner.insert(c, no_vertex()).insert(cn, lr).insert(cp, far).insert(
        n,
        ur,
    ).insert(n2, no_vertex()).insert(p, far));
    assert(w.org(c) == lr && w.dest(c) == far && w.apex(c) == no_vertex());
    assert(w.org(n) == no_vertex() && w.dest(n) == far && w.apex(n) == ur);
    assert forall|o: Otri| #[trigger] is_edge(w, o) implies is_proper(w, o) by {
        assert(is_edge(m, o));
        assert(is_proper(m, o));
        if o.tri == c.tri {
            lemma_three(c, o);
        } else if o.tri == n.tri {
            lemma_three(n, o);
        } else {
            assert(w.org(o) == m.org(o) && w.dest(o) == m.dest(o) && w.apex(o) == m.apex(o));
        }
    }
    assert forall|o: Otri| #[trigger] is_edge(w, o) && !open_edges(t).contains(o) implies is_glued(
        w,
        o,
    ) && !open_edges(t).contains(w.nbr[o]) by {
        assert(is_edge(m, o));
        if o.tri == c.tri {
            lemma_three(c, o);
        } else if o.tri == n.tri {
            lemma_three(n, o);
        } else {
            assert(!open_edges(s).contains(o));
            assert(is_glued(m, o));
            let x = m.nbr[o];
            if x.tri == c.tri {
                lemma_three(c, x);
            }
            if x.tri == n.tri {
                lemma_three(n, x);
            }
            assert(is_edge(w, x));
        }
    }
    assert(w.wf()) by {
        assert forall|o: Otri| w.has(o) <==> #[trigger] w.nbr.contains_key(o) by {
            assert(m.has(o) <==> m.nbr.contains_key(o));
        }
        assert forall|o: Otri| w.has(o) <==> #[trigger] w.corner.contains_key(o) by {
            assert(m.has(o) <==> m.corner.contains_key(o));
        }
    }
}

/// The vertices that purging and knitting look at are unset or vertices of
/// the mesh.
proof fn lemma_candidates(m: MeshView, s: Seam)
    requires
        seam_fits(m, s),
    ensures
        m.has_vertex(s.upper_left),
        m.has_vertex(s.upper_right),
        s.upper_left != s.lower_right ==> corner_fits(m, m.apex(m.sym(s.left_cand.prev()))),
        s.upper_right != s.lower_left ==> corner_fits(m, m.apex(m.sym(s.right_cand.next()))),
{
    let (p, n) = (s.left_cand.prev(), s.right_cand.next());
    lemma_turns(s.left_cand);
    lemma_turns(s.right_cand);
    assert(is_proper(m, s.left_cand) && is_proper(m, s.right_cand));
    assert(is_edge(m, p) && is_edge(m, n));
    assert(m.org(p) == s.upper_left && m.dest(p) == s.lower_left);
    assert(m.org(n) == s.lower_right && m.dest(n) == s.upper_right);
    assert(m.has(m.nbr[p]) && m.has(m.nbr[n]));
    if p != s.base {
        assert(is_glued(m, p));
        assert(is_proper(m, m.nbr[p]));
    }
    if n != s.base {
        assert(is_glued(m, n));
        assert(is_proper(m, m.nbr[n]));
    }
}

/// Taking edges out of the left hull keeps a seam and its mesh in order, and
/// stops at a candidate above the base whose circle through the base leaves
/// out the vertex across its hull edge.
pub proof fn left_purging_clears_the_circle(m: MeshView, s: Seam, fuel: nat)
    requires
        seam_fits(m, s),
        orient(m.pos(s.lower_left), m.pos(s.lower_right), m.pos(s.upper_left)) > 0,
    ensures
        ({
            let (w, c, u, r) = left_purged(
                m,
                s.left_cand,
                m.sym(s.left_cand.prev()),
                s.lower_left,
                s.lower_right,
                s.upper_left,
                fuel,
            );
            &&& seam_fits(w, with_left(s, c, u))
            &&& w.vertices == m.vertices
            &&& orient(m.pos(s.lower_left), m.pos(s.lower_right), m.pos(u)) > 0
            &&& r is Ok ==> breaks_circle(
                w,
                s.lower_left,
                s.lower_right,
                u,
                w.apex(w.sym(c.prev())),
            ) == Ok::<bool, MeshFault>(false)
            &&& r matches Err(e) ==> e == MeshFault::Stalled
        }),
    decreases fuel,
{
    reveal(left_purged);
    let next = m.sym(s.left_cand.prev());
    lemma_candidates(m, s);
    let (a, b) = (m.pos(s.lower_left), m.pos(s.lower_right));
    orientation_turns(a, b, b);
    orientation_turns(b, b, a);
    let far = m.apex(next);
    match breaks_circle(m, s.lower_left, s.lower_right, s.upper_left, far) {
        Err(_) => {},
        Ok(bad) => {
            if bad && fuel > 0 {
                lemma_left_out(m, s);
                let w = left_edge_out(m, s.left_cand, next, s.lower_left, s.upper_left);
                let t = with_left(s, s.left_cand.next(), far);
                left_purging_clears_the_circle(w, t, (fuel - 1) as nat);
            }
        },
    }
}

/// Taking edges out of the right hull keeps a seam and its mesh in order, and
/// stops at a candidate above the base whose circle through the base leaves
/// out the vertex across its hull edge.
pub proof fn right_purging_clears_the_circle(m: MeshView, s: Seam, fuel: nat)
    requires
        seam_fits(m, s),
        orient(m.pos(s.lower_left), m.pos(s.lower_right), m.pos(s.upper_right)) > 0,
    ensures
        ({
            let (w, c, u, r) = right_purged(
                m,
                s.right_cand,
                m.sym(s.right_cand.next()),
                s.lower_left,
                s.lower_right,
                s.upper_right,
                fuel,
            );
            &&& seam_fits(w, with_right(s, c, u))
            &&& w.vertices == m.vertices
            &&& orient(m.pos(s.lower_left), m.pos(s.lower_right), m.pos(u)) > 0
            &&& r is Ok ==> breaks_circle(
                w,
                s.lower_left,
                s.lower_right,
                u,
                w.apex(w.sym(c.next())),
            ) == Ok::<bool, MeshFault>(false)
            &&& r matches Err(e) ==> e == MeshFault::Stalled
        }),
    decreases fuel,
{
    reveal(right_purged);
    let next = m.sym(s.right_cand.next());
    lemma_candidates(m, s);
    let (a, b) = (m.pos(s.lower_left), m.pos(s.lower_right));
    orientation_turns(a, b, a);
    orientation_turns(a, a, b);
    let far = m.apex(next);
    match breaks_circle(m, s.lower_left, s.lower_right, s.upper_right, far) {
        Err(_) => {},
        Ok(bad) => {
            if bad && fuel > 0 {
                lemma_right_out(m, s);
                let w = right_edge_out(m, s.right_cand, next, s.lower_right, s.upper_right);
                let t = with_right(s, s.right_cand.prev(), far);
                right_purging_clears_the_circle(w, t, (fuel - 1) as nat);
            }
        },
    }
}

// --- Knitting ---------------------------------------------------------------

proof fn lemma_cleared(m: MeshView, s: Seam, left_done: bool, right_done: bool)
    requires
        seam_fits(m, s),
        !left_done ==> orient(m.pos(s.lower_left), m.pos(s.lower_right), m.pos(s.upper_left)) > 0,
        !right_done ==> orient(m.pos(s.lower_left), m.pos(s.lower_right), m.pos(s.upper_right)) > 0,
    ensures
        ({
            let (w, t, r) = cleared(m, s, left_done, right_done);
            &&& seam_fits(w, t)
            &&& w.vertices == m.vertices
            &&& r matches Err(e) ==> e == MeshFault::Stalled
            &&& r is Ok && !left_done ==> orient(
                w.pos(t.lower_left),
                w.pos(t.lower_right),
                w.pos(t.upper_left),
            ) > 0
            &&& r is Ok && !right_done ==> orient(
                w.pos(t.lower_left),
                w.pos(t.lower_right),
                w.pos(t.upper_right),
            ) > 0
        }),
{
    if !left_done {
        left_purging_clears_the_circle(m, s, STEP_LIMIT as nat);
    }
    let (m1, lc, ul, r1) = if left_done {
        (m, s.left_cand, s.upper_left, Ok(()))
    } else {
        left_purged(
            m,
            s.left_cand,
            m.sym(s.left_cand.prev()),
            s.lower_left,
            s.lower_right,
            s.upper_left,
            STEP_LIMIT as nat,
        )
    };
    let s1 = with_left(s, lc, ul);
    assert(left_done ==> s1 == s);
    if !right_done {
        right_purging_clears_the_circle(m1, s1, STEP_LIMIT as nat);
    }
}

proof fn lemma_knitted(m: MeshView, s: Seam, fuel: nat)
    requires
        seam_fits(m, s),
    ensures
        seam_fits(knitted(m, s, fuel).0, knitted(m, s, fuel).1),
        knitted(m, s, fuel).0.vertices == m.vertices,
        knitted(m, s, fuel).2 matches Err(e) ==> e == MeshFault::Stalled,
    decreases fuel,
{
    reveal(knitted);
    lemma_candidates(m, s);
    let (a, b) = (m.pos(s.lower_left), m.pos(s.lower_right));
    orientation_turns(m.pos(s.upper_left), a, b);
    orientation_turns(m.pos(s.upper_right), a, b);
    match (
        finished(m, s.upper_left, s.lower_left, s.lower_right),
        finished(m, s.upper_right, s.lower_left, s.lower_right),
    ) {
        (Ok(left_done), Ok(right_done)) => {
            if !(left_done && right_done) {
                lemma_cleared(m, s, left_done, right_done);
                let (m1, s1, r) = cleared(m, s, left_done, right_done);
                lemma_candidates(m1, s1);
                match (r, joins_right(m1, s1, left_done, right_done)) {
                    (Ok(_), Ok(right)) => {
                        if right {
                            lemma_right_tooth(m1, s1);
                        } else {
                            lemma_left_tooth(m1, s1);
                        }
                        let (m2, s2) = toothed(m1, s1, right);
                        if fuel > 0 {
                            lemma_knitted(m2, s2, (fuel - 1) as nat);
                        }
                    },
                    _ => {},
                }
            }
        },
        _ => {},
    }
}

pub(crate) proof fn lemma_new_triangle(m: MeshView)
    requires
        m.wf(),
        m.free_tris.len() == 0,
        m.tri_room(),
    ensures
        m.with_triangle().wf(),
        m.with_triangle().tri_count == m.tri_count + 1,
        m.next_tri() == m.tri_count,
{
    let w = m.with_triangle();
    assert forall|o: Otri| w.has(o) <==> #[trigger] w.nbr.contains_key(o) by {
        assert(m.has(o) <==> m.nbr.contains_key(o));
    }
    assert forall|o: Otri| w.has(o) <==> #[trigger] w.corner.contains_key(o) by {
        assert(m.has(o) <==> m.corner.contains_key(o));
    }
    assert forall|o: Otri| w.has(o) <==> #[trigger] w.tsub.contains_key(o) by {
        assert(m.has(o) <==> m.tsub.contains_key(o));
    }
    assert forall|o: Otri| w.has(o) implies w.has(#[trigger] w.nbr[o]) by {
        if m.has(o) {
            assert(m.has(m.nbr[o]));
        }
    }
    assert forall|o: Otri| w.has(o) implies w.has_sub(#[trigger] w.tsub[o]) by {
        if m.has(o) {
            assert(m.has_sub(m.tsub[o]));
        }
    }
}

pub(crate) proof fn lemma_bonded(m: MeshView, a: Otri, b: Otri)
    requires
        m.wf(),
        m.has(a),
        m.has(b),
    ensures
        m.bonded(a, b).wf(),
{
    let w = m.bonded(a, b);
    assert forall|o: Otri| w.has(o) <==> #[trigger] w.nbr.contains_key(o) by {
        assert(m.has(o) <==> m.nbr.contains_key(o));
    }
    assert forall|o: Otri| w.has(o) implies w.has(#[trigger] w.nbr[o]) by {
        assert(m.has(m.nbr[o]));
    }
}

pub(crate) proof fn lemma_with_corner(m: MeshView, a: Otri, v: VertexId)
    requires
        m.wf(),
        m.has(a),
    ensures
        m.with_corner(a, v).wf(),
{
    let w = m.with_corner(a, v);
    assert forall|o: Otri| w.has(o) <==> #[trigger] w.corner.contains_key(o) by {
        assert(m.has(o) <==> m.corner.contains_key(o));
    }
}

/// Whether the edges of a tangent are edges between a vertex and an unset
/// corner, one ending at `left_dest`, the other starting at `right_org`.
spec fn tangent_fits(m: MeshView, t: Tangent) -> bool {
    &&& is_edge(m, t.left) && is_edge(m, t.right)
    &&& m.has_vertex(t.left_dest) && m.has_vertex(t.right_org)
    &&& m.org(t.left) == no_vertex() && m.dest(t.left) == t.left_dest
    &&& m.apex(t.left) == t.left_apex
    &&& m.org(t.right) == t.right_org && m.dest(t.right) == no_vertex()
    &&& m.apex(t.right) == t.right_apex
}

#[verifier::spinoff_prover]
#[verifier::rlimit(60)]
proof fn lemma_seam_opened(m: MeshView, t: Tangent)
    requires
        is_sound(m),
        m.tri_room(),
        tangent_fits(m, t),
        t.left_dest != t.right_org,
    ensures
        seam_fits(seam_opened(m, t).0, seam_opened(m, t).1),
        seam_opened(m, t).0.vertices == m.vertices,
{
    let (w, s) = seam_opened(m, t);
    let b = Otri { tri: m.next_tri(), orient: 0 };
    let (bn, bp) = (b.next(), b.prev());
    lemma_turns(b);
    lemma_turns(bp);
    lemma_turns(t.left);
    lemma_turns(t.right);
    lemma_new_triangle(m);
    let m0 = m.with_triangle();
    assert(is_glued(m, t.left) && is_glued(m, t.right));
    lemma_bonded(m0, b, t.left);
    lemma_bonded(m0.bonded(b, t.left), bn, t.right);
    let m2 = m0.bonded(b, t.left).bonded(bn, t.right);
    lemma_with_corner(m2, b, t.right_org);
    lemma_with_corner(m2.with_corner(b, t.right_org), bn, t.left_dest);
    assert(w == m2.with_corner(b, t.right_org).with_corner(bn, t.left_dest));
    assert(w.wf());
    assert(w.org(b) == t.left_dest && w.dest(b) == no_vertex() && w.apex(b) == t.right_org);
    assert(w.org(bn) == no_vertex() && w.dest(bn) == t.right_org);
    assert(w.org(bp) == t.right_org && w.dest(bp) == t.left_dest);
    assert forall|o: Otri| is_edge(w, o) && o.tri != b.tri implies #[trigger] is_edge(m, o)
        && w.org(o) == m.org(o) && w.dest(o) == m.dest(o) && w.apex(o) == m.apex(o) by {
        lemma_turns(o);
    }
    let (lc, rc) = (m.nbr[t.left], m.nbr[t.right]);
    assert(is_edge(m, lc) && is_edge(m, rc));
    assert(is_edge(w, lc) && is_edge(w, rc) && is_edge(w, bp));
    assert(s.base == bp);
    assert forall|o: Otri| #[trigger] is_edge(w, o) implies is_proper(w, o) by {
        if o.tri == b.tri {
            lemma_three(b, o);
        } else {
            assert(is_edge(m, o));
            assert(is_proper(m, o));
        }
    }
    assert forall|o: Otri| #[trigger] is_edge(w, o) && !open_edges(s).contains(o) implies is_glued(
        w,
        o,
    ) && !open_edges(s).contains(w.nbr[o]) by {
        if o.tri == b.tri {
            lemma_three(b, o);
            assert(is_edge(m, t.left) && is_edge(m, t.right));
            assert(is_edge(w, t.left) && is_edge(w, t.right));
            assert(is_glued(m, lc) && is_glued(m, rc));
        } else {
            assert(is_edge(m, o));
            assert(is_glued(m, o));
            let p = m.nbr[o];
            assert(is_edge(w, p));
            assert(is_edge(m, p));
            assert(is_glued(m, p));
        }
    }
}

#[verifier::spinoff_prover]
#[verifier::rlimit(60)]
proof fn lemma_seam_closed(m: MeshView, s: Seam)
    requires
        seam_fits(m, s),
        m.tri_room(),
    ensures
        is_sound(seam_closed(m, s)),
{
    let w = seam_closed(m, s);
    let n = Otri { tri: m.next_tri(), orient: 0 };
    let (nn, np) = (n.next(), n.prev());
    lemma_turns(n);
    lemma_new_triangle(m);
    let m0 = m.with_triangle();
    lemma_with_corner(m0, nn, s.lower_left);
    let m1 = m0.with_corner(nn, s.lower_left);
    lemma_with_corner(m1, np, s.lower_right);
    let m2 = m1.with_corner(np, s.lower_right);
    lemma_bonded(m2, n, s.base);
    let m3 = m2.bonded(n, s.base);
    lemma_bonded(m3, nn, s.right_cand);
    let m4 = m3.bonded(nn, s.right_cand);
    lemma_bonded(m4, np, s.left_cand);
    assert(w == m4.bonded(np, s.left_cand));
    assert(w.org(n) == s.lower_left && w.dest(n) == s.lower_right && w.apex(n) == no_vertex());
    assert forall|o: Otri| is_edge(w, o) && o.tri != n.tri implies #[trigger] is_edge(m, o)
        && w.org(o) == m.org(o) && w.dest(o) == m.dest(o) && w.apex(o) == m.apex(o) by {
        lemma_turns(o);
    }
    assert forall|o: Otri| #[trigger] is_edge(w, o) implies is_proper(w, o) by {
        if o.tri == n.tri {
            lemma_three(n, o);
        } else {
            assert(is_edge(m, o));
            assert(is_proper(m, o));
        }
    }
    assert(is_edge(m, s.base) && is_edge(m, s.left_cand) && is_edge(m, s.right_cand));
    assert(is_edge(w, s.base) && is_edge(w, s.left_cand) && is_edge(w, s.right_cand));
    assert forall|o: Otri| #[trigger] is_edge(w, o) implies is_glued(w, o) by {
        if o.tri == n.tri {
            lemma_three(n, o);
        } else if open_edges(s).contains(o) {
        } else {
            assert(is_edge(m, o));
            assert(is_glued(m, o));
            let p = m.nbr[o];
            assert(is_edge(w, p));
            assert(is_edge(m, p));
        }
    }
}

// --- Merging ----------------------------------------------------------------

/// Whether no edge between two vertices leads from `side` out of it.
pub open spec fn is_apart(m: MeshView, side: Set<VertexId>) -> bool {
    forall|o: Otri| #[trigger]
        is_edge(m, o) && m.org(o) != no_vertex() && m.dest(o) != no_vertex() ==> side.contains(
            m.org(o),
        ) == side.contains(m.dest(o))
}

/// Whether `o` runs from an unset corner to a vertex.
pub open spec fn comes_in(m: MeshView, o: Otri) -> bool {
    is_edge(m, o) && m.org(o) == no_vertex()
}

/// Whether `o` runs from a vertex to an unset corner.
pub open spec fn goes_out(m: MeshView, o: Otri) -> bool {
    is_edge(m, o) && m.dest(o) == no_vertex()
}

/// Whether a tangent has its left edge on `side` and its right edge not.
spec fn tangent_parts(m: MeshView, t: Tangent, side: Set<VertexId>) -> bool {
    &&& tangent_fits(m, t)
    &&& side.contains(t.left_dest)
    &&& !side.contains(t.right_org)
}

proof fn lemma_slid(
    m: MeshView,
    side: Set<VertexId>,
    edge: Otri,
    on_x: bool,
    lower: bool,
    fuel: nat,
)
    requires
        is_sound(m),
        is_apart(m, side),
        goes_out(m, edge),
    ensures
        slid(m, edge, m.org(edge), on_x, lower, true, fuel) matches Ok((e, v)) ==> {
            &&& goes_out(m, e)
            &&& m.org(e) == v
            &&& side.contains(v) == side.contains(m.org(edge))
        },
    decreases fuel,
{
    lemma_turns(edge);
    assert(is_proper(m, edge));
    let v = m.apex(edge);
    if v.valid() && beyond(m, v, m.org(edge), on_x, lower) && fuel > 0 {
        let step = edge.next();
        assert(is_edge(m, step) && is_edge(m, edge.prev()));
        assert(is_glued(m, step));
        let e = m.sym(step);
        assert(m.org(e) == v && m.dest(e) == no_vertex());
        assert(m.org(edge.prev()) == v && m.dest(edge.prev()) == m.org(edge));
        lemma_slid(m, side, e, on_x, lower, (fuel - 1) as nat);
    }
}

proof fn lemma_climbed(
    m: MeshView,
    side: Set<VertexId>,
    edge: Otri,
    on_x: bool,
    lower: bool,
    fuel: nat,
)
    requires
        is_sound(m),
        is_apart(m, side),
        comes_in(m, edge),
    ensures
        climbed(m, edge, m.dest(edge), m.apex(edge), on_x, lower, true, fuel) matches Ok((e, v, w))
            ==> {
            &&& comes_in(m, e)
            &&& m.dest(e) == v
            &&& m.apex(e) == w
            &&& side.contains(v) == side.contains(m.dest(edge))
        },
    decreases fuel,
{
    assert(is_proper(m, edge));
    assert(is_glued(m, edge));
    let check = m.sym(edge);
    lemma_turns(check);
    assert(is_proper(m, check));
    let v = m.apex(check);
    if v.valid() && beyond(m, v, m.dest(edge), on_x, lower) && fuel > 0 {
        let step = check.next();
        assert(is_edge(m, step) && is_edge(m, check.prev()));
        assert(m.org(step) == no_vertex() && m.dest(step) == v && m.apex(step) == m.dest(edge));
        assert(m.org(check.prev()) == v && m.dest(check.prev()) == m.dest(edge));
        lemma_climbed(m, side, step, on_x, lower, (fuel - 1) as nat);
    }
}

proof fn lemma_left_lowered(m: MeshView, side: Set<VertexId>, t: Tangent)
    requires
        is_sound(m),
        is_apart(m, side),
        tangent_parts(m, t, side),
    ensures
        left_lowered(m, t) matches Ok((u, moved)) && tangent_parts(m, u, side),
{
    let p = t.left.prev();
    lemma_turns(t.left);
    assert(is_proper(m, t.left));
    if t.left_apex.valid() {
        assert(is_edge(m, p) && is_edge(m, t.left.next()));
        assert(is_glued(m, p));
        assert(m.org(p) == t.left_apex && m.dest(p) == no_vertex());
        assert(m.org(t.left.next()) == t.left_dest && m.dest(t.left.next()) == t.left_apex);
    }
}

proof fn lemma_right_lowered(m: MeshView, side: Set<VertexId>, t: Tangent)
    requires
        is_sound(m),
        is_apart(m, side),
        tangent_parts(m, t, side),
    ensures
        right_lowered(m, t) matches Ok((u, moved)) && tangent_parts(m, u, side),
{
    let n = t.right.next();
    lemma_turns(t.right);
    assert(is_proper(m, t.right));
    if t.right_apex.valid() {
        assert(is_edge(m, n) && is_edge(m, t.right.prev()));
        assert(is_glued(m, n));
        assert(m.org(n) == no_vertex() && m.dest(n) == t.right_apex);
        assert(m.org(t.right.prev()) == t.right_apex && m.dest(t.right.prev()) == t.right_org);
    }
}

proof fn lemma_lowered(m: MeshView, side: Set<VertexId>, t: Tangent, fuel: nat)
    requires
        is_sound(m),
        is_apart(m, side),
        tangent_parts(m, t, side),
    ensures
        lowered(m, t, fuel) matches Ok(u) ==> tangent_parts(m, u, side),
        lowered(m, t, fuel) matches Err(e) ==> e == MeshFault::Stalled,
    decreases fuel,
{
    lemma_left_lowered(m, side, t);
    match left_lowered(m, t) {
        Ok((t1, moved1)) => {
            lemma_right_lowered(m, side, t1);
            match right_lowered(m, t1) {
                Ok((t2, moved2)) => {
                    if (moved1 || moved2) && fuel > 0 {
                        lemma_lowered(m, side, t2, (fuel - 1) as nat);
                    }
                },
                Err(_) => {},
            }
        },
        Err(_) => {},
    }
}

proof fn lemma_merge_prepared(
    m: MeshView,
    side: Set<VertexId>,
    farleft: Otri,
    innerleft: Otri,
    innerright: Otri,
    farright: Otri,
    vertical: bool,
)
    requires
        is_sound(m),
        is_apart(m, side),
        comes_in(m, innerleft),
        side.contains(m.dest(innerleft)),
        goes_out(m, innerright),
        !side.contains(m.org(innerright)),
    ensures
        merge_prepared(m, farleft, innerleft, innerright, farright, vertical) matches Ok((l, t, r))
            ==> tangent_parts(m, t, side),
{
    assert(is_proper(m, innerleft));
    assert(is_proper(m, innerright));
    if vertical {
        lemma_climbed(m, side, innerleft, false, false, STEP_LIMIT as nat);
        lemma_slid(m, side, innerright, false, true, STEP_LIMIT as nat);
        match climbed(
            m,
            innerleft,
            m.dest(innerleft),
            m.apex(innerleft),
            false,
            false,
            true,
            STEP_LIMIT as nat,
        ) {
            Ok((e, v, w)) => {
                assert(is_proper(m, e));
            },
            Err(_) => {},
        }
        match slid(m, innerright, m.org(innerright), false, true, true, STEP_LIMIT as nat) {
            Ok((e, v)) => {
                assert(is_proper(m, e));
            },
            Err(_) => {},
        }
    }
}

/// Merging keeps triangulations sound. Where two triangulations stand in one
/// mesh, no edge between them, every triangle with three vertices
/// counter-clockwise and every edge glued to its partner, both hold of the
/// mesh after the two are merged along hull edges that face each other. A
/// merge of neighbors side by side fails only for want of room or of steps.
pub proof fn merging_keeps_meshes_sound(
    m: MeshView,
    side: Set<VertexId>,
    farleft: Otri,
    innerleft: Otri,
    innerright: Otri,
    farright: Otri,
    vertical: bool,
)
    requires
        is_sound(m),
        is_apart(m, side),
        comes_in(m, innerleft),
        side.contains(m.dest(innerleft)),
        goes_out(m, innerright),
        !side.contains(m.org(innerright)),
    ensures
        ({
            let (w, r) = merged(m, farleft, innerleft, innerright, farright, vertical);
            &&& r is Ok ==> is_sound(w) && w.vertices == m.vertices
            &&& !vertical ==> (r matches Err(e) ==> e == MeshFault::Full || e
                == MeshFault::Stalled)
        }),
{
    reveal(merged);
    lemma_merge_prepared(m, side, farleft, innerleft, innerright, farright, vertical);
    match merge_prepared(m, farleft, innerleft, innerright, farright, vertical) {
        Ok((_, t0, _)) => {
            lemma_lowered(m, side, t0, STEP_LIMIT as nat);
            match lowered(m, t0, STEP_LIMIT as nat) {
                Ok(t) => {
                    if m.tri_room() {
                        lemma_seam_opened(m, t);
                        let (m1, s1) = seam_opened(m, t);
                        lemma_knitted(m1, s1, STEP_LIMIT as nat);
                        let (m2, s2, r) = knitted(m1, s1, STEP_LIMIT as nat);
                        if r is Ok && m2.tri_room() {
                            lemma_seam_closed(m2, s2);
                        }
                    }
                },
                Err(_) => {},
            }
        },
        Err(_) => {},
    }
}

// --- The smallest triangulations --------------------------------------------

/// Whether `w` is `m` with more triangles beside it.
spec fn extends(w: MeshView, m: MeshView) -> bool {
    &&& w.vertices == m.vertices
    &&& w.free_tris == m.free_tris
    &&& w.tri_count >= m.tri_count
    &&& forall|o: Otri| #[trigger]
        is_edge(m, o) ==> w.nbr[o] == m.nbr[o] && w.org(o) == m.org(o) && w.dest(o) == m.dest(o)
            && w.apex(o) == m.apex(o)
}

proof fn lemma_extension_is_sound(w: MeshView, m: MeshView)
    requires
        is_sound(m),
        w.wf(),
        extends(w, m),
        forall|o: Otri| #[trigger]
            is_edge(w, o) && o.tri >= m.tri_count ==> is_proper(w, o) && is_glued(w, o),
    ensures
        is_sound(w),
{
    assert forall|o: Otri| #[trigger] is_edge(w, o) implies is_proper(w, o) && is_glued(w, o) by {
        if o.tri < m.tri_count {
            assert(is_edge(m, o));
            assert(is_proper(m, o));
            assert(is_glued(m, o));
            assert(is_edge(m, m.nbr[o]));
        }
    }
}

/// An edge between two vertices leaves a sound mesh sound. The first edge
/// handed back runs out from the one vertex, the second in to the other.
#[verifier::spinoff_prover]
#[verifier::rlimit(60)]
pub proof fn edge_pairs_are_sound(m: MeshView, a: VertexId, b: VertexId)
    requires
        is_sound(m),
        m.has_vertex(a),
        m.has_vertex(b),
        a != b,
    ensures
        edge_pair(m, a, b).1 matches Ok((first, last)) ==> {
            let w = edge_pair(m, a, b).0;
            &&& is_sound(w)
            &&& goes_out(w, first) && w.org(first) == a
            &&& comes_in(w, last) && w.dest(last) == b
        },
{
    let (w, r) = edge_pair(m, a, b);
    if r is Ok {
        lemma_new_triangle(m);
        let l = Otri { tri: m.next_tri(), orient: 0 };
        lemma_turns(l);
        let m0 = m.with_triangle();
        lemma_with_corner(m0, l.next(), a);
        lemma_with_corner(m0.with_org(l, a), l.prev(), b);
        let m1 = m0.with_org(l, a).with_dest(l, b);
        lemma_new_triangle(m1);
        let r = Otri { tri: m1.next_tri(), orient: 0 };
        lemma_turns(r);
        let m2 = m1.with_triangle();
        lemma_with_corner(m2, r.next(), b);
        lemma_with_corner(m2.with_org(r, b), r.prev(), a);
        let m3 = m2.with_org(r, b).with_dest(r, a);
        lemma_bonded(m3, l, r);
        let m4 = m3.bonded(l, r);
        lemma_bonded(m4, l.prev(), r.next());
        let m5 = m4.bonded(l.prev(), r.next());
        lemma_bonded(m5, l.next(), r.prev());
        assert(w == m5.bonded(l.next(), r.prev()));
        assert forall|o: Otri| #[trigger] is_edge(m, o) implies w.nbr[o] == m.nbr[o] && w.org(o)
            == m.org(o) && w.dest(o) == m.dest(o) && w.apex(o) == m.apex(o) by {
            lemma_turns(o);
        }
        assert(w.org(l) == a && w.dest(l) == b && w.apex(l) == no_vertex());
        assert(w.org(r) == b && w.dest(r) == a && w.apex(r) == no_vertex());
        assert forall|o: Otri| #[trigger] is_edge(w, o) && o.tri >= m.tri_count implies is_proper(
            w,
            o,
        ) && is_glued(w, o) by {
            if o.tri == l.tri {
                lemma_three(l, o);
            } else {
                lemma_three(r, o);
            }
        }
        lemma_extension_is_sound(w, m);
    }
}

pub(crate) proof fn lemma_refilled(w: MeshView, m: MeshView)
    requires
        m.wf(),
        w == (MeshView { nbr: w.nbr, corner: w.corner, ..m }),
        w.nbr.dom() == m.nbr.dom(),
        w.corner.dom() == m.corner.dom(),
        forall|o: Otri| w.has(o) ==> w.has(#[trigger] w.nbr[o]),
    ensures
        w.wf(),
{
    assert forall|o: Otri| w.has(o) <==> #[trigger] w.nbr.contains_key(o) by {
        assert(m.has(o) <==> m.nbr.contains_key(o));
    }
    assert forall|o: Otri| w.has(o) <==> #[trigger] w.corner.contains_key(o) by {
        assert(m.has(o) <==> m.corner.contains_key(o));
    }
}

/// Four triangles in a row, each with its own three edges.
spec fn are_next(m: MeshView, t0: Otri, t1: Otri, t2: Otri, t3: Otri) -> bool {
    &&& t0.orient == 0 && t1.orient == 0 && t2.orient == 0 && t3.orient == 0
    &&& t0.tri == m.tri_count
    &&& t1.tri == m.tri_count + 1
    &&& t2.tri == m.tri_count + 2
    &&& t3.tri == m.tri_count + 3
}

proof fn lemma_four_made(m: MeshView)
    requires
        is_sound(m),
    ensures
        four_made(m).1 matches Ok((t0, t1, t2, t3)) ==> {
            let w = four_made(m).0;
            &&& w.wf()
            &&& extends(w, m)
            &&& w.tri_count == m.tri_count + 4
            &&& are_next(m, t0, t1, t2, t3)
            &&& forall|o: Otri| w.has(o) && o.tri >= m.tri_count ==> #[trigger] w.corner[o]
                == no_vertex()
        },
{
    let (w, made) = four_made(m);
    if made is Ok {
        let m1 = m.with_triangle();
        let m2 = m1.with_triangle();
        let m3 = m2.with_triangle();
        lemma_new_triangle(m);
        lemma_new_triangle(m1);
        lemma_new_triangle(m2);
        lemma_new_triangle(m3);
        assert forall|o: Otri| #[trigger] is_edge(m, o) implies w.nbr[o] == m.nbr[o] && w.org(o)
            == m.org(o) && w.dest(o) == m.dest(o) && w.apex(o) == m.apex(o) by {
            lemma_turns(o);
        }
        assert forall|o: Otri| w.has(o) && o.tri >= m.tri_count implies #[trigger] w.corner[o]
            == no_vertex() by {
            assert(o.orient == 0 || o.orient == 1 || o.orient == 2);
        }
    }
}

#[verifier::spinoff_prover]
#[verifier::rlimit(100)]
proof fn lemma_two_edges(
    m: MeshView,
    m4: MeshView,
    t0: Otri,
    t1: Otri,
    t2: Otri,
    t3: Otri,
    a: VertexId,
    b: VertexId,
    c: VertexId,
)
    requires
        is_sound(m),
        m4.wf(),
        extends(m4, m),
        m4.tri_count == m.tri_count + 4,
        are_next(m, t0, t1, t2, t3),
        forall|o: Otri| m4.has(o) && o.tri >= m.tri_count ==> #[trigger] m4.corner[o]
            == no_vertex(),
        m.has_vertex(a) && m.has_vertex(b) && m.has_vertex(c),
        a != b && b != c && a != c,
    ensures
        ({
            let w = two_edges(m4, t0, t1, t2, t3, a, b, c);
            &&& is_sound(w)
            &&& goes_out(w, t1.next()) && w.org(t1.next()) == a
            &&& comes_in(w, t2.prev()) && w.dest(t2.prev()) == c
        }),
{
    let w = two_edges(m4, t0, t1, t2, t3, a, b, c);
    lemma_turns(t0);
    lemma_turns(t1);
    lemma_turns(t2);
    lemma_turns(t3);
    assert(w.nbr.dom() == m4.nbr.dom());
    assert(w.corner.dom() == m4.corner.dom());
    assert forall|o: Otri| w.has(o) implies w.has(#[trigger] w.nbr[o]) by {
        assert(m4.has(m4.nbr[o]));
    }
    lemma_refilled(w, m4);
    assert forall|o: Otri| #[trigger] is_edge(m, o) implies w.nbr[o] == m.nbr[o] && w.org(o)
        == m.org(o) && w.dest(o) == m.dest(o) && w.apex(o) == m.apex(o) by {
        lemma_turns(o);
        assert(w.nbr[o] == m4.nbr[o]);
    }
    assert(m4.has(t0) && m4.has(t1) && m4.has(t2) && m4.has(t3));
    assert(w.org(t0) == a && w.dest(t0) == b && w.apex(t0) == no_vertex());
    assert(w.org(t1) == b && w.dest(t1) == a && w.apex(t1) == no_vertex());
    assert(w.org(t2) == c && w.dest(t2) == b && w.apex(t2) == no_vertex());
    assert(w.org(t3) == b && w.dest(t3) == c && w.apex(t3) == no_vertex());
    assert forall|o: Otri| #[trigger] is_edge(w, o) && o.tri >= m.tri_count implies is_proper(w, o)
        && is_glued(w, o) by {
        if o.tri == t0.tri {
            lemma_three(t0, o);
        } else if o.tri == t1.tri {
            lemma_three(t1, o);
        } else if o.tri == t2.tri {
            lemma_three(t2, o);
        } else {
            lemma_three(t3, o);
        }
    }
    lemma_extension_is_sound(w, m);
}

#[verifier::spinoff_prover]
#[verifier::rlimit(100)]
proof fn lemma_one_triangle(
    m: MeshView,
    m4: MeshView,
    t0: Otri,
    t1: Otri,
    t2: Otri,
    t3: Otri,
    a: VertexId,
    b: VertexId,
    c: VertexId,
)
    requires
        is_sound(m),
        m4.wf(),
        extends(m4, m),
        m4.tri_count == m.tri_count + 4,
        are_next(m, t0, t1, t2, t3),
        forall|o: Otri| m4.has(o) && o.tri >= m.tri_count ==> #[trigger] m4.corner[o]
            == no_vertex(),
        m.has_vertex(a) && m.has_vertex(b) && m.has_vertex(c),
        a != b && b != c && a != c,
        orient(m.pos(a), m.pos(b), m.pos(c)) > 0,
    ensures
        ({
            let w = one_triangle(m4, t0, t1, t2, t3, a, b, c);
            &&& is_sound(w)
            &&& goes_out(w, t1.next()) && w.org(t1.next()) == a
            &&& comes_in(w, t1.prev()) && w.dest(t1.prev()) == b
            &&& comes_in(w, t2.prev()) && w.dest(t2.prev()) == c
        }),
{
    let w = one_triangle(m4, t0, t1, t2, t3, a, b, c);
    lemma_turns(t0);
    lemma_turns(t1);
    lemma_turns(t2);
    lemma_turns(t3);
    assert(w.nbr.dom() == m4.nbr.dom());
    assert(w.corner.dom() == m4.corner.dom());
    assert forall|o: Otri| w.has(o) implies w.has(#[trigger] w.nbr[o]) by {
        assert(m4.has(m4.nbr[o]));
    }
    lemma_refilled(w, m4);
    assert forall|o: Otri| #[trigger] is_edge(m, o) implies w.nbr[o] == m.nbr[o] && w.org(o)
        == m.org(o) && w.dest(o) == m.dest(o) && w.apex(o) == m.apex(o) by {
        lemma_turns(o);
        assert(w.nbr[o] == m4.nbr[o]);
    }
    assert(m4.has(t0) && m4.has(t1) && m4.has(t2) && m4.has(t3));
    assert(w.org(t0) == a && w.dest(t0) == b && w.apex(t0) == c);
    assert(w.org(t1) == b && w.dest(t1) == a && w.apex(t1) == no_vertex());
    assert(w.org(t2) == c && w.dest(t2) == b && w.apex(t2) == no_vertex());
    assert(w.org(t3) == a && w.dest(t3) == c && w.apex(t3) == no_vertex());
    orientation_turns(m.pos(a), m.pos(b), m.pos(c));
    orientation_turns(m.pos(b), m.pos(c), m.pos(a));
    assert forall|o: Otri| #[trigger] is_edge(w, o) && o.tri >= m.tri_count implies is_proper(w, o)
        && is_glued(w, o) by {
        if o.tri == t0.tri {
            lemma_three(t0, o);
        } else if o.tri == t1.tri {
            lemma_three(t1, o);
        } else if o.tri == t2.tri {
            lemma_three(t2, o);
        } else {
            lemma_three(t3, o);
        }
    }
    lemma_extension_is_sound(w, m);
}

/// Three vertices, joined as one triangle or as two edges, leave a sound mesh
/// sound. The first edge handed back runs out from the first vertex, the
/// second in to the last.
pub proof fn threes_are_sound(m: MeshView, a: VertexId, b: VertexId, c: VertexId)
    requires
        is_sound(m),
        m.has_vertex(a) && m.has_vertex(b) && m.has_vertex(c),
        a != b && b != c && a != c,
    ensures
        triangle_or_edges(m, a, b, c).1 matches Ok((first, last)) ==> {
            let w = triangle_or_edges(m, a, b, c).0;
            &&& is_sound(w)
            &&& goes_out(w, first) && w.org(first) == a
            &&& comes_in(w, last) && w.dest(last) == c
        },
{
    lemma_four_made(m);
    let (m4, made) = four_made(m);
    match made {
        Ok((t0, t1, t2, t3)) => {
            lemma_turns(t1);
            lemma_turns(t2);
            let area = orient(m.pos(a), m.pos(b), m.pos(c));
            if area == 0 {
                lemma_two_edges(m, m4, t0, t1, t2, t3, a, b, c);
            } else if area > 0 {
                lemma_one_triangle(m, m4, t0, t1, t2, t3, a, b, c);
            } else {
                orientation_turns(m.pos(a), m.pos(b), m.pos(c));
                orientation_turns(m.pos(a), m.pos(c), m.pos(b));
                lemma_one_triangle(m, m4, t0, t1, t2, t3, a, c, b);
            }
        },
        Err(_) => {},
    }
}

} // verus!
