//! Triangulations with constrained edges: what flipping an edge keeps of them.

use crate::empty_circle::{is_anchored, is_face, is_joined, is_live};
use crate::flip::flipped;
use crate::knitting::{lemma_three, lemma_turns};
use crate::lawson::{bounds_all, covers, is_corner, is_spread, lemma_quad_covered};
use crate::mesh::{no_tri, MeshView, Osub, Otri, VertexId};
use crate::plane::areas_turn;
use crate::predicates::{orient, orientation_turns};
use crate::segment::same_place;
use vstd::prelude::*;

verus! {

// --- Paved meshes -----------------------------------------------------------

/// Whether subsegment `s` runs between two vertices.
pub open spec fn joins(m: MeshView, s: u32, a: VertexId, b: VertexId) -> bool {
    let (u, v) = (m.svert[Osub { sub: s, orient: 0 }], m.svert[Osub { sub: s, orient: 1 }]);
    (u == a && v == b) || (u == b && v == a)
}

/// Whether the subsegment of an edge, if any, is live, runs between the ends
/// of the edge, and is on the other side of the edge too.
pub open spec fn is_bound(m: MeshView, o: Otri) -> bool {
    let s = m.tsub[o].sub;
    &&& m.nbr[o].tri != 0 ==> m.tsub[m.nbr[o]].sub == s
    &&& s != 0 ==> s < m.sub_count && !m.sub_dead(s) && joins(m, s, m.org(o), m.dest(o))
}

/// Whether the triangle of an edge is one of a triangulation of `set`: its
/// corners are in the set, counter-clockwise, no other vertex of the set lies
/// in it, and the edge is joined to its partner and bound to its subsegment.
pub open spec fn is_cell(m: MeshView, set: Set<VertexId>, o: Otri) -> bool {
    &&& set.contains(m.org(o)) && set.contains(m.dest(o)) && set.contains(m.apex(o))
    &&& orient(m.pos(m.org(o)), m.pos(m.dest(o)), m.pos(m.apex(o))) > 0
    &&& is_joined(m, o)
    &&& is_bound(m, o)
    &&& forall|v: VertexId| #[trigger]
        set.contains(v) && covers(m, o, m.pos(v)) ==> is_corner(m, o, v)
}

/// Whether the live triangles of a mesh are those of a triangulation of `set`.
pub open spec fn is_paved(m: MeshView, set: Set<VertexId>) -> bool {
    &&& m.wf()
    &&& is_spread(m, set)
    &&& forall|o: Otri| #[trigger] is_live(m, o) ==> is_cell(m, set, o)
}

/// Whether every live edge with nothing across has all of `set` on its left.
pub open spec fn is_walled(m: MeshView, set: Set<VertexId>) -> bool {
    forall|o: Otri| #[trigger] is_live(m, o) && m.nbr[o].tri == 0 ==> bounds_all(m, set, o)
}

/// Whether `v` is a corner of a live triangle.
pub open spec fn is_used(m: MeshView, v: VertexId) -> bool {
    exists|o: Otri| #[trigger] is_live(m, o) && m.org(o) == v
}

/// The corners of the live triangles.
#[verifier::opaque]
pub open spec fn corners(m: MeshView) -> Set<VertexId> {
    Set::new(|v: VertexId| is_used(m, v))
}

/// Whether the live triangles of a mesh are those of a triangulation of the
/// convex hull of `set`.
#[verifier::opaque]
pub open spec fn is_laid(m: MeshView, set: Set<VertexId>) -> bool {
    is_paved(m, set) && is_walled(m, set)
}

/// Whether a mesh is a triangulation of the convex hull of its corners, each
/// subsegment on an edge: its triangles are counter-clockwise and joined edge
/// to edge, none holds a corner of another, and all are within the boundary.
#[verifier::opaque]
pub open spec fn is_plane(m: MeshView) -> bool {
    is_anchored(m) && is_paved(m, corners(m)) && is_walled(m, corners(m))
}

/// A triangulation of its own corners.
pub proof fn planes_are_laid(m: MeshView)
    requires
        is_plane(m),
    ensures
        is_laid(m, corners(m)),
{
    reveal(is_plane);
    reveal(is_laid);
}

/// Whether an edge without a subsegment can be flipped: the two triangles on
/// it make a convex quadrilateral.
pub open spec fn is_turnable(m: MeshView, e: Otri) -> bool {
    let (a, b, c, d) = (m.org(e), m.dest(e), m.apex(e), m.apex(m.nbr[e]));
    &&& is_live(m, e)
    &&& m.nbr[e].tri != 0
    &&& m.tsub[e].sub == 0
    &&& orient(m.pos(d), m.pos(c), m.pos(a)) > 0
    &&& orient(m.pos(c), m.pos(d), m.pos(b)) > 0
}

/// What is known of a live edge of a triangulation.
pub proof fn edges_are_joined(m: MeshView, o: Otri)
    requires
        is_plane(m),
        is_live(m, o),
    ensures
        m.wf(),
        is_live(m, o.next()) && is_live(m, o.prev()),
        corners(m).contains(m.org(o)),
        corners(m).contains(m.dest(o)),
        corners(m).contains(m.apex(o)),
        m.has_vertex(m.org(o)) && m.has_vertex(m.dest(o)) && m.has_vertex(m.apex(o)),
        orient(m.pos(m.org(o)), m.pos(m.dest(o)), m.pos(m.apex(o))) > 0,
        is_joined(m, o),
        m.nbr[o].tri != 0 ==> is_live(m, m.nbr[o]),
        is_bound(m, o),
{
    reveal(is_plane);
    assert(is_cell(m, corners(m), o));
    lemma_turns(o);
}

/// The corners of a triangulation are vertices of the mesh.
pub proof fn corners_are_vertices(m: MeshView, v: VertexId)
    requires
        is_plane(m),
        corners(m).contains(v),
    ensures
        m.has_vertex(v),
{
    reveal(is_plane);
}

/// Corners of a triangulation have places of their own.
pub proof fn corners_are_apart(m: MeshView, u: VertexId, v: VertexId)
    requires
        is_plane(m),
        corners(m).contains(u),
        corners(m).contains(v),
        same_place(m.pos(u), m.pos(v)),
    ensures
        u == v,
{
    reveal(is_plane);
}

/// What is known of a live edge of a triangulation.
pub proof fn laid_edges_are_joined(m: MeshView, set: Set<VertexId>, o: Otri)
    requires
        is_laid(m, set),
        is_live(m, o),
    ensures
        m.wf(),
        is_live(m, o.next()) && is_live(m, o.prev()),
        set.contains(m.org(o)),
        set.contains(m.dest(o)),
        set.contains(m.apex(o)),
        m.has_vertex(m.org(o)) && m.has_vertex(m.dest(o)) && m.has_vertex(m.apex(o)),
        orient(m.pos(m.org(o)), m.pos(m.dest(o)), m.pos(m.apex(o))) > 0,
        is_joined(m, o),
        m.nbr[o].tri != 0 ==> is_live(m, m.nbr[o]),
        is_bound(m, o),
{
    reveal(is_laid);
    assert(is_cell(m, set, o));
    lemma_turns(o);
}

/// The outside of a triangulation is to the right of its boundary.
pub proof fn laid_walls_bound_all(m: MeshView, set: Set<VertexId>, o: Otri, v: VertexId)
    requires
        is_laid(m, set),
        is_live(m, o),
        m.nbr[o].tri == 0,
        set.contains(v),
    ensures
        orient(m.pos(m.org(o)), m.pos(m.dest(o)), m.pos(v)) >= 0,
{
    reveal(is_laid);
    assert(bounds_all(m, set, o));
}

/// A triangle of a triangulation holds no other corner.
pub proof fn laid_triangles_hold_their_corners(
    m: MeshView,
    set: Set<VertexId>,
    o: Otri,
    v: VertexId,
)
    requires
        is_laid(m, set),
        is_live(m, o),
        set.contains(v),
        covers(m, o, m.pos(v)),
    ensures
        is_corner(m, o, v),
{
    reveal(is_laid);
    assert(is_cell(m, set, o));
}

/// Corners of a triangulation have places of their own.
pub proof fn laid_corners_are_apart(m: MeshView, set: Set<VertexId>, u: VertexId, v: VertexId)
    requires
        is_laid(m, set),
        set.contains(u),
        set.contains(v),
        same_place(m.pos(u), m.pos(v)),
    ensures
        u == v,
{
    reveal(is_laid);
}

// --- Flips ------------------------------------------------------------------

#[verifier::spinoff_prover]
#[verifier::rlimit(100)]
pub(crate) proof fn lemma_flip_links(m: MeshView, set: Set<VertexId>, e: Otri)
    requires
        is_paved(m, set),
        is_turnable(m, e),
    ensures
        ({
            let w = flipped(m, e);
            let top = m.nbr[e];
            &&& is_live(m, top) && top.tri != e.tri
            &&& w == (MeshView { nbr: w.nbr, corner: w.corner, tsub: w.tsub, stri: w.stri, ..m })
            &&& w.org(e) == m.apex(top) && w.dest(e) == m.apex(e) && w.apex(e) == m.org(e)
            &&& w.org(top) == m.apex(e) && w.dest(top) == m.apex(top) && w.apex(top) == m.dest(e)
            &&& w.nbr[e] == top && w.nbr[top] == e
            &&& w.nbr[top.prev()] == m.nbr[e.next()]
            &&& w.nbr[e.next()] == m.nbr[e.prev()]
            &&& w.nbr[e.prev()] == m.nbr[top.next()]
            &&& w.nbr[top.next()] == m.nbr[top.prev()]
            &&& forall|o: Otri| #[trigger]
                is_live(m, o) && o.tri != e.tri && o.tri != top.tri ==> w.org(o) == m.org(o)
                    && w.dest(o) == m.dest(o) && w.apex(o) == m.apex(o) && w.nbr[o]
                    == if m.nbr[o] == e.next() {
                    top.prev()
                } else if m.nbr[o] == e.prev() {
                    e.next()
                } else if m.nbr[o] == top.next() {
                    e.prev()
                } else if m.nbr[o] == top.prev() {
                    top.next()
                } else {
                    m.nbr[o]
                }
            &&& w.tsub[e].sub == 0 && w.tsub[top].sub == 0
            &&& w.tsub[top.prev()].sub == m.tsub[e.next()].sub
            &&& w.tsub[e.next()].sub == m.tsub[e.prev()].sub
            &&& w.tsub[e.prev()].sub == m.tsub[top.next()].sub
            &&& w.tsub[top.next()].sub == m.tsub[top.prev()].sub
            &&& forall|o: Otri| #[trigger]
                is_live(m, o) && o.tri != e.tri && o.tri != top.tri ==> w.tsub[o] == m.tsub[o]
            &&& w.nbr[no_tri()] == m.nbr[no_tri()] || is_live(m, w.nbr[no_tri()])
        }),
{
    reveal(flipped);
    let w = flipped(m, e);
    let top = m.nbr[e];
    lemma_turns(e);
    assert(is_cell(m, set, e));
    assert(is_joined(m, e));
    assert(is_live(m, top));
    assert(is_cell(m, set, top));
    lemma_turns(top);
    let (a, b, c, d) = (m.org(e), m.dest(e), m.apex(e), m.apex(top));
    areas_turn(m.pos(a), m.pos(b), m.pos(c));
    areas_turn(m.pos(b), m.pos(c), m.pos(a));
    areas_turn(m.pos(a), m.pos(b), m.pos(d));
    areas_turn(m.pos(b), m.pos(a), m.pos(b));
    assert(orient(m.pos(b), m.pos(a), m.pos(d)) > 0);
    orientation_turns(m.pos(a), m.pos(b), m.pos(c));
    orientation_turns(m.pos(b), m.pos(a), m.pos(d));
    orientation_turns(m.pos(a), m.pos(b), m.pos(d));
    assert(c != d);
    assert(a != b && a != c && b != c && a != d && b != d) by {
        areas_turn(m.pos(a), m.pos(c), m.pos(b));
        areas_turn(m.pos(a), m.pos(a), m.pos(b));
        areas_turn(m.pos(a), m.pos(a), m.pos(c));
        areas_turn(m.pos(b), m.pos(a), m.pos(a));
        areas_turn(m.pos(a), m.pos(b), m.pos(b));
        areas_turn(m.pos(b), m.pos(a), m.pos(a));
    }
    assert(top.tri != e.tri) by {
        if top.tri == e.tri {
            lemma_three(e, top);
        }
    }
    let (tl, tr, bl, br) = (top.prev(), top.next(), e.next(), e.prev());
    assert(is_live(m, tl) && is_live(m, tr) && is_live(m, bl) && is_live(m, br));
    assert(is_cell(m, set, tl) && is_cell(m, set, tr) && is_cell(m, set, bl) && is_cell(m, set, br));
    assert(m.nbr[tl].tri != e.tri && m.nbr[tl].tri != top.tri) by {
        if m.nbr[tl].tri == e.tri {
            lemma_three(e, m.nbr[tl]);
        }
        if m.nbr[tl].tri == top.tri {
            lemma_three(top, m.nbr[tl]);
        }
    }
    assert(m.nbr[tr].tri != e.tri && m.nbr[tr].tri != top.tri) by {
        if m.nbr[tr].tri == e.tri {
            lemma_three(e, m.nbr[tr]);
        }
        if m.nbr[tr].tri == top.tri {
            lemma_three(top, m.nbr[tr]);
        }
    }
    assert(m.nbr[bl].tri != e.tri && m.nbr[bl].tri != top.tri) by {
        if m.nbr[bl].tri == e.tri {
            lemma_three(e, m.nbr[bl]);
        }
        if m.nbr[bl].tri == top.tri {
            lemma_three(top, m.nbr[bl]);
        }
    }
    assert(m.nbr[br].tri != e.tri && m.nbr[br].tri != top.tri) by {
        if m.nbr[br].tri == e.tri {
            lemma_three(e, m.nbr[br]);
        }
        if m.nbr[br].tri == top.tri {
            lemma_three(top, m.nbr[br]);
        }
    }
    assert(m.nbr[m.nbr[tl]] == tl || m.nbr[tl].tri == 0);
    assert(m.nbr[m.nbr[tr]] == tr || m.nbr[tr].tri == 0);
    assert(m.nbr[m.nbr[bl]] == bl || m.nbr[bl].tri == 0);
    assert(m.nbr[m.nbr[br]] == br || m.nbr[br].tri == 0);
    assert forall|o: Otri| #[trigger] is_live(m, o) && o.tri != e.tri && o.tri != top.tri implies w.org(
        o,
    ) == m.org(o) && w.dest(o) == m.dest(o) && w.apex(o) == m.apex(o) && w.nbr[o] == if m.nbr[o]
        == e.next() {
        top.prev()
    } else if m.nbr[o] == e.prev() {
        e.next()
    } else if m.nbr[o] == top.next() {
        e.prev()
    } else if m.nbr[o] == top.prev() {
        top.next()
    } else {
        m.nbr[o]
    } by {
        lemma_turns(o);
        assert(is_cell(m, set, o));
    }
}

#[verifier::spinoff_prover]
#[verifier::rlimit(100)]
pub(crate) proof fn lemma_flip_tiles(m: MeshView, set: Set<VertexId>, e: Otri)
    requires
        is_paved(m, set),
        is_turnable(m, e),
        flipped(m, e).wf(),
    ensures
        is_paved(flipped(m, e), set),
{
    let w = flipped(m, e);
    let top = m.nbr[e];
    lemma_flip_links(m, set, e);
    assert(is_cell(m, set, e) && is_cell(m, set, top));
    lemma_turns(e);
    lemma_turns(top);
    let (a, b, c, d) = (m.org(e), m.dest(e), m.apex(e), m.apex(top));
    let (pa, pb, pc, pd) = (m.pos(a), m.pos(b), m.pos(c), m.pos(d));
    orientation_turns(pd, pc, pa);
    orientation_turns(pc, pa, pd);
    orientation_turns(pc, pd, pb);
    orientation_turns(pd, pb, pc);
    let (tl, tr, bl, br) = (top.prev(), top.next(), e.next(), e.prev());
    assert(is_live(m, tl) && is_live(m, tr) && is_live(m, bl) && is_live(m, br));
    assert(is_cell(m, set, tl) && is_cell(m, set, tr) && is_cell(m, set, bl) && is_cell(m, set, br));
    assert forall|v: VertexId| #[trigger] set.contains(v) && covers(w, e, m.pos(v)) implies v == a
        || v == c || v == d by {
        lemma_quad_covered(pa, pb, pc, pd, m.pos(v));
        if orient(pa, pb, m.pos(v)) >= 0 {
            assert(covers(m, e, m.pos(v)));
        } else {
            assert(covers(m, top, m.pos(v)));
        }
        assert(v == a || v == b || v == c || v == d);
        orientation_turns(pd, pc, pb);
    }
    assert forall|v: VertexId| #[trigger] set.contains(v) && covers(w, top, m.pos(v)) implies v == b
        || v == c || v == d by {
        lemma_quad_covered(pb, pa, pd, pc, m.pos(v));
        if orient(pb, pa, m.pos(v)) >= 0 {
            assert(covers(m, top, m.pos(v)));
        } else {
            assert(covers(m, e, m.pos(v)));
        }
        assert(v == a || v == b || v == c || v == d);
        orientation_turns(pc, pd, pa);
    }
    assert forall|o: Otri| #[trigger] is_live(w, o) implies is_cell(w, set, o) by {
        assert(is_live(m, o));
        assert(is_cell(m, set, o));
        assert(w.dead(o.tri) == m.dead(o.tri));
        if o.tri == e.tri {
            lemma_three(e, o);
            lemma_joined_after(m, w, set, e, o);
            lemma_bound_after(m, w, set, e, o);
            assert forall|v: VertexId| #[trigger]
                set.contains(v) && covers(w, o, w.pos(v)) implies is_corner(w, o, v) by {
                assert(covers(w, e, m.pos(v)));
            }
        } else if o.tri == top.tri {
            lemma_three(top, o);
            lemma_joined_after(m, w, set, e, o);
            lemma_bound_after(m, w, set, e, o);
            assert forall|v: VertexId| #[trigger]
                set.contains(v) && covers(w, o, w.pos(v)) implies is_corner(w, o, v) by {
                assert(covers(w, top, m.pos(v)));
            }
        } else {
            lemma_joined_after(m, w, set, e, o);
            lemma_bound_after(m, w, set, e, o);
            assert forall|v: VertexId| #[trigger]
                set.contains(v) && covers(w, o, w.pos(v)) implies is_corner(w, o, v) by {
                assert(covers(m, o, m.pos(v)));
            }
        }
    }
}

#[verifier::spinoff_prover]
#[verifier::rlimit(100)]
proof fn lemma_joined_after(m: MeshView, w: MeshView, set: Set<VertexId>, e: Otri, o: Otri)
    requires
        is_paved(m, set),
        is_turnable(m, e),
        w == flipped(m, e),
        w.wf(),
        is_live(m, o),
    ensures
        is_joined(w, o),
{
    let top = m.nbr[e];
    lemma_flip_links(m, set, e);
    lemma_turns(e);
    lemma_turns(top);
    let (tl, tr, bl, br) = (top.prev(), top.next(), e.next(), e.prev());
    assert(is_live(m, tl) && is_live(m, tr) && is_live(m, bl) && is_live(m, br));
    assert(is_cell(m, set, tl) && is_cell(m, set, tr) && is_cell(m, set, bl) && is_cell(m, set, br));
    assert(is_cell(m, set, e) && is_cell(m, set, top));
    assert(is_cell(m, set, o));
    assert forall|q: Otri| #[trigger] is_live(w, q) implies is_face(w, q.tri) by {
        assert(is_live(m, q));
        let first = Otri { tri: q.tri, orient: 0 };
        assert(is_live(m, first));
        assert(is_cell(m, set, first));
        assert(w.dead(q.tri) == m.dead(q.tri));
        lemma_turns(first);
        if q.tri == e.tri {
            lemma_three(first, e);
        } else if q.tri == top.tri {
            lemma_three(first, top);
        }
    }
    let p = w.nbr[o];
    if o.tri == e.tri {
        lemma_three(e, o);
    } else if o.tri == top.tri {
        lemma_three(top, o);
    }
    if p.tri != 0 {
        assert(is_live(w, p));
        if o.tri == e.tri || o.tri == top.tri {
            if o != e && o != top {
                // The partner of the side that came here.
                assert(is_live(m, p));
                assert(is_cell(m, set, p));
                assert(p.tri != e.tri && p.tri != top.tri) by {
                    if p.tri == e.tri {
                        lemma_three(e, p);
                    }
                    if p.tri == top.tri {
                        lemma_three(top, p);
                    }
                }
            }
        } else {
            let before = m.nbr[o];
            assert(is_live(m, before));
            assert(is_cell(m, set, before));
            if before.tri == e.tri {
                lemma_three(e, before);
            }
            if before.tri == top.tri {
                lemma_three(top, before);
            }
        }
    }
}

#[verifier::spinoff_prover]
#[verifier::rlimit(100)]
proof fn lemma_bound_after(m: MeshView, w: MeshView, set: Set<VertexId>, e: Otri, o: Otri)
    requires
        is_paved(m, set),
        is_turnable(m, e),
        w == flipped(m, e),
        w.wf(),
        is_live(m, o),
    ensures
        is_bound(w, o),
{
    let top = m.nbr[e];
    lemma_flip_links(m, set, e);
    lemma_turns(e);
    lemma_turns(top);
    let (tl, tr, bl, br) = (top.prev(), top.next(), e.next(), e.prev());
    assert(is_live(m, tl) && is_live(m, tr) && is_live(m, bl) && is_live(m, br));
    assert(is_cell(m, set, tl) && is_cell(m, set, tr) && is_cell(m, set, bl) && is_cell(m, set, br));
    assert(is_cell(m, set, e) && is_cell(m, set, top));
    assert(is_cell(m, set, o));
    let p = w.nbr[o];
    if o.tri == e.tri {
        lemma_three(e, o);
    } else if o.tri == top.tri {
        lemma_three(top, o);
    }
    if p.tri != 0 {
        if o.tri == e.tri || o.tri == top.tri {
            if o != e && o != top {
                assert(is_live(m, p));
                assert(is_cell(m, set, p));
                assert(p.tri != e.tri && p.tri != top.tri) by {
                    if p.tri == e.tri {
                        lemma_three(e, p);
                    }
                    if p.tri == top.tri {
                        lemma_three(top, p);
                    }
                }
            }
        } else {
            let before = m.nbr[o];
            assert(is_live(m, before));
            assert(is_cell(m, set, before));
            if before.tri == e.tri {
                lemma_three(e, before);
            }
            if before.tri == top.tri {
                lemma_three(top, before);
            }
        }
    }
}

#[verifier::spinoff_prover]
#[verifier::rlimit(60)]
pub(crate) proof fn lemma_flip_convex(m: MeshView, set: Set<VertexId>, e: Otri)
    requires
        is_paved(m, set),
        is_walled(m, set),
        is_turnable(m, e),
    ensures
        is_walled(flipped(m, e), set),
{
    let w = flipped(m, e);
    let top = m.nbr[e];
    lemma_flip_links(m, set, e);
    assert(is_cell(m, set, e) && is_cell(m, set, top));
    lemma_turns(e);
    lemma_turns(top);
    let (tl, tr, bl, br) = (top.prev(), top.next(), e.next(), e.prev());
    assert(is_live(m, tl) && is_live(m, tr) && is_live(m, bl) && is_live(m, br));
    assert forall|o: Otri| #[trigger] is_live(w, o) && w.nbr[o].tri == 0 implies bounds_all(
        w,
        set,
        o,
    ) by {
        assert(is_live(m, o));
        let was = if o == bl {
            br
        } else if o == br {
            tr
        } else if o == tr {
            tl
        } else if o == tl {
            bl
        } else {
            o
        };
        if o.tri == e.tri {
            lemma_three(e, o);
        } else if o.tri == top.tri {
            lemma_three(top, o);
        } else {
            assert(m.nbr[o].tri == 0);
        }
        assert(is_live(m, was) && m.nbr[was].tri == 0);
        assert(bounds_all(m, set, was));
        assert(w.org(o) == m.org(was) && w.dest(o) == m.dest(was));
        assert forall|v: VertexId| #[trigger] set.contains(v) implies orient(
            w.pos(w.org(o)),
            w.pos(w.dest(o)),
            w.pos(v),
        ) >= 0 by {
            assert(orient(m.pos(m.org(was)), m.pos(m.dest(was)), m.pos(v)) >= 0);
        }
    }
}

/// Flipping keeps the corners in use.
proof fn lemma_flip_used(m: MeshView, set: Set<VertexId>, e: Otri)
    requires
        is_paved(m, set),
        is_turnable(m, e),
    ensures
        corners(flipped(m, e)) == corners(m),
{
    let w = flipped(m, e);
    let top = m.nbr[e];
    lemma_flip_links(m, set, e);
    lemma_turns(e);
    lemma_turns(top);
    assert forall|v: VertexId| is_used(m, v) implies #[trigger] is_used(w, v) by {
        let o = choose|o: Otri| #[trigger] is_live(m, o) && m.org(o) == v;
        assert(is_live(w, o));
        assert(is_live(w, e) && is_live(w, e.next()) && is_live(w, e.prev()));
        assert(is_live(w, top) && is_live(w, top.next()) && is_live(w, top.prev()));
        assert(is_cell(m, set, e));
        if o.tri == e.tri {
            lemma_three(e, o);
            assert(w.org(e.prev()) == m.org(e) && w.org(top.prev()) == m.dest(e) && w.org(top)
                == m.apex(e));
        } else if o.tri == top.tri {
            lemma_three(top, o);
            assert(w.org(e.prev()) == m.org(e) && w.org(top.prev()) == m.dest(e) && w.org(e)
                == m.apex(top));
        }
    }
    assert forall|v: VertexId| is_used(w, v) implies #[trigger] is_used(m, v) by {
        let o = choose|o: Otri| #[trigger] is_live(w, o) && w.org(o) == v;
        assert(is_live(m, o));
        assert(is_live(m, e) && is_live(m, e.next()) && is_live(m, e.prev()));
        assert(is_live(m, top) && is_live(m, top.next()) && is_live(m, top.prev()));
        assert(is_cell(m, set, e));
        if o.tri == e.tri {
            lemma_three(e, o);
            assert(m.org(e.prev()) == m.apex(e) && m.org(top.prev()) == m.apex(top));
        } else if o.tri == top.tri {
            lemma_three(top, o);
            assert(m.org(e.prev()) == m.apex(e) && m.org(top.prev()) == m.apex(top));
        }
    }
    reveal(corners);
    assert(corners(w) =~= corners(m));
}

/// Flipping an edge of a convex quadrilateral keeps a triangulation one.
pub proof fn flips_keep_meshes_plane(m: MeshView, e: Otri)
    requires
        is_plane(m),
        is_turnable(m, e),
        flipped(m, e).wf(),
    ensures
        is_plane(flipped(m, e)),
        corners(flipped(m, e)) == corners(m),
{
    reveal(is_plane);
    lemma_flip_links(m, corners(m), e);
    lemma_flip_tiles(m, corners(m), e);
    lemma_flip_convex(m, corners(m), e);
    let anchor = m.nbr[no_tri()];
    assert(is_live(m, anchor) ==> is_live(flipped(m, e), anchor));
    lemma_flip_used(m, corners(m), e);
}

} // verus!
