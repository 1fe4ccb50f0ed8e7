//! Edges of a triangulation are flipped, each flip letting down a surface over
//! it, until all are locally Delaunay but those that carry a subsegment.

use crate::empty_circle::{
    is_anchored, is_constrained_delaunay, is_good_side, is_live, is_locally_delaunay, is_side,
};
use crate::flip::{flip, flipped};
use crate::knitting::{lemma_three, lemma_turns};
use crate::lawson::{
    lemma_far_positive, lemma_quad_convex, lemma_total_changes, lemma_total_positive, origin,
    total,
};
use crate::mesh::{CdtMesh, MeshView, Otri};
use crate::paving::{
    corners, edges_are_joined, flips_keep_meshes_plane, is_paved, is_plane, is_turnable,
    lemma_flip_links,
};
use crate::plane::{areas_add, areas_turn, circle_from_afar, far2, lemma_swap, lemma_times_three};
use crate::predicates::{incircle, orient_det, orientation_turns, Vertex};
use vstd::prelude::*;

verus! {

// --- The room under a surface -----------------------------------------------

/// The room under a triangle whose corners are raised to the heights `h`, six
/// times.
pub open spec fn raised(h: spec_fn(Vertex) -> int, a: Vertex, b: Vertex, c: Vertex) -> int {
    orient_det(a, b, c) * (h(a) + h(b) + h(c))
}

/// How far the surface bends down at the edge from `a` to `b`, between the
/// points `c` and `d`: positive where the other diagonal lies lower.
pub open spec fn bend(
    h: spec_fn(Vertex) -> int,
    a: Vertex,
    b: Vertex,
    c: Vertex,
    d: Vertex,
) -> int {
    h(a) * orient_det(b, c, d) + h(b) * orient_det(c, a, d) + h(c) * orient_det(a, b, d) - h(d)
        * orient_det(a, b, c)
}

/// The room under the triangle in slot `t`.
pub open spec fn room_at(h: spec_fn(Vertex) -> int, m: MeshView) -> spec_fn(int) -> int {
    |t: int|
        {
            let o = Otri { tri: t as u32, orient: 0 };
            if is_live(m, o) {
                raised(h, m.pos(m.org(o)), m.pos(m.dest(o)), m.pos(m.apex(o)))
            } else {
                0
            }
        }
}

/// The room under all live triangles.
pub open spec fn room(h: spec_fn(Vertex) -> int, m: MeshView) -> int {
    total(room_at(h, m), m.tri_count)
}

/// The bend at an edge of a mesh.
pub open spec fn bend_at(h: spec_fn(Vertex) -> int, m: MeshView, e: Otri) -> int {
    bend(
        h,
        m.pos(m.org(e)),
        m.pos(m.dest(e)),
        m.pos(m.apex(e)),
        m.pos(m.apex(m.nbr[e])),
    )
}

proof fn lemma_room_of(h: spec_fn(Vertex) -> int, m: MeshView, o: Otri)
    requires
        is_live(m, o),
    ensures
        room_at(h, m)(o.tri as int) == raised(
            h,
            m.pos(m.org(o)),
            m.pos(m.dest(o)),
            m.pos(m.apex(o)),
        ),
{
    let first = Otri { tri: o.tri, orient: 0 };
    lemma_turns(first);
    lemma_turns(o);
    lemma_three(first, o);
    let (a, b, c) = (m.pos(m.org(first)), m.pos(m.dest(first)), m.pos(m.apex(first)));
    orientation_turns(a, b, c);
    orientation_turns(b, c, a);
    assert(is_live(m, first));
}

/// Turning the diagonal of a quadrilateral changes the room by the bend.
proof fn lemma_flip_room(h: spec_fn(Vertex) -> int, a: Vertex, b: Vertex, c: Vertex, d: Vertex)
    ensures
        raised(h, a, b, c) + raised(h, b, a, d) == raised(h, d, c, a) + raised(h, c, d, b) + bend(
            h,
            a,
            b,
            c,
            d,
        ),
{
    areas_add(a, b, c, d);
    areas_turn(a, b, d);
    areas_turn(b, c, d);
    areas_turn(c, a, d);
    areas_turn(d, c, a);
    areas_turn(c, d, b);
    let (la, lb, lc, ld) = (h(a), h(b), h(c), h(d));
    let (p, q, r) = (orient_det(b, c, d), orient_det(c, a, d), orient_det(a, b, d));
    orientation_turns(d, c, a);
    orientation_turns(c, d, b);
    orientation_turns(b, c, d);
    orientation_turns(c, a, d);
    assert(orient_det(a, b, c) == r + p + q);
    assert(orient_det(b, a, d) == -r);
    assert(orient_det(d, c, a) == q);
    assert(orient_det(c, d, b) == p);
    lemma_times_three(la + lb + lc, r, p, q);
    lemma_times_three(r, la, lb, lc);
    lemma_times_three(p, la, lb, lc);
    lemma_times_three(q, la, lb, lc);
    lemma_times_three(-r, lb, la, ld);
    lemma_times_three(q, ld, lc, la);
    lemma_times_three(p, lc, ld, lb);
    lemma_times_three(ld, r, p, q);
    lemma_swap(r, la);
    lemma_swap(r, lb);
    lemma_swap(r, lc);
    lemma_swap(r, ld);
    lemma_swap(p, la);
    lemma_swap(p, ld);
    lemma_swap(q, lb);
    lemma_swap(q, ld);
}

/// A flip where the surface bends down leaves less room.
#[verifier::spinoff_prover]
#[verifier::rlimit(60)]
pub proof fn flips_let_surfaces_down(h: spec_fn(Vertex) -> int, m: MeshView, e: Otri)
    requires
        is_plane(m),
        is_turnable(m, e),
    ensures
        room(h, flipped(m, e)) == room(h, m) - bend_at(h, m, e),
{
    assert(is_paved(m, corners(m))) by {
        reveal(is_plane);
    }
    let w = flipped(m, e);
    let top = m.nbr[e];
    let n = m.tri_count;
    lemma_flip_links(m, corners(m), e);
    lemma_turns(e);
    lemma_turns(top);
    edges_are_joined(m, e);
    let (pa, pb, pc, pd) = (
        m.pos(m.org(e)),
        m.pos(m.dest(e)),
        m.pos(m.apex(e)),
        m.pos(m.apex(top)),
    );
    lemma_flip_room(h, pa, pb, pc, pd);
    assert(is_live(w, e) && is_live(w, top));
    lemma_room_of(h, m, e);
    lemma_room_of(h, m, top);
    lemma_room_of(h, w, e);
    lemma_room_of(h, w, top);
    assert forall|k: int| 0 <= k < n && k != e.tri && k != top.tri implies #[trigger] room_at(h, w)(
        k,
    ) == room_at(h, m)(k) by {
        let first = Otri { tri: k as u32, orient: 0 };
        if is_live(m, first) {
            assert(is_live(w, first));
            lemma_room_of(h, m, first);
            lemma_room_of(h, w, first);
        } else {
            assert(!is_live(w, first));
        }
    }
    lemma_total_changes(room_at(h, m), room_at(h, w), n, e.tri as int, top.tri as int);
}

/// Heights that are not negative leave no negative room.
pub proof fn rooms_are_not_negative(h: spec_fn(Vertex) -> int, m: MeshView)
    requires
        is_plane(m),
        forall|p: Vertex| #[trigger] h(p) >= 0,
    ensures
        room(h, m) >= 0,
{
    assert forall|k: int| 0 <= k < m.tri_count implies #[trigger] room_at(h, m)(k) >= 0 by {
        let o = Otri { tri: k as u32, orient: 0 };
        if is_live(m, o) {
            edges_are_joined(m, o);
            let (a, b, c) = (m.pos(m.org(o)), m.pos(m.dest(o)), m.pos(m.apex(o)));
            assert(h(a) >= 0 && h(b) >= 0 && h(c) >= 0);
            let (x, y) = (orient_det(a, b, c), h(a) + h(b) + h(c));
            assert(x * y >= 0) by (nonlinear_arith)
                requires
                    x > 0,
                    y >= 0,
            ;
        }
    }
    lemma_total_positive(room_at(h, m), m.tri_count);
}

// --- Settling ---------------------------------------------------------------

/// The square of the distance from the origin.
pub open spec fn paraboloid() -> spec_fn(Vertex) -> int {
    |p: Vertex| far2(p, origin())
}

/// What flips leave alone.
pub open spec fn same_but_links(m: MeshView, w: MeshView) -> bool {
    w == (MeshView { nbr: w.nbr, corner: w.corner, tsub: w.tsub, stri: w.stri, ..m })
}

/// Whether an edge without a subsegment is not locally Delaunay.
spec fn is_unsettled(m: MeshView, o: Otri) -> bool {
    is_live(m, o) && !is_locally_delaunay(m, o)
}

proof fn lemma_unsettled(m: MeshView, e: Otri)
    requires
        is_plane(m),
        is_unsettled(m, e),
    ensures
        is_turnable(m, e),
        bend_at(paraboloid(), m, e) > 0,
{
    let top = m.nbr[e];
    edges_are_joined(m, e);
    edges_are_joined(m, top);
    let (a, b, c, d) = (
        m.pos(m.org(e)),
        m.pos(m.dest(e)),
        m.pos(m.apex(e)),
        m.pos(m.apex(top)),
    );
    lemma_quad_convex(a, b, c, d);
    circle_from_afar(a, b, c, d, origin());
}

fn find_unsettled(mesh: &CdtMesh) -> (r: Option<Otri>)
    requires
        mesh@.wf(),
        is_plane(mesh@),
    ensures
        match r {
            Some(o) => is_unsettled(mesh@, o),
            None => is_constrained_delaunay(mesh@),
        },
{
    let n: usize = mesh.tri_slots();
    let mut t: usize = 1;
    while t < n
        invariant
            1 <= t,
            n == mesh@.tri_count,
            mesh@.wf(),
            is_plane(mesh@),
            forall|o: Otri|
                o.tri < t && #[trigger] is_live(mesh@, o) ==> is_locally_delaunay(mesh@, o),
        decreases n - t,
    {
        let ti: u32 = t as u32;
        let mut k: u8 = 0;
        while k < 3 && !mesh.is_dead(ti)
            invariant
                k <= 3,
                0 < ti < n,
                n == mesh@.tri_count,
                mesh@.wf(),
                is_plane(mesh@),
                forall|o: Otri|
                    o.tri == ti && o.orient < k && #[trigger] is_live(mesh@, o)
                        ==> is_locally_delaunay(mesh@, o),
            decreases 3 - k,
        {
            let o = Otri { tri: ti, orient: k };
            proof {
                assert(is_live(mesh@, o));
                edges_are_joined(mesh@, o);
                lemma_turns(o);
            }
            let p = mesh.sym(o);
            if p.tri != 0 && mesh.tspivot(o).sub == 0 {
                proof {
                    edges_are_joined(mesh@, p);
                }
                let a = mesh.vertex_pos(mesh.org(o));
                let b = mesh.vertex_pos(mesh.dest(o));
                let c = mesh.vertex_pos(mesh.apex(o));
                let d = mesh.vertex_pos(mesh.apex(p));
                if incircle(a, b, c, d) > 0 {
                    return Some(o);
                }
            }
            k += 1;
        }
        t += 1;
    }
    proof {
        assert forall|o: Otri| #[trigger] is_live(mesh@, o) implies is_side(mesh@, o) by {
            let first = Otri { tri: o.tri, orient: 0 };
            edges_are_joined(mesh@, first);
        }
        assert forall|o: Otri| #[trigger] is_live(mesh@, o) implies is_good_side(mesh@, o) by {
            edges_are_joined(mesh@, o);
        }
        assert(is_anchored(mesh@)) by {
            reveal(is_plane);
        }
    }
    None
}

/// Flip edges until all are locally Delaunay but those that carry a
/// subsegment.
pub fn settle_edges(mesh: &mut CdtMesh)
    requires
        is_plane(old(mesh)@),
    ensures
        final(mesh)@.wf(),
        is_plane(final(mesh)@),
        corners(final(mesh)@) == corners(old(mesh)@),
        is_constrained_delaunay(final(mesh)@),
        same_but_links(old(mesh)@, final(mesh)@),
{
    proof {
        reveal(is_plane);
    }
    loop
        invariant
            mesh@.wf(),
            is_plane(mesh@),
            corners(mesh@) == corners(old(mesh)@),
            same_but_links(old(mesh)@, mesh@),
        decreases room(paraboloid(), mesh@),
    {
        match find_unsettled(mesh) {
            None => {
                return;
            },
            Some(o) => {
                let mut e = o;
                let ghost before = mesh@;
                proof {
                    lemma_unsettled(before, o);
                    flips_let_surfaces_down(paraboloid(), before, o);
                    assert(same_but_links(before, flipped(before, o))) by {
                        reveal(is_plane);
                        lemma_flip_links(before, corners(before), o);
                    }
                    edges_are_joined(before, o);
                }
                flip(mesh, &mut e);
                proof {
                    flips_keep_meshes_plane(before, o);
                    assert forall|p: Vertex| #[trigger] paraboloid()(p) >= 0 by {
                        lemma_far_positive(p);
                    }
                    rooms_are_not_negative(paraboloid(), mesh@);
                }
            },
        }
    }
}

} // verus!
