//! The empty-circle property that makes a triangulation Delaunay.

use crate::divconq::{
    delaunay_built, ghosts_gone, joins_right, triangulated, Seam,
};
use crate::mesh::{no_tri, CdtMesh, MeshView, Otri, VertexId};
use crate::predicates::{
    circle_shifts, circle_turns, corners_lie_on_the_circle, in_circle, incircle, orient, orient2d,
    orientation_turns,
};
use crate::segment::{known, MeshFault};
use vstd::prelude::*;

verus! {

/// Whether slot `t` holds a triangle of three vertices.
pub open spec fn is_face(m: MeshView, t: u32) -> bool {
    let o = Otri { tri: t, orient: 0 };
    &&& 0 < t < m.tri_count
    &&& !m.dead(t)
    &&& m.has_vertex(m.org(o))
    &&& m.has_vertex(m.dest(o))
    &&& m.has_vertex(m.apex(o))
}

/// Whether the vertex `v` lies strictly inside the circle of triangle `t`.
pub open spec fn encircles(m: MeshView, t: u32, v: VertexId) -> bool {
    let o = Otri { tri: t, orient: 0 };
    in_circle(m.pos(m.org(o)), m.pos(m.dest(o)), m.pos(m.apex(o)), m.pos(v)) > 0
}

/// Whether triangle `t` is counter-clockwise with no vertex inside its
/// circle.
pub open spec fn is_empty_face(m: MeshView, t: u32) -> bool {
    let o = Otri { tri: t, orient: 0 };
    &&& orient(m.pos(m.org(o)), m.pos(m.dest(o)), m.pos(m.apex(o))) > 0
    &&& forall|v: VertexId| m.has_vertex(v) ==> !#[trigger] encircles(m, t, v)
}

/// Whether every triangle of a mesh is counter-clockwise with no vertex
/// inside its circle.
pub open spec fn is_delaunay(m: MeshView) -> bool {
    forall|t: u32| #[trigger] is_face(m, t) ==> is_empty_face(m, t)
}

fn is_face_at(mesh: &CdtMesh, t: u32) -> (r: bool)
    requires
        mesh@.wf(),
        0 < t < mesh@.tri_count,
    ensures
        r == is_face(mesh@, t),
{
    let o = Otri { tri: t, orient: 0 };
    !mesh.is_dead(t) && known(mesh, mesh.org(o)) && known(mesh, mesh.dest(o)) && known(
        mesh,
        mesh.apex(o),
    )
}

fn is_empty_face_at(mesh: &CdtMesh, t: u32) -> (r: bool)
    requires
        mesh@.wf(),
        is_face(mesh@, t),
    ensures
        r == is_empty_face(mesh@, t),
{
    let o = Otri { tri: t, orient: 0 };
    let a = mesh.vertex_pos(mesh.org(o));
    let b = mesh.vertex_pos(mesh.dest(o));
    let c = mesh.vertex_pos(mesh.apex(o));
    if orient2d(a, b, c) <= 0 {
        return false;
    }
    let n: usize = mesh.vertex_count();
    let mut i: usize = 0;
    while i < n
        invariant
            i <= n <= u32::MAX,
            n == mesh@.vertices.len(),
            mesh@.wf(),
            o == (Otri { tri: t, orient: 0 }),
            a == mesh@.pos(mesh@.org(o)),
            b == mesh@.pos(mesh@.dest(o)),
            c == mesh@.pos(mesh@.apex(o)),
            forall|v: VertexId| v.0 < i ==> !#[trigger] encircles(mesh@, t, v),
        decreases n - i,
    {
        let v = VertexId::new(i as u32);
        if incircle(a, b, c, mesh.vertex_pos(v)) > 0 {
            assert(encircles(mesh@, t, v));
            return false;
        }
        i += 1;
    }
    true
}

/// The first triangle of a mesh that is not counter-clockwise or has a vertex
/// inside its circle; `None` where the mesh is a Delaunay triangulation.
pub fn delaunay_fault(mesh: &CdtMesh) -> (r: Option<u32>)
    requires
        mesh@.wf(),
    ensures
        match r {
            None => is_delaunay(mesh@),
            Some(t) => {
                &&& is_face(mesh@, t)
                &&& !is_empty_face(mesh@, t)
                &&& forall|u: u32|
                    u < t && #[trigger] is_face(mesh@, u) ==> is_empty_face(mesh@, u)
            },
        },
{
    let n: usize = mesh.tri_slots();
    let mut i: usize = 1;
    while i < n
        invariant
            1 <= i,
            n == mesh@.tri_count,
            mesh@.wf(),
            forall|u: u32| u < i && #[trigger] is_face(mesh@, u) ==> is_empty_face(mesh@, u),
        decreases n - i,
    {
        if is_face_at(mesh, i as u32) && !is_empty_face_at(mesh, i as u32) {
            return Some(i as u32);
        }
        i += 1;
    }
    None
}

// --- Constrained triangulations ---------------------------------------------

/// Whether `o` is an edge of a triangle of three vertices.
pub open spec fn is_side(m: MeshView, o: Otri) -> bool {
    m.has(o) && is_face(m, o.tri)
}

/// Whether an edge has no triangle across, or one that is glued to it along
/// the same two corners.
pub open spec fn is_joined(m: MeshView, o: Otri) -> bool {
    let p = m.nbr[o];
    p.tri == 0 || {
        &&& is_side(m, p)
        &&& m.nbr[p] == o
        &&& m.org(p) == m.dest(o)
        &&& m.dest(p) == m.org(o)
    }
}

/// Whether an edge is on the boundary, constrained, or has the vertex across
/// it outside the circle of its triangle.
pub open spec fn is_locally_delaunay(m: MeshView, o: Otri) -> bool {
    let p = m.nbr[o];
    ||| p.tri == 0
    ||| m.tsub[o].sub != 0
    ||| in_circle(m.pos(m.org(o)), m.pos(m.dest(o)), m.pos(m.apex(o)), m.pos(m.apex(p))) <= 0
}

/// Whether an edge of a constrained Delaunay triangulation is as it should
/// be: its triangle counter-clockwise, and the edge joined and locally
/// Delaunay.
pub open spec fn is_good_side(m: MeshView, o: Otri) -> bool {
    &&& orient(m.pos(m.org(o)), m.pos(m.dest(o)), m.pos(m.apex(o))) > 0
    &&& is_joined(m, o)
    &&& is_locally_delaunay(m, o)
}

/// Whether `o` is an edge of a live triangle.
pub open spec fn is_live(m: MeshView, o: Otri) -> bool {
    m.has(o) && o.tri != 0 && !m.dead(o.tri)
}

/// Whether the dummy is glued to an edge of a live triangle, or to nothing.
pub open spec fn is_anchored(m: MeshView) -> bool {
    m.nbr[no_tri()].tri == 0 || is_live(m, m.nbr[no_tri()])
}

/// Whether a mesh is a constrained Delaunay triangulation: every live triangle
/// has three vertices, counter-clockwise, every edge is joined to its partner
/// or has none, and every edge that is not constrained is locally Delaunay.
pub open spec fn is_constrained_delaunay(m: MeshView) -> bool {
    &&& is_anchored(m)
    &&& forall|o: Otri| #[trigger] is_live(m, o) ==> is_side(m, o) && is_good_side(m, o)
}

fn is_good_side_at(mesh: &CdtMesh, o: Otri) -> (r: bool)
    requires
        mesh@.wf(),
        is_side(mesh@, o),
    ensures
        r == is_good_side(mesh@, o),
{
    let u = mesh.org(o);
    let v = mesh.dest(o);
    let w = mesh.apex(o);
    proof {
        lemma_corners_known(mesh@, o);
    }
    let a = mesh.vertex_pos(u);
    let b = mesh.vertex_pos(v);
    let c = mesh.vertex_pos(w);
    if orient2d(a, b, c) <= 0 {
        return false;
    }
    let p = mesh.sym(o);
    if p.tri == 0 {
        return true;
    }
    if !is_face_at(mesh, p.tri) || mesh.sym(p) != o || mesh.org(p) != v || mesh.dest(p) != u {
        return false;
    }
    proof {
        lemma_corners_known(mesh@, p);
    }
    mesh.tspivot(o).sub != 0 || incircle(a, b, c, mesh.vertex_pos(mesh.apex(p))) <= 0
}

proof fn lemma_corners_known(m: MeshView, o: Otri)
    requires
        is_side(m, o),
    ensures
        m.has_vertex(m.org(o)) && m.has_vertex(m.dest(o)) && m.has_vertex(m.apex(o)),
{
    assert(o.orient == 0 || o.orient == 1 || o.orient == 2);
    let first = Otri { tri: o.tri, orient: 0 };
    assert(first.next() == (Otri { tri: o.tri, orient: 1 }));
    assert(first.prev() == (Otri { tri: o.tri, orient: 2 }));
}

/// Whether a mesh is a constrained Delaunay triangulation.
pub fn check_constrained_delaunay(mesh: &CdtMesh) -> (r: bool)
    requires
        mesh@.wf(),
    ensures
        r == is_constrained_delaunay(mesh@),
{
    let anchor = mesh.sym(Otri::dummy());
    if anchor.tri != 0 && mesh.is_dead(anchor.tri) {
        return false;
    }
    let n: usize = mesh.tri_slots();
    let mut i: usize = 1;
    while i < n
        invariant
            1 <= i,
            n == mesh@.tri_count,
            mesh@.wf(),
            is_anchored(mesh@),
            forall|o: Otri|
                o.tri < i && #[trigger] is_live(mesh@, o) ==> is_side(mesh@, o) && is_good_side(
                    mesh@,
                    o,
                ),
        decreases n - i,
    {
        let t: u32 = i as u32;
        if !mesh.is_dead(t) {
            if !is_face_at(mesh, t) {
                assert(is_live(mesh@, Otri { tri: t, orient: 0 }));
                return false;
            }
            let mut k: u8 = 0;
            while k < 3
                invariant
                    k <= 3,
                    n == mesh@.tri_count,
                    0 < t < n,
                    mesh@.wf(),
                    is_face(mesh@, t),
                    forall|o: Otri|
                        o.tri == t && o.orient < k && #[trigger] is_live(mesh@, o)
                            ==> is_good_side(mesh@, o),
                decreases 3 - k,
            {
                let o = Otri { tri: t, orient: k };
                assert(is_side(mesh@, o) && is_live(mesh@, o));
                if !is_good_side_at(mesh, o) {
                    return false;
                }
                k += 1;
            }
        }
        i += 1;
    }
    true
}

// --- Whole triangulations ---------------------------------------------------

/// The number of triangles of three vertices among the first `n` slots.
pub open spec fn face_count(m: MeshView, n: nat) -> nat
    decreases n,
{
    if n == 0 {
        0
    } else {
        face_count(m, (n - 1) as nat) + if is_face(m, (n - 1) as u32) {
            1nat
        } else {
            0nat
        }
    }
}

/// The number of edges of triangle `t` that have the dummy across.
pub open spec fn open_sides(m: MeshView, t: u32) -> nat {
    let side = |k: u8|
        if m.nbr[Otri { tri: t, orient: k }].tri == 0 {
            1nat
        } else {
            0nat
        };
    side(0) + side(1) + side(2)
}

/// The number of edges that have the dummy across, over the triangles of three
/// vertices among the first `n` slots.
pub open spec fn rim_count(m: MeshView, n: nat) -> nat
    decreases n,
{
    if n == 0 {
        0
    } else {
        rim_count(m, (n - 1) as nat) + if is_face(m, (n - 1) as u32) {
            open_sides(m, (n - 1) as u32)
        } else {
            0
        }
    }
}

/// Whether all of `ids` lie on one line through the first two.
pub open spec fn on_one_line(m: MeshView, ids: Seq<VertexId>) -> bool {
    forall|i: int|
        0 <= i < ids.len() ==> orient(m.pos(ids[0]), m.pos(ids[1]), m.pos(#[trigger] ids[i])) == 0
}

/// Whether a mesh is the Delaunay triangulation of `ids` with `hull` edges on
/// its hull. No vertex lies inside the circle of a triangle. Where the
/// vertices lie on one line there is no triangle; otherwise there are as many
/// triangles as Euler's relation asks for, and the edges on the hull are those
/// with the dummy across.
pub open spec fn is_delaunay_of(m: MeshView, ids: Seq<VertexId>, hull: u32) -> bool {
    &&& is_delaunay(m)
    &&& is_constrained_delaunay(m)
    &&& if on_one_line(m, ids) {
        face_count(m, m.tri_count) == 0
    } else {
        &&& face_count(m, m.tri_count) == 2 * ids.len() - 2 - hull
        &&& rim_count(m, m.tri_count) == hull
    }
}

pub(crate) fn count_sides(mesh: &CdtMesh) -> (r: (u64, u64))
    requires
        mesh@.wf(),
    ensures
        r.0 == face_count(mesh@, mesh@.tri_count),
        r.1 == rim_count(mesh@, mesh@.tri_count),
{
    let n: usize = mesh.tri_slots();
    let mut faces: u64 = 0;
    let mut rim: u64 = 0;
    let mut i: usize = 1;
    proof {
        assert(face_count(mesh@, 1) == face_count(mesh@, 0));
        assert(rim_count(mesh@, 1) == rim_count(mesh@, 0));
    }
    while i < n
        invariant
            1 <= i <= n,
            n == mesh@.tri_count,
            n <= u32::MAX,
            mesh@.wf(),
            faces == face_count(mesh@, i as nat),
            rim == rim_count(mesh@, i as nat),
            faces <= i,
            rim <= 3 * i,
        decreases n - i,
    {
        let t: u32 = i as u32;
        if is_face_at(mesh, t) {
            faces += 1;
            if mesh.sym(Otri { tri: t, orient: 0 }).tri == 0 {
                rim += 1;
            }
            if mesh.sym(Otri { tri: t, orient: 1 }).tri == 0 {
                rim += 1;
            }
            if mesh.sym(Otri { tri: t, orient: 2 }).tri == 0 {
                rim += 1;
            }
        }
        i += 1;
    }
    (faces, rim)
}

fn is_on_one_line(mesh: &CdtMesh, ids: &Vec<VertexId>) -> (r: bool)
    requires
        ids@.len() >= 2,
        forall|i: int| 0 <= i < ids@.len() ==> mesh@.has_vertex(#[trigger] ids@[i]),
    ensures
        r == on_one_line(mesh@, ids@),
{
    let a = mesh.vertex_pos(ids[0]);
    let b = mesh.vertex_pos(ids[1]);
    let mut i: usize = 0;
    while i < ids.len()
        invariant
            i <= ids@.len(),
            a == mesh@.pos(ids@[0]),
            b == mesh@.pos(ids@[1]),
            forall|k: int| 0 <= k < ids@.len() ==> mesh@.has_vertex(#[trigger] ids@[k]),
            forall|k: int| 0 <= k < i ==> orient(a, b, mesh@.pos(#[trigger] ids@[k])) == 0,
        decreases ids.len() - i,
    {
        if orient2d(a, b, mesh.vertex_pos(ids[i])) != 0 {
            return false;
        }
        i += 1;
    }
    true
}

/// Whether a mesh is the Delaunay triangulation of `ids`.
pub fn check_delaunay(mesh: &CdtMesh, ids: &Vec<VertexId>, hull: u32) -> (r: bool)
    requires
        mesh@.wf(),
        2 <= ids@.len(),
        forall|i: int| 0 <= i < ids@.len() ==> mesh@.has_vertex(#[trigger] ids@[i]),
    ensures
        r == is_delaunay_of(mesh@, ids@, hull),
{
    let (faces, rim) = count_sides(mesh);
    let counted: bool = if is_on_one_line(mesh, ids) {
        faces == 0
    } else {
        faces as u128 + 2 + hull as u128 == 2 * ids.len() as u128 && rim == hull as u64
    };
    counted && check_constrained_delaunay(mesh) && delaunay_fault(mesh).is_none()
}

/// Where both sides of a seam offer a vertex, the triangle on the one that is
/// taken does not have the other inside its circle.
pub proof fn teeth_leave_the_other_side_out(m: MeshView, s: Seam, right: bool)
    requires
        joins_right(m, s, false, false) == Ok::<bool, MeshFault>(right),
    ensures
        right ==> in_circle(
            m.pos(s.lower_left),
            m.pos(s.lower_right),
            m.pos(s.upper_right),
            m.pos(s.upper_left),
        ) <= 0,
        !right ==> in_circle(
            m.pos(s.lower_left),
            m.pos(s.lower_right),
            m.pos(s.upper_left),
            m.pos(s.upper_right),
        ) <= 0,
{
    let (a, b, c, d) = (
        m.pos(s.upper_left),
        m.pos(s.lower_left),
        m.pos(s.lower_right),
        m.pos(s.upper_right),
    );
    circle_shifts(a, b, c, d);
    circle_turns(a, b, c, d);
}

/// Three vertices that are not on one line, in whatever order they are taken,
/// become one triangle with three edges on the hull, and it is Delaunay.
pub proof fn three_vertices_make_one_triangle(m: MeshView, ids: Seq<VertexId>, dwyer: bool)
    requires
        m.wf(),
        m.vertices.len() == 3,
        m.tri_count == 1,
        m.free_tris.len() == 0,
        ids.len() == 3,
        forall|i: int| 0 <= i < 3 ==> m.has_vertex(#[trigger] ids[i]),
        orient(m.pos(ids[0]), m.pos(ids[1]), m.pos(ids[2])) != 0,
    ensures
        delaunay_built(m, ids, dwyer).1 == Ok::<u32, MeshFault>(3),
        is_face(delaunay_built(m, ids, dwyer).0, 1),
        forall|t: u32| #[trigger] is_face(delaunay_built(m, ids, dwyer).0, t) ==> t == 1,
        is_delaunay_of(delaunay_built(m, ids, dwyer).0, ids, 3),
{
    reveal_with_fuel(triangulated, 1);
    reveal_with_fuel(ghosts_gone, 4);
    assert(0u8 & 2 == 0) by (bit_vector);
    assert(forall|f: u8| (#[trigger] (f | 2)) & 2 != 0) by (bit_vector);
    let after = delaunay_built(m, ids, dwyer).0;
    let o = Otri { tri: 1, orient: 0 };
    let (i, j, k) = (after.org(o), after.dest(o), after.apex(o));
    let (a, b, c) = (m.pos(i), m.pos(j), m.pos(k));
    assert(after.vertices == m.vertices);
    orientation_turns(m.pos(ids[0]), m.pos(ids[1]), m.pos(ids[2]));
    orientation_turns(m.pos(ids[1]), m.pos(ids[2]), m.pos(ids[0]));
    orientation_turns(m.pos(ids[2]), m.pos(ids[0]), m.pos(ids[1]));
    orientation_turns(m.pos(ids[0]), m.pos(ids[2]), m.pos(ids[1]));
    assert(is_face(after, 1));
    assert(orient(a, b, c) > 0);
    corners_lie_on_the_circle(a, b, c);
    assert forall|v: VertexId| after.has_vertex(v) implies !#[trigger] encircles(after, 1, v) by {
        assert(i != j && j != k && i != k) by {
            orientation_turns(a, b, c);
            orientation_turns(b, c, a);
            orientation_turns(c, a, b);
        }
        assert(v == i || v == j || v == k);
    }
    assert(is_empty_face(after, 1));
    assert(!on_one_line(after, ids)) by {
        assert(after.pos(ids[2]) == m.pos(ids[2]));
    }
    assert(after.tri_count == 5);
    let (o1, o2) = (Otri { tri: 1, orient: 1 }, Otri { tri: 1, orient: 2 });
    assert(after.nbr[o].tri == 0 && after.nbr[o1].tri == 0 && after.nbr[o2].tri == 0);
    assert(face_count(after, 5) == 1 && rim_count(after, 5) == 3) by {
        reveal_with_fuel(face_count, 6);
        reveal_with_fuel(rim_count, 6);
        assert(!is_face(after, 0) && !is_face(after, 2) && !is_face(after, 3) && !is_face(after, 4));
    }
    assert forall|p: Otri| #[trigger] is_live(after, p) implies is_side(after, p) && is_good_side(
        after,
        p,
    ) by {
        assert(p.tri == 1 || p.tri == 2 || p.tri == 3 || p.tri == 4);
        assert(p.tri == 1);
        assert(p == o || p == o1 || p == o2);
        orientation_turns(a, b, c);
    }
}

/// Two vertices become an edge and no triangle, and so do three on one line
/// become two edges.
pub proof fn vertices_on_a_line_make_edges(m: MeshView, ids: Seq<VertexId>, dwyer: bool)
    requires
        m.wf(),
        m.tri_count == 1,
        m.free_tris.len() == 0,
        2 <= ids.len() <= 3,
        forall|i: int| 0 <= i < ids.len() ==> m.has_vertex(#[trigger] ids[i]),
        ids.len() == 3 ==> orient(m.pos(ids[0]), m.pos(ids[1]), m.pos(ids[2])) == 0,
    ensures
        delaunay_built(m, ids, dwyer).1 == Ok::<u32, MeshFault>((2 * ids.len() - 2) as u32),
        is_delaunay_of(delaunay_built(m, ids, dwyer).0, ids, (2 * ids.len() - 2) as u32),
        forall|t: u32| !#[trigger] is_face(delaunay_built(m, ids, dwyer).0, t),
{
    reveal_with_fuel(triangulated, 1);
    reveal_with_fuel(ghosts_gone, 5);
    assert(0u8 & 2 == 0) by (bit_vector);
    assert(forall|f: u8| (#[trigger] (f | 2)) & 2 != 0) by (bit_vector);
    let after = delaunay_built(m, ids, dwyer).0;
    assert(after.vertices == m.vertices);
    assert forall|t: u32| !#[trigger] is_face(after, t) by {
        assert(t == 0 || t == 1 || t == 2 || t == 3 || t == 4 || t >= after.tri_count);
    }
    let (a, b) = (m.pos(ids[0]), m.pos(ids[1]));
    orientation_turns(a, b, a);
    orientation_turns(a, a, b);
    orientation_turns(a, b, b);
    orientation_turns(b, b, a);
    assert(on_one_line(after, ids));
    assert(face_count(after, after.tri_count) == 0) by {
        lemma_no_faces(after, after.tri_count);
    }
}

pub(crate) proof fn lemma_no_faces(m: MeshView, n: nat)
    requires
        forall|t: u32| !#[trigger] is_face(m, t),
    ensures
        face_count(m, n) == 0,
    decreases n,
{
    if n > 0 {
        lemma_no_faces(m, (n - 1) as nat);
        assert(!is_face(m, (n - 1) as u32));
    }
}

} // verus!
