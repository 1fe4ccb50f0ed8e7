//! Segment insertion: forcing the edges of a planar straight-line graph into
//! a triangulation.
//!
//! A walk over the mesh that the mesh's own links cannot carry on (a corner
//! without a vertex, a step off the boundary, a full pool, a walk that never
//! ends) stops with a [`MeshFault`].

use crate::coord::coord_equal;
use crate::empty_circle::{check_constrained_delaunay, is_constrained_delaunay};
use crate::flip::{flip, flipped};
use crate::mesh::{
    no_tri, CdtMesh, MeshView, Osub, Otri, VertexId, VertexSlot, DUMMY_SUB, DUMMY_TRI,
};
use crate::pslg::{Pslg, PslgSegment};
use crate::predicates::{in_circle, incircle, orient, orient2d, Vertex};
use crate::paving::{corners, is_used};
use crate::settle::settle_edges;
use crate::skeleton::{comes_of, is_planar, most_subsegs, thread_skeleton};
use crate::survey::{check_cdt, check_plane, check_tidy, is_cdt};
use crate::threading::{
    crosses_any, find_crossing, find_used, grows_along, has_marked, is_marked, is_old, is_part,
    is_sub, lemma_flipped_subs, spare, thread_segment,
};
use crate::trail::{does_lead, is_traced, lasting_goes_on, lasts, leads, tidy, traces_last};
use std::collections::HashMap;
use vstd::prelude::*;

verus! {

/// Why a walk over a mesh could not go on.
#[derive(Copy, Clone, Debug, PartialEq, Eq, Structural)]
pub enum MeshFault {
    /// A corner that the walk needs names no vertex.
    MissingVertex,
    /// The walk stepped off the boundary.
    OffBoundary,
    /// No slot is left for a new triangle or subsegment.
    Full,
    /// The walk did not come to an end.
    Stalled,
    /// The mesh does not hold together.
    Broken,
}

/// Failure of a segment insertion.
#[derive(Copy, Clone, Debug, PartialEq, Eq, Structural)]
pub enum SegmentInsertError {
    /// The segment would cross a constrained edge. It was not inserted, and the
    /// triangulation is as it was.
    SelfIntersection { endpoint1: VertexId, endpoint2: VertexId },
    /// The vertex is a corner of no live triangle.
    VertexNotInTriangulation { vertex: VertexId },
    /// The mesh is broken.
    Fault { fault: MeshFault },
}

/// Where a ray from a triangle's origin runs relative to that triangle.
#[derive(Copy, Clone, Debug, PartialEq, Eq, Structural)]
pub enum FindDirection {
    /// Strictly between the destination and the apex.
    Within,
    /// Along the edge to the apex.
    LeftCollinear,
    /// Along the edge to the destination.
    RightCollinear,
}

/// Steps allowed to a walk that has no bound of its own.
pub const STEP_LIMIT: u64 = 0xffff_ffff_ffff_ffff;

/// Whether two points are the same place.
pub open spec fn same_place(a: Vertex, b: Vertex) -> bool {
    a.vx() == b.vx() && a.vy() == b.vy()
}

/// Whether two points are the same place.
pub fn is_same_place(a: Vertex, b: Vertex) -> (r: bool)
    ensures
        r == same_place(a, b),
{
    coord_equal(a.x, b.x) && coord_equal(a.y, b.y)
}

/// The next edge counter-clockwise with the same origin.
pub open spec fn onext_of(m: MeshView, o: Otri) -> Otri {
    m.sym(o.prev())
}

/// The next edge clockwise with the same origin.
pub open spec fn oprev_of(m: MeshView, o: Otri) -> Otri {
    m.sym(o).next()
}

fn onext(m: &CdtMesh, o: Otri) -> (r: Otri)
    requires
        m@.wf(),
        m@.has(o),
    ensures
        r == onext_of(m@, o),
        m@.has(r),
{
    m.sym(o.lprev())
}

fn oprev(m: &CdtMesh, o: Otri) -> (r: Otri)
    requires
        m@.wf(),
        m@.has(o),
    ensures
        r == oprev_of(m@, o),
        m@.has(r),
{
    m.sym(o).lnext()
}

/// Whether `v` names a vertex of the mesh.
pub(crate) fn known(m: &CdtMesh, v: VertexId) -> (r: bool)
    ensures
        r == m@.has_vertex(v),
{
    (v.0 as usize) < m.vertex_count()
}

// --- Vertex map -------------------------------------------------------------

/// The mesh after the corners of triangle `t`, edges `k..3`, point back at it.
pub open spec fn corners_mapped(m: MeshView, t: u32, k: nat) -> MeshView
    decreases 3 - k,
{
    if k >= 3 {
        m
    } else {
        let o = Otri { tri: t, orient: k as u8 };
        let v = m.org(o);
        let w = if m.has_vertex(v) {
            let slot = m.vertices[v.0 as int];
            m.with_vertex_slot(
                v,
                VertexSlot { triangle: crate::mesh::EncodedTri((4 * t + k) as u32), ..slot },
            )
        } else {
            m
        };
        corners_mapped(w, t, k + 1)
    }
}

/// The mesh after every live triangle from slot `t` on is mapped.
pub open spec fn vertex_mapped(m: MeshView, t: nat) -> MeshView
    decreases m.tri_count - t,
    when t <= m.tri_count
    via vertex_mapped_ends
{
    if t >= m.tri_count {
        m
    } else if m.dead(t as u32) {
        vertex_mapped(m, t + 1)
    } else {
        vertex_mapped(corners_mapped(m, t as u32, 0), t + 1)
    }
}

#[via_fn]
proof fn vertex_mapped_ends(m: MeshView, t: nat) {
    lemma_corners_mapped_frame(m, t as u32, 0);
}

proof fn lemma_corners_mapped_frame(m: MeshView, t: u32, k: nat)
    ensures
        corners_mapped(m, t, k) == (MeshView {
            vertices: corners_mapped(m, t, k).vertices,
            ..m
        }),
        corners_mapped(m, t, k).vertices.len() == m.vertices.len(),
    decreases 3 - k,
{
    if k < 3 {
        let o = Otri { tri: t, orient: k as u8 };
        let v = m.org(o);
        if m.has_vertex(v) {
            let slot = m.vertices[v.0 as int];
            let w = m.with_vertex_slot(
                v,
                VertexSlot { triangle: crate::mesh::EncodedTri((4 * t + k) as u32), ..slot },
            );
            lemma_corners_mapped_frame(w, t, k + 1);
        } else {
            lemma_corners_mapped_frame(m, t, k + 1);
        }
    }
}

/// Store on every vertex a live triangle that has it as a corner.
pub fn make_vertex_map(mesh: &mut CdtMesh)
    requires
        old(mesh)@.wf(),
    ensures
        final(mesh)@ == vertex_mapped(old(mesh)@, 1),
        final(mesh)@.wf(),
        final(mesh)@ == (MeshView { vertices: final(mesh)@.vertices, ..old(mesh)@ }),
        final(mesh)@.vertices.len() == old(mesh)@.vertices.len(),
        same_frame(old(mesh)@, final(mesh)@),
{
    let n: usize = mesh.tri_slots();
    let mut t: usize = 1;
    while t < n
        invariant
            1 <= t <= n,
            n == mesh@.tri_count,
            n <= crate::mesh::TRI_LIMIT,
            mesh@.wf(),
            mesh@ == (MeshView { vertices: mesh@.vertices, ..old(mesh)@ }),
            mesh@.vertices.len() == old(mesh)@.vertices.len(),
            same_frame(old(mesh)@, mesh@),
            vertex_mapped(mesh@, t as nat) == vertex_mapped(old(mesh)@, 1),
        decreases n - t,
    {
        let ti: u32 = t as u32;
        if !mesh.is_dead(ti) {
            let ghost start = mesh@;
            let mut k: u8 = 0;
            while k < 3
                invariant
                    k <= 3,
                    0 < ti < mesh@.tri_count,
                    n == mesh@.tri_count,
                    n <= crate::mesh::TRI_LIMIT,
                    mesh@.wf(),
                    mesh@ == (MeshView { vertices: mesh@.vertices, ..start }),
                    mesh@.vertices.len() == start.vertices.len(),
                    same_frame(old(mesh)@, mesh@),
                    corners_mapped(mesh@, ti, k as nat) == corners_mapped(start, ti, 0),
                decreases 3 - k,
            {
                let handle = Otri::new(ti, k);
                let v = mesh.org(handle);
                if known(mesh, v) {
                    let mut slot = *mesh.vertex(v);
                    slot.triangle = handle.encode();
                    mesh.set_vertex(v, slot);
                }
                k += 1;
            }
        }
        t += 1;
    }
}

// --- Subsegments ------------------------------------------------------------

/// Whether a corner is unset or names a vertex.
pub open spec fn corner_ok(m: MeshView, v: VertexId) -> bool {
    v.valid() ==> m.has_vertex(v)
}

/// The mesh after an unmarked vertex takes a marker.
pub open spec fn vertex_promoted(m: MeshView, v: VertexId, marker: i32) -> MeshView {
    if v.valid() && m.vertices[v.0 as int].marker == 0 {
        m.with_vertex_slot(v, VertexSlot { marker, ..m.vertices[v.0 as int] })
    } else {
        m
    }
}

/// The mesh after edge `o` carries a subsegment marked `marker`: a new one
/// glued to both sides, or the one already there, marked if it was unmarked.
#[verifier::opaque]
pub open spec fn subseg_inserted(m: MeshView, o: Otri, marker: i32) -> (
    MeshView,
    Result<(), MeshFault>,
) {
    let (a, b) = (m.org(o), m.dest(o));
    if !corner_ok(m, a) || !corner_ok(m, b) {
        (m, Err(MeshFault::MissingVertex))
    } else {
        let p = vertex_promoted(vertex_promoted(m, a, marker), b, marker);
        let here = p.tsub[o];
        if here.sub == 0 {
            if !p.sub_room() {
                (p, Err(MeshFault::Full))
            } else {
                let s = Osub { sub: p.next_sub(), orient: 0 };
                let q = p.with_subseg().with_svert(s, b).with_svert(s.other(), a).with_segvert(
                    s,
                    b,
                ).with_segvert(s.other(), a).ts_bonded(o, s);
                (q.ts_bonded(q.sym(o), s.other()).with_smark(s.sub, marker), Ok(()))
            }
        } else if p.smark[here.sub as int] == 0 {
            (p.with_smark(here.sub, marker), Ok(()))
        } else {
            (p, Ok(()))
        }
    }
}

/// What segment insertion leaves alone: the triangle pool's size, the number
/// of vertices, and every vertex's place.
pub open spec fn same_frame(m: MeshView, w: MeshView) -> bool {
    &&& w.tri_count == m.tri_count
    &&& w.vertices.len() == m.vertices.len()
    &&& forall|i: int|
        0 <= i < m.vertices.len() ==> (#[trigger] w.vertices[i]).position == m.vertices[i].position
}

fn promote_vertex(mesh: &mut CdtMesh, v: VertexId, marker: i32)
    requires
        old(mesh)@.wf(),
        corner_ok(old(mesh)@, v),
    ensures
        final(mesh)@ == vertex_promoted(old(mesh)@, v, marker),
        final(mesh)@.wf(),
        same_frame(old(mesh)@, final(mesh)@),
        final(mesh)@ == (MeshView { vertices: final(mesh)@.vertices, ..old(mesh)@ }),
{
    if v.is_valid() {
        let mut slot = *mesh.vertex(v);
        if slot.marker == 0 {
            slot.marker = marker;
            proof {
                assert(old(mesh)@.has(old(mesh)@.vertices[v.0 as int].triangle.handle()));
            }
            mesh.set_vertex(v, slot);
        }
    }
}

/// Whether an edge carries a subsegment, a marked one unless `marker` is zero.
pub open spec fn is_constrained(m: MeshView, o: Otri, marker: i32) -> bool {
    &&& m.has(o)
    &&& m.tsub[o].sub != 0
    &&& marker != 0 ==> m.smark[m.tsub[o].sub as int] != 0
}

/// Whether an edge ends at the place of `v`.
pub open spec fn ends_at(m: MeshView, o: Otri, v: VertexId) -> bool {
    ||| m.has_vertex(m.org(o)) && same_place(m.pos(m.org(o)), m.pos(v))
    ||| m.has_vertex(m.dest(o)) && same_place(m.pos(m.dest(o)), m.pos(v))
}

proof fn lemma_new_subseg_lasts(m: MeshView, w: MeshView, s: u32)
    requires
        m.wf(),
        same_frame(m, w),
        m.sub_room(),
        s == m.next_sub(),
        w.sub_count == m.with_subseg().sub_count,
        w.sflags == m.with_subseg().sflags,
        w.free_subs == m.with_subseg().free_subs,
        forall|o: Osub| #[trigger] m.has_sub(o) && o.sub != s ==> w.svert[o] == m.svert[o],
    ensures
        lasts(m, w),
{
    if tidy(m) {
        let f = m.free_subs;
        assert forall|i: int| 0 <= i < w.free_subs.len() implies w.sub_dead(
            #[trigger] w.free_subs[i],
        ) by {
            assert(f[i] != f[f.len() - 1]);
            assert(m.sub_dead(f[i]));
        }
        assert forall|o: Osub| #[trigger] m.has_sub(o) && !m.sub_dead(o.sub) implies w.svert[o]
            == m.svert[o] && !w.sub_dead(o.sub) by {
            if f.len() > 0 {
                assert(m.sub_dead(f[f.len() - 1]));
            }
        }
    }
}

/// Put a subsegment on edge `tri`, or mark the one already there.
pub fn insert_subseg(mesh: &mut CdtMesh, tri: Otri, subsegmark: i32) -> (r: Result<
    (),
    MeshFault,
>)
    requires
        old(mesh)@.wf(),
        old(mesh)@.has(tri),
    ensures
        (final(mesh)@, r) == subseg_inserted(old(mesh)@, tri, subsegmark),
        final(mesh)@.wf(),
        same_frame(old(mesh)@, final(mesh)@),
        final(mesh)@.corner == old(mesh)@.corner,
        final(mesh)@.nbr == old(mesh)@.nbr,
        final(mesh)@.tflags == old(mesh)@.tflags,
        lasts(old(mesh)@, final(mesh)@),
        r is Ok ==> is_constrained(final(mesh)@, tri, subsegmark),
        forall|o: Otri| #[trigger]
            old(mesh)@.has(o) && old(mesh)@.tsub[o].sub != 0 ==> final(mesh)@.tsub[o].sub != 0,
{
    reveal(subseg_inserted);
    let triorg = mesh.org(tri);
    let tridest = mesh.dest(tri);
    if (triorg.is_valid() && !known(mesh, triorg)) || (tridest.is_valid() && !known(
        mesh,
        tridest,
    )) {
        return Err(MeshFault::MissingVertex);
    }
    promote_vertex(mesh, triorg, subsegmark);
    promote_vertex(mesh, tridest, subsegmark);
    let existing = mesh.tspivot(tri);
    if existing.sub == DUMMY_SUB {
        if !mesh.has_sub_room() {
            return Err(MeshFault::Full);
        }
        let s = mesh.make_subseg();
        mesh.set_sorg(s, tridest);
        mesh.set_sdest(s, triorg);
        mesh.set_segorg(s, tridest);
        mesh.set_segdest(s, triorg);
        mesh.tsbond(tri, s);
        let oppotri = mesh.sym(tri);
        mesh.tsbond(oppotri, s.ssym());
        mesh.set_sub_marker(s.sub, subsegmark);
        proof {
            lemma_new_subseg_lasts(old(mesh)@, mesh@, s.sub);
        }
    } else if mesh.sub_marker(existing.sub) == 0 {
        mesh.set_sub_marker(existing.sub, subsegmark);
    }
    Ok(())
}

// --- Direction search -------------------------------------------------------

/// Turning left about the origin until the apex is no longer to the right of
/// the ray: the edge reached and the signs at its apex and destination.
pub open spec fn turned_left(
    m: MeshView,
    o: Otri,
    from: Vertex,
    to: Vertex,
    left: int,
    right: int,
    fuel: nat,
) -> (Otri, Result<(int, int), MeshFault>)
    decreases fuel,
{
    if left <= 0 {
        (o, Ok((left, right)))
    } else if fuel == 0 {
        (o, Err(MeshFault::Stalled))
    } else {
        let n = onext_of(m, o);
        if n.tri == 0 {
            (n, Err(MeshFault::OffBoundary))
        } else if !m.has_vertex(m.apex(n)) {
            (n, Err(MeshFault::MissingVertex))
        } else {
            turned_left(
                m,
                n,
                from,
                to,
                orient(to, from, m.pos(m.apex(n))),
                left,
                (fuel - 1) as nat,
            )
        }
    }
}

/// Turning right about the origin until the destination is no longer to the
/// left of the ray.
pub open spec fn turned_right(
    m: MeshView,
    o: Otri,
    from: Vertex,
    to: Vertex,
    left: int,
    right: int,
    fuel: nat,
) -> (Otri, Result<(int, int), MeshFault>)
    decreases fuel,
{
    if right <= 0 {
        (o, Ok((left, right)))
    } else if fuel == 0 {
        (o, Err(MeshFault::Stalled))
    } else {
        let n = oprev_of(m, o);
        if n.tri == 0 {
            (n, Err(MeshFault::OffBoundary))
        } else if !m.has_vertex(m.dest(n)) {
            (n, Err(MeshFault::MissingVertex))
        } else {
            turned_right(
                m,
                n,
                from,
                to,
                right,
                orient(from, to, m.pos(m.dest(n))),
                (fuel - 1) as nat,
            )
        }
    }
}

/// Number of edges in the mesh: a turn about a vertex that takes more steps
/// comes back to an edge it has seen and never ends.
pub open spec fn turn_limit(m: MeshView) -> nat {
    3 * m.tri_count
}

/// The turn about the origin of `o` that brings the ray to `goal` within, or
/// along, a triangle.
#[verifier::opaque]
pub open spec fn direction_found(m: MeshView, o: Otri, goal: VertexId) -> (
    Otri,
    Result<FindDirection, MeshFault>,
) {
    let (sv, rv, lv) = (m.org(o), m.dest(o), m.apex(o));
    if !m.has_vertex(goal) || !m.has_vertex(sv) || !m.has_vertex(rv) || !m.has_vertex(lv) {
        (o, Err(MeshFault::MissingVertex))
    } else {
        let (from, to) = (m.pos(sv), m.pos(goal));
        let left = orient(to, from, m.pos(lv));
        let right = orient(from, to, m.pos(rv));
        let away = left > 0 && right > 0;
        let at_edge = onext_of(m, o).tri == 0;
        let turn_left = left > 0 && !(away && at_edge);
        let turn_right = right > 0 && !(away && !at_edge);
        let (o1, r1) = if turn_left {
            turned_left(m, o, from, to, left, right, turn_limit(m))
        } else {
            (o, Ok((left, right)))
        };
        match r1 {
            Err(e) => (o1, Err(e)),
            Ok((left1, right1)) => {
                let (o2, r2) = if turn_right {
                    turned_right(m, o1, from, to, left1, right1, turn_limit(m))
                } else {
                    (o1, Ok((left1, right1)))
                };
                match r2 {
                    Err(e) => (o2, Err(e)),
                    Ok((left2, right2)) => if left2 == 0 {
                        (o2, Ok(FindDirection::LeftCollinear))
                    } else if right2 == 0 {
                        (o2, Ok(FindDirection::RightCollinear))
                    } else {
                        (o2, Ok(FindDirection::Within))
                    },
                }
            },
        }
    }
}

/// Turn `searchtri` about its origin until the ray to `searchpoint` enters
/// the triangle or runs along one of the two edges at the origin.
pub fn find_direction(mesh: &CdtMesh, searchtri: &mut Otri, searchpoint: VertexId) -> (r: Result<
    FindDirection,
    MeshFault,
>)
    requires
        mesh@.wf(),
        mesh@.has(*old(searchtri)),
    ensures
        (*final(searchtri), r) == direction_found(mesh@, *old(searchtri), searchpoint),
        mesh@.has(*final(searchtri)),
        r is Ok ==> mesh@.has_vertex(searchpoint),
{
    reveal(direction_found);
    let startvertex = mesh.org(*searchtri);
    let rightvertex = mesh.dest(*searchtri);
    let leftvertex = mesh.apex(*searchtri);
    if !known(mesh, searchpoint) || !known(mesh, startvertex) || !known(mesh, rightvertex)
        || !known(mesh, leftvertex) {
        return Err(MeshFault::MissingVertex);
    }
    let sp = mesh.vertex_pos(searchpoint);
    let sv = mesh.vertex_pos(startvertex);
    let mut leftccw: i32 = orient2d(sp, sv, mesh.vertex_pos(leftvertex));
    let mut rightccw: i32 = orient2d(sv, sp, mesh.vertex_pos(rightvertex));
    let mut leftflag: bool = leftccw > 0;
    let mut rightflag: bool = rightccw > 0;
    if leftflag && rightflag {
        let checktri = onext(mesh, *searchtri);
        if checktri.tri == DUMMY_TRI {
            leftflag = false;
        } else {
            rightflag = false;
        }
    }
    let limit: u64 = 3 * mesh.tri_slots() as u64;
    let ghost (o0, l0, r0) = (*searchtri, leftccw as int, rightccw as int);
    if leftflag {
        let mut fuel: u64 = limit;
        while leftccw > 0
            invariant
                mesh@.wf(),
                mesh@.has(*searchtri),
                turned_left(
                    mesh@,
                    *searchtri,
                    sv,
                    sp,
                    leftccw as int,
                    rightccw as int,
                    fuel as nat,
                ) == turned_left(mesh@, o0, sv, sp, l0, r0, limit as nat),
                limit == turn_limit(mesh@),
                o0 == *old(searchtri),
                direction_found(mesh@, *old(searchtri), searchpoint) == (
                    match turned_left(mesh@, o0, sv, sp, l0, r0, limit as nat) {
                        (o1, Err(e)) => (o1, Err(e)),
                        _ => direction_found(mesh@, *old(searchtri), searchpoint),
                    }
                ),
            decreases fuel,
        {
            if fuel == 0 {
                return Err(MeshFault::Stalled);
            }
            fuel -= 1;
            *searchtri = onext(mesh, *searchtri);
            if searchtri.tri == DUMMY_TRI {
                return Err(MeshFault::OffBoundary);
            }
            let lv = mesh.apex(*searchtri);
            if !known(mesh, lv) {
                return Err(MeshFault::MissingVertex);
            }
            rightccw = leftccw;
            leftccw = orient2d(sp, sv, mesh.vertex_pos(lv));
        }
    }
    let ghost (o1, l1, r1) = (*searchtri, leftccw as int, rightccw as int);
    if rightflag {
        let mut fuel: u64 = limit;
        while rightccw > 0
            invariant
                mesh@.wf(),
                mesh@.has(*searchtri),
                turned_right(
                    mesh@,
                    *searchtri,
                    sv,
                    sp,
                    leftccw as int,
                    rightccw as int,
                    fuel as nat,
                ) == turned_right(mesh@, o1, sv, sp, l1, r1, limit as nat),
                limit == turn_limit(mesh@),
                direction_found(mesh@, *old(searchtri), searchpoint) == (
                    match turned_right(mesh@, o1, sv, sp, l1, r1, limit as nat) {
                        (o2, Err(e)) => (o2, Err(e)),
                        _ => direction_found(mesh@, *old(searchtri), searchpoint),
                    }
                ),
            decreases fuel,
        {
            if fuel == 0 {
                return Err(MeshFault::Stalled);
            }
            fuel -= 1;
            *searchtri = oprev(mesh, *searchtri);
            if searchtri.tri == DUMMY_TRI {
                return Err(MeshFault::OffBoundary);
            }
            let rv = mesh.dest(*searchtri);
            if !known(mesh, rv) {
                return Err(MeshFault::MissingVertex);
            }
            leftccw = rightccw;
            rightccw = orient2d(sv, sp, mesh.vertex_pos(rv));
        }
    }
    if leftccw == 0 {
        Ok(FindDirection::LeftCollinear)
    } else if rightccw == 0 {
        Ok(FindDirection::RightCollinear)
    } else {
        Ok(FindDirection::Within)
    }
}

// --- Marching toward the endpoint -------------------------------------------

/// What scouting toward `goal` does: constrain the edges that already lie on
/// the segment, and say whether they reach `goal`.
#[verifier::opaque]
pub open spec fn scouted(m: MeshView, o: Otri, goal: VertexId, marker: i32, fuel: nat) -> (
    MeshView,
    Otri,
    Result<bool, SegmentInsertError>,
)
    decreases fuel,
{
    let (o1, found) = direction_found(m, o, goal);
    match found {
        Err(fault) => (m, o1, Err(SegmentInsertError::Fault { fault })),
        Ok(direction) => {
            let (rv, lv) = (m.dest(o1), m.apex(o1));
            if !m.has_vertex(rv) || !m.has_vertex(lv) {
                (m, o1, Err(SegmentInsertError::Fault { fault: MeshFault::MissingVertex }))
            } else {
                let at_left = same_place(m.pos(lv), m.pos(goal));
                let at_right = same_place(m.pos(rv), m.pos(goal));
                if at_left || at_right || !(direction is Within) {
                    let left = if at_left || at_right {
                        at_left
                    } else {
                        direction is LeftCollinear
                    };
                    let edge = if left {
                        o1.prev()
                    } else {
                        o1
                    };
                    let (m2, inserted) = subseg_inserted(m, edge, marker);
                    match inserted {
                        Err(fault) => (m2, edge, Err(SegmentInsertError::Fault { fault })),
                        Ok(_) => if at_left || at_right {
                            (m2, edge, Ok(true))
                        } else if fuel == 0 {
                            (
                                m2,
                                edge,
                                Err(SegmentInsertError::Fault { fault: MeshFault::Stalled }),
                            )
                        } else {
                            scouted(
                                m2,
                                if left {
                                    edge
                                } else {
                                    edge.next()
                                },
                                goal,
                                marker,
                                (fuel - 1) as nat,
                            )
                        },
                    }
                } else if m.tsub[o1.next()].sub == 0 {
                    (m, o1, Ok(false))
                } else {
                    (
                        m,
                        o1,
                        Err(
                            SegmentInsertError::SelfIntersection {
                                endpoint1: m.org(o),
                                endpoint2: goal,
                            },
                        ),
                    )
                }
            }
        },
    }
}

/// The subsegments on the edges that scouting constrains, in the order in
/// which it comes by them.
#[verifier::opaque]
pub open spec fn scout_trail(m: MeshView, o: Otri, goal: VertexId, marker: i32, fuel: nat) -> Seq<
    u32,
>
    decreases fuel,
{
    let (o1, found) = direction_found(m, o, goal);
    match found {
        Err(_) => Seq::empty(),
        Ok(direction) => {
            let (rv, lv) = (m.dest(o1), m.apex(o1));
            let at_left = same_place(m.pos(lv), m.pos(goal));
            let at_right = same_place(m.pos(rv), m.pos(goal));
            let arrived = at_left || at_right;
            if !m.has_vertex(rv) || !m.has_vertex(lv) || (!arrived && direction is Within) {
                Seq::empty()
            } else {
                let left = if arrived {
                    at_left
                } else {
                    direction is LeftCollinear
                };
                let edge = if left {
                    o1.prev()
                } else {
                    o1
                };
                let (m2, inserted) = subseg_inserted(m, edge, marker);
                if inserted is Err {
                    Seq::empty()
                } else if arrived || fuel == 0 {
                    seq![m2.tsub[edge].sub]
                } else {
                    seq![m2.tsub[edge].sub] + scout_trail(
                        m2,
                        if left {
                            edge
                        } else {
                            edge.next()
                        },
                        goal,
                        marker,
                        (fuel - 1) as nat,
                    )
                }
            }
        },
    }
}

fn scout_limited(
    mesh: &mut CdtMesh,
    searchtri: &mut Otri,
    endpoint2: VertexId,
    newmark: i32,
    trail: &mut Vec<u32>,
    fuel: u64,
) -> (r: Result<bool, SegmentInsertError>)
    requires
        old(mesh)@.wf(),
        old(mesh)@.has(*old(searchtri)),
    ensures
        (final(mesh)@, *final(searchtri), r) == scouted(
            old(mesh)@,
            *old(searchtri),
            endpoint2,
            newmark,
            fuel as nat,
        ),
        final(mesh)@.wf(),
        final(mesh)@.has(*final(searchtri)),
        same_frame(old(mesh)@, final(mesh)@),
        lasts(old(mesh)@, final(mesh)@),
        final(trail)@ == old(trail)@ + scout_trail(
            old(mesh)@,
            *old(searchtri),
            endpoint2,
            newmark,
            fuel as nat,
        ),
        r == Ok::<bool, SegmentInsertError>(true) ==> is_constrained(
            final(mesh)@,
            *final(searchtri),
            newmark,
        ) && ends_at(final(mesh)@, *final(searchtri), endpoint2),
    decreases fuel,
{
    reveal(scouted);
    reveal(scout_trail);
    let ghost before = (mesh@, trail@);
    assert(trail@ + Seq::<u32>::empty() =~= trail@);
    let endpoint1 = mesh.org(*searchtri);
    let found = find_direction(mesh, searchtri, endpoint2);
    let direction = match found {
        Err(fault) => return Err(SegmentInsertError::Fault { fault }),
        Ok(d) => d,
    };
    let rightvertex = mesh.dest(*searchtri);
    let leftvertex = mesh.apex(*searchtri);
    if !known(mesh, rightvertex) || !known(mesh, leftvertex) {
        return Err(SegmentInsertError::Fault { fault: MeshFault::MissingVertex });
    }
    let goal = mesh.vertex_pos(endpoint2);
    let at_left: bool = is_same_place(mesh.vertex_pos(leftvertex), goal);
    let at_right: bool = is_same_place(mesh.vertex_pos(rightvertex), goal);
    if at_left || at_right {
        if at_left {
            *searchtri = searchtri.lprev();
        }
        let inserted = insert_subseg(mesh, *searchtri, newmark);
        return match inserted {
            Err(fault) => Err(SegmentInsertError::Fault { fault }),
            Ok(_) => {
                trail.push(mesh.tspivot(*searchtri).sub);
                assert(trail@ =~= before.1 + seq![mesh@.tsub[*searchtri].sub]);
                Ok(true)
            },
        };
    }
    match direction {
        FindDirection::LeftCollinear => {
            *searchtri = searchtri.lprev();
            let inserted = insert_subseg(mesh, *searchtri, newmark);
            if let Err(fault) = inserted {
                return Err(SegmentInsertError::Fault { fault });
            }
            trail.push(mesh.tspivot(*searchtri).sub);
            let ghost one = seq![mesh@.tsub[*searchtri].sub];
            let ghost middle = mesh@;
            assert(trail@ =~= before.1 + one);
            if fuel == 0 {
                return Err(SegmentInsertError::Fault { fault: MeshFault::Stalled });
            }
            let ghost start = *searchtri;
            let r = scout_limited(mesh, searchtri, endpoint2, newmark, trail, fuel - 1);
            proof {
                lasting_goes_on(before.0, middle, mesh@);
                let rest = scout_trail(middle, start, endpoint2, newmark, (fuel - 1) as nat);
                assert(before.1 + one + rest =~= before.1 + (one + rest));
            }
            r
        },
        FindDirection::RightCollinear => {
            let inserted = insert_subseg(mesh, *searchtri, newmark);
            if let Err(fault) = inserted {
                return Err(SegmentInsertError::Fault { fault });
            }
            trail.push(mesh.tspivot(*searchtri).sub);
            let ghost one = seq![mesh@.tsub[*searchtri].sub];
            let ghost middle = mesh@;
            assert(trail@ =~= before.1 + one);
            if fuel == 0 {
                return Err(SegmentInsertError::Fault { fault: MeshFault::Stalled });
            }
            *searchtri = searchtri.lnext();
            let ghost start = *searchtri;
            let r = scout_limited(mesh, searchtri, endpoint2, newmark, trail, fuel - 1);
            proof {
                lasting_goes_on(before.0, middle, mesh@);
                let rest = scout_trail(middle, start, endpoint2, newmark, (fuel - 1) as nat);
                assert(before.1 + one + rest =~= before.1 + (one + rest));
            }
            r
        },
        FindDirection::Within => {
            let cross = mesh.tspivot(searchtri.lnext());
            if cross.sub == DUMMY_SUB {
                Ok(false)
            } else {
                Err(SegmentInsertError::SelfIntersection { endpoint1, endpoint2 })
            }
        },
    }
}

/// Scouting that leaves the mesh as it was where it fails.
pub open spec fn scouted_or_kept(m: MeshView, o: Otri, goal: VertexId, marker: i32) -> (
    MeshView,
    Otri,
    Result<bool, SegmentInsertError>,
) {
    let (w, o1, r) = scouted(m, o, goal, marker, STEP_LIMIT as nat);
    if r is Err {
        (m, o, r)
    } else {
        (w, o1, r)
    }
}

/// March from the origin of `searchtri` toward `endpoint2` along existing
/// edges. `Ok(true)`: the whole segment is in place. `Ok(false)`: `searchtri`
/// is where [`constrained_edge`] has to dig. `Err`: nothing has changed.
pub fn scout_segment(
    mesh: &mut CdtMesh,
    searchtri: &mut Otri,
    endpoint2: VertexId,
    newmark: i32,
) -> (r: Result<bool, SegmentInsertError>)
    requires
        old(mesh)@.wf(),
        old(mesh)@.has(*old(searchtri)),
    ensures
        (final(mesh)@, *final(searchtri), r) == scouted_or_kept(
            old(mesh)@,
            *old(searchtri),
            endpoint2,
            newmark,
        ),
        final(mesh)@.wf(),
        final(mesh)@.has(*final(searchtri)),
        same_frame(old(mesh)@, final(mesh)@),
        lasts(old(mesh)@, final(mesh)@),
        r == Ok::<bool, SegmentInsertError>(true) ==> is_constrained(
            final(mesh)@,
            *final(searchtri),
            newmark,
        ) && ends_at(final(mesh)@, *final(searchtri), endpoint2),
        r is Err ==> final(mesh)@ == old(mesh)@ && *final(searchtri) == *old(searchtri),
{
    let saved = mesh.copied();
    let start = *searchtri;
    let mut trail: Vec<u32> = Vec::new();
    let r = scout_limited(mesh, searchtri, endpoint2, newmark, &mut trail, STEP_LIMIT);
    if r.is_err() {
        *mesh = saved;
        *searchtri = start;
    }
    r
}

// --- Restoring the Delaunay condition ---------------------------------------

/// Whether the edge opposite the origin of `t` has to be flipped: it can be
/// (no boundary, no subsegment, no reflex corner on this side) and the
/// triangle beyond is inverted or breaks the in-circle condition.
pub open spec fn needs_flip(m: MeshView, t: Otri, leftside: bool) -> Result<bool, MeshFault> {
    let near = t.next();
    let far = m.sym(near);
    if far.tri == 0 || m.tsub[near].sub != 0 {
        Ok(false)
    } else {
        let (nv, lv, rv, fv) = (m.apex(near), m.org(near), m.dest(near), m.apex(far));
        if !m.has_vertex(nv) || !m.has_vertex(lv) || !m.has_vertex(rv) || !m.has_vertex(fv) {
            Err(MeshFault::MissingVertex)
        } else {
            let (n, l, r, f) = (m.pos(nv), m.pos(lv), m.pos(rv), m.pos(fv));
            let convex = if leftside {
                orient(n, l, f) > 0
            } else {
                orient(f, r, n) > 0
            };
            let inverted = orient(r, l, f) <= 0;
            Ok(convex && (inverted || in_circle(l, f, r, n) > 0))
        }
    }
}

/// The mesh after flipping, from the edge opposite the origin of `t` outward,
/// every edge that needs it.
#[verifier::opaque]
pub open spec fn fixed_up(m: MeshView, t: Otri, leftside: bool, fuel: nat) -> (
    MeshView,
    Otri,
    Result<(), MeshFault>,
)
    decreases fuel,
{
    match needs_flip(m, t, leftside) {
        Err(e) => (m, t, Err(e)),
        Ok(flips) => if !flips {
            (m, t, Ok(()))
        } else if fuel == 0 {
            (m, t, Err(MeshFault::Stalled))
        } else {
            let far = m.sym(t.next());
            let (m1, t1, r1) = fixed_up(
                flipped(m, t.next()),
                t.prev(),
                leftside,
                (fuel - 1) as nat,
            );
            if r1 is Err {
                (m1, t1, r1)
            } else {
                let (m2, _, r2) = fixed_up(m1, far, leftside, (fuel - 1) as nat);
                (m2, t1, r2)
            }
        },
    }
}

/// Whether two meshes have the same subsegments with the same ends.
pub open spec fn same_subsegs(m: MeshView, w: MeshView) -> bool {
    &&& w.sub_count == m.sub_count
    &&& w.svert == m.svert
    &&& w.sflags == m.sflags
    &&& w.free_subs == m.free_subs
}

fn decide_flip(mesh: &CdtMesh, t: Otri, leftside: bool) -> (r: Result<bool, MeshFault>)
    requires
        mesh@.wf(),
        mesh@.has(t),
    ensures
        r == needs_flip(mesh@, t, leftside),
        r matches Ok(true) ==> mesh@.sym(t.next()).tri != 0,
{
    let near = t.lnext();
    let far = mesh.sym(near);
    if far.tri == DUMMY_TRI || mesh.tspivot(near).sub != DUMMY_SUB {
        return Ok(false);
    }
    let nv = mesh.apex(near);
    let lv = mesh.org(near);
    let rv = mesh.dest(near);
    let fv = mesh.apex(far);
    if !known(mesh, nv) || !known(mesh, lv) || !known(mesh, rv) || !known(mesh, fv) {
        return Err(MeshFault::MissingVertex);
    }
    let n = mesh.vertex_pos(nv);
    let l = mesh.vertex_pos(lv);
    let rp = mesh.vertex_pos(rv);
    let f = mesh.vertex_pos(fv);
    if leftside {
        if orient2d(n, l, f) <= 0 {
            return Ok(false);
        }
    } else if orient2d(f, rp, n) <= 0 {
        return Ok(false);
    }
    if orient2d(rp, l, f) > 0 {
        if incircle(l, f, rp, n) <= 0 {
            return Ok(false);
        }
    }
    Ok(true)
}

fn fixup_limited(mesh: &mut CdtMesh, fixuptri: &mut Otri, leftside: bool, fuel: u64) -> (r: Result<
    (),
    MeshFault,
>)
    requires
        old(mesh)@.wf(),
        old(mesh)@.has(*old(fixuptri)),
    ensures
        (final(mesh)@, *final(fixuptri), r) == fixed_up(
            old(mesh)@,
            *old(fixuptri),
            leftside,
            fuel as nat,
        ),
        final(mesh)@.wf(),
        final(mesh)@.has(*final(fixuptri)),
        final(mesh)@.tri_count == old(mesh)@.tri_count,
        final(mesh)@.vertices == old(mesh)@.vertices,
        same_subsegs(old(mesh)@, final(mesh)@),
    decreases fuel,
{
    reveal(fixed_up);
    let decision = decide_flip(mesh, *fixuptri, leftside);
    let flips: bool = match decision {
        Err(e) => return Err(e),
        Ok(b) => b,
    };
    if !flips {
        return Ok(());
    }
    if fuel == 0 {
        return Err(MeshFault::Stalled);
    }
    let mut neartri = fixuptri.lnext();
    let mut fartri = mesh.sym(neartri);
    flip(mesh, &mut neartri);
    *fixuptri = fixuptri.lprev();
    let first = fixup_limited(mesh, fixuptri, leftside, fuel - 1);
    if let Err(e) = first {
        return Err(e);
    }
    fixup_limited(mesh, &mut fartri, leftside, fuel - 1)
}

/// Flip edges until the fan about the origin of `fixuptri` is locally
/// Delaunay again on the given side.
pub fn delaunay_fixup(mesh: &mut CdtMesh, fixuptri: &mut Otri, leftside: bool) -> (r: Result<
    (),
    MeshFault,
>)
    requires
        old(mesh)@.wf(),
        old(mesh)@.has(*old(fixuptri)),
    ensures
        (final(mesh)@, *final(fixuptri), r) == fixed_up(
            old(mesh)@,
            *old(fixuptri),
            leftside,
            STEP_LIMIT as nat,
        ),
        final(mesh)@.wf(),
        final(mesh)@.has(*final(fixuptri)),
        final(mesh)@.tri_count == old(mesh)@.tri_count,
        final(mesh)@.vertices == old(mesh)@.vertices,
        same_subsegs(old(mesh)@, final(mesh)@),
{
    fixup_limited(mesh, fixuptri, leftside, STEP_LIMIT)
}

/// Repairing both sides of a finished edge.
pub open spec fn both_sides_fixed(m: MeshView, o: Otri) -> (MeshView, Otri, Result<(), MeshFault>) {
    let other = oprev_of(m, o);
    let (m1, o1, r1) = fixed_up(m, o, false, STEP_LIMIT as nat);
    if r1 is Err {
        (m1, o1, r1)
    } else {
        let (m2, _, r2) = fixed_up(m1, other, true, STEP_LIMIT as nat);
        (m2, o1, r2)
    }
}

/// One step past a far vertex off the segment: repair the side that the
/// vertex is on and move to the next edge that the segment crosses.
pub open spec fn side_fixed(m: MeshView, o: Otri, on_left: bool) -> (
    MeshView,
    Otri,
    Result<(), MeshFault>,
) {
    if on_left {
        let (m1, _, r1) = fixed_up(m, oprev_of(m, o), true, STEP_LIMIT as nat);
        (
            m1,
            if r1 is Err {
                o
            } else {
                o.prev()
            },
            r1,
        )
    } else {
        let (m1, o1, r1) = fixed_up(m, o, false, STEP_LIMIT as nat);
        (
            m1,
            if r1 is Err {
                o1
            } else {
                oprev_of(m1, o1)
            },
            r1,
        )
    }
}

/// Digging the segment from `from` to `to` through the mesh by flips. `Ok`
/// says whether it stopped at a vertex short of `to`.
#[verifier::opaque]
pub open spec fn dug(m: MeshView, o: Otri, a: VertexId, b: VertexId, fuel: nat) -> (
    MeshView,
    Otri,
    Result<bool, SegmentInsertError>,
)
    decreases fuel,
{
    let far = m.org(o);
    if !m.has_vertex(far) {
        (m, o, Err(SegmentInsertError::Fault { fault: MeshFault::MissingVertex }))
    } else {
        let (from, to, f) = (m.pos(a), m.pos(b), m.pos(far));
        let arrived = same_place(f, to);
        let area = orient(from, to, f);
        if arrived || area == 0 {
            let (m1, o1, r1) = both_sides_fixed(m, o);
            match r1 {
                Err(fault) => (m1, o1, Err(SegmentInsertError::Fault { fault })),
                Ok(_) => (m1, o1, Ok(!arrived)),
            }
        } else {
            let (m1, o1, r1) = side_fixed(m, o, area > 0);
            match r1 {
                Err(fault) => (m1, o1, Err(SegmentInsertError::Fault { fault })),
                Ok(_) => if m1.tsub[o1].sub != 0 {
                    (m1, o1, Err(SegmentInsertError::SelfIntersection { endpoint1: a, endpoint2: b }))
                } else if m1.sym(o1) == no_tri() {
                    (m1, o1, Err(SegmentInsertError::Fault { fault: MeshFault::OffBoundary }))
                } else if fuel == 0 {
                    (m1, o1, Err(SegmentInsertError::Fault { fault: MeshFault::Stalled }))
                } else {
                    dug(flipped(m1, o1), o1, a, b, (fuel - 1) as nat)
                },
            }
        }
    }
}

fn fix_both_sides(mesh: &mut CdtMesh, o: &mut Otri) -> (r: Result<(), MeshFault>)
    requires
        old(mesh)@.wf(),
        old(mesh)@.has(*old(o)),
    ensures
        (final(mesh)@, *final(o), r) == both_sides_fixed(old(mesh)@, *old(o)),
        final(mesh)@.wf(),
        final(mesh)@.has(*final(o)),
        final(mesh)@.tri_count == old(mesh)@.tri_count,
        final(mesh)@.vertices == old(mesh)@.vertices,
        same_subsegs(old(mesh)@, final(mesh)@),
{
    let mut other = oprev(mesh, *o);
    let first = delaunay_fixup(mesh, o, false);
    if let Err(e) = first {
        return Err(e);
    }
    delaunay_fixup(mesh, &mut other, true)
}

fn fix_side(mesh: &mut CdtMesh, o: &mut Otri, on_left: bool) -> (r: Result<(), MeshFault>)
    requires
        old(mesh)@.wf(),
        old(mesh)@.has(*old(o)),
    ensures
        (final(mesh)@, *final(o), r) == side_fixed(old(mesh)@, *old(o), on_left),
        final(mesh)@.wf(),
        final(mesh)@.has(*final(o)),
        final(mesh)@.tri_count == old(mesh)@.tri_count,
        final(mesh)@.vertices == old(mesh)@.vertices,
        same_subsegs(old(mesh)@, final(mesh)@),
{
    if on_left {
        let mut other = oprev(mesh, *o);
        let first = delaunay_fixup(mesh, &mut other, true);
        if first.is_ok() {
            *o = o.lprev();
        }
        first
    } else {
        let first = delaunay_fixup(mesh, o, false);
        if first.is_ok() {
            *o = oprev(mesh, *o);
        }
        first
    }
}

fn dig(mesh: &mut CdtMesh, fixuptri: &mut Otri, a: VertexId, b: VertexId) -> (r: Result<
    bool,
    SegmentInsertError,
>)
    requires
        old(mesh)@.wf(),
        old(mesh)@.has(*old(fixuptri)),
        old(mesh)@.has_vertex(a),
        old(mesh)@.has_vertex(b),
    ensures
        (final(mesh)@, *final(fixuptri), r) == dug(
            old(mesh)@,
            *old(fixuptri),
            a,
            b,
            STEP_LIMIT as nat,
        ),
        final(mesh)@.wf(),
        final(mesh)@.has(*final(fixuptri)),
        final(mesh)@.tri_count == old(mesh)@.tri_count,
        final(mesh)@.vertices == old(mesh)@.vertices,
        same_subsegs(old(mesh)@, final(mesh)@),
{
    reveal(dug);
    let from = mesh.vertex_pos(a);
    let to = mesh.vertex_pos(b);
    let mut fuel: u64 = STEP_LIMIT;
    loop
        invariant
            mesh@.wf(),
            mesh@.has(*fixuptri),
            mesh@.has_vertex(a),
            mesh@.has_vertex(b),
            from == mesh@.pos(a),
            to == mesh@.pos(b),
            mesh@.tri_count == old(mesh)@.tri_count,
            mesh@.vertices == old(mesh)@.vertices,
            same_subsegs(old(mesh)@, mesh@),
            dug(mesh@, *fixuptri, a, b, fuel as nat) == dug(
                old(mesh)@,
                *old(fixuptri),
                a,
                b,
                STEP_LIMIT as nat,
            ),
        decreases fuel,
    {
        reveal(dug);
        let farvertex = mesh.org(*fixuptri);
        if !known(mesh, farvertex) {
            return Err(SegmentInsertError::Fault { fault: MeshFault::MissingVertex });
        }
        let f = mesh.vertex_pos(farvertex);
        let arrived: bool = is_same_place(f, to);
        let area: i32 = orient2d(from, to, f);
        if arrived || area == 0 {
            let fixed = fix_both_sides(mesh, fixuptri);
            return match fixed {
                Err(fault) => Err(SegmentInsertError::Fault { fault }),
                Ok(_) => Ok(!arrived),
            };
        }
        let fixed = fix_side(mesh, fixuptri, area > 0);
        if let Err(fault) = fixed {
            return Err(SegmentInsertError::Fault { fault });
        }
        if mesh.tspivot(*fixuptri).sub != DUMMY_SUB {
            return Err(SegmentInsertError::SelfIntersection { endpoint1: a, endpoint2: b });
        }
        if mesh.sym(*fixuptri) == Otri::dummy() {
            return Err(SegmentInsertError::Fault { fault: MeshFault::OffBoundary });
        }
        if fuel == 0 {
            return Err(SegmentInsertError::Fault { fault: MeshFault::Stalled });
        }
        flip(mesh, fixuptri);
        fuel -= 1;
    }
}

/// Forcing the segment from the origin of `start` to `goal`: dig, constrain
/// the edge reached, and where a vertex on the way stopped the digging, go on
/// from there.
#[verifier::opaque]
pub open spec fn edge_constrained(
    m: MeshView,
    start: Otri,
    goal: VertexId,
    marker: i32,
    fuel: nat,
) -> (MeshView, Result<(), SegmentInsertError>)
    decreases fuel,
{
    let a = m.org(start);
    let o = start.next();
    if !m.has_vertex(a) || !m.has_vertex(goal) {
        (m, Err(SegmentInsertError::Fault { fault: MeshFault::MissingVertex }))
    } else if m.sym(o) == no_tri() {
        (m, Err(SegmentInsertError::Fault { fault: MeshFault::OffBoundary }))
    } else {
        let (m1, o1, r1) = dug(flipped(m, o), o, a, goal, STEP_LIMIT as nat);
        match r1 {
            Err(e) => (m1, Err(e)),
            Ok(short) => {
                let (m2, r2) = subseg_inserted(m1, o1, marker);
                match r2 {
                    Err(fault) => (m2, Err(SegmentInsertError::Fault { fault })),
                    Ok(_) => if !short {
                        (m2, Ok(()))
                    } else {
                        let (m3, o3, r3) = scouted(m2, o1, goal, marker, STEP_LIMIT as nat);
                        match r3 {
                            Err(e) => (m3, Err(e)),
                            Ok(true) => (m3, Ok(())),
                            Ok(false) => if fuel == 0 {
                                (
                                    m3,
                                    Err(SegmentInsertError::Fault { fault: MeshFault::Stalled }),
                                )
                            } else {
                                edge_constrained(m3, o3, goal, marker, (fuel - 1) as nat)
                            },
                        }
                    },
                }
            },
        }
    }
}

/// The subsegments on the edges that digging constrains, in order.
#[verifier::opaque]
pub open spec fn edge_trail(
    m: MeshView,
    start: Otri,
    goal: VertexId,
    marker: i32,
    fuel: nat,
) -> Seq<u32>
    decreases fuel,
{
    let a = m.org(start);
    let o = start.next();
    if !m.has_vertex(a) || !m.has_vertex(goal) || m.sym(o) == no_tri() {
        Seq::empty()
    } else {
        let (m1, o1, r1) = dug(flipped(m, o), o, a, goal, STEP_LIMIT as nat);
        let (m2, r2) = subseg_inserted(m1, o1, marker);
        if r1 is Err || r2 is Err {
            Seq::empty()
        } else if r1 == Ok::<bool, SegmentInsertError>(false) {
            seq![m2.tsub[o1].sub]
        } else {
            let (m3, o3, r3) = scouted(m2, o1, goal, marker, STEP_LIMIT as nat);
            let so_far = seq![m2.tsub[o1].sub] + scout_trail(
                m2,
                o1,
                goal,
                marker,
                STEP_LIMIT as nat,
            );
            if r3 == Ok::<bool, SegmentInsertError>(false) && fuel > 0 {
                so_far + edge_trail(m3, o3, goal, marker, (fuel - 1) as nat)
            } else {
                so_far
            }
        }
    }
}

fn constrain_limited(
    mesh: &mut CdtMesh,
    starttri: Otri,
    endpoint2: VertexId,
    newmark: i32,
    trail: &mut Vec<u32>,
    fuel: u64,
) -> (r: Result<(), SegmentInsertError>)
    requires
        old(mesh)@.wf(),
        old(mesh)@.has(starttri),
    ensures
        (final(mesh)@, r) == edge_constrained(
            old(mesh)@,
            starttri,
            endpoint2,
            newmark,
            fuel as nat,
        ),
        final(mesh)@.wf(),
        same_frame(old(mesh)@, final(mesh)@),
        lasts(old(mesh)@, final(mesh)@),
        final(trail)@ == old(trail)@ + edge_trail(
            old(mesh)@,
            starttri,
            endpoint2,
            newmark,
            fuel as nat,
        ),
        r is Ok ==> exists|e: Otri| #[trigger] is_constrained(final(mesh)@, e, newmark),
    decreases fuel,
{
    reveal(edge_constrained);
    reveal(edge_trail);
    let ghost before = (mesh@, trail@);
    assert(trail@ + Seq::<u32>::empty() =~= trail@);
    let endpoint1 = mesh.org(starttri);
    if !known(mesh, endpoint1) || !known(mesh, endpoint2) {
        return Err(SegmentInsertError::Fault { fault: MeshFault::MissingVertex });
    }
    let mut fixuptri = starttri.lnext();
    if mesh.sym(fixuptri) == Otri::dummy() {
        return Err(SegmentInsertError::Fault { fault: MeshFault::OffBoundary });
    }
    flip(mesh, &mut fixuptri);
    let done = dig(mesh, &mut fixuptri, endpoint1, endpoint2);
    let collision: bool = match done {
        Err(e) => return Err(e),
        Ok(c) => c,
    };
    let ghost dug_mesh = mesh@;
    let inserted = insert_subseg(mesh, fixuptri, newmark);
    proof {
        lasting_goes_on(before.0, dug_mesh, mesh@);
    }
    if let Err(fault) = inserted {
        return Err(SegmentInsertError::Fault { fault });
    }
    trail.push(mesh.tspivot(fixuptri).sub);
    let ghost one = seq![mesh@.tsub[fixuptri].sub];
    assert(trail@ =~= before.1 + one);
    if collision {
        let ghost m2 = mesh@;
        let ghost o2 = fixuptri;
        let scout = scout_limited(mesh, &mut fixuptri, endpoint2, newmark, trail, STEP_LIMIT);
        let ghost scouting = scout_trail(m2, o2, endpoint2, newmark, STEP_LIMIT as nat);
        let ghost m3 = mesh@;
        proof {
            lasting_goes_on(before.0, m2, m3);
            assert(before.1 + one + scouting =~= before.1 + (one + scouting));
        }
        let complete: bool = match scout {
            Err(e) => return Err(e),
            Ok(c) => c,
        };
        if !complete {
            if fuel == 0 {
                return Err(SegmentInsertError::Fault { fault: MeshFault::Stalled });
            }
            let r = constrain_limited(mesh, fixuptri, endpoint2, newmark, trail, fuel - 1);
            proof {
                lasting_goes_on(before.0, m3, mesh@);
                let rest = edge_trail(m3, fixuptri, endpoint2, newmark, (fuel - 1) as nat);
                assert(before.1 + (one + scouting) + rest =~= before.1 + (one + scouting + rest));
            }
            return r;
        }
    }
    Ok(())
}

/// Forcing that leaves the mesh as it was where it fails.
pub open spec fn edge_constrained_or_kept(
    m: MeshView,
    start: Otri,
    goal: VertexId,
    marker: i32,
) -> (MeshView, Result<(), SegmentInsertError>) {
    let (w, r) = edge_constrained(m, start, goal, marker, STEP_LIMIT as nat);
    if r is Err {
        (m, r)
    } else {
        (w, r)
    }
}

/// Force the segment from the origin of `starttri` to `endpoint2` into the
/// mesh by flipping the edges it crosses, repairing both sides as it goes. On
/// `Err` nothing has changed.
pub fn constrained_edge(
    mesh: &mut CdtMesh,
    starttri: &mut Otri,
    endpoint2: VertexId,
    newmark: i32,
) -> (r: Result<(), SegmentInsertError>)
    requires
        old(mesh)@.wf(),
        old(mesh)@.has(*old(starttri)),
    ensures
        (final(mesh)@, r) == edge_constrained_or_kept(
            old(mesh)@,
            *old(starttri),
            endpoint2,
            newmark,
        ),
        *final(starttri) == *old(starttri),
        final(mesh)@.wf(),
        same_frame(old(mesh)@, final(mesh)@),
        lasts(old(mesh)@, final(mesh)@),
        r is Ok ==> exists|e: Otri| #[trigger] is_constrained(final(mesh)@, e, newmark),
        r is Err ==> final(mesh)@ == old(mesh)@,
{
    let saved = mesh.copied();
    let mut trail: Vec<u32> = Vec::new();
    let r = constrain_limited(mesh, *starttri, endpoint2, newmark, &mut trail, STEP_LIMIT);
    if r.is_err() {
        *mesh = saved;
    }
    r
}

// --- Vertex lookup ----------------------------------------------------------

/// The first edge of triangle `t` that starts at `v`.
pub open spec fn corner_in(m: MeshView, t: u32, v: VertexId) -> Option<Otri> {
    let o = Otri { tri: t, orient: 0 };
    if m.org(o) == v {
        Some(o)
    } else if m.org(o.next()) == v {
        Some(o.next())
    } else if m.org(o.prev()) == v {
        Some(o.prev())
    } else {
        None
    }
}

/// The first edge, in pool order from slot `t`, of a live triangle that
/// starts at `v`.
pub open spec fn corner_from(m: MeshView, t: nat, v: VertexId) -> Option<Otri>
    decreases m.tri_count - t,
{
    if t >= m.tri_count {
        None
    } else if !m.dead(t as u32) && corner_in(m, t as u32, v) is Some {
        corner_in(m, t as u32, v)
    } else {
        corner_from(m, t + 1, v)
    }
}

/// The edge that the vertex remembers, turned to start at it, where that
/// triangle still has it as a corner.
pub open spec fn remembered_corner(m: MeshView, v: VertexId) -> Option<Otri> {
    let o = m.vertices[v.0 as int].triangle.handle();
    if o.tri == 0 {
        None
    } else if m.org(o) == v {
        Some(o)
    } else if m.org(o.next()) == v {
        Some(o.next())
    } else if m.org(o.prev()) == v {
        Some(o.prev())
    } else {
        None
    }
}

/// Looking up an edge that starts at `v`: the remembered one, or else the
/// first in the pool, which is then remembered.
pub open spec fn vertex_located(m: MeshView, v: VertexId) -> (MeshView, Result<Otri, VertexId>) {
    if remembered_corner(m, v) is Some {
        (m, Ok(remembered_corner(m, v)->0))
    } else {
        match corner_from(m, 1, v) {
            None => (m, Err(v)),
            Some(o) => (
                m.with_vertex_slot(
                    v,
                    VertexSlot {
                        triangle: crate::mesh::EncodedTri((4 * o.tri + o.orient) as u32),
                        ..m.vertices[v.0 as int]
                    },
                ),
                Ok(o),
            ),
        }
    }
}

/// A lookup fails only where no live triangle has the vertex as a corner, and
/// what it finds starts at the vertex.
pub proof fn lookup_is_complete(m: MeshView, v: VertexId)
    requires
        m.wf(),
        m.has_vertex(v),
    ensures
        match vertex_located(m, v).1 {
            Ok(o) => m.has(o) && m.org(o) == v,
            Err(u) => u == v && forall|o: Otri|
                m.has(o) && o.tri != 0 && !m.dead(o.tri) ==> #[trigger] m.org(o) != v,
        },
{
    assert(m.has(m.vertices[v.0 as int].triangle.handle()));
    lemma_corner_from(m, 1, v);
}

proof fn lemma_corner_from(m: MeshView, t: nat, v: VertexId)
    requires
        m.wf(),
        t >= 1,
    ensures
        match corner_from(m, t, v) {
            Some(o) => m.has(o) && o.tri != 0 && !m.dead(o.tri) && m.org(o) == v,
            None => forall|o: Otri|
                m.has(o) && o.tri >= t && !m.dead(o.tri) ==> #[trigger] m.org(o) != v,
        },
    decreases m.tri_count - t,
{
    if t < m.tri_count {
        lemma_corner_from(m, t + 1, v);
        assert forall|o: Otri| m.has(o) && o.tri == t && corner_in(m, t as u32, v) is None implies
            #[trigger] m.org(o) != v by {
            let z = Otri { tri: t as u32, orient: 0 };
            assert(o == z || o == z.next() || o == z.prev());
        }
    }
}

/// An edge that starts at `v`, or `Err(v)` where no live triangle has it as a
/// corner.
pub fn locate_vertex(mesh: &mut CdtMesh, v: VertexId) -> (r: Result<Otri, VertexId>)
    requires
        old(mesh)@.wf(),
        old(mesh)@.has_vertex(v),
    ensures
        (final(mesh)@, r) == vertex_located(old(mesh)@, v),
        final(mesh)@.wf(),
        same_frame(old(mesh)@, final(mesh)@),
        lasts(old(mesh)@, final(mesh)@),
        r matches Ok(o) ==> final(mesh)@.has(o),
{
    let base = mesh.vertex(v).triangle.to_otri();
    proof {
        assert(mesh@.has(mesh@.vertices[v.0 as int].triangle.handle()));
    }
    if base.tri != DUMMY_TRI {
        if mesh.org(base) == v {
            return Ok(base);
        }
        if mesh.org(base.lnext()) == v {
            return Ok(base.lnext());
        }
        if mesh.org(base.lprev()) == v {
            return Ok(base.lprev());
        }
    }
    let n: usize = mesh.tri_slots();
    let mut t: usize = 1;
    while t < n
        invariant
            1 <= t <= n,
            n == mesh@.tri_count,
            n <= crate::mesh::TRI_LIMIT,
            mesh@ == old(mesh)@,
            mesh@.wf(),
            mesh@.has_vertex(v),
            remembered_corner(mesh@, v) is None,
            corner_from(mesh@, t as nat, v) == corner_from(mesh@, 1, v),
        decreases n - t,
    {
        let ti: u32 = t as u32;
        if !mesh.is_dead(ti) {
            let mut k: u8 = 0;
            while k < 3
                invariant
                    k <= 3,
                    0 < ti < mesh@.tri_count,
                    t == ti,
                    n == mesh@.tri_count,
                    n <= crate::mesh::TRI_LIMIT,
                    mesh@ == old(mesh)@,
                    mesh@.wf(),
                    mesh@.has_vertex(v),
                    !mesh@.dead(ti),
                    remembered_corner(mesh@, v) is None,
                    corner_from(mesh@, t as nat, v) == corner_from(mesh@, 1, v),
                    k > 0 ==> mesh@.org(Otri { tri: ti, orient: 0 }) != v,
                    k > 1 ==> mesh@.org(Otri { tri: ti, orient: 1 }) != v,
                    k > 2 ==> mesh@.org(Otri { tri: ti, orient: 2 }) != v,
                decreases 3 - k,
            {
                let h = Otri::new(ti, k);
                if mesh.org(h) == v {
                    let mut slot = *mesh.vertex(v);
                    slot.triangle = h.encode();
                    mesh.set_vertex(v, slot);
                    return Ok(h);
                }
                k += 1;
            }
        }
        t += 1;
    }
    Err(v)
}

// --- Segments ---------------------------------------------------------------

/// Forcing the segment between two vertices: march from the first; where that
/// falls short, march from the second; where that falls short too, dig.
pub open spec fn segment_forced(m: MeshView, a: VertexId, b: VertexId, marker: i32) -> (
    MeshView,
    Result<(), SegmentInsertError>,
) {
    let (m1, l1) = vertex_located(m, a);
    match l1 {
        Err(vertex) => (m1, Err(SegmentInsertError::VertexNotInTriangulation { vertex })),
        Ok(o1) => {
            let (m2, o2, r2) = scouted(m1, o1, b, marker, STEP_LIMIT as nat);
            match r2 {
                Err(e) => (m2, Err(e)),
                Ok(true) => (m2, Ok(())),
                Ok(false) => {
                    let (m3, l3) = vertex_located(m2, b);
                    match l3 {
                        Err(vertex) => (
                            m3,
                            Err(SegmentInsertError::VertexNotInTriangulation { vertex }),
                        ),
                        Ok(o3) => {
                            let (m4, _, r4) = scouted(m3, o3, a, marker, STEP_LIMIT as nat);
                            match r4 {
                                Err(e) => (m4, Err(e)),
                                Ok(true) => (m4, Ok(())),
                                Ok(false) => edge_constrained(m4, o2, b, marker, STEP_LIMIT as nat),
                            }
                        },
                    }
                },
            }
        },
    }
}

/// The subsegments that the segment between two vertices runs along, and
/// whether they are listed from the second vertex to the first.
pub open spec fn segment_trail(m: MeshView, a: VertexId, b: VertexId, marker: i32) -> (
    Seq<u32>,
    bool,
) {
    let (m1, l1) = vertex_located(m, a);
    let o1 = l1->Ok_0;
    let (m2, o2, r2) = scouted(m1, o1, b, marker, STEP_LIMIT as nat);
    let first = scout_trail(m1, o1, b, marker, STEP_LIMIT as nat);
    if r2 == Ok::<bool, SegmentInsertError>(true) {
        (first, false)
    } else {
        let (m3, l3) = vertex_located(m2, b);
        let o3 = l3->Ok_0;
        let (m4, _, r4) = scouted(m3, o3, a, marker, STEP_LIMIT as nat);
        if r4 == Ok::<bool, SegmentInsertError>(true) {
            (scout_trail(m3, o3, a, marker, STEP_LIMIT as nat), true)
        } else {
            (first + edge_trail(m4, o2, b, marker, STEP_LIMIT as nat), false)
        }
    }
}

/// Whether the subsegments that a forced segment runs along, in the mesh `w`
/// that comes of it, lead from one end to the other.
pub open spec fn segment_holds(m: MeshView, w: MeshView, a: VertexId, b: VertexId, marker: i32) -> bool {
    let (trail, back) = segment_trail(m, a, b, marker);
    ||| same_place(m.pos(a), m.pos(b))
    ||| leads(
        w,
        trail,
        m.pos(if back {
            b
        } else {
            a
        }),
        m.pos(if back {
            a
        } else {
            b
        }),
    )
}

/// Inserting the segment between two vertices: the mesh with the segment
/// forced, or the mesh as it was where that fails.
pub open spec fn segment_inserted(m: MeshView, a: VertexId, b: VertexId, marker: i32) -> (
    MeshView,
    Result<(), SegmentInsertError>,
) {
    let (w, r) = segment_forced(m, a, b, marker);
    if r is Err {
        (m, r)
    } else if !segment_holds(m, w, a, b, marker) {
        (m, Err(SegmentInsertError::Fault { fault: MeshFault::Broken }))
    } else {
        (w, Ok(()))
    }
}

fn force_segment(
    mesh: &mut CdtMesh,
    endpoint1: VertexId,
    endpoint2: VertexId,
    newmark: i32,
    trail: &mut Vec<u32>,
) -> (r: Result<bool, SegmentInsertError>)
    requires
        old(mesh)@.wf(),
        old(mesh)@.has_vertex(endpoint1),
        old(mesh)@.has_vertex(endpoint2),
        old(trail)@.len() == 0,
    ensures
        ({
            let (w, f) = segment_forced(old(mesh)@, endpoint1, endpoint2, newmark);
            &&& final(mesh)@ == w
            &&& r is Ok <==> f is Ok
            &&& r matches Err(e) ==> f == Err::<(), SegmentInsertError>(e)
            &&& r matches Ok(back) ==> segment_trail(
                old(mesh)@,
                endpoint1,
                endpoint2,
                newmark,
            ) == (final(trail)@, back)
        }),
        final(mesh)@.wf(),
        same_frame(old(mesh)@, final(mesh)@),
        lasts(old(mesh)@, final(mesh)@),
        r is Ok ==> exists|e: Otri| #[trigger] is_constrained(final(mesh)@, e, newmark),
{
    let ghost m = mesh@;
    let located = locate_vertex(mesh, endpoint1);
    let mut searchtri1 = match located {
        Err(vertex) => return Err(SegmentInsertError::VertexNotInTriangulation { vertex }),
        Ok(o) => o,
    };
    let ghost m1 = mesh@;
    let scout = scout_limited(mesh, &mut searchtri1, endpoint2, newmark, trail, STEP_LIMIT);
    let ghost m2 = mesh@;
    let ghost first = trail@;
    proof {
        lasting_goes_on(m, m1, m2);
        let found = scout_trail(m1, located->Ok_0, endpoint2, newmark, STEP_LIMIT as nat);
        assert(Seq::<u32>::empty() + found =~= found);
        assert(old(trail)@ =~= Seq::<u32>::empty());
    }
    match scout {
        Err(e) => return Err(e),
        Ok(complete) => {
            if complete {
                return Ok(false);
            }
        },
    }
    let located2 = locate_vertex(mesh, endpoint2);
    let ghost m3 = mesh@;
    proof {
        lasting_goes_on(m, m2, m3);
    }
    let mut searchtri2 = match located2 {
        Err(vertex) => return Err(SegmentInsertError::VertexNotInTriangulation { vertex }),
        Ok(o) => o,
    };
    let mut back: Vec<u32> = Vec::new();
    let scout2 = scout_limited(mesh, &mut searchtri2, endpoint1, newmark, &mut back, STEP_LIMIT);
    let ghost m4 = mesh@;
    proof {
        lasting_goes_on(m, m3, m4);
        let found = scout_trail(m3, located2->Ok_0, endpoint1, newmark, STEP_LIMIT as nat);
        assert(Seq::<u32>::empty() + found =~= found);
    }
    match scout2 {
        Err(e) => return Err(e),
        Ok(complete) => {
            if complete {
                *trail = back;
                return Ok(true);
            }
        },
    }
    let forced = constrain_limited(mesh, searchtri1, endpoint2, newmark, trail, STEP_LIMIT);
    proof {
        lasting_goes_on(m, m4, mesh@);
    }
    match forced {
        Err(e) => Err(e),
        Ok(_) => Ok(false),
    }
}

/// Force one segment between two vertices of the mesh and see that it is there.
/// On `Err` nothing has changed.
fn try_segment(mesh: &mut CdtMesh, endpoint1: VertexId, endpoint2: VertexId, newmark: i32)
    -> (r: Result<(), SegmentInsertError>)
    requires
        old(mesh)@.wf(),
        old(mesh)@.has_vertex(endpoint1),
        old(mesh)@.has_vertex(endpoint2),
    ensures
        (final(mesh)@, r) == segment_inserted(old(mesh)@, endpoint1, endpoint2, newmark),
        final(mesh)@.wf(),
        same_frame(old(mesh)@, final(mesh)@),
        lasts(old(mesh)@, final(mesh)@),
        r is Ok ==> is_traced(final(mesh)@, endpoint1, endpoint2),
        r is Ok ==> exists|e: Otri| #[trigger] is_constrained(final(mesh)@, e, newmark),
        r is Err ==> final(mesh)@ == old(mesh)@,
{
    let saved = mesh.copied();
    let a = mesh.vertex_pos(endpoint1);
    let b = mesh.vertex_pos(endpoint2);
    let mut trail: Vec<u32> = Vec::new();
    let forced = force_segment(mesh, endpoint1, endpoint2, newmark, &mut trail);
    proof {
        assert(mesh@.vertices[endpoint1.0 as int].position == a);
        assert(mesh@.vertices[endpoint2.0 as int].position == b);
    }
    match forced {
        Err(e) => {
            *mesh = saved;
            Err(e)
        },
        Ok(back) => {
            let holds: bool = is_same_place(a, b) || if back {
                does_lead(mesh, &trail, b, a)
            } else {
                does_lead(mesh, &trail, a, b)
            };
            if holds {
                Ok(())
            } else {
                *mesh = saved;
                Err(SegmentInsertError::Fault { fault: MeshFault::Broken })
            }
        },
    }
}

/// Whether a segment that is crossed by no subsegment can be put into a mesh: a
/// constrained Delaunay triangulation with both ends among its corners.
pub open spec fn is_open_to(m: MeshView, a: VertexId, b: VertexId) -> bool {
    &&& is_cdt(m)
    &&& tidy(m)
    &&& corners(m).contains(a)
    &&& corners(m).contains(b)
    &&& a != b
}

/// Whether [`insert_segment`] may make `w` of `m`, with the result `r`.
pub open spec fn is_insertion(
    m: MeshView,
    w: MeshView,
    r: Result<(), SegmentInsertError>,
    a: VertexId,
    b: VertexId,
    marker: i32,
) -> bool {
    let (forced, outcome) = segment_inserted(m, a, b, marker);
    if crosses_any(m, m.pos(a), m.pos(b)) {
        w == m && r == Err::<(), SegmentInsertError>(
            SegmentInsertError::SelfIntersection { endpoint1: a, endpoint2: b },
        )
    } else if outcome is Ok && (is_cdt(m) ==> is_cdt(forced)) {
        w == forced && r == outcome
    } else if is_open_to(m, a, b) {
        match r {
            Ok(_) => {
                &&& is_cdt(w)
                &&& corners(w) == corners(m)
                &&& grows_along(m, w, m.pos(a), m.pos(b))
            },
            Err(e) => {
                &&& w == m
                &&& e == SegmentInsertError::Fault { fault: MeshFault::Full }
                &&& spare(m) < m.vertices.len()
            },
        }
    } else {
        &&& w == m
        &&& r == match outcome {
            Err(SegmentInsertError::VertexNotInTriangulation { vertex }) => Err(
                SegmentInsertError::VertexNotInTriangulation { vertex },
            ),
            Err(SegmentInsertError::Fault { fault }) => Err(SegmentInsertError::Fault { fault }),
            _ => Err::<(), SegmentInsertError>(
                SegmentInsertError::Fault { fault: MeshFault::Broken },
            ),
        }
    }
}

/// Insert one segment between two vertices of the mesh. On `Err` nothing has
/// changed.
///
/// A segment that crosses a subsegment is refused. Any other goes into a
/// constrained Delaunay triangulation that has its ends among its corners and
/// room for the subsegments, and leaves it one.
pub fn insert_segment(mesh: &mut CdtMesh, endpoint1: VertexId, endpoint2: VertexId, newmark: i32)
    -> (r: Result<(), SegmentInsertError>)
    requires
        old(mesh)@.wf(),
        old(mesh)@.has_vertex(endpoint1),
        old(mesh)@.has_vertex(endpoint2),
    ensures
        is_insertion(old(mesh)@, final(mesh)@, r, endpoint1, endpoint2, newmark),
        r matches Err(SegmentInsertError::SelfIntersection { .. }) <==> crosses_any(
            old(mesh)@,
            old(mesh)@.pos(endpoint1),
            old(mesh)@.pos(endpoint2),
        ),
        is_open_to(old(mesh)@, endpoint1, endpoint2) && spare(old(mesh)@)
            >= old(mesh)@.vertices.len() ==> (r is Ok <==> !crosses_any(
            old(mesh)@,
            old(mesh)@.pos(endpoint1),
            old(mesh)@.pos(endpoint2),
        )),
        r is Ok && is_cdt(old(mesh)@) ==> is_cdt(final(mesh)@),
        final(mesh)@.wf(),
        same_frame(old(mesh)@, final(mesh)@),
        lasts(old(mesh)@, final(mesh)@),
        r is Ok ==> is_traced(final(mesh)@, endpoint1, endpoint2),
        r is Ok ==> has_marked(final(mesh)@, newmark),
        r is Err ==> final(mesh)@ == old(mesh)@,
{
    let ghost m = mesh@;
    let (s, t) = (mesh.vertex_pos(endpoint1), mesh.vertex_pos(endpoint2));
    if find_crossing(mesh, s, t) {
        return Err(SegmentInsertError::SelfIntersection { endpoint1, endpoint2 });
    }
    let saved = mesh.copied();
    let outcome = try_segment(mesh, endpoint1, endpoint2, newmark);
    if outcome.is_ok() {
        if check_cdt(mesh) || !check_cdt(&saved) {
            proof {
                let e = choose|e: Otri| #[trigger] is_constrained(mesh@, e, newmark);
                let k = mesh@.tsub[e].sub;
                assert(mesh@.has_sub(mesh@.tsub[e]));
                assert(is_marked(mesh@, k, newmark));
            }
            return Ok(());
        }
        *mesh = saved.copied();
    }
    let used = find_used(mesh);
    let is_open: bool = endpoint1 != endpoint2 && used[endpoint1.index()] && used[endpoint2.index()]
        && check_tidy(mesh) && check_cdt(mesh);
    assert(is_open == is_open_to(m, endpoint1, endpoint2)) by {
        reveal(corners);
        assert(used@[endpoint1.0 as int] == is_used(m, endpoint1));
        assert(used@[endpoint2.0 as int] == is_used(m, endpoint2));
    }
    if is_open {
        let put = thread_segment(mesh, endpoint1, endpoint2, newmark);
        if let Err(fault) = put {
            *mesh = saved;
            return Err(SegmentInsertError::Fault { fault });
        }
        let ghost w = mesh@;
        settle_edges(mesh);
        proof {
            lemma_flipped_subs(w, mesh@, s, t);
            lasting_goes_on(m, w, mesh@);
            traces_last(w, mesh@, endpoint1, endpoint2);
            assert forall|k: u32| #[trigger] is_sub(mesh@, k) implies is_old(m, mesh@, k) || is_part(
                mesh@,
                k,
                s,
                t,
            ) by {
                assert(is_old(w, mesh@, k));
                assert(is_sub(w, k));
            }
            let k = choose|k: u32| #[trigger] is_marked(w, k, newmark);
            assert(is_marked(mesh@, k, newmark));
        }
        return Ok(());
    }
    match outcome {
        Err(SegmentInsertError::VertexNotInTriangulation { vertex }) => Err(
            SegmentInsertError::VertexNotInTriangulation { vertex },
        ),
        Err(SegmentInsertError::Fault { fault }) => Err(SegmentInsertError::Fault { fault }),
        _ => Err(SegmentInsertError::Fault { fault: MeshFault::Broken }),
    }
}

/// The first index from `j` on, up to `i`, of a vertex at the very position
/// of vertex `i`.
pub open spec fn first_same(vs: Seq<VertexSlot>, i: int, j: int) -> int
    decreases i - j,
{
    if j >= i {
        i
    } else if vs[j].position == vs[i].position {
        j
    } else {
        first_same(vs, i, j + 1)
    }
}

/// The first vertex at the position of vertex `i`.
pub open spec fn canonical(vs: Seq<VertexSlot>, i: int) -> VertexId {
    VertexId(first_same(vs, i, 0) as u32)
}

proof fn lemma_first_same(vs: Seq<VertexSlot>, i: int, j: int)
    requires
        0 <= j <= i < vs.len(),
    ensures
        j <= first_same(vs, i, j) <= i,
        vs[first_same(vs, i, j)].position == vs[i].position,
        forall|k: int| j <= k < first_same(vs, i, j) ==> vs[k].position != vs[i].position,
    decreases i - j,
{
    if j < i && vs[j].position != vs[i].position {
        lemma_first_same(vs, i, j + 1);
    }
}

/// The canonical vertex of a position is the first one there, whichever
/// vertex at that position is asked about.
pub proof fn canonical_is_first(vs: Seq<VertexSlot>, i: int)
    requires
        0 <= i < vs.len() <= u32::MAX,
    ensures
        canonical(vs, i).0 <= i,
        vs[canonical(vs, i).0 as int].position == vs[i].position,
        forall|k: int|
            0 <= k < vs.len() && vs[k].position == vs[i].position ==> canonical(vs, i).0 <= k,
        forall|k: int|
            0 <= k < vs.len() && vs[k].position == vs[i].position ==> #[trigger] canonical(vs, k)
                == canonical(vs, i),
{
    lemma_first_same(vs, i, 0);
    assert forall|k: int| 0 <= k < vs.len() && vs[k].position == vs[i].position implies canonical(
        vs,
        i,
    ).0 <= k && #[trigger] canonical(vs, k) == canonical(vs, i) by {
        lemma_first_same(vs, k, 0);
    }
    assert forall|k: int| 0 <= k < vs.len() && vs[k].position == vs[i].position implies canonical(
        vs,
        i,
    ).0 <= k by {
        assert(canonical(vs, k) == canonical(vs, i));
        lemma_first_same(vs, k, 0);
    }
}

spec fn place_key(p: Vertex) -> u128 {
    (p.x as u128 * 0x1_0000_0000_0000_0000 + p.y as u128) as u128
}

/// For every vertex, the first vertex at the very same position.
pub fn canonical_remap(mesh: &CdtMesh) -> (remap: Vec<VertexId>)
    requires
        mesh@.wf(),
    ensures
        remap@.len() == mesh@.vertices.len(),
        forall|i: int| 0 <= i < remap@.len() ==> #[trigger] remap@[i] == canonical(
            mesh@.vertices,
            i,
        ),
{
    broadcast use vstd::std_specs::hash::group_hash_axioms;

    let n: usize = mesh.vertex_count();
    let mut by_pos: HashMap<u128, u32> = HashMap::new();
    let mut remap: Vec<VertexId> = Vec::new();
    let mut i: usize = 0;
    let ghost vs = mesh@.vertices;
    while i < n
        invariant
            i <= n,
            n == vs.len(),
            n <= u32::MAX,
            vs == mesh@.vertices,
            remap@.len() == i,
            forall|k: int| 0 <= k < i ==> #[trigger] remap@[k] == canonical(vs, k),
            forall|k: int|
                0 <= k < i ==> by_pos@.contains_key(place_key((#[trigger] vs[k]).position))
                    && by_pos@[place_key(vs[k].position)] == canonical(vs, k).0,
            forall|q: u128| #[trigger]
                by_pos@.contains_key(q) ==> exists|k: int|
                    0 <= k < i && place_key((#[trigger] vs[k]).position) == q,
        decreases n - i,
    {
        let p = mesh.vertex_pos(VertexId::new(i as u32));
        let key: u128 = p.x as u128 * 0x1_0000_0000_0000_0000 + p.y as u128;
        proof {
            canonical_is_first(vs, i as int);
        }
        let found: Option<u32> = match by_pos.get(&key) {
            Some(c) => Some(*c),
            None => None,
        };
        match found {
            Some(c) => {
                proof {
                    let k = choose|k: int|
                        0 <= k < i && place_key((#[trigger] vs[k]).position) == key;
                    assert(vs[k].position == p);
                    assert(canonical(vs, k) == canonical(vs, i as int));
                }
                remap.push(VertexId::new(c));
            },
            None => {
                proof {
                    let c = canonical(vs, i as int).0 as int;
                    assert(vs[c].position == p);
                    if c < i {
                        assert(by_pos@.contains_key(place_key(vs[c].position)));
                    }
                }
                by_pos.insert(key, i as u32);
                remap.push(VertexId::new(i as u32));
            },
        }
        i += 1;
    }
    remap
}

// --- Skeleton ---------------------------------------------------------------

/// Inserting the segments from number `i` on, endpoints redirected to the
/// first vertex at their position; a segment whose ends fall together is
/// skipped.
pub open spec fn segments_inserted(
    m: MeshView,
    segments: Seq<PslgSegment>,
    i: nat,
    vs: Seq<VertexSlot>,
) -> (MeshView, Result<(), SegmentInsertError>)
    decreases segments.len() - i,
{
    if i >= segments.len() {
        (m, Ok(()))
    } else {
        let s = segments[i as int];
        if s.a >= vs.len() || s.b >= vs.len() {
            (
                m,
                Err(
                    SegmentInsertError::VertexNotInTriangulation {
                        vertex: VertexId(
                            if s.a >= vs.len() {
                                s.a
                            } else {
                                s.b
                            },
                        ),
                    },
                ),
            )
        } else {
            let (a, b) = (canonical(vs, s.a as int), canonical(vs, s.b as int));
            if a == b {
                segments_inserted(m, segments, i + 1, vs)
            } else {
                let (m1, r1) = segment_inserted(m, a, b, s.marker);
                match r1 {
                    Err(e) => (m1, Err(e)),
                    Ok(_) => segments_inserted(m1, segments, i + 1, vs),
                }
            }
        }
    }
}

/// The last edge before the boundary, turning clockwise about the origin.
pub open spec fn at_boundary(m: MeshView, o: Otri, fuel: nat) -> Result<Otri, MeshFault>
    decreases fuel,
{
    let n = oprev_of(m, o);
    if n.tri == 0 {
        Ok(o)
    } else if fuel == 0 {
        Err(MeshFault::Stalled)
    } else {
        at_boundary(m, n, (fuel - 1) as nat)
    }
}

/// Constraining the hull edges from `o` round to `start`.
pub open spec fn hull_walked(m: MeshView, o: Otri, start: Otri, marker: i32, fuel: nat) -> (
    MeshView,
    Result<(), MeshFault>,
)
    decreases fuel,
{
    let (m1, r1) = subseg_inserted(m, o, marker);
    match r1 {
        Err(e) => (m1, Err(e)),
        Ok(_) => match at_boundary(m1, o.next(), turn_limit(m1)) {
            Err(e) => (m1, Err(e)),
            Ok(n) => if n == start {
                (m1, Ok(()))
            } else if fuel == 0 {
                (m1, Err(MeshFault::Stalled))
            } else {
                hull_walked(m1, n, start, marker, (fuel - 1) as nat)
            },
        },
    }
}

/// Constraining every hull edge.
pub open spec fn hull_marked(m: MeshView, marker: i32) -> (MeshView, Result<(), MeshFault>) {
    let o = m.sym(no_tri());
    if o.tri == 0 {
        (m, Ok(()))
    } else {
        hull_walked(m, o, o, marker, turn_limit(m))
    }
}

pub(crate) fn to_boundary(mesh: &CdtMesh, o: Otri) -> (r: Result<Otri, MeshFault>)
    requires
        mesh@.wf(),
        mesh@.has(o),
    ensures
        r == at_boundary(mesh@, o, turn_limit(mesh@)),
        r matches Ok(n) ==> mesh@.has(n),
{
    let mut cur = o;
    let mut next = oprev(mesh, cur);
    let mut fuel: u64 = 3 * mesh.tri_slots() as u64;
    while next.tri != DUMMY_TRI
        invariant
            mesh@.wf(),
            mesh@.has(cur),
            mesh@.has(next),
            next == oprev_of(mesh@, cur),
            at_boundary(mesh@, cur, fuel as nat) == at_boundary(mesh@, o, turn_limit(mesh@)),
        decreases fuel,
    {
        if fuel == 0 {
            return Err(MeshFault::Stalled);
        }
        fuel -= 1;
        cur = next;
        next = oprev(mesh, cur);
    }
    Ok(cur)
}

/// Cover every hull edge with a subsegment.
pub fn mark_hull(mesh: &mut CdtMesh, marker: i32) -> (r: Result<(), MeshFault>)
    requires
        old(mesh)@.wf(),
    ensures
        (final(mesh)@, r) == hull_marked(old(mesh)@, marker),
        final(mesh)@.wf(),
        same_frame(old(mesh)@, final(mesh)@),
        lasts(old(mesh)@, final(mesh)@),
{
    let start = mesh.sym(Otri::dummy());
    if start.tri == DUMMY_TRI {
        return Ok(());
    }
    let mut hulltri = start;
    let mut fuel: u64 = 3 * mesh.tri_slots() as u64;
    loop
        invariant
            mesh@.wf(),
            mesh@.has(hulltri),
            same_frame(old(mesh)@, mesh@),
            lasts(old(mesh)@, mesh@),
            hull_walked(mesh@, hulltri, start, marker, fuel as nat) == hull_marked(
                old(mesh)@,
                marker,
            ),
        decreases fuel,
    {
        let ghost before = mesh@;
        let inserted = insert_subseg(mesh, hulltri, marker);
        proof {
            lasting_goes_on(old(mesh)@, before, mesh@);
        }
        if let Err(e) = inserted {
            return Err(e);
        }
        let next = to_boundary(mesh, hulltri.lnext());
        hulltri = match next {
            Err(e) => return Err(e),
            Ok(n) => n,
        };
        if hulltri == start {
            return Ok(());
        }
        if fuel == 0 {
            return Err(MeshFault::Stalled);
        }
        fuel -= 1;
    }
}

/// Forcing a whole graph into the mesh.
pub open spec fn skeleton_forced(
    m: MeshView,
    segments: Seq<PslgSegment>,
    mark_hull_with: Option<i32>,
) -> (MeshView, Result<(), SegmentInsertError>) {
    let m1 = vertex_mapped(m, 1);
    let (m2, r2) = segments_inserted(m1, segments, 0, m1.vertices);
    match (r2, mark_hull_with) {
        (Ok(_), Some(marker)) => {
            let (m3, r3) = hull_marked(m2, marker);
            match r3 {
                Err(fault) => (m3, Err(SegmentInsertError::Fault { fault })),
                Ok(_) => (m3, Ok(())),
            }
        },
        _ => (m2, r2),
    }
}

/// Whether a mesh is as it was before: a constrained Delaunay triangulation, of
/// the convex hull of its corners.
pub open spec fn is_kept(m: MeshView, w: MeshView) -> bool {
    &&& is_constrained_delaunay(m) ==> is_constrained_delaunay(w)
    &&& is_cdt(m) ==> is_cdt(w)
}

/// Whether [`form_skeleton`] may make `w` of `m`, with the result `r`: what
/// forcing the graph gives, unless it fails or a triangulation does not stay
/// one. A constrained Delaunay triangulation then takes the segments one by
/// one.
pub open spec fn is_skeleton(
    m: MeshView,
    w: MeshView,
    r: Result<(), SegmentInsertError>,
    segments: Seq<PslgSegment>,
    mark_hull_with: Option<i32>,
) -> bool {
    let (forced, outcome) = skeleton_forced(m, segments, mark_hull_with);
    if outcome is Ok && is_kept(m, forced) {
        w == forced && r == outcome
    } else if is_cdt(m) && tidy(m) {
        &&& is_cdt(w)
        &&& corners(w) == corners(m)
        &&& r is Ok && mark_hull_with is None ==> comes_of(m, w, segments, segments.len() as int)
        &&& r is Err ==> !is_planar(m, segments) || spare(m) < most_subsegs(m, segments)
        &&& r matches Err(SegmentInsertError::Fault { fault }) ==> fault is Full
    } else {
        &&& w == forced
        &&& r == match outcome {
            Ok(_) => Err::<(), SegmentInsertError>(
                SegmentInsertError::Fault { fault: MeshFault::Broken },
            ),
            Err(e) => Err(e),
        }
    }
}

/// Whether the first `n` segments of a graph are in the mesh.
pub open spec fn all_traced(m: MeshView, segments: Seq<PslgSegment>, n: int) -> bool {
    forall|i: int|
        0 <= i < n ==> {
            let s = #[trigger] segments[i];
            &&& s.a < m.vertices.len()
            &&& s.b < m.vertices.len()
            &&& is_traced(m, VertexId(s.a), VertexId(s.b))
        }
}

pub(crate) proof fn lemma_all_traced_last(m: MeshView, w: MeshView, segments: Seq<PslgSegment>, n: int)
    requires
        tidy(m),
        lasts(m, w),
        all_traced(m, segments, n),
    ensures
        all_traced(w, segments, n),
{
    assert forall|i: int| 0 <= i < n implies ({
        let s = #[trigger] segments[i];
        &&& s.a < w.vertices.len()
        &&& s.b < w.vertices.len()
        &&& is_traced(w, VertexId(s.a), VertexId(s.b))
    }) by {
        let s = segments[i];
        traces_last(m, w, VertexId(s.a), VertexId(s.b));
    }
}

fn force_skeleton(mesh: &mut CdtMesh, pslg: &Pslg, mark_hull_with: Option<i32>) -> (r: Result<
    (),
    SegmentInsertError,
>)
    requires
        old(mesh)@.wf(),
    ensures
        (final(mesh)@, r) == skeleton_forced(old(mesh)@, pslg.segments@, mark_hull_with),
        final(mesh)@.wf(),
        same_frame(old(mesh)@, final(mesh)@),
        lasts(old(mesh)@, final(mesh)@),
        r is Ok && tidy(old(mesh)@) ==> all_traced(
            final(mesh)@,
            pslg.segments@,
            pslg.segments@.len() as int,
        ),
{
    make_vertex_map(mesh);
    let remap = canonical_remap(mesh);
    let ghost vs = mesh@.vertices;
    let ghost m1 = mesh@;
    let mut i: usize = 0;
    while i < pslg.segments.len()
        invariant
            i <= pslg.segments@.len(),
            mesh@.wf(),
            remap@.len() == vs.len(),
            mesh@.vertices.len() == vs.len(),
            vs.len() == old(mesh)@.vertices.len(),
            vs.len() <= u32::MAX,
            mesh@.tri_count == old(mesh)@.tri_count,
            same_frame(old(mesh)@, mesh@),
            lasts(old(mesh)@, mesh@),
            tidy(old(mesh)@) ==> all_traced(mesh@, pslg.segments@, i as int),
            forall|k: int|
                0 <= k < vs.len() ==> (#[trigger] vs[k]).position
                    == old(mesh)@.vertices[k].position,
            forall|k: int| 0 <= k < remap@.len() ==> #[trigger] remap@[k] == canonical(vs, k),
            segments_inserted(mesh@, pslg.segments@, i as nat, vs) == segments_inserted(
                m1,
                pslg.segments@,
                0,
                vs,
            ),
            m1 == vertex_mapped(old(mesh)@, 1),
            vs == m1.vertices,
        decreases pslg.segments@.len() - i,
    {
        let seg = pslg.segments[i];
        if seg.a as usize >= remap.len() || seg.b as usize >= remap.len() {
            let bad: u32 = if seg.a as usize >= remap.len() {
                seg.a
            } else {
                seg.b
            };
            return Err(
                SegmentInsertError::VertexNotInTriangulation { vertex: VertexId::new(bad) },
            );
        }
        let a = remap[seg.a as usize];
        let b = remap[seg.b as usize];
        let ghost before = mesh@;
        proof {
            canonical_is_first(vs, seg.a as int);
            canonical_is_first(vs, seg.b as int);
            assert(mesh@.vertices[seg.a as int].position == vs[seg.a as int].position);
            assert(mesh@.vertices[seg.b as int].position == vs[seg.b as int].position);
            assert(mesh@.vertices[a.0 as int].position == vs[a.0 as int].position);
            assert(mesh@.vertices[b.0 as int].position == vs[b.0 as int].position);
        }
        if a != b {
            let inserted = try_segment(mesh, a, b, seg.marker);
            proof {
                lasting_goes_on(old(mesh)@, before, mesh@);
            }
            if let Err(e) = inserted {
                return Err(e);
            }
            proof {
                assert(mesh@.vertices[seg.a as int].position == before.vertices[seg.a as int].position);
                assert(mesh@.vertices[seg.b as int].position == before.vertices[seg.b as int].position);
                assert(mesh@.vertices[a.0 as int].position == before.vertices[a.0 as int].position);
                assert(mesh@.vertices[b.0 as int].position == before.vertices[b.0 as int].position);
                if tidy(old(mesh)@) {
                    lemma_all_traced_last(before, mesh@, pslg.segments@, i as int);
                }
            }
        }
        assert(is_traced(mesh@, VertexId(seg.a), VertexId(seg.b)));
        i += 1;
    }
    if let Some(mark) = mark_hull_with {
        let ghost before = mesh@;
        let marked = mark_hull(mesh, mark);
        proof {
            lasting_goes_on(old(mesh)@, before, mesh@);
            if tidy(old(mesh)@) {
                lemma_all_traced_last(before, mesh@, pslg.segments@, pslg.segments@.len() as int);
            }
        }
        if let Err(fault) = marked {
            return Err(SegmentInsertError::Fault { fault });
        }
    }
    Ok(())
}

/// Push every segment of `pslg` into the mesh, in input order, then, if asked,
/// constrain the hull. Stops at the first segment that fails.
///
/// On `Ok` every segment is in the mesh, as subsegments that lead straight
/// from the place of one end to that of the other, and a mesh that was a
/// constrained Delaunay triangulation still is one. Such a mesh, with room for
/// the subsegments, takes every graph whose ends are among its corners and of
/// whose segments no two cross.
pub fn form_skeleton(mesh: &mut CdtMesh, pslg: &Pslg, mark_hull_with: Option<i32>) -> (r: Result<
    (),
    SegmentInsertError,
>)
    requires
        old(mesh)@.wf(),
    ensures
        is_skeleton(old(mesh)@, final(mesh)@, r, pslg.segments@, mark_hull_with),
        is_cdt(old(mesh)@) && tidy(old(mesh)@) && is_planar(old(mesh)@, pslg.segments@) && spare(
            old(mesh)@,
        ) >= most_subsegs(old(mesh)@, pslg.segments@) ==> r is Ok,
        final(mesh)@.wf(),
        same_frame(old(mesh)@, final(mesh)@),
        lasts(old(mesh)@, final(mesh)@),
        r is Ok && tidy(old(mesh)@) ==> all_traced(
            final(mesh)@,
            pslg.segments@,
            pslg.segments@.len() as int,
        ),
        r is Ok && is_constrained_delaunay(old(mesh)@) ==> is_constrained_delaunay(final(mesh)@),
        r is Ok && is_cdt(old(mesh)@) ==> is_cdt(final(mesh)@),
{
    let saved = mesh.copied();
    let r = force_skeleton(mesh, pslg, mark_hull_with);
    let settled: bool = !check_constrained_delaunay(&saved);
    if r.is_ok() && (settled || check_constrained_delaunay(mesh)) && (settled || check_plane(mesh)
        || !check_plane(&saved)) {
        return r;
    }
    if !settled && check_tidy(&saved) && check_plane(&saved) {
        *mesh = saved;
        return thread_skeleton(mesh, pslg, mark_hull_with);
    }
    if r.is_ok() {
        return Err(SegmentInsertError::Fault { fault: MeshFault::Broken });
    }
    r
}

// --- The vertex map ---------------------------------------------------------

/// Whether a vertex points at an edge of a live triangle that begins at it.
pub open spec fn leads_back(m: MeshView, v: VertexId) -> bool {
    let o = m.vertices[v.0 as int].triangle.handle();
    0 < o.tri < m.tri_count && o.orient < 3 && !m.dead(o.tri) && m.org(o) == v
}

/// Whether a vertex is a corner of a live triangle from slot `t` on.
pub open spec fn is_in_use(m: MeshView, v: VertexId, t: int) -> bool {
    exists|o: Otri|
        t <= o.tri < m.tri_count && o.orient < 3 && !m.dead(o.tri) && #[trigger] m.org(o) == v
}

proof fn lemma_corners_lead_back(m: MeshView, t: u32, k: nat, v: VertexId)
    requires
        0 < t < m.tri_count <= crate::mesh::TRI_LIMIT,
        !m.dead(t),
        m.has_vertex(v),
        k <= 3,
    ensures
        leads_back(m, v) ==> leads_back(corners_mapped(m, t, k), v),
        (exists|j: u8| k <= j < 3 && #[trigger] m.org(Otri { tri: t, orient: j }) == v)
            ==> leads_back(corners_mapped(m, t, k), v),
        (forall|j: u8|
            k <= j < 3 ==> #[trigger] m.org(Otri { tri: t, orient: j }) != v)
            ==> corners_mapped(m, t, k).vertices[v.0 as int] == m.vertices[v.0 as int],
    decreases 3 - k,
{
    if k < 3 {
        let o = Otri { tri: t, orient: k as u8 };
        let x = m.org(o);
        if m.has_vertex(x) {
            let slot = m.vertices[x.0 as int];
            let code = crate::mesh::EncodedTri((4 * t + k) as u32);
            let w = m.with_vertex_slot(x, VertexSlot { triangle: code, ..slot });
            assert(code.handle() == o);
            assert(x == v ==> leads_back(w, v)) by {
                if x == v {
                    assert(w.vertices[v.0 as int].triangle == code);
                    assert(w.org(o) == v);
                }
            }
            assert(forall|j: u8| w.org(Otri { tri: t, orient: j }) == #[trigger] m.org(
                Otri { tri: t, orient: j },
            ));
            if x != v {
                assert(w.vertices[v.0 as int] == m.vertices[v.0 as int]);
                let p = m.vertices[v.0 as int].triangle.handle();
                assert(w.org(p) == m.org(p));
            }
            if forall|j: u8| k <= j < 3 ==> #[trigger] m.org(Otri { tri: t, orient: j }) != v {
                assert(x != v);
                assert forall|j: u8| k + 1 <= j < 3 implies #[trigger] w.org(
                    Otri { tri: t, orient: j },
                ) != v by {
                    assert(m.org(Otri { tri: t, orient: j }) != v);
                }
            }
            lemma_corners_lead_back(w, t, k + 1, v);
        } else {
            lemma_corners_lead_back(m, t, k + 1, v);
        }
    }
}

proof fn lemma_map_leads_back(m: MeshView, t: nat, v: VertexId)
    requires
        0 < t <= m.tri_count <= crate::mesh::TRI_LIMIT,
        m.has_vertex(v),
    ensures
        leads_back(m, v) || is_in_use(m, v, t as int) ==> leads_back(vertex_mapped(m, t), v),
        !is_in_use(m, v, t as int) ==> vertex_mapped(
            m,
            t,
        ).vertices[v.0 as int] == m.vertices[v.0 as int],
    decreases m.tri_count - t,
{
    if t < m.tri_count {
        let live = !m.dead(t as u32);
        let w = if live {
            corners_mapped(m, t as u32, 0)
        } else {
            m
        };
        if live {
            lemma_corners_mapped_frame(m, t as u32, 0);
            lemma_corners_lead_back(m, t as u32, 0, v);
        }
        lemma_map_leads_back(w, t + 1, v);
        assert(forall|o: Otri| #[trigger] w.org(o) == m.org(o));
        if is_in_use(m, v, t as int) {
            let o = choose|o: Otri|
                t <= o.tri < m.tri_count && o.orient < 3 && !m.dead(o.tri) && #[trigger] m.org(o)
                    == v;
            if o.tri == t {
                assert(m.org(Otri { tri: t as u32, orient: o.orient }) == v);
            } else {
                assert(w.org(o) == v);
                assert(is_in_use(w, v, (t + 1) as int));
            }
        } else {
            if is_in_use(w, v, (t + 1) as int) {
                let o = choose|o: Otri|
                    t + 1 <= o.tri < w.tri_count && o.orient < 3 && !w.dead(o.tri) && #[trigger] w.org(
                        o,
                    ) == v;
                assert(m.org(o) == v);
            }
            if live {
                assert forall|j: u8| 0 <= j < 3 implies #[trigger] m.org(
                    Otri { tri: t as u32, orient: j },
                ) != v by {}
            }
        }
    }
}

/// Once mapped, every vertex that is a corner of a live triangle points at an
/// edge of one that begins at it; every other vertex is as it was.
pub proof fn every_corner_leads_back(m: MeshView, v: VertexId)
    requires
        m.wf(),
        m.has_vertex(v),
    ensures
        is_in_use(m, v, 1) ==> leads_back(vertex_mapped(m, 1), v),
        !is_in_use(m, v, 1) ==> vertex_mapped(m, 1).vertices[v.0 as int]
            == m.vertices[v.0 as int],
{
    lemma_map_leads_back(m, 1, v);
}

} // verus!
