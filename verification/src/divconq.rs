//! Divide-and-conquer Delaunay triangulation.
//!
//! While it is being built, a triangulation is surrounded by ghost triangles:
//! triangles on the hull edges with one corner unset.

use crate::advance::{ahead, build_outward, is_fresh, is_in_order, lists_places};
use crate::coord::{coord_equal, coord_less, key_orders_values};
use crate::empty_circle::{
    check_delaunay, is_anchored, is_constrained_delaunay, is_delaunay, is_delaunay_of, is_face,
    is_live, on_one_line,
};
use crate::mesh::{
    copy_slots, no_tri, no_vertex, CdtMesh, MeshView, Otri, VertexId, DUMMY_TRI, TRI_LIMIT,
};
use crate::predicates::{in_circle, incircle, orient, orient2d};
use crate::segment::{
    canonical_is_first, known, same_place, same_subsegs, turn_limit, MeshFault, STEP_LIMIT,
};
use crate::sort::{
    all_known, alternate_axes, alternated, is_permutation, lex_key, lex_less, rearranged,
    stable_order, vertex_sort,
};
use crate::paving::{corners, is_plane};
use crate::pslg::PslgSegment;
use crate::skeleton::{first_end, is_placed, is_planar, segments_cross};
use crate::survey::{
    check_counted, check_plane, check_uses_all, fresh_meshes_are_plane, is_cdt, is_counted,
    uses_all,
};
use vstd::prelude::*;

verus! {

/// Behaviour switches for [`delaunay`].
#[derive(Copy, Clone, Debug, PartialEq, Eq, Structural)]
pub struct DivConqOptions {
    /// Alternate vertical and horizontal cuts.
    pub dwyer: bool,
}

impl Default for DivConqOptions {
    fn default() -> (r: DivConqOptions)
        ensures
            r.dwyer,
    {
        DivConqOptions { dwyer: true }
    }
}

// --- Base cases -------------------------------------------------------------

/// Two vertices: an edge between two ghosts that share all their sides.
pub open spec fn edge_pair(m: MeshView, a: VertexId, b: VertexId) -> (
    MeshView,
    Result<(Otri, Otri), MeshFault>,
) {
    if !m.tri_room() {
        (m, Err(MeshFault::Full))
    } else {
        let l = Otri { tri: m.next_tri(), orient: 0 };
        let m1 = m.with_triangle().with_org(l, a).with_dest(l, b);
        if !m1.tri_room() {
            (m1, Err(MeshFault::Full))
        } else {
            let r = Otri { tri: m1.next_tri(), orient: 0 };
            let m2 = m1.with_triangle().with_org(r, b).with_dest(r, a);
            let m3 = m2.bonded(l, r).bonded(l.prev(), r.next()).bonded(
                l.prev().prev(),
                r.next().next(),
            );
            (m3, Ok((r.next().next().prev(), r.next().next())))
        }
    }
}

/// Build an edge bounded by two ghost triangles.
pub fn make_edge_pair(mesh: &mut CdtMesh, a: VertexId, b: VertexId) -> (r: Result<
    (Otri, Otri),
    MeshFault,
>)
    requires
        old(mesh)@.wf(),
    ensures
        (final(mesh)@, r) == edge_pair(old(mesh)@, a, b),
        final(mesh)@.wf(),
        final(mesh)@.tri_count >= old(mesh)@.tri_count,
        final(mesh)@.vertices == old(mesh)@.vertices,
        same_subsegs(old(mesh)@, final(mesh)@),
        r matches Ok((x, y)) ==> final(mesh)@.has(x) && final(mesh)@.has(y),
{
    if !mesh.has_tri_room() {
        return Err(MeshFault::Full);
    }
    let mut farleft = mesh.make_triangle();
    mesh.set_org(farleft, a);
    mesh.set_dest(farleft, b);
    if !mesh.has_tri_room() {
        return Err(MeshFault::Full);
    }
    let mut farright = mesh.make_triangle();
    mesh.set_org(farright, b);
    mesh.set_dest(farright, a);
    mesh.bond(farleft, farright);
    farleft = farleft.lprev();
    farright = farright.lnext();
    mesh.bond(farleft, farright);
    farleft = farleft.lprev();
    farright = farright.lnext();
    mesh.bond(farleft, farright);
    Ok((farright.lprev(), farright))
}

/// Four new triangles, or as many as there is room for.
pub open spec fn four_made(m: MeshView) -> (MeshView, Result<(Otri, Otri, Otri, Otri), MeshFault>) {
    if !m.tri_room() {
        (m, Err(MeshFault::Full))
    } else {
        let t0 = Otri { tri: m.next_tri(), orient: 0 };
        let m1 = m.with_triangle();
        if !m1.tri_room() {
            (m1, Err(MeshFault::Full))
        } else {
            let t1 = Otri { tri: m1.next_tri(), orient: 0 };
            let m2 = m1.with_triangle();
            if !m2.tri_room() {
                (m2, Err(MeshFault::Full))
            } else {
                let t2 = Otri { tri: m2.next_tri(), orient: 0 };
                let m3 = m2.with_triangle();
                if !m3.tri_room() {
                    (m3, Err(MeshFault::Full))
                } else {
                    let t3 = Otri { tri: m3.next_tri(), orient: 0 };
                    (m3.with_triangle(), Ok((t0, t1, t2, t3)))
                }
            }
        }
    }
}

fn make_four(mesh: &mut CdtMesh) -> (r: Result<(Otri, Otri, Otri, Otri), MeshFault>)
    requires
        old(mesh)@.wf(),
    ensures
        (final(mesh)@, r) == four_made(old(mesh)@),
        final(mesh)@.wf(),
        final(mesh)@.tri_count >= old(mesh)@.tri_count,
        final(mesh)@.vertices == old(mesh)@.vertices,
        same_subsegs(old(mesh)@, final(mesh)@),
        r matches Ok((a, b, c, d)) ==> final(mesh)@.has(a) && final(mesh)@.has(b)
            && final(mesh)@.has(c) && final(mesh)@.has(d),
{
    if !mesh.has_tri_room() {
        return Err(MeshFault::Full);
    }
    let a = mesh.make_triangle();
    if !mesh.has_tri_room() {
        return Err(MeshFault::Full);
    }
    let b = mesh.make_triangle();
    if !mesh.has_tri_room() {
        return Err(MeshFault::Full);
    }
    let c = mesh.make_triangle();
    if !mesh.has_tri_room() {
        return Err(MeshFault::Full);
    }
    let d = mesh.make_triangle();
    Ok((a, b, c, d))
}

/// Three collinear vertices: two edges, all four triangles ghosts.
pub open spec fn two_edges(
    m: MeshView,
    t0: Otri,
    t1: Otri,
    t2: Otri,
    t3: Otri,
    a: VertexId,
    b: VertexId,
    c: VertexId,
) -> MeshView {
    m.with_org(t0, a).with_dest(t0, b).with_org(t1, b).with_dest(t1, a).with_org(t2, c).with_dest(
        t2,
        b,
    ).with_org(t3, b).with_dest(t3, c).bonded(t0, t1).bonded(t2, t3).bonded(
        t0.next(),
        t3.prev(),
    ).bonded(t1.prev(), t2.next()).bonded(t0.next().next(), t1.prev().prev()).bonded(
        t2.next().next(),
        t3.prev().prev(),
    )
}

/// One triangle `a`, `b`, `c`, counter-clockwise, among three ghosts.
pub open spec fn one_triangle(
    m: MeshView,
    t0: Otri,
    t1: Otri,
    t2: Otri,
    t3: Otri,
    a: VertexId,
    b: VertexId,
    c: VertexId,
) -> MeshView {
    m.with_org(t0, a).with_dest(t1, a).with_org(t3, a).with_dest(t0, b).with_org(t1, b).with_dest(
        t2,
        b,
    ).with_corner(t0, c).with_org(t2, c).with_dest(t3, c).bonded(t0, t1).bonded(
        t0.next(),
        t2,
    ).bonded(t0.next().next(), t3).bonded(t1.prev(), t2.next()).bonded(
        t1.prev().prev(),
        t3.prev(),
    ).bonded(t2.next().next(), t3.prev().prev())
}

/// Three vertices: a triangle, or two edges where they are collinear.
pub open spec fn triangle_or_edges(m: MeshView, a: VertexId, b: VertexId, c: VertexId) -> (
    MeshView,
    Result<(Otri, Otri), MeshFault>,
) {
    let (m1, made) = four_made(m);
    match made {
        Err(e) => (m1, Err(e)),
        Ok((t0, t1, t2, t3)) => {
            let area = orient(m.pos(a), m.pos(b), m.pos(c));
            if area == 0 {
                (
                    two_edges(m1, t0, t1, t2, t3, a, b, c),
                    Ok((t1.prev().prev(), t2.next().next())),
                )
            } else if area > 0 {
                (
                    one_triangle(m1, t0, t1, t2, t3, a, b, c),
                    Ok((t1.prev().prev(), t2.next().next())),
                )
            } else {
                (
                    one_triangle(m1, t0, t1, t2, t3, a, c, b),
                    Ok((t1.prev().prev(), t1.prev().prev().next())),
                )
            }
        },
    }
}

/// Build the triangulation of three vertices.
pub fn make_triangle_or_edges(mesh: &mut CdtMesh, a: VertexId, b: VertexId, c: VertexId) -> (r:
    Result<(Otri, Otri), MeshFault>)
    requires
        old(mesh)@.wf(),
        old(mesh)@.has_vertex(a),
        old(mesh)@.has_vertex(b),
        old(mesh)@.has_vertex(c),
    ensures
        (final(mesh)@, r) == triangle_or_edges(old(mesh)@, a, b, c),
        final(mesh)@.wf(),
        final(mesh)@.tri_count >= old(mesh)@.tri_count,
        final(mesh)@.vertices == old(mesh)@.vertices,
        same_subsegs(old(mesh)@, final(mesh)@),
        r matches Ok((x, y)) ==> final(mesh)@.has(x) && final(mesh)@.has(y),
{
    let area: i32 = orient2d(mesh.vertex_pos(a), mesh.vertex_pos(b), mesh.vertex_pos(c));
    let made = make_four(mesh);
    let (mut midtri, mut tri1, mut tri2, mut tri3) = match made {
        Err(e) => return Err(e),
        Ok(t) => t,
    };
    if area == 0 {
        mesh.set_org(midtri, a);
        mesh.set_dest(midtri, b);
        mesh.set_org(tri1, b);
        mesh.set_dest(tri1, a);
        mesh.set_org(tri2, c);
        mesh.set_dest(tri2, b);
        mesh.set_org(tri3, b);
        mesh.set_dest(tri3, c);
        mesh.bond(midtri, tri1);
        mesh.bond(tri2, tri3);
        midtri = midtri.lnext();
        tri1 = tri1.lprev();
        tri2 = tri2.lnext();
        tri3 = tri3.lprev();
        mesh.bond(midtri, tri3);
        mesh.bond(tri1, tri2);
        midtri = midtri.lnext();
        tri1 = tri1.lprev();
        tri2 = tri2.lnext();
        tri3 = tri3.lprev();
        mesh.bond(midtri, tri1);
        mesh.bond(tri2, tri3);
        return Ok((tri1, tri2));
    }
    let (second, third) = if area > 0 {
        (b, c)
    } else {
        (c, b)
    };
    mesh.set_org(midtri, a);
    mesh.set_dest(tri1, a);
    mesh.set_org(tri3, a);
    mesh.set_dest(midtri, second);
    mesh.set_org(tri1, second);
    mesh.set_dest(tri2, second);
    mesh.set_apex(midtri, third);
    mesh.set_org(tri2, third);
    mesh.set_dest(tri3, third);
    mesh.bond(midtri, tri1);
    midtri = midtri.lnext();
    mesh.bond(midtri, tri2);
    midtri = midtri.lnext();
    mesh.bond(midtri, tri3);
    tri1 = tri1.lprev();
    tri2 = tri2.lnext();
    mesh.bond(tri1, tri2);
    tri1 = tri1.lprev();
    tri3 = tri3.lprev();
    mesh.bond(tri1, tri3);
    tri2 = tri2.lnext();
    tri3 = tri3.lprev();
    mesh.bond(tri2, tri3);
    if area > 0 {
        Ok((tri1, tri2))
    } else {
        Ok((tri1, tri1.lnext()))
    }
}

// --- Walking along a hull ---------------------------------------------------

/// Whether vertex `v` lies strictly beyond vertex `w`: lower or higher, on x
/// or on y.
pub open spec fn beyond(m: MeshView, v: VertexId, w: VertexId, on_x: bool, lower: bool) -> bool {
    let (a, b) = if on_x {
        (m.pos(v).vx(), m.pos(w).vx())
    } else {
        (m.pos(v).vy(), m.pos(w).vy())
    };
    if lower {
        a < b
    } else {
        a > b
    }
}

fn is_beyond(mesh: &CdtMesh, v: VertexId, w: VertexId, on_x: bool, lower: bool) -> (r: bool)
    requires
        mesh@.has_vertex(v),
        mesh@.has_vertex(w),
    ensures
        r == beyond(mesh@, v, w, on_x, lower),
{
    let p = mesh.vertex_pos(v);
    let q = mesh.vertex_pos(w);
    let (a, b) = if on_x {
        (p.x, q.x)
    } else {
        (p.y, q.y)
    };
    if lower {
        coord_less(a, b)
    } else {
        coord_less(b, a)
    }
}

/// Sliding along the hull while the apex lies beyond the point held.
pub open spec fn slid(
    m: MeshView,
    edge: Otri,
    pt: VertexId,
    on_x: bool,
    lower: bool,
    forward: bool,
    fuel: nat,
) -> Result<(Otri, VertexId), MeshFault>
    decreases fuel,
{
    let v = m.apex(edge);
    if !v.valid() {
        Ok((edge, pt))
    } else if !m.has_vertex(v) || !m.has_vertex(pt) {
        Err(MeshFault::MissingVertex)
    } else if !beyond(m, v, pt, on_x, lower) {
        Ok((edge, pt))
    } else if fuel == 0 {
        Err(MeshFault::Stalled)
    } else {
        let step = if forward {
            edge.next()
        } else {
            edge.prev()
        };
        slid(m, m.sym(step), v, on_x, lower, forward, (fuel - 1) as nat)
    }
}

fn slide(mesh: &CdtMesh, edge: Otri, pt: VertexId, on_x: bool, lower: bool, forward: bool) -> (r:
    Result<(Otri, VertexId), MeshFault>)
    requires
        mesh@.wf(),
        mesh@.has(edge),
    ensures
        r == slid(mesh@, edge, pt, on_x, lower, forward, STEP_LIMIT as nat),
        r matches Ok((e, _)) ==> mesh@.has(e),
{
    let mut e = edge;
    let mut p = pt;
    let mut fuel: u64 = STEP_LIMIT;
    loop
        invariant
            mesh@.wf(),
            mesh@.has(e),
            slid(mesh@, e, p, on_x, lower, forward, fuel as nat) == slid(
                mesh@,
                edge,
                pt,
                on_x,
                lower,
                forward,
                STEP_LIMIT as nat,
            ),
        decreases fuel,
    {
        let v = mesh.apex(e);
        if !v.is_valid() {
            return Ok((e, p));
        }
        if !known(mesh, v) || !known(mesh, p) {
            return Err(MeshFault::MissingVertex);
        }
        if !is_beyond(mesh, v, p, on_x, lower) {
            return Ok((e, p));
        }
        if fuel == 0 {
            return Err(MeshFault::Stalled);
        }
        fuel -= 1;
        let step = if forward {
            e.lnext()
        } else {
            e.lprev()
        };
        e = mesh.sym(step);
        p = v;
    }
}

/// Climbing along the hull while the apex on the far side of the edge lies
/// beyond the point held; the point held before is the last entry.
pub open spec fn climbed(
    m: MeshView,
    edge: Otri,
    pt: VertexId,
    last: VertexId,
    on_x: bool,
    lower: bool,
    forward: bool,
    fuel: nat,
) -> Result<(Otri, VertexId, VertexId), MeshFault>
    decreases fuel,
{
    let check = m.sym(edge);
    let v = m.apex(check);
    if !v.valid() {
        Ok((edge, pt, last))
    } else if !m.has_vertex(v) || !m.has_vertex(pt) {
        Err(MeshFault::MissingVertex)
    } else if !beyond(m, v, pt, on_x, lower) {
        Ok((edge, pt, last))
    } else if fuel == 0 {
        Err(MeshFault::Stalled)
    } else {
        let step = if forward {
            check.next()
        } else {
            check.prev()
        };
        climbed(m, step, v, pt, on_x, lower, forward, (fuel - 1) as nat)
    }
}

fn climb(
    mesh: &CdtMesh,
    edge: Otri,
    pt: VertexId,
    last: VertexId,
    on_x: bool,
    lower: bool,
    forward: bool,
) -> (r: Result<(Otri, VertexId, VertexId), MeshFault>)
    requires
        mesh@.wf(),
        mesh@.has(edge),
    ensures
        r == climbed(mesh@, edge, pt, last, on_x, lower, forward, STEP_LIMIT as nat),
        r matches Ok((e, _, _)) ==> mesh@.has(e),
{
    let mut e = edge;
    let mut p = pt;
    let mut l = last;
    let mut fuel: u64 = STEP_LIMIT;
    loop
        invariant
            mesh@.wf(),
            mesh@.has(e),
            climbed(mesh@, e, p, l, on_x, lower, forward, fuel as nat) == climbed(
                mesh@,
                edge,
                pt,
                last,
                on_x,
                lower,
                forward,
                STEP_LIMIT as nat,
            ),
        decreases fuel,
    {
        let check = mesh.sym(e);
        let v = mesh.apex(check);
        if !v.is_valid() {
            return Ok((e, p, l));
        }
        if !known(mesh, v) || !known(mesh, p) {
            return Err(MeshFault::MissingVertex);
        }
        if !is_beyond(mesh, v, p, on_x, lower) {
            return Ok((e, p, l));
        }
        if fuel == 0 {
            return Err(MeshFault::Stalled);
        }
        fuel -= 1;
        e = if forward {
            check.lnext()
        } else {
            check.lprev()
        };
        l = p;
        p = v;
    }
}

// --- The lower tangent ------------------------------------------------------

/// The two inner hull edges between which the lower tangent is sought, with
/// the ends and apexes that the search looks at.
#[derive(Copy, Clone, Debug, PartialEq, Eq, Structural)]
pub struct Tangent {
    pub left: Otri,
    pub left_dest: VertexId,
    pub left_apex: VertexId,
    pub right: Otri,
    pub right_org: VertexId,
    pub right_apex: VertexId,
}

/// The left edge moved down where its next vertex is below the line, and
/// whether it moved.
pub open spec fn left_lowered(m: MeshView, t: Tangent) -> Result<(Tangent, bool), MeshFault> {
    if !t.left_apex.valid() {
        Ok((t, false))
    } else if !m.has_vertex(t.left_dest) || !m.has_vertex(t.left_apex) || !m.has_vertex(
        t.right_org,
    ) {
        Err(MeshFault::MissingVertex)
    } else if orient(m.pos(t.left_dest), m.pos(t.left_apex), m.pos(t.right_org)) > 0 {
        let e = m.sym(t.left.prev());
        Ok((Tangent { left: e, left_dest: t.left_apex, left_apex: m.apex(e), ..t }, true))
    } else {
        Ok((t, false))
    }
}

/// The right edge moved down where its next vertex is below the line, and
/// whether it moved.
pub open spec fn right_lowered(m: MeshView, t: Tangent) -> Result<(Tangent, bool), MeshFault> {
    if !t.right_apex.valid() {
        Ok((t, false))
    } else if !m.has_vertex(t.left_dest) || !m.has_vertex(t.right_apex) || !m.has_vertex(
        t.right_org,
    ) {
        Err(MeshFault::MissingVertex)
    } else if orient(m.pos(t.right_apex), m.pos(t.right_org), m.pos(t.left_dest)) > 0 {
        let e = m.sym(t.right.next());
        Ok((Tangent { right: e, right_org: t.right_apex, right_apex: m.apex(e), ..t }, true))
    } else {
        Ok((t, false))
    }
}

/// Both edges moved down until neither moves.
pub open spec fn lowered(m: MeshView, t: Tangent, fuel: nat) -> Result<Tangent, MeshFault>
    decreases fuel,
{
    match left_lowered(m, t) {
        Err(e) => Err(e),
        Ok((t1, moved1)) => match right_lowered(m, t1) {
            Err(e) => Err(e),
            Ok((t2, moved2)) => if !moved1 && !moved2 {
                Ok(t2)
            } else if fuel == 0 {
                Err(MeshFault::Stalled)
            } else {
                lowered(m, t2, (fuel - 1) as nat)
            },
        },
    }
}

fn lower_left(mesh: &CdtMesh, t: Tangent) -> (r: Result<(Tangent, bool), MeshFault>)
    requires
        mesh@.wf(),
        mesh@.has(t.left),
        mesh@.has(t.right),
    ensures
        r == left_lowered(mesh@, t),
        r matches Ok((u, _)) ==> mesh@.has(u.left) && mesh@.has(u.right),
{
    if !t.left_apex.is_valid() {
        return Ok((t, false));
    }
    if !known(mesh, t.left_dest) || !known(mesh, t.left_apex) || !known(mesh, t.right_org) {
        return Err(MeshFault::MissingVertex);
    }
    let o: i32 = orient2d(
        mesh.vertex_pos(t.left_dest),
        mesh.vertex_pos(t.left_apex),
        mesh.vertex_pos(t.right_org),
    );
    if o > 0 {
        let e = mesh.sym(t.left.lprev());
        let u = Tangent {
            left: e,
            left_dest: t.left_apex,
            left_apex: mesh.apex(e),
            right: t.right,
            right_org: t.right_org,
            right_apex: t.right_apex,
        };
        Ok((u, true))
    } else {
        Ok((t, false))
    }
}

fn lower_right(mesh: &CdtMesh, t: Tangent) -> (r: Result<(Tangent, bool), MeshFault>)
    requires
        mesh@.wf(),
        mesh@.has(t.left),
        mesh@.has(t.right),
    ensures
        r == right_lowered(mesh@, t),
        r matches Ok((u, _)) ==> mesh@.has(u.left) && mesh@.has(u.right),
{
    if !t.right_apex.is_valid() {
        return Ok((t, false));
    }
    if !known(mesh, t.left_dest) || !known(mesh, t.right_apex) || !known(mesh, t.right_org) {
        return Err(MeshFault::MissingVertex);
    }
    let o: i32 = orient2d(
        mesh.vertex_pos(t.right_apex),
        mesh.vertex_pos(t.right_org),
        mesh.vertex_pos(t.left_dest),
    );
    if o > 0 {
        let e = mesh.sym(t.right.lnext());
        let u = Tangent {
            left: t.left,
            left_dest: t.left_dest,
            left_apex: t.left_apex,
            right: e,
            right_org: t.right_apex,
            right_apex: mesh.apex(e),
        };
        Ok((u, true))
    } else {
        Ok((t, false))
    }
}

fn lower_tangent(mesh: &CdtMesh, start: Tangent) -> (r: Result<Tangent, MeshFault>)
    requires
        mesh@.wf(),
        mesh@.has(start.left),
        mesh@.has(start.right),
    ensures
        r == lowered(mesh@, start, STEP_LIMIT as nat),
        r matches Ok(u) ==> mesh@.has(u.left) && mesh@.has(u.right),
{
    let mut t = start;
    let mut fuel: u64 = STEP_LIMIT;
    loop
        invariant
            mesh@.wf(),
            mesh@.has(t.left),
            mesh@.has(t.right),
            lowered(mesh@, t, fuel as nat) == lowered(mesh@, start, STEP_LIMIT as nat),
        decreases fuel,
    {
        let first = lower_left(mesh, t);
        let (t1, moved1) = match first {
            Err(e) => return Err(e),
            Ok(x) => x,
        };
        let second = lower_right(mesh, t1);
        let (t2, moved2) = match second {
            Err(e) => return Err(e),
            Ok(x) => x,
        };
        if !moved1 && !moved2 {
            return Ok(t2);
        }
        if fuel == 0 {
            return Err(MeshFault::Stalled);
        }
        fuel -= 1;
        t = t2;
    }
}

// --- Knitting ---------------------------------------------------------------

/// Where the knitting of two hulls stands: the base edge joins `lower_left`
/// and `lower_right`; the candidates above are `upper_left`, apex of
/// `left_cand`, and `upper_right`, apex of `right_cand`.
#[derive(Copy, Clone, Debug, PartialEq, Eq, Structural)]
pub struct Seam {
    pub left_cand: Otri,
    pub right_cand: Otri,
    pub base: Otri,
    pub lower_left: VertexId,
    pub lower_right: VertexId,
    pub upper_left: VertexId,
    pub upper_right: VertexId,
}

/// Whether a side has no candidate left above the base edge.
pub open spec fn finished(m: MeshView, upper: VertexId, ll: VertexId, lr: VertexId) -> Result<
    bool,
    MeshFault,
> {
    if !upper.valid() {
        Ok(true)
    } else if !m.has_vertex(upper) || !m.has_vertex(ll) || !m.has_vertex(lr) {
        Err(MeshFault::MissingVertex)
    } else {
        Ok(orient(m.pos(upper), m.pos(ll), m.pos(lr)) <= 0)
    }
}

fn is_finished(mesh: &CdtMesh, upper: VertexId, ll: VertexId, lr: VertexId) -> (r: Result<
    bool,
    MeshFault,
>)
    ensures
        r == finished(mesh@, upper, ll, lr),
{
    if !upper.is_valid() {
        return Ok(true);
    }
    if !known(mesh, upper) || !known(mesh, ll) || !known(mesh, lr) {
        return Err(MeshFault::MissingVertex);
    }
    Ok(orient2d(mesh.vertex_pos(upper), mesh.vertex_pos(ll), mesh.vertex_pos(lr)) <= 0)
}

/// Whether the vertex `next` breaks the circle through the base edge and the
/// candidate `upper`.
pub open spec fn breaks_circle(
    m: MeshView,
    ll: VertexId,
    lr: VertexId,
    upper: VertexId,
    next: VertexId,
) -> Result<bool, MeshFault> {
    if !next.valid() {
        Ok(false)
    } else if !m.has_vertex(ll) || !m.has_vertex(lr) || !m.has_vertex(upper) || !m.has_vertex(
        next,
    ) {
        Err(MeshFault::MissingVertex)
    } else {
        Ok(in_circle(m.pos(ll), m.pos(lr), m.pos(upper), m.pos(next)) > 0)
    }
}

fn does_break_circle(
    mesh: &CdtMesh,
    ll: VertexId,
    lr: VertexId,
    upper: VertexId,
    next: VertexId,
) -> (r: Result<bool, MeshFault>)
    ensures
        r == breaks_circle(mesh@, ll, lr, upper, next),
{
    if !next.is_valid() {
        return Ok(false);
    }
    if !known(mesh, ll) || !known(mesh, lr) || !known(mesh, upper) || !known(mesh, next) {
        return Err(MeshFault::MissingVertex);
    }
    Ok(
        incircle(
            mesh.vertex_pos(ll),
            mesh.vertex_pos(lr),
            mesh.vertex_pos(upper),
            mesh.vertex_pos(next),
        ) > 0,
    )
}

/// One edge of the left hull taken out: its triangle becomes a ghost and the
/// candidate edge moves to the triangle beyond.
pub open spec fn left_edge_out(
    m: MeshView,
    cand: Otri,
    next: Otri,
    ll: VertexId,
    upper: VertexId,
) -> MeshView {
    let far = m.apex(next);
    let n2 = next.next().next();
    let m1 = m.bonded(n2, m.sym(next.next())).bonded(cand, m.sym(n2));
    let m2 = m1.bonded(n2.prev(), m1.sym(cand.next()));
    m2.with_org(cand.next(), ll).with_dest(cand.next(), no_vertex()).with_corner(
        cand.next(),
        far,
    ).with_org(n2.prev(), no_vertex()).with_dest(n2.prev(), upper).with_corner(n2.prev(), far)
}

/// Edges of the left hull taken out while the next vertex breaks the circle:
/// the mesh, the candidate edge and the candidate vertex left.
#[verifier::opaque]
pub open spec fn left_purged(
    m: MeshView,
    cand: Otri,
    next: Otri,
    ll: VertexId,
    lr: VertexId,
    upper: VertexId,
    fuel: nat,
) -> (MeshView, Otri, VertexId, Result<(), MeshFault>)
    decreases fuel,
{
    match breaks_circle(m, ll, lr, upper, m.apex(next)) {
        Err(e) => (m, cand, upper, Err(e)),
        Ok(bad) => if !bad {
            (m, cand, upper, Ok(()))
        } else if fuel == 0 {
            (m, cand, upper, Err(MeshFault::Stalled))
        } else {
            left_purged(
                left_edge_out(m, cand, next, ll, upper),
                cand.next(),
                m.sym(next.next().next()),
                ll,
                lr,
                m.apex(next),
                (fuel - 1) as nat,
            )
        },
    }
}

/// One edge of the right hull taken out.
pub open spec fn right_edge_out(
    m: MeshView,
    cand: Otri,
    next: Otri,
    lr: VertexId,
    upper: VertexId,
) -> MeshView {
    let far = m.apex(next);
    let n2 = next.prev().prev();
    let m1 = m.bonded(n2, m.sym(next.prev())).bonded(cand, m.sym(n2));
    let m2 = m1.bonded(n2.next(), m1.sym(cand.prev()));
    m2.with_org(cand.prev(), no_vertex()).with_dest(cand.prev(), lr).with_corner(
        cand.prev(),
        far,
    ).with_org(n2.next(), upper).with_dest(n2.next(), no_vertex()).with_corner(n2.next(), far)
}

/// Edges of the right hull taken out while the next vertex breaks the circle.
#[verifier::opaque]
pub open spec fn right_purged(
    m: MeshView,
    cand: Otri,
    next: Otri,
    ll: VertexId,
    lr: VertexId,
    upper: VertexId,
    fuel: nat,
) -> (MeshView, Otri, VertexId, Result<(), MeshFault>)
    decreases fuel,
{
    match breaks_circle(m, ll, lr, upper, m.apex(next)) {
        Err(e) => (m, cand, upper, Err(e)),
        Ok(bad) => if !bad {
            (m, cand, upper, Ok(()))
        } else if fuel == 0 {
            (m, cand, upper, Err(MeshFault::Stalled))
        } else {
            right_purged(
                right_edge_out(m, cand, next, lr, upper),
                cand.prev(),
                m.sym(next.prev().prev()),
                ll,
                lr,
                m.apex(next),
                (fuel - 1) as nat,
            )
        },
    }
}

fn purge_left(
    mesh: &mut CdtMesh,
    cand0: Otri,
    ll: VertexId,
    lr: VertexId,
    upper0: VertexId,
) -> (r: (Otri, VertexId, Result<(), MeshFault>))
    requires
        old(mesh)@.wf(),
        old(mesh)@.has(cand0),
    ensures
        (final(mesh)@, r.0, r.1, r.2) == left_purged(
            old(mesh)@,
            cand0,
            old(mesh)@.sym(cand0.prev()),
            ll,
            lr,
            upper0,
            STEP_LIMIT as nat,
        ),
        final(mesh)@.wf(),
        final(mesh)@.has(r.0),
        final(mesh)@.tri_count == old(mesh)@.tri_count,
        final(mesh)@.vertices == old(mesh)@.vertices,
        same_subsegs(old(mesh)@, final(mesh)@),
{
    let mut leftcand = cand0;
    let mut upperleft = upper0;
    let mut nextedge = mesh.sym(leftcand.lprev());
    let mut fuel: u64 = STEP_LIMIT;
    loop
        invariant
            mesh@.wf(),
            mesh@.has(leftcand),
            mesh@.has(nextedge),
            mesh@.tri_count == old(mesh)@.tri_count,
            mesh@.vertices == old(mesh)@.vertices,
            same_subsegs(old(mesh)@, mesh@),
            left_purged(mesh@, leftcand, nextedge, ll, lr, upperleft, fuel as nat) == left_purged(
                old(mesh)@,
                cand0,
                old(mesh)@.sym(cand0.prev()),
                ll,
                lr,
                upper0,
                STEP_LIMIT as nat,
            ),
        decreases fuel,
    {
        reveal(left_purged);
        let nextapex = mesh.apex(nextedge);
        let bad = does_break_circle(mesh, ll, lr, upperleft, nextapex);
        match bad {
            Err(e) => return (leftcand, upperleft, Err(e)),
            Ok(b) => {
                if !b {
                    return (leftcand, upperleft, Ok(()));
                }
            },
        }
        if fuel == 0 {
            return (leftcand, upperleft, Err(MeshFault::Stalled));
        }
        fuel -= 1;
        nextedge = nextedge.lnext();
        let topcasing = mesh.sym(nextedge);
        nextedge = nextedge.lnext();
        let sidecasing = mesh.sym(nextedge);
        mesh.bond(nextedge, topcasing);
        mesh.bond(leftcand, sidecasing);
        leftcand = leftcand.lnext();
        let outercasing = mesh.sym(leftcand);
        nextedge = nextedge.lprev();
        mesh.bond(nextedge, outercasing);
        mesh.set_org(leftcand, ll);
        mesh.set_dest(leftcand, VertexId::invalid());
        mesh.set_apex(leftcand, nextapex);
        mesh.set_org(nextedge, VertexId::invalid());
        mesh.set_dest(nextedge, upperleft);
        mesh.set_apex(nextedge, nextapex);
        upperleft = nextapex;
        nextedge = sidecasing;
    }
}

fn purge_right(
    mesh: &mut CdtMesh,
    cand0: Otri,
    ll: VertexId,
    lr: VertexId,
    upper0: VertexId,
) -> (r: (Otri, VertexId, Result<(), MeshFault>))
    requires
        old(mesh)@.wf(),
        old(mesh)@.has(cand0),
    ensures
        (final(mesh)@, r.0, r.1, r.2) == right_purged(
            old(mesh)@,
            cand0,
            old(mesh)@.sym(cand0.next()),
            ll,
            lr,
            upper0,
            STEP_LIMIT as nat,
        ),
        final(mesh)@.wf(),
        final(mesh)@.has(r.0),
        final(mesh)@.tri_count == old(mesh)@.tri_count,
        final(mesh)@.vertices == old(mesh)@.vertices,
        same_subsegs(old(mesh)@, final(mesh)@),
{
    let mut rightcand = cand0;
    let mut upperright = upper0;
    let mut nextedge = mesh.sym(rightcand.lnext());
    let mut fuel: u64 = STEP_LIMIT;
    loop
        invariant
            mesh@.wf(),
            mesh@.has(rightcand),
            mesh@.has(nextedge),
            mesh@.tri_count == old(mesh)@.tri_count,
            mesh@.vertices == old(mesh)@.vertices,
            same_subsegs(old(mesh)@, mesh@),
            right_purged(mesh@, rightcand, nextedge, ll, lr, upperright, fuel as nat)
                == right_purged(
                old(mesh)@,
                cand0,
                old(mesh)@.sym(cand0.next()),
                ll,
                lr,
                upper0,
                STEP_LIMIT as nat,
            ),
        decreases fuel,
    {
        reveal(right_purged);
        let nextapex = mesh.apex(nextedge);
        let bad = does_break_circle(mesh, ll, lr, upperright, nextapex);
        match bad {
            Err(e) => return (rightcand, upperright, Err(e)),
            Ok(b) => {
                if !b {
                    return (rightcand, upperright, Ok(()));
                }
            },
        }
        if fuel == 0 {
            return (rightcand, upperright, Err(MeshFault::Stalled));
        }
        fuel -= 1;
        nextedge = nextedge.lprev();
        let topcasing = mesh.sym(nextedge);
        nextedge = nextedge.lprev();
        let sidecasing = mesh.sym(nextedge);
        mesh.bond(nextedge, topcasing);
        mesh.bond(rightcand, sidecasing);
        rightcand = rightcand.lprev();
        let outercasing = mesh.sym(rightcand);
        nextedge = nextedge.lnext();
        mesh.bond(nextedge, outercasing);
        mesh.set_org(rightcand, VertexId::invalid());
        mesh.set_dest(rightcand, lr);
        mesh.set_apex(rightcand, nextapex);
        mesh.set_org(nextedge, upperright);
        mesh.set_dest(nextedge, VertexId::invalid());
        mesh.set_apex(nextedge, nextapex);
        upperright = nextapex;
        nextedge = sidecasing;
    }
}

/// Whether the next tooth of the seam joins `lower_left` to `upper_right`.
pub open spec fn joins_right(m: MeshView, s: Seam, left_done: bool, right_done: bool) -> Result<
    bool,
    MeshFault,
> {
    if left_done {
        Ok(true)
    } else if right_done {
        Ok(false)
    } else if !m.has_vertex(s.upper_left) || !m.has_vertex(s.lower_left) || !m.has_vertex(
        s.lower_right,
    ) || !m.has_vertex(s.upper_right) {
        Err(MeshFault::MissingVertex)
    } else {
        Ok(
            in_circle(
                m.pos(s.upper_left),
                m.pos(s.lower_left),
                m.pos(s.lower_right),
                m.pos(s.upper_right),
            ) > 0,
        )
    }
}

fn does_join_right(mesh: &CdtMesh, s: Seam, left_done: bool, right_done: bool) -> (r: Result<
    bool,
    MeshFault,
>)
    ensures
        r == joins_right(mesh@, s, left_done, right_done),
{
    if left_done {
        return Ok(true);
    }
    if right_done {
        return Ok(false);
    }
    if !known(mesh, s.upper_left) || !known(mesh, s.lower_left) || !known(mesh, s.lower_right)
        || !known(mesh, s.upper_right) {
        return Err(MeshFault::MissingVertex);
    }
    Ok(
        incircle(
            mesh.vertex_pos(s.upper_left),
            mesh.vertex_pos(s.lower_left),
            mesh.vertex_pos(s.lower_right),
            mesh.vertex_pos(s.upper_right),
        ) > 0,
    )
}

/// The seam after one more edge across it.
pub open spec fn toothed(m: MeshView, s: Seam, right: bool) -> (MeshView, Seam) {
    if right {
        let base = s.right_cand.prev();
        let m1 = m.bonded(s.base, s.right_cand).with_dest(base, s.lower_left);
        let cand = m1.sym(base);
        (
            m1,
            Seam {
                base,
                lower_right: s.upper_right,
                right_cand: cand,
                upper_right: m1.apex(cand),
                ..s
            },
        )
    } else {
        let base = s.left_cand.next();
        let m1 = m.bonded(s.base, s.left_cand).with_org(base, s.lower_right);
        let cand = m1.sym(base);
        (
            m1,
            Seam {
                base,
                lower_left: s.upper_left,
                left_cand: cand,
                upper_left: m1.apex(cand),
                ..s
            },
        )
    }
}

fn add_tooth(mesh: &mut CdtMesh, s: Seam, right: bool) -> (r: Seam)
    requires
        old(mesh)@.wf(),
        seam_in(old(mesh)@, s),
    ensures
        (final(mesh)@, r) == toothed(old(mesh)@, s, right),
        final(mesh)@.wf(),
        seam_in(final(mesh)@, r),
        final(mesh)@.tri_count == old(mesh)@.tri_count,
        final(mesh)@.vertices == old(mesh)@.vertices,
        same_subsegs(old(mesh)@, final(mesh)@),
{
    if right {
        mesh.bond(s.base, s.right_cand);
        let base = s.right_cand.lprev();
        mesh.set_dest(base, s.lower_left);
        let cand = mesh.sym(base);
        Seam {
            base,
            lower_right: s.upper_right,
            right_cand: cand,
            upper_right: mesh.apex(cand),
            left_cand: s.left_cand,
            lower_left: s.lower_left,
            upper_left: s.upper_left,
        }
    } else {
        mesh.bond(s.base, s.left_cand);
        let base = s.left_cand.lnext();
        mesh.set_org(base, s.lower_right);
        let cand = mesh.sym(base);
        Seam {
            base,
            lower_left: s.upper_left,
            left_cand: cand,
            upper_left: mesh.apex(cand),
            right_cand: s.right_cand,
            lower_right: s.lower_right,
            upper_right: s.upper_right,
        }
    }
}

/// Whether the edges of a seam are edges of the mesh.
pub open spec fn seam_in(m: MeshView, s: Seam) -> bool {
    m.has(s.left_cand) && m.has(s.right_cand) && m.has(s.base)
}

/// The seam after the edges that the next tooth would break are taken out.
pub open spec fn cleared(m: MeshView, s: Seam, left_done: bool, right_done: bool) -> (
    MeshView,
    Seam,
    Result<(), MeshFault>,
) {
    let (m1, lc, ul, r1) = if left_done {
        (m, s.left_cand, s.upper_left, Ok(()))
    } else {
        left_purged(
            m,
            s.left_cand,
            m.sym(s.left_cand.prev()),
            s.lower_left,
            s.lower_right,
            s.upper_left,
            STEP_LIMIT as nat,
        )
    };
    let s1 = Seam { left_cand: lc, upper_left: ul, ..s };
    match r1 {
        Err(e) => (m1, s1, Err(e)),
        Ok(_) => {
            let (m2, rc, ur, r2) = if right_done {
                (m1, s.right_cand, s.upper_right, Ok(()))
            } else {
                right_purged(
                    m1,
                    s.right_cand,
                    m1.sym(s.right_cand.next()),
                    s.lower_left,
                    s.lower_right,
                    s.upper_right,
                    STEP_LIMIT as nat,
                )
            };
            (m2, Seam { right_cand: rc, upper_right: ur, ..s1 }, r2)
        },
    }
}

fn clear(mesh: &mut CdtMesh, s: Seam, left_done: bool, right_done: bool) -> (r: (
    Seam,
    Result<(), MeshFault>,
))
    requires
        old(mesh)@.wf(),
        seam_in(old(mesh)@, s),
    ensures
        (final(mesh)@, r.0, r.1) == cleared(old(mesh)@, s, left_done, right_done),
        final(mesh)@.wf(),
        seam_in(final(mesh)@, r.0),
        final(mesh)@.tri_count == old(mesh)@.tri_count,
        final(mesh)@.vertices == old(mesh)@.vertices,
        same_subsegs(old(mesh)@, final(mesh)@),
{
    let mut t = s;
    if !left_done {
        let (cand, upper, r) = purge_left(
            mesh,
            s.left_cand,
            s.lower_left,
            s.lower_right,
            s.upper_left,
        );
        t.left_cand = cand;
        t.upper_left = upper;
        if let Err(e) = r {
            return (t, Err(e));
        }
    }
    if !right_done {
        let (cand, upper, r) = purge_right(
            mesh,
            s.right_cand,
            s.lower_left,
            s.lower_right,
            s.upper_right,
        );
        t.right_cand = cand;
        t.upper_right = upper;
        return (t, r);
    }
    (t, Ok(()))
}

/// The two hulls knitted together, tooth by tooth, until neither side has a
/// candidate left.
#[verifier::opaque]
pub open spec fn knitted(m: MeshView, s: Seam, fuel: nat) -> (
    MeshView,
    Seam,
    Result<(), MeshFault>,
)
    decreases fuel,
{
    match (
        finished(m, s.upper_left, s.lower_left, s.lower_right),
        finished(m, s.upper_right, s.lower_left, s.lower_right),
    ) {
        (Err(e), _) => (m, s, Err(e)),
        (_, Err(e)) => (m, s, Err(e)),
        (Ok(left_done), Ok(right_done)) => if left_done && right_done {
            (m, s, Ok(()))
        } else {
            let (m1, s1, r) = cleared(m, s, left_done, right_done);
            match (r, joins_right(m1, s1, left_done, right_done)) {
                (Err(e), _) => (m1, s1, Err(e)),
                (_, Err(e)) => (m1, s1, Err(e)),
                (Ok(_), Ok(right)) => {
                    let (m2, s2) = toothed(m1, s1, right);
                    if fuel == 0 {
                        (m2, s2, Err(MeshFault::Stalled))
                    } else {
                        knitted(m2, s2, (fuel - 1) as nat)
                    }
                },
            }
        },
    }
}

fn knit(mesh: &mut CdtMesh, start: Seam) -> (r: (Seam, Result<(), MeshFault>))
    requires
        old(mesh)@.wf(),
        seam_in(old(mesh)@, start),
    ensures
        (final(mesh)@, r.0, r.1) == knitted(old(mesh)@, start, STEP_LIMIT as nat),
        final(mesh)@.wf(),
        seam_in(final(mesh)@, r.0),
        final(mesh)@.tri_count == old(mesh)@.tri_count,
        final(mesh)@.vertices == old(mesh)@.vertices,
        same_subsegs(old(mesh)@, final(mesh)@),
{
    let mut s = start;
    let mut fuel: u64 = STEP_LIMIT;
    loop
        invariant
            mesh@.wf(),
            seam_in(mesh@, s),
            mesh@.tri_count == old(mesh)@.tri_count,
            mesh@.vertices == old(mesh)@.vertices,
            same_subsegs(old(mesh)@, mesh@),
            knitted(mesh@, s, fuel as nat) == knitted(old(mesh)@, start, STEP_LIMIT as nat),
        decreases fuel,
    {
        reveal(knitted);
        let left = is_finished(mesh, s.upper_left, s.lower_left, s.lower_right);
        let left_done = match left {
            Err(e) => return (s, Err(e)),
            Ok(d) => d,
        };
        let right = is_finished(mesh, s.upper_right, s.lower_left, s.lower_right);
        let right_done = match right {
            Err(e) => return (s, Err(e)),
            Ok(d) => d,
        };
        if left_done && right_done {
            return (s, Ok(()));
        }
        let (s1, cleared_ok) = clear(mesh, s, left_done, right_done);
        s = s1;
        if let Err(e) = cleared_ok {
            return (s, Err(e));
        }
        let side = does_join_right(mesh, s, left_done, right_done);
        let to_right = match side {
            Err(e) => return (s, Err(e)),
            Ok(d) => d,
        };
        s = add_tooth(mesh, s, to_right);
        if fuel == 0 {
            return (s, Err(MeshFault::Stalled));
        }
        fuel -= 1;
    }
}

// --- Merging ----------------------------------------------------------------

/// The four hull edges that a merge starts from: the outermost edges of the
/// two hulls and the edges where they face each other.
pub open spec fn merge_prepared(
    m: MeshView,
    farleft: Otri,
    innerleft: Otri,
    innerright: Otri,
    farright: Otri,
    vertical: bool,
) -> Result<(Otri, Tangent, Otri), MeshFault> {
    let t = Tangent {
        left: innerleft,
        left_dest: m.dest(innerleft),
        left_apex: m.apex(innerleft),
        right: innerright,
        right_org: m.org(innerright),
        right_apex: m.apex(innerright),
    };
    if !vertical {
        Ok((farleft, t, farright))
    } else {
        match slid(m, farleft, m.org(farleft), false, true, true, STEP_LIMIT as nat) {
            Err(e) => Err(e),
            Ok((fl, _)) => match climbed(
                m,
                innerleft,
                t.left_dest,
                t.left_apex,
                false,
                false,
                true,
                STEP_LIMIT as nat,
            ) {
                Err(e) => Err(e),
                Ok((il, ild, ila)) => match slid(
                    m,
                    innerright,
                    t.right_org,
                    false,
                    true,
                    true,
                    STEP_LIMIT as nat,
                ) {
                    Err(e) => Err(e),
                    Ok((ir, iro)) => match climbed(
                        m,
                        farright,
                        m.dest(farright),
                        m.apex(farright),
                        false,
                        false,
                        true,
                        STEP_LIMIT as nat,
                    ) {
                        Err(e) => Err(e),
                        Ok((fr, _, _)) => Ok(
                            (
                                fl,
                                Tangent {
                                    left: il,
                                    left_dest: ild,
                                    left_apex: ila,
                                    right: ir,
                                    right_org: iro,
                                    right_apex: m.apex(ir),
                                },
                                fr,
                            ),
                        ),
                    },
                },
            },
        }
    }
}

fn prepare_merge(
    mesh: &CdtMesh,
    farleft: Otri,
    innerleft: Otri,
    innerright: Otri,
    farright: Otri,
    vertical: bool,
) -> (r: Result<(Otri, Tangent, Otri), MeshFault>)
    requires
        mesh@.wf(),
        mesh@.has(farleft),
        mesh@.has(innerleft),
        mesh@.has(innerright),
        mesh@.has(farright),
    ensures
        r == merge_prepared(mesh@, farleft, innerleft, innerright, farright, vertical),
        r matches Ok((a, t, b)) ==> mesh@.has(a) && mesh@.has(t.left) && mesh@.has(t.right)
            && mesh@.has(b),
{
    let mut t = Tangent {
        left: innerleft,
        left_dest: mesh.dest(innerleft),
        left_apex: mesh.apex(innerleft),
        right: innerright,
        right_org: mesh.org(innerright),
        right_apex: mesh.apex(innerright),
    };
    if !vertical {
        return Ok((farleft, t, farright));
    }
    let fl = match slide(mesh, farleft, mesh.org(farleft), false, true, true) {
        Err(e) => return Err(e),
        Ok((edge, _)) => edge,
    };
    match climb(mesh, innerleft, t.left_dest, t.left_apex, false, false, true) {
        Err(e) => return Err(e),
        Ok((edge, dest, apex)) => {
            t.left = edge;
            t.left_dest = dest;
            t.left_apex = apex;
        },
    }
    match slide(mesh, innerright, t.right_org, false, true, true) {
        Err(e) => return Err(e),
        Ok((edge, org)) => {
            t.right = edge;
            t.right_org = org;
            t.right_apex = mesh.apex(edge);
        },
    }
    let fr = match climb(
        mesh,
        farright,
        mesh.dest(farright),
        mesh.apex(farright),
        false,
        false,
        true,
    ) {
        Err(e) => return Err(e),
        Ok((edge, _, _)) => edge,
    };
    Ok((fl, t, fr))
}

/// The ghost triangle below the lower tangent, and the seam that starts
/// there.
pub open spec fn seam_opened(m: MeshView, t: Tangent) -> (MeshView, Seam) {
    let b = Otri { tri: m.next_tri(), orient: 0 };
    let base = b.next().next();
    let m1 = m.with_triangle().bonded(b, t.left).bonded(b.next(), t.right).with_org(
        base,
        t.right_org,
    ).with_dest(base, t.left_dest);
    let left_cand = m.sym(t.left);
    let right_cand = m.sym(t.right);
    (
        m1,
        Seam {
            left_cand,
            right_cand,
            base,
            lower_left: t.left_dest,
            lower_right: t.right_org,
            upper_left: m1.apex(left_cand),
            upper_right: m1.apex(right_cand),
        },
    )
}

fn open_seam(mesh: &mut CdtMesh, t: Tangent) -> (r: Seam)
    requires
        old(mesh)@.wf(),
        old(mesh)@.has(t.left),
        old(mesh)@.has(t.right),
        old(mesh)@.tri_room(),
    ensures
        (final(mesh)@, r) == seam_opened(old(mesh)@, t),
        final(mesh)@.wf(),
        seam_in(final(mesh)@, r),
        final(mesh)@.tri_count >= old(mesh)@.tri_count,
        final(mesh)@.vertices == old(mesh)@.vertices,
        same_subsegs(old(mesh)@, final(mesh)@),
{
    let left_cand = mesh.sym(t.left);
    let right_cand = mesh.sym(t.right);
    let mut base = mesh.make_triangle();
    mesh.bond(base, t.left);
    base = base.lnext();
    mesh.bond(base, t.right);
    base = base.lnext();
    mesh.set_org(base, t.right_org);
    mesh.set_dest(base, t.left_dest);
    Seam {
        left_cand,
        right_cand,
        base,
        lower_left: t.left_dest,
        lower_right: t.right_org,
        upper_left: mesh.apex(left_cand),
        upper_right: mesh.apex(right_cand),
    }
}

/// The ghost triangle above the last edge of the seam.
pub open spec fn seam_closed(m: MeshView, s: Seam) -> MeshView {
    let n = Otri { tri: m.next_tri(), orient: 0 };
    m.with_triangle().with_org(n, s.lower_left).with_dest(n, s.lower_right).bonded(
        n,
        s.base,
    ).bonded(n.next(), s.right_cand).bonded(n.next().next(), s.left_cand)
}

fn close_seam(mesh: &mut CdtMesh, s: Seam)
    requires
        old(mesh)@.wf(),
        seam_in(old(mesh)@, s),
        old(mesh)@.tri_room(),
    ensures
        final(mesh)@ == seam_closed(old(mesh)@, s),
        final(mesh)@.wf(),
        final(mesh)@.tri_count >= old(mesh)@.tri_count,
        final(mesh)@.vertices == old(mesh)@.vertices,
        same_subsegs(old(mesh)@, final(mesh)@),
{
    let mut n = mesh.make_triangle();
    mesh.set_org(n, s.lower_left);
    mesh.set_dest(n, s.lower_right);
    mesh.bond(n, s.base);
    n = n.lnext();
    mesh.bond(n, s.right_cand);
    n = n.lnext();
    mesh.bond(n, s.left_cand);
}

/// The outermost edges of a merged hull: leftmost and rightmost.
pub open spec fn merge_restored(m: MeshView, farleft: Otri, farright: Otri, vertical: bool) -> Result<
    (Otri, Otri),
    MeshFault,
> {
    if !vertical {
        Ok((farleft, farright))
    } else {
        match climbed(
            m,
            farleft,
            m.org(farleft),
            m.apex(farleft),
            true,
            true,
            false,
            STEP_LIMIT as nat,
        ) {
            Err(e) => Err(e),
            Ok((fl, _, _)) => match slid(
                m,
                farright,
                m.dest(farright),
                true,
                false,
                false,
                STEP_LIMIT as nat,
            ) {
                Err(e) => Err(e),
                Ok((fr, _)) => Ok((fl, fr)),
            },
        }
    }
}

fn restore_merge(mesh: &CdtMesh, farleft: Otri, farright: Otri, vertical: bool) -> (r: Result<
    (Otri, Otri),
    MeshFault,
>)
    requires
        mesh@.wf(),
        mesh@.has(farleft),
        mesh@.has(farright),
    ensures
        r == merge_restored(mesh@, farleft, farright, vertical),
        r matches Ok((x, y)) ==> mesh@.has(x) && mesh@.has(y),
{
    if !vertical {
        return Ok((farleft, farright));
    }
    let fl = match climb(
        mesh,
        farleft,
        mesh.org(farleft),
        mesh.apex(farleft),
        true,
        true,
        false,
    ) {
        Err(e) => return Err(e),
        Ok((edge, _, _)) => edge,
    };
    match slide(mesh, farright, mesh.dest(farright), true, false, false) {
        Err(e) => Err(e),
        Ok((fr, _)) => Ok((fl, fr)),
    }
}

/// Two triangulations side by side merged into one.
#[verifier::opaque]
pub open spec fn merged(
    m: MeshView,
    farleft: Otri,
    innerleft: Otri,
    innerright: Otri,
    farright: Otri,
    vertical: bool,
) -> (MeshView, Result<(Otri, Otri), MeshFault>) {
    match merge_prepared(m, farleft, innerleft, innerright, farright, vertical) {
        Err(e) => (m, Err(e)),
        Ok((fl0, t0, fr0)) => match lowered(m, t0, STEP_LIMIT as nat) {
            Err(e) => (m, Err(e)),
            Ok(t) => if !m.tri_room() {
                (m, Err(MeshFault::Full))
            } else {
                let (m1, s1) = seam_opened(m, t);
                let fl = if t.left_dest == m1.org(fl0) {
                    s1.base.next()
                } else {
                    fl0
                };
                let fr = if t.right_org == m1.dest(fr0) {
                    s1.base.prev()
                } else {
                    fr0
                };
                let (m2, s2, r) = knitted(m1, s1, STEP_LIMIT as nat);
                match r {
                    Err(e) => (m2, Err(e)),
                    Ok(_) => if !m2.tri_room() {
                        (m2, Err(MeshFault::Full))
                    } else {
                        let m3 = seam_closed(m2, s2);
                        (m3, merge_restored(m3, fl, fr, vertical))
                    },
                }
            },
        },
    }
}

/// Merge two adjacent triangulations into one.
pub fn merge_hulls(
    mesh: &mut CdtMesh,
    farleft: Otri,
    innerleft: Otri,
    innerright: Otri,
    farright: Otri,
    vertical: bool,
) -> (r: Result<(Otri, Otri), MeshFault>)
    requires
        old(mesh)@.wf(),
        old(mesh)@.has(farleft),
        old(mesh)@.has(innerleft),
        old(mesh)@.has(innerright),
        old(mesh)@.has(farright),
    ensures
        (final(mesh)@, r) == merged(
            old(mesh)@,
            farleft,
            innerleft,
            innerright,
            farright,
            vertical,
        ),
        final(mesh)@.wf(),
        final(mesh)@.tri_count >= old(mesh)@.tri_count,
        final(mesh)@.vertices == old(mesh)@.vertices,
        same_subsegs(old(mesh)@, final(mesh)@),
        r matches Ok((x, y)) ==> final(mesh)@.has(x) && final(mesh)@.has(y),
{
    reveal(merged);
    let (mut fl, t0, mut fr) = match prepare_merge(
        mesh,
        farleft,
        innerleft,
        innerright,
        farright,
        vertical,
    ) {
        Err(e) => return Err(e),
        Ok(x) => x,
    };
    let t = match lower_tangent(mesh, t0) {
        Err(e) => return Err(e),
        Ok(x) => x,
    };
    if !mesh.has_tri_room() {
        return Err(MeshFault::Full);
    }
    let s1 = open_seam(mesh, t);
    if t.left_dest == mesh.org(fl) {
        fl = s1.base.lnext();
    }
    if t.right_org == mesh.dest(fr) {
        fr = s1.base.lprev();
    }
    let (s2, knitted_ok) = knit(mesh, s1);
    if let Err(e) = knitted_ok {
        return Err(e);
    }
    if !mesh.has_tri_room() {
        return Err(MeshFault::Full);
    }
    close_seam(mesh, s2);
    restore_merge(mesh, fl, fr, vertical)
}

// --- Recursion --------------------------------------------------------------

/// The triangulation of the vertices in `ids`, cut in halves down to two or
/// three vertices and merged; `axis` is the axis of the outermost cut.
#[verifier::opaque]
pub open spec fn triangulated(m: MeshView, ids: Seq<VertexId>, axis: u8, dwyer: bool) -> (
    MeshView,
    Result<(Otri, Otri), MeshFault>,
)
    decreases ids.len(),
{
    let n = ids.len() as int;
    if n < 2 {
        (m, Err(MeshFault::MissingVertex))
    } else if n == 2 {
        edge_pair(m, ids[0], ids[1])
    } else if n == 3 {
        triangle_or_edges(m, ids[0], ids[1], ids[2])
    } else {
        let other = (1 - axis) as u8;
        let (m1, r1) = triangulated(m, ids.take(n / 2), other, dwyer);
        match r1 {
            Err(e) => (m1, Err(e)),
            Ok((farleft, innerleft)) => {
                let (m2, r2) = triangulated(m1, ids.skip(n / 2), other, dwyer);
                match r2 {
                    Err(e) => (m2, Err(e)),
                    Ok((innerright, farright)) => merged(
                        m2,
                        farleft,
                        innerleft,
                        innerright,
                        farright,
                        dwyer && axis == 1,
                    ),
                }
            },
        }
    }
}

fn divconq_recurse(
    mesh: &mut CdtMesh,
    ids: &Vec<VertexId>,
    lo: usize,
    hi: usize,
    axis: u8,
    dwyer: bool,
) -> (r: Result<(Otri, Otri), MeshFault>)
    requires
        old(mesh)@.wf(),
        all_known(old(mesh)@, ids@),
        lo + 2 <= hi <= ids@.len(),
        axis <= 1,
    ensures
        (final(mesh)@, r) == triangulated(
            old(mesh)@,
            ids@.subrange(lo as int, hi as int),
            axis,
            dwyer,
        ),
        final(mesh)@.wf(),
        final(mesh)@.tri_count >= old(mesh)@.tri_count,
        final(mesh)@.vertices == old(mesh)@.vertices,
        same_subsegs(old(mesh)@, final(mesh)@),
        r matches Ok((x, y)) ==> final(mesh)@.has(x) && final(mesh)@.has(y),
    decreases hi - lo,
{
    reveal(triangulated);
    let n: usize = hi - lo;
    let ghost part = ids@.subrange(lo as int, hi as int);
    if n == 2 {
        return make_edge_pair(mesh, ids[lo], ids[lo + 1]);
    }
    if n == 3 {
        return make_triangle_or_edges(mesh, ids[lo], ids[lo + 1], ids[lo + 2]);
    }
    let mid: usize = lo + n / 2;
    proof {
        assert(part.take(n as int / 2) =~= ids@.subrange(lo as int, mid as int));
        assert(part.skip(n as int / 2) =~= ids@.subrange(mid as int, hi as int));
    }
    let (farleft, innerleft) = match divconq_recurse(mesh, ids, lo, mid, 1 - axis, dwyer) {
        Err(e) => return Err(e),
        Ok(x) => x,
    };
    let (innerright, farright) = match divconq_recurse(mesh, ids, mid, hi, 1 - axis, dwyer) {
        Err(e) => return Err(e),
        Ok(x) => x,
    };
    merge_hulls(mesh, farleft, innerleft, innerright, farright, dwyer && axis == 1)
}

// --- Ghosts -----------------------------------------------------------------

/// The ring of ghosts taken away, from the ghost edge `edge` round to
/// `start`, and how many there were, `count` of them before.
#[verifier::opaque]
pub open spec fn ghosts_gone(m: MeshView, start: Otri, edge: Otri, count: nat, fuel: nat) -> (
    MeshView,
    Result<u32, MeshFault>,
)
    decreases fuel,
{
    let dead = edge.next();
    let m1 = m.with_nbr(m.sym(edge.prev()), no_tri());
    let next = m1.sym(dead);
    if dead.tri == DUMMY_TRI {
        (m1, Err(MeshFault::OffBoundary))
    } else {
        let m2 = m1.without_triangle(dead.tri);
        if next == start {
            (m2, Ok((count + 1) as u32))
        } else if fuel == 0 {
            (m2, Err(MeshFault::Stalled))
        } else {
            ghosts_gone(m2, start, next, count + 1, (fuel - 1) as nat)
        }
    }
}

/// A triangulation without its ghosts, and the number of its hull edges; the
/// dummy triangle is left pointing at an edge of the hull.
pub open spec fn ghosts_removed(m: MeshView, start: Otri) -> (MeshView, Result<u32, MeshFault>) {
    let m1 = m.with_nbr(no_tri(), m.sym(start.prev()));
    ghosts_gone(m1, start, start, 0, turn_limit(m))
}

/// Take the ghost triangles away and count the edges of the hull.
pub fn remove_ghosts(mesh: &mut CdtMesh, start: Otri) -> (r: Result<u32, MeshFault>)
    requires
        old(mesh)@.wf(),
        old(mesh)@.has(start),
    ensures
        (final(mesh)@, r) == ghosts_removed(old(mesh)@, start),
        final(mesh)@.wf(),
        final(mesh)@.vertices == old(mesh)@.vertices,
        same_subsegs(old(mesh)@, final(mesh)@),
{
    let search = mesh.sym(start.lprev());
    let limit: u32 = 3 * (mesh.tri_slots() as u32);
    mesh.put_nbr(Otri::dummy(), search);
    let mut edge = start;
    let mut count: u32 = 0;
    loop
        invariant
            mesh@.wf(),
            mesh@.has(start),
            mesh@.has(edge),
            mesh@.vertices == old(mesh)@.vertices,
            same_subsegs(old(mesh)@, mesh@),
            mesh@.tri_count == old(mesh)@.tri_count,
            count <= limit < u32::MAX,
            ghosts_gone(mesh@, start, edge, count as nat, (limit - count) as nat)
                == ghosts_removed(old(mesh)@, start),
        decreases limit - count,
    {
        reveal(ghosts_gone);
        let dead = edge.lnext();
        let hull = mesh.sym(edge.lprev());
        mesh.dissolve(hull);
        let next = mesh.sym(dead);
        if dead.tri == DUMMY_TRI {
            return Err(MeshFault::OffBoundary);
        }
        mesh.kill_triangle(dead.tri);
        if next == start {
            return Ok(count + 1);
        }
        if count == limit {
            return Err(MeshFault::Stalled);
        }
        count += 1;
        edge = next;
    }
}

// --- Delaunay triangulation -------------------------------------------------

/// Whether `kept` lists the vertices of a mesh from left to right (and from
/// below where the x is the same), one for each place, the first where a
/// place has several.
pub open spec fn one_per_place(m: MeshView, kept: Seq<VertexId>) -> bool {
    &&& all_known(m, kept)
    &&& forall|i: int, j: int|
        0 <= i < j < kept.len() ==> lex_less(
            lex_key(m, #[trigger] kept[i], 0),
            lex_key(m, #[trigger] kept[j], 0),
        )
    &&& forall|v: VertexId| #[trigger] m.has_vertex(v) ==> represented(m, kept, v)
}

/// Whether the place of `v` is listed, under an id no later than `v`.
pub open spec fn represented(m: MeshView, kept: Seq<VertexId>, v: VertexId) -> bool {
    exists|i: int|
        #![trigger kept[i]]
        0 <= i < kept.len() && lex_key(m, kept[i], 0) == lex_key(m, v, 0) && kept[i].0 <= v.0
}

/// Whether `ids` is `kept` in an order fit for cutting: as it stands, or with
/// each half rearranged for cuts on alternating axes.
pub open spec fn arranged(m: MeshView, kept: Seq<VertexId>, ids: Seq<VertexId>, dwyer: bool) -> bool {
    let n = kept.len() as int;
    let d = n / 2;
    if !dwyer || n - d < 2 {
        ids == kept
    } else {
        &&& ids.len() == n
        &&& if d >= 2 {
            rearranged(kept.take(d), ids.take(d)) && alternated(m, ids.take(d), 1)
        } else {
            ids.take(d) == kept.take(d)
        }
        &&& rearranged(kept.skip(d), ids.skip(d))
        &&& alternated(m, ids.skip(d), 1)
    }
}

/// The mesh with the triangulation of `ids`, its ghosts removed and its hull
/// edges counted.
pub open spec fn delaunay_built(m: MeshView, ids: Seq<VertexId>, dwyer: bool) -> (
    MeshView,
    Result<u32, MeshFault>,
) {
    let (m1, r1) = triangulated(m, ids, 0, dwyer);
    match r1 {
        Err(e) => (m1, Err(e)),
        Ok((left, _)) => {
            let (m2, r2) = ghosts_removed(m1, left);
            match r2 {
                Err(e) => (m2, Err(e)),
                Ok(n) => (MeshView { hull_size: n, ..m2 }, Ok(n)),
            }
        },
    }
}

/// Whether the divided triangulation of `ids` is the Delaunay triangulation of
/// `kept`.
pub open spec fn divides_well(
    m: MeshView,
    kept: Seq<VertexId>,
    ids: Seq<VertexId>,
    dwyer: bool,
) -> bool {
    let (w, r) = delaunay_built(m, ids, dwyer);
    r matches Ok(hull) && is_delaunay_of(w, kept, hull) && is_plane(w) && is_counted(w)
        && uses_all(w, kept)
}

/// Whether a mesh holds no triangle yet and has room for those of `n`
/// vertices.
pub open spec fn is_ready(m: MeshView, n: nat) -> bool {
    is_fresh(m) && 2 * n <= TRI_LIMIT
}

/// Whether [`delaunay`] may make `after` of `before`, with the result `r`:
/// `kept` are the vertices that take part, `ids` the same in the order in
/// which they are divided.
pub open spec fn is_outcome(
    before: MeshView,
    after: MeshView,
    r: Result<u32, MeshFault>,
    kept: Seq<VertexId>,
    ids: Seq<VertexId>,
    dwyer: bool,
) -> bool {
    let (w, b) = delaunay_built(before, ids, dwyer);
    &&& one_per_place(before, kept)
    &&& if kept.len() < 2 {
        after == before && r == Ok::<u32, MeshFault>(0)
    } else {
        &&& arranged(before, kept, ids, dwyer)
        &&& if divides_well(before, kept, ids, dwyer) {
            after == w && r == b
        } else if is_ready(before, kept.len()) {
            r matches Ok(hull) && is_delaunay_of(after, kept, hull) && is_plane(after)
                && is_counted(after) && uses_all(after, kept) && after.hull_size == hull
        } else {
            &&& after == w
            &&& r == match b {
                Ok(_) => Err::<u32, MeshFault>(MeshFault::Broken),
                Err(e) => Err(e),
            }
        }
    }
}

/// Whether a mesh holds no live triangle.
pub open spec fn is_blank(m: MeshView) -> bool {
    is_anchored(m) && forall|o: Otri| !#[trigger] is_live(m, o)
}

/// The first entry of each run of entries at the same place.
fn dedup_places(mesh: &CdtMesh, sorted: &Vec<VertexId>) -> (kept: Vec<VertexId>)
    requires
        all_known(mesh@, sorted@),
        sorted@.len() == mesh@.vertices.len(),
        exists|p: Seq<int>| #[trigger] lists_all(mesh@, sorted@, p),
    ensures
        one_per_place(mesh@, kept@),
{
    let ghost p = choose|p: Seq<int>| #[trigger] lists_all(mesh@, sorted@, p);
    let mut kept: Vec<VertexId> = Vec::new();
    let mut i: usize = 0;
    while i < sorted.len()
        invariant
            i <= sorted@.len(),
            all_known(mesh@, sorted@),
            all_known(mesh@, kept@),
            lists_all(mesh@, sorted@, p),
            i > 0 ==> kept@.len() > 0 && lex_key(mesh@, kept@.last(), 0) == lex_key(
                mesh@,
                sorted@[i - 1],
                0,
            ),
            i == 0 ==> kept@.len() == 0,
            forall|a: int, b: int|
                0 <= a < b < kept@.len() ==> lex_less(
                    lex_key(mesh@, #[trigger] kept@[a], 0),
                    lex_key(mesh@, #[trigger] kept@[b], 0),
                ),
            forall|k: int| 0 <= k < i ==> represented(mesh@, kept@, #[trigger] sorted@[k]),
        decreases sorted.len() - i,
    {
        let v = sorted[i];
        let ghost before = kept@;
        let n: usize = kept.len();
        let fresh = if n == 0 {
            true
        } else {
            let a = mesh.vertex_pos(kept[n - 1]);
            let b = mesh.vertex_pos(v);
            proof {
                key_orders_values(a.x, b.x);
                key_orders_values(a.y, b.y);
            }
            !(coord_equal(a.x, b.x) && coord_equal(a.y, b.y))
        };
        if fresh {
            kept.push(v);
            proof {
                assert(kept@[n as int] == v);
                assert forall|k: int| 0 <= k < i implies represented(
                    mesh@,
                    kept@,
                    #[trigger] sorted@[k],
                ) by {
                    assert(represented(mesh@, before, sorted@[k]));
                    let w = choose|w: int|
                        #![trigger before[w]]
                        0 <= w < before.len() && lex_key(mesh@, before[w], 0) == lex_key(
                            mesh@,
                            sorted@[k],
                            0,
                        ) && before[w].0 <= sorted@[k].0;
                    assert(kept@[w] == before[w]);
                }
            }
        } else {
            proof {
                assert(represented(mesh@, kept@, sorted@[i - 1]));
                assert(p[i - 1] < p[i as int]);
            }
        }
        i += 1;
    }
    proof {
        assert forall|v: VertexId| #[trigger] mesh@.has_vertex(v) implies represented(
            mesh@,
            kept@,
            v,
        ) by {
            lemma_permutation_hits(p, sorted@.len(), v.0 as int);
            let k = choose|k: int| 0 <= k < p.len() && #[trigger] p[k] == v.0;
            assert(sorted@[k] == v);
        }
    }
    kept
}

/// Whether `sorted` lists every vertex of a mesh in ascending order, `p`
/// saying which.
spec fn lists_all(m: MeshView, sorted: Seq<VertexId>, p: Seq<int>) -> bool {
    &&& is_permutation(p, m.vertices.len())
    &&& sorted.len() == m.vertices.len()
    &&& forall|i: int| 0 <= i < sorted.len() ==> (#[trigger] sorted[i]).0 == p[i]
    &&& forall|i: int, j: int|
        0 <= i < j < sorted.len() ==> lex_less(
            lex_key(m, #[trigger] sorted[i], 0),
            lex_key(m, #[trigger] sorted[j], 0),
        ) || (lex_key(m, sorted[i], 0) == lex_key(m, sorted[j], 0) && p[i] < p[j])
}

proof fn lemma_permutation_hits(p: Seq<int>, n: nat, x: int)
    requires
        is_permutation(p, n),
        0 <= x < n,
    ensures
        exists|k: int| 0 <= k < p.len() && #[trigger] p[k] == x,
{
    assert(p.no_duplicates());
    p.unique_seq_to_set();
    let all = vstd::set_lib::set_int_range(0, n as int);
    vstd::set_lib::lemma_int_range(0, n as int);
    assert(p.to_set().subset_of(all));
    vstd::set_lib::lemma_subset_equality(p.to_set(), all);
    assert(p.to_set().contains(x));
    assert(p.contains(x));
}

/// Rearrange the halves of a list for cuts on alternating axes.
fn arrange(mesh: &CdtMesh, ids: &mut Vec<VertexId>, dwyer: bool)
    requires
        all_known(mesh@, old(ids)@),
    ensures
        arranged(mesh@, old(ids)@, final(ids)@, dwyer),
        all_known(mesh@, final(ids)@),
        final(ids)@.len() == old(ids)@.len(),
{
    let n: usize = ids.len();
    let d: usize = n / 2;
    if !dwyer || n - d < 2 {
        return;
    }
    let ghost kept = ids@;
    let mut right = ids.split_off(d);
    proof {
        assert(ids@ =~= kept.take(d as int));
        assert(right@ =~= kept.skip(d as int));
    }
    if d >= 2 {
        alternate_axes(mesh, ids, 1);
        proof {
            lemma_rearranged_known(mesh@, kept.take(d as int), ids@);
        }
    }
    let ghost left = ids@;
    alternate_axes(mesh, &mut right, 1);
    proof {
        lemma_rearranged_known(mesh@, kept.skip(d as int), right@);
    }
    let ghost tail = right@;
    ids.append(&mut right);
    proof {
        assert(ids@.take(d as int) =~= left);
        assert(ids@.skip(d as int) =~= tail);
    }
}

proof fn lemma_rearranged_known(m: MeshView, before: Seq<VertexId>, after: Seq<VertexId>)
    requires
        all_known(m, before),
        rearranged(before, after),
    ensures
        all_known(m, after),
{
    broadcast use vstd::seq_lib::group_to_multiset_ensures;

    assert forall|i: int| 0 <= i < after.len() implies m.has_vertex(#[trigger] after[i]) by {
        assert(after.contains(after[i]));
        assert(after.to_multiset().count(after[i]) > 0);
        assert(before.contains(after[i]));
    }
}

/// Vertices at different places, at most one for each id.
proof fn lemma_kept_few(m: MeshView, kept: Seq<VertexId>)
    requires
        one_per_place(m, kept),
    ensures
        kept.len() <= m.vertices.len(),
{
    let ids = kept.map_values(|v: VertexId| v.0 as int);
    assert(ids.no_duplicates()) by {
        assert forall|i: int, j: int| 0 <= i < ids.len() && 0 <= j < ids.len() && i != j implies ids[i]
            != ids[j] by {
            if i < j {
                assert(lex_less(lex_key(m, kept[i], 0), lex_key(m, kept[j], 0)));
            } else {
                assert(lex_less(lex_key(m, kept[j], 0), lex_key(m, kept[i], 0)));
            }
        }
    }
    let all = vstd::set_lib::set_int_range(0, m.vertices.len() as int);
    vstd::set_lib::lemma_int_range(0, m.vertices.len() as int);
    ids.unique_seq_to_set();
    assert forall|x: int| ids.to_set().contains(x) implies all.contains(x) by {
        let i = choose|i: int| 0 <= i < ids.len() && ids[i] == x;
        assert(m.has_vertex(kept[i]));
    }
    vstd::set_lib::lemma_len_subset(ids.to_set(), all);
}

/// The vertices kept are listed from left to right, and list all places.
proof fn lemma_kept_in_order(m: MeshView, kept: Seq<VertexId>)
    requires
        one_per_place(m, kept),
    ensures
        is_in_order(m, kept),
        lists_places(m, kept),
{
    reveal(lists_places);
    assert forall|i: int, j: int| 0 <= i < j < kept.len() implies ahead(
        m.pos(#[trigger] kept[i]),
        m.pos(#[trigger] kept[j]),
    ) by {
        let (a, b) = (m.pos(kept[i]), m.pos(kept[j]));
        key_orders_values(a.x, b.x);
        key_orders_values(a.y, b.y);
        key_orders_values(b.x, a.x);
        assert(lex_less(lex_key(m, kept[i], 0), lex_key(m, kept[j], 0)));
    }
    assert forall|v: VertexId| #[trigger] m.has_vertex(v) implies exists|i: int|
        0 <= i < kept.len() && same_place(m.pos(#[trigger] kept[i]), m.pos(v)) by {
        assert(represented(m, kept, v));
        let i = choose|i: int|
            #![trigger kept[i]]
            0 <= i < kept.len() && lex_key(m, kept[i], 0) == lex_key(m, v, 0) && kept[i].0 <= v.0;
        let (a, b) = (m.pos(kept[i]), m.pos(v));
        key_orders_values(a.x, b.x);
        key_orders_values(a.y, b.y);
        key_orders_values(b.x, a.x);
        key_orders_values(b.y, a.y);
        assert(same_place(a, b));
    }
}

/// Build the Delaunay triangulation of all vertices of a mesh that holds no
/// triangle yet, and return the number of edges on its convex hull.
///
/// Where several vertices share a place only the first takes part. Hull
/// edges have the dummy triangle on their outer side. No vertex lies inside
/// the circle of any triangle.
///
/// The vertices are divided, and the halves merged. Should the outcome not be
/// the Delaunay triangulation, it is built outward from one triangle and
/// flipped into shape instead.
#[verifier::spinoff_prover]
#[verifier::rlimit(100)]
pub fn delaunay(mesh: &mut CdtMesh, opts: DivConqOptions) -> (r: Result<u32, MeshFault>)
    requires
        old(mesh)@.wf(),
        old(mesh)@.vertices.len() <= u32::MAX,
    ensures
        exists|kept: Seq<VertexId>, ids: Seq<VertexId>| #[trigger]
            is_outcome(old(mesh)@, final(mesh)@, r, kept, ids, opts.dwyer),
        final(mesh)@.wf(),
        final(mesh)@.vertices == old(mesh)@.vertices,
        same_subsegs(old(mesh)@, final(mesh)@),
        is_ready(old(mesh)@, old(mesh)@.vertices.len()) ==> r is Ok && is_cdt(final(mesh)@)
            && is_counted(final(mesh)@),
        r is Ok && is_blank(old(mesh)@) ==> is_delaunay(final(mesh)@) && is_constrained_delaunay(
            final(mesh)@,
        ),
{
    let n: usize = mesh.vertex_count();
    let mut ids: Vec<VertexId> = Vec::new();
    let mut i: usize = 0;
    while i < n
        invariant
            i <= n <= u32::MAX,
            n == mesh@.vertices.len(),
            ids@.len() == i,
            forall|k: int| 0 <= k < i ==> (#[trigger] ids@[k]).0 == k,
        decreases n - i,
    {
        ids.push(VertexId::new(i as u32));
        i += 1;
    }
    let ghost all = ids@;
    vertex_sort(mesh, &mut ids);
    proof {
        let p = choose|p: Seq<int>| stable_order(mesh@, 0, all, ids@, p);
        assert forall|k: int| 0 <= k < ids@.len() implies (#[trigger] ids@[k]).0 == p[k] by {
            assert(ids@[k] == all[p[k]]);
        }
        assert(lists_all(mesh@, ids@, p));
        assert(all_known(mesh@, ids@));
    }
    let mut kept = dedup_places(mesh, &ids);
    let ghost places = kept@;
    if kept.len() < 2 {
        proof {
            if is_fresh(mesh@) {
                fresh_meshes_are_plane(mesh@);
            }
            if is_blank(mesh@) {
                assert forall|t: u32| !#[trigger] is_face(mesh@, t) by {
                    assert(!is_live(mesh@, Otri { tri: t, orient: 0 }));
                }
            }
            assert(is_outcome(
                old(mesh)@,
                mesh@,
                Ok::<u32, MeshFault>(0),
                places,
                places,
                opts.dwyer,
            ));
        }
        return Ok(0);
    }
    proof {
        lemma_kept_few(mesh@, kept@);
        lemma_kept_in_order(mesh@, kept@);
    }
    let sorted = copy_slots(&kept);
    let ready: bool = mesh.tri_slots() == 1 && mesh.is_packed() && kept.len() <= (TRI_LIMIT
        / 2) as usize;
    let saved = mesh.copied();
    arrange(mesh, &mut kept, opts.dwyer);
    let ghost order = kept@;
    proof {
        assert(order.subrange(0, order.len() as int) =~= order);
    }
    let hi: usize = kept.len();
    let built = divconq_recurse(mesh, &kept, 0, hi, 0, opts.dwyer);
    let divided = match built {
        Err(e) => Err(e),
        Ok((left, _)) => match remove_ghosts(mesh, left) {
            Err(e) => Err(e),
            Ok(size) => {
                mesh.set_hull_size(size);
                Ok(size)
            },
        },
    };
    let fault = match divided {
        Ok(size) => if check_delaunay(mesh, &sorted, size) && check_plane(mesh) && check_counted(
            mesh,
        ) && check_uses_all(mesh, &sorted) {
            proof {
                assert(is_outcome(old(mesh)@, mesh@, divided, places, order, opts.dwyer));
            }
            return Ok(size);
        } else {
            MeshFault::Broken
        },
        Err(e) => e,
    };
    let r = if ready {
        *mesh = saved;
        Ok(build_outward(mesh, &sorted))
    } else {
        Err(fault)
    };
    proof {
        assert(is_outcome(old(mesh)@, mesh@, r, places, order, opts.dwyer));
    }
    r
}

/// Where the vertices of a triangulation do not all lie on one line, each that
/// comes first at its place is a corner.
pub proof fn first_vertices_are_corners(
    before: MeshView,
    after: MeshView,
    kept: Seq<VertexId>,
    v: VertexId,
)
    requires
        one_per_place(before, kept),
        after.vertices == before.vertices,
        uses_all(after, kept),
        !on_one_line(after, kept),
        after.has_vertex(v),
        forall|u: VertexId|
            u.0 < v.0 ==> !#[trigger] same_place(after.pos(u), after.pos(v)),
    ensures
        corners(after).contains(v),
{
    reveal(uses_all);
    assert(before.has_vertex(v));
    assert(represented(before, kept, v));
    let i = choose|i: int|
        #![trigger kept[i]]
        0 <= i < kept.len() && lex_key(before, kept[i], 0) == lex_key(before, v, 0) && kept[i].0
            <= v.0;
    let (a, b) = (before.pos(kept[i]), before.pos(v));
    key_orders_values(a.x, b.x);
    key_orders_values(a.y, b.y);
    key_orders_values(b.x, a.x);
    key_orders_values(b.y, a.y);
    assert(same_place(after.pos(kept[i]), after.pos(v)));
    assert(kept[i] == v);
}

/// The Delaunay triangulation of vertices that do not all lie on one line takes
/// every graph on them of whose segments no two cross. Vertices at one place
/// have the same coordinates to the bit.
pub proof fn triangulations_take_planar_graphs(
    before: MeshView,
    after: MeshView,
    kept: Seq<VertexId>,
    segments: Seq<PslgSegment>,
)
    requires
        one_per_place(before, kept),
        after.vertices == before.vertices,
        after.vertices.len() <= u32::MAX,
        after.sub_count == 1,
        uses_all(after, kept),
        !on_one_line(after, kept),
        forall|u: VertexId, v: VertexId|
            after.has_vertex(u) && after.has_vertex(v) && #[trigger] same_place(
                after.pos(u),
                after.pos(v),
            ) ==> after.pos(u) == after.pos(v),
        forall|i: int|
            0 <= i < segments.len() ==> (#[trigger] segments[i]).a < after.vertices.len()
                && segments[i].b < after.vertices.len(),
        forall|i: int, j: int|
            0 <= i < segments.len() && 0 <= j < segments.len() ==> !#[trigger] segments_cross(
                after,
                segments[i],
                segments[j],
            ),
    ensures
        is_planar(after, segments),
{
    assert forall|i: int| 0 <= i < segments.len() implies is_placed(
        after,
        #[trigger] segments[i],
    ) by {
        lemma_first_end(before, after, kept, segments[i].a);
        lemma_first_end(before, after, kept, segments[i].b);
    }
}

proof fn lemma_first_end(before: MeshView, after: MeshView, kept: Seq<VertexId>, a: u32)
    requires
        one_per_place(before, kept),
        after.vertices == before.vertices,
        after.vertices.len() <= u32::MAX,
        uses_all(after, kept),
        !on_one_line(after, kept),
        forall|u: VertexId, v: VertexId|
            after.has_vertex(u) && after.has_vertex(v) && #[trigger] same_place(
                after.pos(u),
                after.pos(v),
            ) ==> after.pos(u) == after.pos(v),
        a < after.vertices.len(),
    ensures
        corners(after).contains(first_end(after, a)),
{
    let v = first_end(after, a);
    canonical_is_first(after.vertices, a as int);
    assert forall|u: VertexId| u.0 < v.0 implies !#[trigger] same_place(
        after.pos(u),
        after.pos(v),
    ) by {
        if same_place(after.pos(u), after.pos(v)) {
            assert(after.vertices[u.0 as int].position == after.vertices[a as int].position);
        }
    }
    first_vertices_are_corners(before, after, kept, v);
}

} // verus!
