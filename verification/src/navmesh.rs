//! Triangulated surfaces of regions.
//!
//! The rings of a region are triangulated in grid coordinates: one unit is
//! one cell. Triangulation moves no vertex and adds none, so the height of a
//! vertex is that of the contour vertex it came from.

use crate::contour::{
    find_inner_cell, is_inner_cell, ContourVertex, RegionContour, RegionContours, Rings,
};
use crate::coord::{coord_of, coord_of_halves};
use crate::divconq::{delaunay, is_blank, is_outcome, is_ready, DivConqOptions};
use crate::empty_circle::is_constrained_delaunay;
use crate::holes::{carve_holes, carved, carving_ends_at_subsegments, is_fenced};
use crate::inset::blank_with;
use crate::mesh::{no_tri, CdtMesh, MeshView, Osub, Otri, VertexId, VertexSlot, TRI_LIMIT};
use crate::output::RegionId;
use crate::predicates::Vertex;
use crate::pslg::{Pslg, PslgHole, PslgSegment};
use crate::segment::{all_traced, form_skeleton, is_skeleton, known, MeshFault, SegmentInsertError};
use crate::trail::tidy;
use vstd::arithmetic::power2::pow2;
use vstd::prelude::*;

verus! {

/// A vertex of a region's surface: its place in cells, and twice its height.
#[derive(Copy, Clone, Debug, PartialEq, Eq, Structural)]
pub struct NavVertex {
    pub position: Vertex,
    pub height2: u64,
}

/// The surface of one region.
#[derive(Clone, Debug)]
pub struct RegionNavMesh {
    pub region: RegionId,
    pub vertices: Vec<NavVertex>,
    /// The vertices of each triangle.
    pub triangles: Vec<[u32; 3]>,
}

impl RegionNavMesh {
    pub fn triangle_count(&self) -> (n: usize)
        ensures
            n == self.triangles@.len(),
    {
        self.triangles.len()
    }

    pub fn vertex_count(&self) -> (n: usize)
        ensures
            n == self.vertices@.len(),
    {
        self.vertices.len()
    }
}

/// The surfaces of all regions; none for a region that could not be
/// triangulated.
#[derive(Clone, Debug)]
pub struct AllRegionNavMeshes {
    pub region_count: u32,
    pub meshes: Vec<Option<RegionNavMesh>>,
}

/// Triangles as mathematics.
pub open spec fn tri_rows(list: Seq<[u32; 3]>) -> Seq<Seq<u32>> {
    Seq::new(list.len(), |i: int| list[i]@)
}

/// Whether a surface vertex stands where a contour vertex does.
pub open spec fn placed(p: NavVertex, v: ContourVertex) -> bool {
    &&& p.position.vx() == v.col * pow2(1074)
    &&& p.position.vy() == v.row * pow2(1074)
    &&& p.height2 == v.height2
}

// --- Outlines ---------------------------------------------------------------

/// The vertices of the outer ring and of the first `n` holes with at least
/// three.
pub open spec fn outline_vertices(rings: Rings, n: nat) -> Seq<ContourVertex>
    decreases n,
{
    if n == 0 {
        rings.outer
    } else {
        let before = outline_vertices(rings, (n - 1) as nat);
        let hole = rings.holes[n - 1];
        if hole.len() < 3 {
            before
        } else {
            before + hole
        }
    }
}

/// The segments of a closed ring of `n` vertices from number `base` on.
pub open spec fn ring_segments(base: int, n: nat, marker: i32) -> Seq<PslgSegment> {
    Seq::new(
        n,
        |i: int|
            PslgSegment {
                a: (base + i) as u32,
                b: (base + if i + 1 == n {
                    0
                } else {
                    i + 1
                }) as u32,
                marker,
            },
    )
}

/// The segments of the outer ring, marked 1, and of the first `n` holes with
/// at least three vertices, marked 2.
pub open spec fn outline_segments(rings: Rings, n: nat) -> Seq<PslgSegment>
    decreases n,
{
    if n == 0 {
        ring_segments(0, rings.outer.len(), 1)
    } else {
        let before = outline_segments(rings, (n - 1) as nat);
        let hole = rings.holes[n - 1];
        if hole.len() < 3 {
            before
        } else {
            before + ring_segments(
                outline_vertices(rings, (n - 1) as nat).len() as int,
                hole.len(),
                2,
            )
        }
    }
}

/// All vertices of an outline.
pub open spec fn outline(rings: Rings) -> Seq<ContourVertex> {
    outline_vertices(rings, rings.holes.len())
}

proof fn lemma_outline_grows(rings: Rings, m: nat, n: nat)
    requires
        m <= n,
    ensures
        outline_vertices(rings, m).len() <= outline_vertices(rings, n).len(),
    decreases n - m,
{
    if m < n {
        lemma_outline_grows(rings, m, (n - 1) as nat);
    }
}

fn add_vertices(out: &mut Vec<NavVertex>, ring: &Vec<ContourVertex>)
    ensures
        final(out)@.len() == old(out)@.len() + ring@.len(),
        forall|i: int| 0 <= i < old(out)@.len() ==> final(out)@[i] == old(out)@[i],
        forall|i: int|
            0 <= i < ring@.len() ==> placed(
                #[trigger] final(out)@[old(out)@.len() + i],
                ring@[i],
            ),
{
    let ghost before = out@;
    let mut i: usize = 0;
    while i < ring.len()
        invariant
            i <= ring@.len(),
            before == old(out)@,
            out@.len() == before.len() + i,
            forall|k: int| 0 <= k < before.len() ==> out@[k] == before[k],
            forall|k: int|
                before.len() <= k < out@.len() ==> placed(
                    #[trigger] out@[k],
                    ring@[k - before.len()],
                ),
        decreases ring.len() - i,
    {
        let v = ring[i];
        let position = Vertex::new(coord_of(v.col), coord_of(v.row));
        out.push(NavVertex { position, height2: v.height2 });
        i += 1;
    }
}

fn add_segments(out: &mut Vec<PslgSegment>, base: u32, n: u32, marker: i32)
    requires
        base + n <= u32::MAX,
    ensures
        final(out)@ == old(out)@ + ring_segments(base as int, n as nat, marker),
{
    let ghost before = out@;
    let ghost all = ring_segments(base as int, n as nat, marker);
    assert(before + all.take(0) =~= before);
    let mut i: u32 = 0;
    while i < n
        invariant
            i <= n,
            base + n <= u32::MAX,
            before == old(out)@,
            all == ring_segments(base as int, n as nat, marker),
            out@ == before + all.take(i as int),
        decreases n - i,
    {
        let next: u32 = if i + 1 == n {
            0
        } else {
            i + 1
        };
        let s = PslgSegment { a: base + i, b: base + next, marker };
        out.push(s);
        i += 1;
        assert(all[i - 1] == s);
        assert(before + all.take(i as int) =~= (before + all.take(i - 1)).push(s));
    }
    assert(all.take(n as int) =~= all);
}

/// The vertices and segments of a region's rings.
fn make_outline(contour: &RegionContour) -> (r: (Vec<NavVertex>, Vec<PslgSegment>))
    requires
        outline(contour@).len() <= u32::MAX,
    ensures
        r.0@.len() == outline(contour@).len(),
        forall|i: int| 0 <= i < r.0@.len() ==> placed(#[trigger] r.0@[i], outline(contour@)[i]),
        r.1@ == outline_segments(contour@, contour@.holes.len()),
{
    let ghost rings = contour@;
    let mut vertices: Vec<NavVertex> = Vec::new();
    let mut segments: Vec<PslgSegment> = Vec::new();
    proof {
        lemma_outline_grows(rings, 0, rings.holes.len());
    }
    add_vertices(&mut vertices, &contour.outer);
    proof {
        assert forall|i: int| 0 <= i < vertices@.len() implies placed(
            #[trigger] vertices@[i],
            rings.outer[i],
        ) by {
            assert(vertices@[0 + i] == vertices@[i]);
        }
    }
    add_segments(&mut segments, 0, contour.outer.len() as u32, 1);
    assert(segments@ =~= ring_segments(0, rings.outer.len(), 1));
    let mut h: usize = 0;
    while h < contour.holes.len()
        invariant
            rings == contour@,
            h <= contour.holes@.len(),
            outline(contour@).len() <= u32::MAX,
            vertices@.len() == outline_vertices(rings, h as nat).len(),
            forall|i: int|
                0 <= i < vertices@.len() ==> placed(
                    #[trigger] vertices@[i],
                    outline_vertices(rings, h as nat)[i],
                ),
            segments@ == outline_segments(rings, h as nat),
        decreases contour.holes.len() - h,
    {
        let hole = &contour.holes[h];
        assert(rings.holes[h as int] == hole@);
        if hole.len() >= 3 {
            let ghost before = vertices@;
            let ghost list = outline_vertices(rings, h as nat);
            proof {
                lemma_outline_grows(rings, (h + 1) as nat, rings.holes.len());
            }
            let base: u32 = vertices.len() as u32;
            add_vertices(&mut vertices, hole);
            proof {
                assert forall|i: int| 0 <= i < vertices@.len() implies placed(
                    #[trigger] vertices@[i],
                    (list + hole@)[i],
                ) by {
                    if i < before.len() {
                        assert(vertices@[i] == before[i]);
                    } else {
                        assert(placed(
                            vertices@[before.len() + (i - before.len())],
                            hole@[i - before.len()],
                        ));
                    }
                }
            }
            add_segments(&mut segments, base, hole.len() as u32, 2);
        }
        h += 1;
    }
    (vertices, segments)
}

// --- Triangulation ----------------------------------------------------------

/// The corners of the live triangles with three corners among the first `n`
/// slots.
pub open spec fn live_triangles(m: MeshView, n: nat) -> Seq<Seq<u32>>
    decreases n,
{
    if n == 0 {
        Seq::empty()
    } else {
        let before = live_triangles(m, (n - 1) as nat);
        let t = (n - 1) as u32;
        let (a, b, c) = (
            m.corner[Otri { tri: t, orient: 0 }],
            m.corner[Otri { tri: t, orient: 1 }],
            m.corner[Otri { tri: t, orient: 2 }],
        );
        if m.dead(t) || !m.has_vertex(a) || !m.has_vertex(b) || !m.has_vertex(c) {
            before
        } else {
            before.push(seq![a.0, b.0, c.0])
        }
    }
}

/// Whether every corner of every triangle is below `n`.
pub open spec fn corners_below(triangles: Seq<[u32; 3]>, n: nat) -> bool {
    forall|i: int, e: int|
        0 <= i < triangles.len() && 0 <= e < 3 ==> (#[trigger] triangles[i]@[e]) < n
}

/// The corners of the live triangles of a mesh.
pub fn collect_triangles(mesh: &CdtMesh) -> (out: Vec<[u32; 3]>)
    requires
        mesh@.wf(),
    ensures
        tri_rows(out@) == live_triangles(mesh@, mesh@.tri_count),
        corners_below(out@, mesh@.vertices.len()),
        exists|slots: Seq<u32>| #[trigger] lists_faces(mesh@, tri_rows(out@), slots),
{
    let n: usize = mesh.tri_slots();
    let mut out: Vec<[u32; 3]> = Vec::new();
    assert(tri_rows(out@) =~= Seq::empty());
    let mut t: u32 = 0;
    while (t as usize) < n
        invariant
            mesh@.wf(),
            n == mesh@.tri_count,
            t <= n,
            tri_rows(out@) == live_triangles(mesh@, t as nat),
            corners_below(out@, mesh@.vertices.len()),
        decreases n - t,
    {
        if !mesh.is_dead(t) {
            let a = mesh.apex(Otri::new(t, 0));
            let b = mesh.apex(Otri::new(t, 1));
            let c = mesh.apex(Otri::new(t, 2));
            if known(mesh, a) && known(mesh, b) && known(mesh, c) {
                let ghost before = tri_rows(out@);
                let row = [a.get(), b.get(), c.get()];
                out.push(row);
                assert(row@ =~= seq![a.0, b.0, c.0]);
                assert(tri_rows(out@) =~= before.push(row@));
            }
        }
        t += 1;
    }
    proof {
        let slots = every_live_triangle_is_listed(mesh@);
        assert(lists_faces(mesh@, tri_rows(out@), slots));
    }
    out
}

/// What comes of a triangulated outline: its segments inserted and its holes
/// carved, if that goes through and leaves a triangle.
pub open spec fn surface_rows(
    m2: MeshView,
    r2: Result<(), SegmentInsertError>,
    seeds: Seq<PslgHole>,
) -> Option<Seq<Seq<u32>>> {
    let (m3, r3) = carved(m2, seeds, false);
    let rows = live_triangles(m3, m3.tri_count);
    if r2 is Err || r3 is Err || rows.len() == 0 {
        None
    } else {
        Some(rows)
    }
}

/// Whether `rows` is what the surface of a region with the given points and
/// segments may consist of: `m0` is the mesh of the points, `m1` its
/// triangulation with outcome `r1`.
///
/// There is a triangulation wherever a mesh has room for it. Rows come from one
/// that holds all the segments, and only subsegments part them from what has
/// been carved.
pub open spec fn is_surface(
    points: Seq<Vertex>,
    segments: Seq<PslgSegment>,
    seeds: Seq<PslgHole>,
    rows: Option<Seq<Seq<u32>>>,
    m0: MeshView,
    m1: MeshView,
    r1: Result<u32, MeshFault>,
) -> bool {
    &&& blank_with(m0, points)
    &&& exists|kept: Seq<VertexId>, ids: Seq<VertexId>| #[trigger]
        is_outcome(m0, m1, r1, kept, ids, true)
    &&& 2 * points.len() <= TRI_LIMIT ==> r1 is Ok
    &&& match r1 {
        Err(_) => rows is None,
        Ok(_) => exists|m2: MeshView, r2: Result<(), SegmentInsertError>| #[trigger]
            is_skeleton(m1, m2, r2, segments, None) && rows == surface_rows(m2, r2, seeds) && (
            rows is Some ==> is_fenced_surface(m2, segments, seeds)),
    }
}

/// Whether a mesh is a constrained Delaunay triangulation with all segments,
/// and only subsegments part what is carved from what stays.
pub open spec fn is_fenced_surface(
    m2: MeshView,
    segments: Seq<PslgSegment>,
    seeds: Seq<PslgHole>,
) -> bool {
    &&& is_constrained_delaunay(m2)
    &&& all_traced(m2, segments, segments.len() as int)
    &&& is_fenced(m2, carved(m2, seeds, false).0, seeds)
}

/// Whether some triangulation of the points gives the rows.
pub open spec fn has_surface(
    points: Seq<Vertex>,
    segments: Seq<PslgSegment>,
    seeds: Seq<PslgHole>,
    rows: Option<Seq<Seq<u32>>>,
) -> bool {
    exists|m0: MeshView, m1: MeshView, r1: Result<u32, MeshFault>| #[trigger]
        is_surface(points, segments, seeds, rows, m0, m1, r1)
}

/// The places of surface vertices.
pub open spec fn positions(vertices: Seq<NavVertex>) -> Seq<Vertex> {
    vertices.map_values(|v: NavVertex| v.position)
}

fn triangulate(vertices: &Vec<NavVertex>, segments: Vec<PslgSegment>, seeds: &Vec<PslgHole>) -> (r:
    Option<Vec<[u32; 3]>>)
    requires
        vertices@.len() <= u32::MAX,
    ensures
        match r {
            None => has_surface(positions(vertices@), segments@, seeds@, None),
            Some(t) => has_surface(
                positions(vertices@),
                segments@,
                seeds@,
                Some(tri_rows(t@)),
            ) && t@.len() > 0 && corners_below(t@, vertices@.len()),
        },
{
    let ghost points = positions(vertices@);
    let ghost segs = segments@;
    let mut mesh = CdtMesh::new();
    let mut i: usize = 0;
    while i < vertices.len()
        invariant
            i <= vertices@.len() <= u32::MAX,
            points == positions(vertices@),
            blank_with(mesh@, points.take(i as int)),
        decreases vertices.len() - i,
    {
        let ghost before = mesh@;
        let _ = mesh.push_vertex(VertexSlot::new(vertices[i].position, 0));
        proof {
            assert(points.take(i + 1) =~= points.take(i as int).push(points[i as int]));
            assert forall|o: Otri| #[trigger] mesh@.has(o) implies before.has(o) by {}
            assert forall|s: Osub| #[trigger] mesh@.has_sub(s) implies before.has_sub(s) by {}
        }
        i += 1;
    }
    assert(points.take(i as int) =~= points);
    let ghost m0 = mesh@;
    let built = delaunay(&mut mesh, DivConqOptions::default());
    let ghost m1 = mesh@;
    proof {
        assert(m0.has(no_tri()));
        assert(is_blank(m0));
        assert(is_ready(m0, m0.vertices.len()) == (2 * points.len() <= TRI_LIMIT));
        assert(tidy(m1));
    }
    if built.is_err() {
        assert(is_surface(points, segs, seeds@, None, m0, m1, built));
        return None;
    }
    let mut holes: Vec<PslgHole> = Vec::new();
    let mut k: usize = 0;
    while k < seeds.len()
        invariant
            k <= seeds@.len(),
            holes@ == seeds@.take(k as int),
        decreases seeds.len() - k,
    {
        holes.push(seeds[k]);
        k += 1;
        assert(seeds@.take(k as int) =~= seeds@.take(k - 1).push(seeds@[k - 1]));
    }
    assert(seeds@.take(k as int) =~= seeds@);
    let pslg = Pslg { vertices: Vec::new(), segments, holes };
    let formed = form_skeleton(&mut mesh, &pslg, None);
    let ghost m2 = mesh@;
    assert(is_skeleton(m1, m2, formed, segs, None));
    if formed.is_err() {
        assert(is_surface(points, segs, seeds@, None, m0, m1, built));
        return None;
    }
    let carving = carve_holes(&mut mesh, &pslg, false);
    if carving.is_err() {
        assert(is_surface(points, segs, seeds@, None, m0, m1, built));
        return None;
    }
    let rows = collect_triangles(&mesh);
    if rows.len() == 0 {
        assert(is_surface(points, segs, seeds@, None, m0, m1, built));
        return None;
    }
    proof {
        carving_ends_at_subsegments(m2, seeds@, false);
        assert(is_fenced_surface(m2, segs, seeds@));
    }
    assert(is_surface(points, segs, seeds@, Some(tri_rows(rows@)), m0, m1, built));
    Some(rows)
}

// --- Hole points ------------------------------------------------------------

/// Whether a point is the middle of cell (`c`, `r`).
pub open spec fn is_middle(p: Vertex, c: u32, r: u32) -> bool {
    &&& p.vx() == (2 * c + 1) * pow2(1073)
    &&& p.vy() == (2 * r + 1) * pow2(1073)
}

/// Whether a ring of at least three vertices has a cell inside, beside one of
/// them.
pub open spec fn has_inner_cell(ring: Seq<ContourVertex>) -> bool {
    ring.len() >= 3 && exists|c: u32, r: u32| #[trigger] is_inner_cell(ring, c, r)
}

/// Whether a point is the middle of a cell inside a ring, beside one of its
/// vertices.
pub open spec fn marks(ring: Seq<ContourVertex>, p: Vertex) -> bool {
    exists|c: u32, r: u32| #[trigger] is_inner_cell(ring, c, r) && is_middle(p, c, r)
}

/// Whether the seeds mark, one for one and in order, the rings that have a
/// cell inside.
pub open spec fn all_marked(rings: Seq<Seq<ContourVertex>>, seeds: Seq<PslgHole>) -> bool
    decreases rings.len(),
{
    if rings.len() == 0 {
        seeds.len() == 0
    } else if has_inner_cell(rings.last()) {
        seeds.len() > 0 && marks(rings.last(), seeds.last().point) && all_marked(
            rings.drop_last(),
            seeds.drop_last(),
        )
    } else {
        all_marked(rings.drop_last(), seeds)
    }
}

/// A point inside each hole of a region whose rings run along the grid.
pub fn hole_seeds(contour: &RegionContour) -> (seeds: Vec<PslgHole>)
    ensures
        all_marked(contour@.holes, seeds@),
        forall|j: int|
            0 <= j < contour@.holes.len() && #[trigger] has_inner_cell(contour@.holes[j])
                ==> is_marked_by(contour@.holes[j], seeds@),
{
    let mut seeds: Vec<PslgHole> = Vec::new();
    let mut i: usize = 0;
    while i < contour.holes.len()
        invariant
            i <= contour.holes@.len(),
            all_marked(contour@.holes.take(i as int), seeds@),
        decreases contour.holes.len() - i,
    {
        let ring = &contour.holes[i];
        let ghost before = seeds@;
        proof {
            let next = contour@.holes.take(i + 1);
            assert(next.drop_last() =~= contour@.holes.take(i as int));
            assert(next.last() == ring@);
        }
        if ring.len() >= 3 {
            if let Some((c, r)) = find_inner_cell(ring) {
                let x = coord_of_halves(2 * c as u64 + 1);
                let y = coord_of_halves(2 * r as u64 + 1);
                let point = Vertex::new(x, y);
                seeds.push(PslgHole { point });
                assert(is_inner_cell(ring@, c, r) && is_middle(point, c, r));
                assert(seeds@.drop_last() =~= before);
            }
        }
        i += 1;
    }
    assert(contour@.holes.take(i as int) =~= contour@.holes);
    proof {
        assert forall|j: int|
            0 <= j < contour@.holes.len() && #[trigger] has_inner_cell(
                contour@.holes[j],
            ) implies is_marked_by(contour@.holes[j], seeds@) by {
            every_hole_is_marked(contour@.holes, seeds@, j);
        }
    }
    seeds
}

/// Triangulate the rings of a region and carve what `seeds` marks.
///
/// There is none where the outer ring has fewer than three vertices, or where
/// the rings cannot be triangulated.
pub fn build_seeded_navmesh(rid: RegionId, contour: &RegionContour, seeds: &Vec<PslgHole>) -> (r:
    Option<RegionNavMesh>)
    requires
        outline(contour@).len() <= u32::MAX,
    ensures
        contour@.outer.len() < 3 ==> r is None,
        contour@.outer.len() >= 3 ==> exists|list: Seq<NavVertex>| #[trigger]
            surface_of(contour@, seeds@, rid, r, list),
        r matches Some(m) ==> m.wf(),
{
    if contour.outer.len() < 3 {
        return None;
    }
    let (vertices, segments) = make_outline(contour);
    let ghost list = vertices@;
    match triangulate(&vertices, segments, seeds) {
        None => {
            assert(surface_of(contour@, seeds@, rid, None, list));
            None
        },
        Some(triangles) => {
            let r = Some(RegionNavMesh { region: rid, vertices, triangles });
            assert(surface_of(contour@, seeds@, rid, r, list));
            r
        },
    }
}

/// Whether `r` is a surface of the given rings, what a point inside each hole
/// marks having been carved.
pub open spec fn is_region_surface(rings: Rings, rid: RegionId, r: Option<RegionNavMesh>) -> bool {
    if rings.outer.len() < 3 {
        r is None
    } else {
        exists|seeds: Seq<PslgHole>, list: Seq<NavVertex>|
            all_marked(rings.holes, seeds) && #[trigger] surface_of(rings, seeds, rid, r, list)
    }
}

/// Triangulate the rings of a region and carve its holes.
///
/// There is none where the outer ring has fewer than three vertices, or where
/// the rings cannot be triangulated.
pub fn build_region_navmesh(rid: RegionId, contour: &RegionContour) -> (r: Option<RegionNavMesh>)
    requires
        outline(contour@).len() <= u32::MAX,
    ensures
        is_region_surface(contour@, rid, r),
        r matches Some(m) ==> m.wf(),
{
    let seeds = hole_seeds(contour);
    let r = build_seeded_navmesh(rid, contour, &seeds);
    proof {
        if contour@.outer.len() >= 3 {
            let list = choose|list: Seq<NavVertex>| #[trigger]
                surface_of(contour@, seeds@, rid, r, list);
            assert(all_marked(contour@.holes, seeds@) && surface_of(
                contour@,
                seeds@,
                rid,
                r,
                list,
            ));
        }
    }
    r
}

/// Whether `r` is a surface of the given rings, with the vertices `list` where
/// the outline has its own.
pub open spec fn surface_of(
    rings: Rings,
    seeds: Seq<PslgHole>,
    rid: RegionId,
    r: Option<RegionNavMesh>,
    list: Seq<NavVertex>,
) -> bool {
    &&& list.len() == outline(rings).len()
    &&& forall|i: int| 0 <= i < list.len() ==> placed(#[trigger] list[i], outline(rings)[i])
    &&& match r {
        None => has_surface(
            positions(list),
            outline_segments(rings, rings.holes.len()),
            seeds,
            None,
        ),
        Some(m) => m.region == rid && m.vertices@ == list && m.triangles@.len() > 0 && has_surface(
            positions(list),
            outline_segments(rings, rings.holes.len()),
            seeds,
            Some(tri_rows(m.triangles@)),
        ),
    }
}

/// Triangulate the rings of every region.
pub fn build_all_navmeshes(contours: &RegionContours) -> (all: AllRegionNavMeshes)
    requires
        contours.contours@.len() <= u32::MAX,
        forall|i: int|
            0 <= i < contours.contours@.len() ==> outline(
                (#[trigger] contours.contours@[i])@,
            ).len() <= u32::MAX,
    ensures
        all.region_count == contours.region_count,
        all.meshes@.len() == contours.contours@.len(),
        forall|i: int|
            0 <= i < all.meshes@.len() ==> {
                &&& is_region_surface(
                    contours.contours@[i]@,
                    RegionId(i as u32),
                    #[trigger] all.meshes@[i],
                )
                &&& all.meshes@[i] matches Some(m) ==> m.wf()
            },
{
    let mut meshes: Vec<Option<RegionNavMesh>> = Vec::new();
    let mut i: usize = 0;
    while i < contours.contours.len()
        invariant
            i <= contours.contours@.len() <= u32::MAX,
            forall|i: int|
                0 <= i < contours.contours@.len() ==> outline(
                    (#[trigger] contours.contours@[i])@,
                ).len() <= u32::MAX,
            meshes@.len() == i,
            forall|k: int|
                0 <= k < i ==> {
                    &&& is_region_surface(
                        contours.contours@[k]@,
                        RegionId(k as u32),
                        #[trigger] meshes@[k],
                    )
                    &&& meshes@[k] matches Some(m) ==> m.wf()
                },
        decreases contours.contours.len() - i,
    {
        let m = build_region_navmesh(RegionId(i as u32), &contours.contours[i]);
        meshes.push(m);
        i += 1;
    }
    AllRegionNavMeshes { region_count: contours.region_count, meshes }
}

/// The number of triangles of the first `n` surfaces.
pub open spec fn triangles_in(meshes: Seq<Option<RegionNavMesh>>, n: nat) -> nat
    decreases n,
{
    if n == 0 {
        0
    } else {
        triangles_in(meshes, (n - 1) as nat) + match meshes[n - 1] {
            None => 0,
            Some(m) => m.triangles@.len(),
        }
    }
}

/// The number of the first `n` regions that have a surface.
pub open spec fn built_in(meshes: Seq<Option<RegionNavMesh>>, n: nat) -> nat
    decreases n,
{
    if n == 0 {
        0
    } else {
        built_in(meshes, (n - 1) as nat) + if meshes[n - 1] is Some {
            1nat
        } else {
            0
        }
    }
}

proof fn lemma_triangles_in_grow(meshes: Seq<Option<RegionNavMesh>>, m: nat, n: nat)
    requires
        m <= n,
    ensures
        triangles_in(meshes, m) <= triangles_in(meshes, n),
    decreases n - m,
{
    if m < n {
        lemma_triangles_in_grow(meshes, m, (n - 1) as nat);
    }
}

impl AllRegionNavMeshes {
    /// The number of triangles of all surfaces.
    pub fn total_triangle_count(&self) -> (n: usize)
        requires
            triangles_in(self.meshes@, self.meshes@.len()) <= usize::MAX,
        ensures
            n == triangles_in(self.meshes@, self.meshes@.len()),
    {
        let mut n: usize = 0;
        let mut i: usize = 0;
        while i < self.meshes.len()
            invariant
                i <= self.meshes@.len(),
                n == triangles_in(self.meshes@, i as nat),
                triangles_in(self.meshes@, self.meshes@.len()) <= usize::MAX,
            decreases self.meshes.len() - i,
        {
            proof {
                lemma_triangles_in_grow(self.meshes@, (i + 1) as nat, self.meshes@.len());
            }
            if let Some(m) = &self.meshes[i] {
                n += m.triangle_count();
            }
            i += 1;
        }
        n
    }

    /// The number of regions that have a surface.
    pub fn built_count(&self) -> (n: usize)
        ensures
            n == built_in(self.meshes@, self.meshes@.len()),
    {
        let mut n: usize = 0;
        let mut i: usize = 0;
        while i < self.meshes.len()
            invariant
                i <= self.meshes@.len(),
                n <= i,
                n == built_in(self.meshes@, i as nat),
            decreases self.meshes.len() - i,
        {
            if self.meshes[i].is_some() {
                n += 1;
            }
            i += 1;
        }
        n
    }
}

// --- Laws -------------------------------------------------------------------

/// Whether a slot holds a live triangle with three vertices.
pub open spec fn is_full(m: MeshView, t: u32) -> bool {
    &&& t < m.tri_count
    &&& !m.dead(t)
    &&& m.has_vertex(m.corner[Otri { tri: t, orient: 0 }])
    &&& m.has_vertex(m.corner[Otri { tri: t, orient: 1 }])
    &&& m.has_vertex(m.corner[Otri { tri: t, orient: 2 }])
}

/// Whether rows are the corners of all live triangles, each once, those in the
/// slots `slots`.
pub open spec fn lists_faces(m: MeshView, rows: Seq<Seq<u32>>, slots: Seq<u32>) -> bool {
    &&& slots.len() == rows.len()
    &&& slots.no_duplicates()
    &&& forall|t: u32| #[trigger] slots.contains(t) <==> is_full(m, t)
    &&& forall|k: int, e: int|
        0 <= k < rows.len() && 0 <= e < 3 ==> #[trigger] rows[k][e] == m.corner[Otri {
            tri: slots[k],
            orient: e as u8,
        }].0
    &&& forall|k: int| 0 <= k < rows.len() ==> (#[trigger] rows[k]).len() == 3
}

proof fn lemma_faces_listed(m: MeshView, n: nat) -> (slots: Seq<u32>)
    requires
        m.wf(),
        n <= m.tri_count,
    ensures
        ({
            let rows = live_triangles(m, n);
            &&& slots.len() == rows.len()
            &&& slots.no_duplicates()
            &&& forall|t: u32| #[trigger] slots.contains(t) <==> t < n && is_full(m, t)
            &&& forall|k: int, e: int|
                0 <= k < rows.len() && 0 <= e < 3 ==> #[trigger] rows[k][e] == m.corner[Otri {
                    tri: slots[k],
                    orient: e as u8,
                }].0
            &&& forall|k: int| 0 <= k < rows.len() ==> (#[trigger] rows[k]).len() == 3
        }),
    decreases n,
{
    if n == 0 {
        Seq::empty()
    } else {
        let before = lemma_faces_listed(m, (n - 1) as nat);
        let t = (n - 1) as u32;
        let rows = live_triangles(m, n);
        let old = live_triangles(m, (n - 1) as nat);
        if is_full(m, t) {
            let slots = before.push(t);
            assert(!before.contains(t));
            assert forall|x: u32| #[trigger] slots.contains(x) <==> x < n && is_full(m, x) by {
                if before.contains(x) {
                    let i = choose|i: int| 0 <= i < before.len() && before[i] == x;
                    assert(slots[i] == x);
                }
                if slots.contains(x) {
                    let i = choose|i: int| 0 <= i < slots.len() && slots[i] == x;
                    if i < before.len() {
                        assert(before[i] == x);
                    }
                }
                if x == t {
                    assert(slots[before.len() as int] == t);
                }
            }
            assert forall|k: int, e: int| 0 <= k < rows.len() && 0 <= e < 3 implies #[trigger] rows[k][e]
                == m.corner[Otri { tri: slots[k], orient: e as u8 }].0 by {
                if k < old.len() {
                    assert(rows[k] == old[k] && slots[k] == before[k]);
                    assert(old[k][e] == m.corner[Otri { tri: before[k], orient: e as u8 }].0);
                }
            }
            assert forall|a: int, b: int|
                0 <= a < slots.len() && 0 <= b < slots.len() && a != b implies slots[a] != slots[b] by {
                if a < before.len() {
                    assert(before.contains(before[a]));
                }
                if b < before.len() {
                    assert(before.contains(before[b]));
                }
            }
            slots
        } else {
            before
        }
    }
}

/// Every live triangle of a mesh is listed once, and nothing else.
pub proof fn every_live_triangle_is_listed(m: MeshView) -> (slots: Seq<u32>)
    requires
        m.wf(),
    ensures
        lists_faces(m, live_triangles(m, m.tri_count), slots),
{
    lemma_faces_listed(m, m.tri_count)
}

/// Whether some seed marks a ring.
pub open spec fn is_marked_by(ring: Seq<ContourVertex>, seeds: Seq<PslgHole>) -> bool {
    exists|k: int| 0 <= k < seeds.len() && marks(ring, (#[trigger] seeds[k]).point)
}

/// Every hole with a cell inside, beside one of its vertices, has a seed in such a
/// cell.
pub proof fn every_hole_is_marked(rings: Seq<Seq<ContourVertex>>, seeds: Seq<PslgHole>, j: int)
    requires
        all_marked(rings, seeds),
        0 <= j < rings.len(),
        has_inner_cell(rings[j]),
    ensures
        is_marked_by(rings[j], seeds),
    decreases rings.len(),
{
    let n = rings.len() as int;
    if j == n - 1 {
        assert(marks(rings[j], seeds[seeds.len() - 1].point));
    } else {
        assert(rings.drop_last()[j] == rings[j]);
        if has_inner_cell(rings.last()) {
            let before = seeds.drop_last();
            every_hole_is_marked(rings.drop_last(), before, j);
            let k = choose|k: int| 0 <= k < before.len() && marks(rings[j], (#[trigger] before[k]).point);
            assert(seeds[k] == before[k]);
        } else {
            every_hole_is_marked(rings.drop_last(), seeds, j);
        }
    }
}

/// Ring number `j` of a region, the outer one first.
pub open spec fn outline_ring(rings: Rings, j: int) -> Seq<ContourVertex> {
    if j == 0 {
        rings.outer
    } else {
        rings.holes[j - 1]
    }
}

/// Whether ring `j` of a region goes into its outline: holes of fewer than three
/// vertices do not.
pub open spec fn is_outlined(rings: Rings, j: int) -> bool {
    j == 0 || (1 <= j <= rings.holes.len() && rings.holes[j - 1].len() >= 3)
}

/// Whether a segment joins vertex `i` of ring `j` and the next, the ring being
/// listed from number `base` on.
pub open spec fn is_ring_segment(
    rings: Rings,
    j: int,
    i: int,
    base: int,
    s: PslgSegment,
) -> bool {
    let n = outline_ring(rings, j).len() as int;
    &&& s.a == base + i
    &&& s.b == base + if i + 1 < n {
        i + 1
    } else {
        0
    }
    &&& s.marker == if j == 0 {
        1i32
    } else {
        2i32
    }
}

/// Whether a list of vertices and segments is the outline of a region: all its
/// rings, one after the other, ring `j` from number `bases[j]` on, and the
/// segments that close each of them.
pub open spec fn is_outline(
    rings: Rings,
    list: Seq<ContourVertex>,
    segments: Seq<PslgSegment>,
    bases: Seq<int>,
) -> bool {
    &&& bases.len() == rings.holes.len() + 1
    &&& segments.len() == list.len()
    &&& forall|j: int| 0 <= j < bases.len() ==> 0 <= #[trigger] bases[j] <= list.len()
    &&& forall|j: int, i: int| #[trigger]
        is_ring_place(rings, j, i) ==> bases[j] + i < list.len() && list[bases[j] + i]
            == outline_ring(rings, j)[i] && is_ring_segment(
            rings,
            j,
            i,
            bases[j],
            segments[bases[j] + i],
        )
    &&& forall|k: int| 0 <= k < list.len() ==> #[trigger] is_from_ring(rings, bases, k)
    &&& forall|j: int, i: int, x: int, y: int| #[trigger]
        is_ring_place(rings, j, i) && #[trigger] is_ring_place(rings, x, y) && bases[j] + i
            == bases[x] + y ==> j == x && i == y
}

/// Whether ring `j` goes into the outline and has a vertex `i`.
pub open spec fn is_ring_place(rings: Rings, j: int, i: int) -> bool {
    0 <= j <= rings.holes.len() && is_outlined(rings, j) && 0 <= i < outline_ring(rings, j).len()
}

/// Whether entry `k` of an outline is a vertex of some ring.
pub open spec fn is_from_ring(rings: Rings, bases: Seq<int>, k: int) -> bool {
    exists|j: int, i: int| #[trigger] is_ring_place(rings, j, i) && bases[j] + i == k
}

proof fn lemma_outline_so_far(rings: Rings, n: nat) -> (bases: Seq<int>)
    requires
        n <= rings.holes.len(),
        outline_vertices(rings, n).len() <= u32::MAX,
    ensures
        ({
            let list = outline_vertices(rings, n);
            let segments = outline_segments(rings, n);
            &&& bases.len() == n + 1
            &&& segments.len() == list.len()
            &&& forall|j: int| 0 <= j < bases.len() ==> 0 <= #[trigger] bases[j] <= list.len()
            &&& forall|j: int, i: int| #[trigger]
                is_ring_place(rings, j, i) && j <= n ==> bases[j] + i < list.len() && list[bases[j]
                    + i] == outline_ring(rings, j)[i] && is_ring_segment(
                    rings,
                    j,
                    i,
                    bases[j],
                    segments[bases[j] + i],
                )
            &&& forall|k: int| 0 <= k < list.len() ==> #[trigger] is_from_first(rings, bases, n, k)
            &&& forall|j: int, i: int, x: int, y: int| #[trigger]
                is_ring_place(rings, j, i) && #[trigger] is_ring_place(rings, x, y) && j <= n && x
                    <= n && bases[j] + i == bases[x] + y ==> j == x && i == y
        }),
    decreases n,
{
    if n == 0 {
        let bases = seq![0int];
        let list = rings.outer;
        assert forall|k: int| 0 <= k < list.len() implies #[trigger] is_from_first(
            rings,
            bases,
            0,
            k,
        ) by {
            assert(is_ring_place(rings, 0, k));
        }
        bases
    } else {
        let m = (n - 1) as nat;
        let hole = rings.holes[n - 1];
        let old = outline_vertices(rings, m);
        let list = outline_vertices(rings, n);
        let before = lemma_outline_so_far(rings, m);
        let bases = before.push(old.len() as int);
        let (segs, segments) = (outline_segments(rings, m), outline_segments(rings, n));
        assert forall|j: int, i: int| #[trigger] is_ring_place(rings, j, i) && j <= n implies bases[j]
            + i < list.len() && list[bases[j] + i] == outline_ring(rings, j)[i]
            && is_ring_segment(rings, j, i, bases[j], segments[bases[j] + i]) by {
            if j < n {
                assert(bases[j] == before[j]);
                assert(before[j] + i < old.len());
                assert(list[bases[j] + i] == old[before[j] + i]);
                assert(segments[bases[j] + i] == segs[before[j] + i]);
            } else {
                assert(list == old + hole);
                assert(list[old.len() + i] == hole[i]);
                let more = ring_segments(old.len() as int, hole.len(), 2);
                assert(segments == segs + more);
                assert(segments[old.len() + i] == more[i]);
            }
        }
        assert forall|k: int| 0 <= k < list.len() implies #[trigger] is_from_first(
            rings,
            bases,
            n,
            k,
        ) by {
            if k < old.len() {
                assert(is_from_first(rings, before, m, k));
                let (j, i) = choose|j: int, i: int| #[trigger]
                    is_ring_place(rings, j, i) && j <= m && before[j] + i == k;
                assert(is_ring_place(rings, j, i) && bases[j] + i == k);
            } else {
                assert(is_ring_place(rings, n as int, k - old.len()));
                assert(bases[n as int] + (k - old.len()) == k);
            }
        }
        assert forall|j: int, i: int, x: int, y: int| #[trigger]
            is_ring_place(rings, j, i) && #[trigger] is_ring_place(rings, x, y) && j <= n && x <= n
            && bases[j] + i == bases[x] + y implies j == x && i == y by {
            if j < n {
                assert(before[j] + i < old.len());
                assert(bases[j] == before[j]);
            }
            if x < n {
                assert(before[x] + y < old.len());
                assert(bases[x] == before[x]);
            }
        }
        bases
    }
}

/// Whether entry `k` of an outline is a vertex of the outer ring or one of the
/// first `n` holes.
spec fn is_from_first(rings: Rings, bases: Seq<int>, n: nat, k: int) -> bool {
    exists|j: int, i: int| #[trigger]
        is_ring_place(rings, j, i) && j <= n && bases[j] + i == k
}

/// An outline has the vertices of the outer ring and of every hole with at least
/// three vertices, each once, and a segment for each edge of these rings.
pub proof fn outlines_hold_every_ring(rings: Rings) -> (bases: Seq<int>)
    requires
        outline(rings).len() <= u32::MAX,
    ensures
        is_outline(rings, outline(rings), outline_segments(rings, rings.holes.len()), bases),
{
    let n = rings.holes.len();
    let bases = lemma_outline_so_far(rings, n);
    let list = outline(rings);
    assert forall|k: int| 0 <= k < list.len() implies #[trigger] is_from_ring(rings, bases, k) by {
        assert(is_from_first(rings, bases, n, k));
        let (j, i) = choose|j: int, i: int| #[trigger]
            is_ring_place(rings, j, i) && j <= n && bases[j] + i == k;
        assert(is_ring_place(rings, j, i) && bases[j] + i == k);
    }
    bases
}

/// A surface more adds its triangles, and one more region that has a surface.
pub proof fn counts_add_up(meshes: Seq<Option<RegionNavMesh>>, m: Option<RegionNavMesh>)
    ensures
        triangles_in(Seq::empty(), 0) == 0,
        built_in(Seq::empty(), 0) == 0,
        triangles_in(meshes.push(m), meshes.len() + 1) == triangles_in(meshes, meshes.len())
            + match m {
            None => 0,
            Some(x) => x.triangles@.len(),
        },
        built_in(meshes.push(m), meshes.len() + 1) == built_in(meshes, meshes.len()) + match m {
            None => 0nat,
            Some(_) => 1nat,
        },
{
    lemma_counts_prefix(meshes, m, meshes.len());
}

proof fn lemma_counts_prefix(meshes: Seq<Option<RegionNavMesh>>, m: Option<RegionNavMesh>, n: nat)
    requires
        n <= meshes.len(),
    ensures
        triangles_in(meshes.push(m), n) == triangles_in(meshes, n),
        built_in(meshes.push(m), n) == built_in(meshes, n),
    decreases n,
{
    if n > 0 {
        lemma_counts_prefix(meshes, m, (n - 1) as nat);
    }
}

} // verus!
