//! Triangulating points and graphs: Delaunay triangulation, constraints, holes,
//! ears and winding.

use rsnav::advance::build_outward;
use rsnav::clip::{clip_ears, find_ear_candidates};
use rsnav::cull::{carve_by_winding, drop_interior_constraints, live_sides};
use rsnav::divconq::{
    delaunay, make_edge_pair, make_triangle_or_edges, merge_hulls, DivConqOptions,
};
use rsnav::empty_circle::{check_constrained_delaunay, check_delaunay, delaunay_fault};
use rsnav::holes::{carve_holes, infect_hull, locate_holes_gridded, locate_triangle, plague, sweep};
use rsnav::inset::{
    check_snap_cell, finish_inset, normalize_ring, plan_inset, InsetBuild, InsetError, InsetPlan,
    InsetRing, PlanarizeError, RingKind,
};
use rsnav::mesh::{
    CdtMesh, EncodedTri, Otri, TriangleSlot, VertexId, VertexSlot, DUMMY_SUB, DUMMY_TRI,
};
use rsnav::predicates::{incircle, orient2d, Vertex};
use rsnav::pslg::{Pslg, PslgHole, PslgSegment, PslgVertex};
use rsnav::segment::{
    find_direction, form_skeleton, insert_segment, locate_vertex, make_vertex_map,
    SegmentInsertError,
};
use rsnav::forcing::straighten;
use rsnav::settle::settle_edges;
use rsnav::skeleton::thread_skeleton;
use rsnav::survey::{check_cdt, check_counted, check_plane, check_tidy, check_uses_all};
use rsnav::threading::{find_crossing, find_used, thread_segment};
use rsnav::trail::does_lead;
use rsnav::winding::{winding_number, SoupContour, WindingIndex};
use std::collections::VecDeque;

fn v(x: f64, y: f64) -> Vertex {
    Vertex::new(x.to_bits(), y.to_bits())
}

fn x_of(p: Vertex) -> f64 {
    f64::from_bits(p.x)
}

fn y_of(p: Vertex) -> f64 {
    f64::from_bits(p.y)
}

fn push(m: &mut CdtMesh, x: f64, y: f64) -> VertexId {
    m.push_vertex(VertexSlot::new(v(x, y), 0))
}

fn is_real(slot: &TriangleSlot) -> bool {
    !slot.is_dead() && slot.vertices.iter().all(|c| c.is_valid())
}

/// Live triangles as `[org, dest, apex]` of their first edge.
fn live_triangles(mesh: &CdtMesh) -> Vec<[VertexId; 3]> {
    let mut out = Vec::new();
    for slot in mesh.triangles.iter().skip(1) {
        if is_real(slot) {
            out.push([slot.vertices[1], slot.vertices[2], slot.vertices[0]]);
        }
    }
    out
}

fn signed_area2(a: Vertex, b: Vertex, c: Vertex) -> f64 {
    (x_of(b) - x_of(a)) * (y_of(c) - y_of(a)) - (y_of(b) - y_of(a)) * (x_of(c) - x_of(a))
}

fn live_area(mesh: &CdtMesh) -> f64 {
    let mut area = 0.0;
    for t in live_triangles(mesh) {
        let (a, b, c) = (mesh.vertex_pos(t[0]), mesh.vertex_pos(t[1]), mesh.vertex_pos(t[2]));
        area += signed_area2(a, b, c).abs() * 0.5;
    }
    area
}

fn covers(mesh: &CdtMesh, p: Vertex) -> bool {
    live_triangles(mesh).iter().any(|t| {
        let (a, b, c) = (mesh.vertex_pos(t[0]), mesh.vertex_pos(t[1]), mesh.vertex_pos(t[2]));
        let (s1, s2, s3) = (orient2d(a, b, p), orient2d(b, c, p), orient2d(c, a, p));
        (s1 >= 0 && s2 >= 0 && s3 >= 0) || (s1 <= 0 && s2 <= 0 && s3 <= 0)
    })
}

/// A linear congruential generator.
struct Lcg(u64);

impl Lcg {
    fn next_u64(&mut self) -> u64 {
        self.0 = self.0.wrapping_mul(6364136223846793005).wrapping_add(1442695040888963407);
        self.0 >> 11
    }

    fn next_f64(&mut self) -> f64 {
        self.next_u64() as f64 / ((1u64 << 53) as f64)
    }
}

// --- Delaunay triangulation -------------------------------------------------

#[test]
fn three_points_one_triangle() {
    let mut m = CdtMesh::new();
    let a = push(&mut m, 0.0, 0.0);
    let b = push(&mut m, 4.0, 0.0);
    let c = push(&mut m, 2.0, 3.0);
    let hull = delaunay(&mut m, DivConqOptions::default()).unwrap();
    assert_eq!(hull, 3);
    let tris = live_triangles(&m);
    assert_eq!(tris.len(), 1);
    let mut got: Vec<u32> = tris[0].iter().map(|c| c.get()).collect();
    got.sort();
    assert_eq!(got, vec![a.get(), b.get(), c.get()]);
}

#[test]
fn four_points_square_two_triangles() {
    let mut m = CdtMesh::new();
    push(&mut m, 0.0, 0.0);
    push(&mut m, 4.0, 0.0);
    push(&mut m, 4.0, 4.0);
    push(&mut m, 0.0, 4.0);
    let hull = delaunay(&mut m, DivConqOptions::default()).unwrap();
    assert_eq!(hull, 4);
    let tris = live_triangles(&m);
    assert_eq!(tris.len(), 2);
    for t in &tris {
        let area2 = orient2d(m.vertex_pos(t[0]), m.vertex_pos(t[1]), m.vertex_pos(t[2]));
        assert!(area2 > 0, "triangle {:?} is not CCW", t);
    }
}

#[test]
fn euler_formula_triangle_count_matches_hull() {
    let mut m = CdtMesh::new();
    for x in 0..3 {
        for y in 0..2 {
            push(&mut m, x as f64, y as f64);
        }
    }
    let hull = delaunay(&mut m, DivConqOptions::default()).unwrap() as usize;
    let tris = live_triangles(&m);
    let n = m.vertices.len();
    assert_eq!(tris.len(), 2 * n - 2 - hull);
}

fn lcg_rand(state: &mut u64) -> f64 {
    *state = state.wrapping_mul(6364136223846793005).wrapping_add(1442695040888963407);
    ((*state >> 11) as f64) / ((1u64 << 53) as f64)
}

#[test]
fn delaunay_property_holds() {
    let mut m = CdtMesh::new();
    let positions: Vec<(f64, f64)> =
        vec![(0.0, 0.0), (5.0, 0.5), (3.0, 4.0), (8.0, 4.0), (4.5, 7.0), (1.0, 6.0)];
    let ids: Vec<VertexId> = positions.iter().map(|p| push(&mut m, p.0, p.1)).collect();
    delaunay(&mut m, DivConqOptions::default()).unwrap();
    let tris = live_triangles(&m);
    for t in &tris {
        let a = m.vertex_pos(t[0]);
        let b = m.vertex_pos(t[1]);
        let c = m.vertex_pos(t[2]);
        for id in &ids {
            if *id == t[0] || *id == t[1] || *id == t[2] {
                continue;
            }
            let d = m.vertex_pos(*id);
            assert!(
                incircle(a, b, c, d) <= 0,
                "vertex {:?} is inside circumcircle of triangle {:?}",
                *id,
                t
            );
        }
    }
    assert_eq!(delaunay_fault(&m), None);
}

#[test]
fn random_200_points_delaunay() {
    let mut m = CdtMesh::new();
    let mut state = 0xDEAD_BEEF_C0DE_F00Du64;
    let n = 200;
    let ids: Vec<VertexId> = (0..n)
        .map(|_| push(&mut m, lcg_rand(&mut state) * 1000.0, lcg_rand(&mut state) * 1000.0))
        .collect();
    let hull = delaunay(&mut m, DivConqOptions::default()).unwrap() as usize;
    let tris = live_triangles(&m);

    assert_eq!(tris.len(), 2 * n as usize - 2 - hull, "Euler relation violated");

    for t in &tris {
        let area2 = orient2d(m.vertex_pos(t[0]), m.vertex_pos(t[1]), m.vertex_pos(t[2]));
        assert!(area2 > 0, "triangle {:?} is not CCW (area2 = {})", t, area2);
    }

    let mut check_state = 0xC0FFEE_u64;
    for t in &tris {
        let a = m.vertex_pos(t[0]);
        let b = m.vertex_pos(t[1]);
        let c = m.vertex_pos(t[2]);
        for _ in 0..50 {
            let id = ids[(lcg_rand(&mut check_state) * n as f64) as usize];
            if id == t[0] || id == t[1] || id == t[2] {
                continue;
            }
            let d = m.vertex_pos(id);
            let r = incircle(a, b, c, d);
            assert!(r <= 0, "Delaunay violated: vertex {:?} inside circumcircle of {:?}", id, t);
        }
    }
    assert_eq!(delaunay_fault(&m), None);
}

#[test]
fn merging_an_edge_and_a_triangle_keeps_every_edge_glued() {
    let mut m = CdtMesh::new();
    let a = push(&mut m, 0.0, 0.0);
    let b = push(&mut m, 1.0, 3.0);
    let c = push(&mut m, 2.0, 0.5);
    let d = push(&mut m, 3.0, 2.0);
    let e = push(&mut m, 4.0, -1.0);
    let (farleft, innerleft) = make_edge_pair(&mut m, a, b).unwrap();
    assert_eq!((m.org(farleft), m.dest(innerleft)), (a, b));
    let (innerright, farright) = make_triangle_or_edges(&mut m, c, d, e).unwrap();
    assert_eq!((m.org(innerright), m.dest(farright)), (c, e));
    merge_hulls(&mut m, farleft, innerleft, innerright, farright, false).unwrap();

    let mut faces = 0;
    for tri in 1..m.triangles.len() as u32 {
        for orient in 0..3u8 {
            let o = Otri { tri, orient };
            let p = m.sym(o);
            assert_ne!(p.tri, 0);
            assert_eq!(m.sym(p), o);
            assert_eq!((m.org(p), m.dest(p)), (m.dest(o), m.org(o)));
        }
        let o = Otri { tri, orient: 0 };
        let (x, y, z) = (m.org(o), m.dest(o), m.apex(o));
        if x.is_valid() && y.is_valid() && z.is_valid() {
            assert!(orient2d(m.vertex_pos(x), m.vertex_pos(y), m.vertex_pos(z)) > 0);
            faces += 1;
        }
    }
    assert_eq!(faces, 4);
}

/// The vertices of a mesh, all at different places, from left to right.
fn in_order(m: &CdtMesh) -> Vec<VertexId> {
    let mut ids: Vec<VertexId> = (0..m.vertices.len() as u32).map(VertexId::new).collect();
    let key = |v: &VertexId| (x_of(m.vertex_pos(*v)), y_of(m.vertex_pos(*v)));
    ids.sort_by(|a, b| key(a).partial_cmp(&key(b)).unwrap());
    ids
}

#[test]
fn building_outward_gives_the_delaunay_triangulation() {
    let mut m = CdtMesh::new();
    let mut state = 0x1234_5678_9ABC_DEF1u64;
    for _ in 0..60 {
        push(&mut m, lcg_rand(&mut state) * 10.0, lcg_rand(&mut state) * 10.0);
    }
    let ids = in_order(&m);
    let hull = build_outward(&mut m, &ids);
    assert!(check_delaunay(&m, &ids, hull));
    assert_eq!(m.hull_size, hull);
    assert_eq!(m.live_triangle_count(), 2 * 60 - 2 - hull as usize);
    assert_eq!(delaunay_fault(&m), None);
    let anchor = m.sym(Otri { tri: 0, orient: 0 });
    assert_eq!(m.sym(anchor).tri, 0);

    // The same triangles as by dividing, no four of the points being on one
    // circle.
    let mut d = CdtMesh::new();
    for v in &m.vertices {
        d.push_vertex(VertexSlot::new(v.position, 0));
    }
    assert_eq!(delaunay(&mut d, DivConqOptions::default()).unwrap(), hull);
    let sorted = |m: &CdtMesh| {
        let mut all: Vec<Vec<u32>> = live_triangles(m)
            .iter()
            .map(|t| {
                let mut c: Vec<u32> = t.iter().map(|v| v.get()).collect();
                c.sort();
                c
            })
            .collect();
        all.sort();
        all
    };
    assert_eq!(sorted(&m), sorted(&d));
    // Dividing leaves the slots of its ghosts behind, building outward none.
    assert!(d.triangles.len() - 1 > d.live_triangle_count());
    assert_eq!(m.triangles.len() - 1, m.live_triangle_count());
}

#[test]
fn building_outward_takes_rows_and_columns() {
    // A grid: many vertices in line, many on one circle.
    let mut m = CdtMesh::new();
    for i in 0..5 {
        for j in 0..4 {
            push(&mut m, i as f64, j as f64);
        }
    }
    let ids = in_order(&m);
    let hull = build_outward(&mut m, &ids);
    assert_eq!(hull, 14);
    assert!(check_delaunay(&m, &ids, hull));
    // All on one line: edges and no triangle.
    let mut l = CdtMesh::new();
    for i in 0..5 {
        push(&mut l, i as f64, 2.0 * i as f64);
    }
    let ids = in_order(&l);
    assert_eq!(build_outward(&mut l, &ids), 8);
    assert_eq!(l.live_triangle_count(), 0);
}

#[test]
fn both_ways_to_divide_are_delaunay() {
    for dwyer in [false, true] {
        let mut m = CdtMesh::new();
        for i in 0..6 {
            for j in 0..6 {
                push(&mut m, i as f64, j as f64);
            }
        }
        // Every place twice: only one vertex of each is used.
        for i in 0..6 {
            push(&mut m, i as f64, i as f64);
        }
        let hull = delaunay(&mut m, DivConqOptions { dwyer }).unwrap() as usize;
        assert_eq!(hull, 20);
        assert_eq!(live_triangles(&m).len(), 2 * 36 - 2 - hull);
        assert_eq!(delaunay_fault(&m), None);
    }
}

#[test]
fn a_flipped_edge_is_a_fault() {
    // A kite whose short diagonal is the Delaunay edge.
    let mut m = CdtMesh::new();
    push(&mut m, 0.0, 0.0);
    push(&mut m, 4.0, 1.0);
    push(&mut m, 8.0, 0.0);
    push(&mut m, 4.0, -1.0);
    delaunay(&mut m, DivConqOptions::default()).unwrap();
    assert_eq!(delaunay_fault(&m), None);
    let mut e = Otri::dummy();
    for t in 1..m.triangles.len() as u32 {
        for o in 0..3u8 {
            let here = Otri::new(t, o);
            if !m.triangle(t).is_dead() && m.sym(here).tri != DUMMY_TRI {
                e = here;
            }
        }
    }
    rsnav::flip::flip(&mut m, &mut e);
    assert!(delaunay_fault(&m).is_some());
}

#[test]
fn points_on_a_line_have_no_triangle() {
    let mut m = CdtMesh::new();
    for i in 0..5 {
        push(&mut m, i as f64, 2.0 * i as f64);
    }
    delaunay(&mut m, DivConqOptions::default()).unwrap();
    assert_eq!(live_triangles(&m).len(), 0);
}

// --- Constraints ------------------------------------------------------------

fn build_square_delaunay() -> CdtMesh {
    let mut m = CdtMesh::new();
    push(&mut m, 0.0, 0.0);
    push(&mut m, 4.0, 0.0);
    push(&mut m, 4.0, 4.0);
    push(&mut m, 0.0, 4.0);
    delaunay(&mut m, DivConqOptions::default()).unwrap();
    m
}

#[test]
fn make_vertex_map_back_pointers_are_valid() {
    let mut m = build_square_delaunay();
    for slot in &mut m.vertices {
        slot.triangle = EncodedTri::dummy();
    }
    make_vertex_map(&mut m);
    for (i, slot) in m.vertices.iter().enumerate() {
        assert_ne!(slot.triangle.tri(), DUMMY_TRI, "vertex {} got no triangle back-pointer", i);
        let t = slot.triangle.to_otri();
        let corners = m.triangle(t.tri).vertices;
        assert!(
            corners.iter().any(|c| c.get() as usize == i),
            "vertex {} back-pointer triangle {} doesn't contain it",
            i,
            t.tri
        );
    }
}

#[test]
fn find_direction_within_triangle() {
    let mut m = CdtMesh::new();
    let a = push(&mut m, 0.0, 0.0);
    let _b = push(&mut m, 5.0, 0.0);
    let c = push(&mut m, 2.5, 5.0);
    delaunay(&mut m, DivConqOptions::default()).unwrap();
    make_vertex_map(&mut m);
    let mut handle = locate_vertex(&mut m, a).expect("vertex a should be in the triangulation");
    let result = find_direction(&m, &mut handle, c).unwrap();
    assert_eq!(m.org(handle), a);
    let lv = m.apex(handle);
    let rv = m.dest(handle);
    assert!(lv == c || rv == c, "result {:?}, lv={:?} rv={:?}", result, lv, rv);
}

#[test]
fn insert_segment_coincident_with_existing_edge() {
    let mut m = build_square_delaunay();
    let tri_count_before = m.live_triangle_count();
    make_vertex_map(&mut m);
    insert_segment(&mut m, VertexId::new(0), VertexId::new(1), 7).unwrap();
    assert_eq!(m.live_triangle_count(), tri_count_before);
    assert!(
        (1..m.subsegs.len() as u32)
            .filter(|i| !m.subseg(*i).is_dead())
            .any(|i| m.subseg(i).marker == 7),
        "expected a subseg with marker 7 to exist"
    );
}

#[test]
fn insert_segment_forces_crossing_diagonal() {
    let mut m = build_square_delaunay();
    make_vertex_map(&mut m);
    insert_segment(&mut m, VertexId::new(0), VertexId::new(2), 3).unwrap();
    assert_eq!(m.live_triangle_count(), 2);
    let v0 = m.vertex_pos(VertexId::new(0));
    let v2 = m.vertex_pos(VertexId::new(2));
    let mut found = false;
    for s in 1..m.subsegs.len() as u32 {
        if m.subseg(s).is_dead() {
            continue;
        }
        let a = m.subseg(s).sub_vertices[0];
        let b = m.subseg(s).sub_vertices[1];
        let pa = m.vertex_pos(a);
        let pb = m.vertex_pos(b);
        if (pa == v0 && pb == v2) || (pa == v2 && pb == v0) {
            found = true;
            break;
        }
    }
    assert!(found, "expected a subseg coinciding with the forced diagonal (0,2)");
}

#[test]
fn form_skeleton_unit_square_with_diagonal() {
    let mut mesh = build_square_delaunay();
    let pslg = Pslg {
        vertices: vec![
            PslgVertex::new(v(0.0, 0.0)),
            PslgVertex::new(v(4.0, 0.0)),
            PslgVertex::new(v(4.0, 4.0)),
            PslgVertex::new(v(0.0, 4.0)),
        ],
        segments: vec![
            PslgSegment { a: 0, b: 1, marker: 10 },
            PslgSegment { a: 1, b: 2, marker: 10 },
            PslgSegment { a: 2, b: 3, marker: 10 },
            PslgSegment { a: 3, b: 0, marker: 10 },
            PslgSegment { a: 0, b: 2, marker: 99 },
        ],
        holes: Vec::new(),
    };

    form_skeleton(&mut mesh, &pslg, Some(1)).unwrap();
    assert_eq!(mesh.live_triangle_count(), 2);

    let live_subsegs: Vec<u32> =
        (1..mesh.subsegs.len() as u32).filter(|i| !mesh.subseg(*i).is_dead()).collect();
    assert_eq!(live_subsegs.len(), 5, "expected 5 subsegs (4 hull + 1 diagonal)");
    let marker_99_count = live_subsegs.iter().filter(|i| mesh.subseg(**i).marker == 99).count();
    let marker_10_count = live_subsegs.iter().filter(|i| mesh.subseg(**i).marker == 10).count();
    assert_eq!(marker_99_count, 1);
    assert_eq!(marker_10_count, 4);
}

#[test]
fn crossing_constraints_are_refused() {
    let mut mesh = build_square_delaunay();
    let pslg = Pslg {
        vertices: Vec::new(),
        segments: vec![
            PslgSegment { a: 0, b: 2, marker: 1 },
            PslgSegment { a: 1, b: 3, marker: 1 },
        ],
        holes: Vec::new(),
    };
    let e = form_skeleton(&mut mesh, &pslg, None).unwrap_err();
    assert!(matches!(e, SegmentInsertError::SelfIntersection { .. }));
    assert!(e.message().starts_with("PSLG segment (1 \u{2192} 3) crosses"));
}

#[test]
fn a_refused_segment_leaves_the_mesh_as_it_was() {
    // A row of vertices along y = 0 and a wall across it.
    let mut m = CdtMesh::new();
    for (x, y) in [(0.0, 0.0), (1.0, 0.0), (4.0, 0.0), (2.0, 3.0), (2.5, -3.0), (1.5, 2.0)] {
        push(&mut m, x, y);
    }
    delaunay(&mut m, DivConqOptions::default()).unwrap();
    make_vertex_map(&mut m);
    insert_segment(&mut m, VertexId::new(3), VertexId::new(4), 7).unwrap();
    let before = format!("{:?}", m);
    let e = insert_segment(&mut m, VertexId::new(0), VertexId::new(2), 1).unwrap_err();
    assert!(matches!(e, SegmentInsertError::SelfIntersection { .. }));
    assert_eq!(format!("{:?}", m), before);
}

#[test]
fn a_segment_is_a_straight_chain_of_subsegments() {
    let mut m = CdtMesh::new();
    for i in 0..5 {
        push(&mut m, i as f64, i as f64);
    }
    for (x, y) in [(0.0, 4.0), (4.0, 0.0), (1.0, 3.0), (3.0, 0.5)] {
        push(&mut m, x, y);
    }
    delaunay(&mut m, DivConqOptions::default()).unwrap();
    let segments = vec![
        PslgSegment { a: 0, b: 4, marker: 5 },
        PslgSegment { a: 7, b: 8, marker: 6 },
    ];
    let one = Pslg { vertices: Vec::new(), segments: segments[..1].to_vec(), holes: Vec::new() };
    form_skeleton(&mut m, &one, None).unwrap();
    assert!(check_constrained_delaunay(&m));
    let chain: Vec<u32> = (1..m.subsegs.len() as u32).collect();
    assert_eq!(chain.len(), 4);
    let (a, b) = (v(0.0, 0.0), v(4.0, 4.0));
    let (mut there, mut back) = (chain.clone(), chain.clone());
    back.reverse();
    if !does_lead(&m, &there, a, b) {
        std::mem::swap(&mut there, &mut back);
    }
    assert!(does_lead(&m, &there, a, b));
    assert!(does_lead(&m, &back, b, a));
    assert!(!does_lead(&m, &back, a, b));
    assert!(!does_lead(&m, &there[..3].to_vec(), a, b));
    assert!(!does_lead(&m, &there, a, v(5.0, 5.0)));
    // The second segment crosses the first between its vertices.
    let two = Pslg { vertices: Vec::new(), segments, holes: Vec::new() };
    let e = form_skeleton(&mut m, &two, None).unwrap_err();
    assert!(matches!(e, SegmentInsertError::SelfIntersection { .. }));
}

#[test]
fn triangulations_are_held_against_euler_and_the_circles() {
    let mut m = build_square_delaunay();
    let ids: Vec<VertexId> = (0..4).map(VertexId::new).collect();
    assert!(check_delaunay(&m, &ids, 4));
    assert!(!check_delaunay(&m, &ids, 3));
    // A narrow kite with its long diagonal.
    let mut k = CdtMesh::new();
    for (x, y) in [(0.0, 0.0), (5.0, -1.0), (10.0, 0.0), (5.0, 1.0)] {
        push(&mut k, x, y);
    }
    delaunay(&mut k, DivConqOptions::default()).unwrap();
    assert!(check_delaunay(&k, &ids, 4));
    make_vertex_map(&mut k);
    insert_segment(&mut k, VertexId::new(0), VertexId::new(2), 1).unwrap();
    assert!(!check_delaunay(&k, &ids, 4));
    assert!(check_constrained_delaunay(&k));
    let tri = (1..m.triangles.len() as u32).find(|t| !m.is_dead(*t)).unwrap();
    let o = Otri { tri, orient: 0 };
    let apex = m.apex(o);
    let org = m.org(o);
    m.set_apex(o, org);
    m.set_org(o, apex);
    assert!(!check_constrained_delaunay(&m));
}

#[test]
fn a_vertex_outside_the_triangulation_is_reported() {
    // All points on a line: no triangle holds any of them.
    let mut m = CdtMesh::new();
    push(&mut m, 0.0, 0.0);
    push(&mut m, 1.0, 0.0);
    push(&mut m, 2.0, 0.0);
    delaunay(&mut m, DivConqOptions::default()).unwrap();
    make_vertex_map(&mut m);
    let r = insert_segment(&mut m, VertexId::new(0), VertexId::new(2), 1);
    let e = r.unwrap_err();
    assert!(matches!(e, SegmentInsertError::VertexNotInTriangulation { .. }));
    assert_eq!(e.message(), "vertex 0 is not a corner of any live triangle in the CDT");
}

// --- Holes ------------------------------------------------------------------

/// A 4x4 square with a 1x1 hole in the middle.
fn build_square_with_square_hole() -> (CdtMesh, Pslg) {
    let mut mesh = CdtMesh::new();
    push(&mut mesh, 0.0, 0.0);
    push(&mut mesh, 4.0, 0.0);
    push(&mut mesh, 4.0, 4.0);
    push(&mut mesh, 0.0, 4.0);
    push(&mut mesh, 1.5, 1.5);
    push(&mut mesh, 2.5, 1.5);
    push(&mut mesh, 2.5, 2.5);
    push(&mut mesh, 1.5, 2.5);

    delaunay(&mut mesh, DivConqOptions::default()).unwrap();

    let pslg = Pslg {
        vertices: (0..8).map(|i| PslgVertex::new(mesh.vertex_pos(VertexId::new(i)))).collect(),
        segments: vec![
            PslgSegment { a: 0, b: 1, marker: 10 },
            PslgSegment { a: 1, b: 2, marker: 10 },
            PslgSegment { a: 2, b: 3, marker: 10 },
            PslgSegment { a: 3, b: 0, marker: 10 },
            PslgSegment { a: 4, b: 5, marker: 20 },
            PslgSegment { a: 5, b: 6, marker: 20 },
            PslgSegment { a: 6, b: 7, marker: 20 },
            PslgSegment { a: 7, b: 4, marker: 20 },
        ],
        holes: vec![PslgHole { point: v(2.0, 2.0) }],
    };
    form_skeleton(&mut mesh, &pslg, None).unwrap();
    (mesh, pslg)
}

#[test]
fn carve_a_square_hole() {
    let (mut mesh, pslg) = build_square_with_square_hole();
    let killed = carve_holes(&mut mesh, &pslg, false).unwrap();
    let after = mesh.live_triangle_count();
    assert_eq!(after, 8, "expected 8 surviving triangles after carve");
    assert!(!covers(&mesh, v(2.0, 2.0)), "a triangle still covers the hole interior");
    assert!(killed > 0);
}

/// A square with a grid of square holes on a pitch of four.
fn build_square_with_hole_grid(n: usize) -> (CdtMesh, Pslg) {
    let side = n as f64 * 4.0;
    let mut mesh = CdtMesh::new();
    push(&mut mesh, 0.0, 0.0);
    push(&mut mesh, side, 0.0);
    push(&mut mesh, side, side);
    push(&mut mesh, 0.0, side);
    let mut segments = vec![
        PslgSegment { a: 0, b: 1, marker: 10 },
        PslgSegment { a: 1, b: 2, marker: 10 },
        PslgSegment { a: 2, b: 3, marker: 10 },
        PslgSegment { a: 3, b: 0, marker: 10 },
    ];
    let mut holes = Vec::new();
    for gy in 0..n {
        for gx in 0..n {
            let (cx, cy) = (gx as f64 * 4.0 + 2.0, gy as f64 * 4.0 + 2.0);
            let base = (4 + (gy * n + gx) * 4) as u32;
            push(&mut mesh, cx - 0.5, cy - 0.5);
            push(&mut mesh, cx + 0.5, cy - 0.5);
            push(&mut mesh, cx + 0.5, cy + 0.5);
            push(&mut mesh, cx - 0.5, cy + 0.5);
            for k in 0..4u32 {
                segments.push(PslgSegment { a: base + k, b: base + (k + 1) % 4, marker: 20 });
            }
            holes.push(PslgHole { point: v(cx, cy) });
        }
    }
    delaunay(&mut mesh, DivConqOptions::default()).unwrap();
    let pslg = Pslg {
        vertices: (0..mesh.vertices.len() as u32)
            .map(|i| PslgVertex::new(mesh.vertex_pos(VertexId::new(i))))
            .collect(),
        segments,
        holes,
    };
    form_skeleton(&mut mesh, &pslg, None).unwrap();
    (mesh, pslg)
}

fn survivors(mesh: &CdtMesh) -> Vec<(u32, [VertexId; 3])> {
    (1..mesh.triangles.len() as u32)
        .filter(|&i| !mesh.triangle(i).is_dead())
        .map(|i| (i, mesh.triangle(i).vertices))
        .collect()
}

#[test]
fn gridded_seeds_match_locate_triangle_oracle() {
    let (mesh, pslg) = build_square_with_hole_grid(5);
    assert_eq!(pslg.holes.len(), 25);
    let gridded = locate_holes_gridded(&mesh, &pslg.holes);
    for (i, hole) in pslg.holes.iter().enumerate() {
        let oracle = locate_triangle(&mesh, hole.point);
        assert!(oracle.is_some(), "hole {} not located by the oracle", i);
        assert_eq!(gridded[i], oracle, "hole {} seed triangle mismatch", i);
    }

    let (mut mesh_grid, pslg) = build_square_with_hole_grid(5);
    let (mut mesh_oracle, _) = build_square_with_hole_grid(5);
    let killed_grid = carve_holes(&mut mesh_grid, &pslg, false).unwrap();
    let killed_oracle = {
        let mut infected = vec![false; mesh_oracle.triangles.len()];
        let mut worklist = VecDeque::new();
        infect_hull(&mesh_oracle, &mut infected, &mut worklist).unwrap();
        for hole in &pslg.holes {
            if let Some(tri) = locate_triangle(&mesh_oracle, hole.point) {
                if !infected[tri as usize] {
                    infected[tri as usize] = true;
                    worklist.push_back(tri);
                }
            }
        }
        plague(&mut mesh_oracle, &mut infected, &mut worklist);
        sweep(&mut mesh_oracle, &infected)
    };
    assert_eq!(killed_grid, killed_oracle, "carve killed different counts");

    let s = survivors(&mesh_grid);
    assert!(!s.is_empty());
    assert_eq!(s, survivors(&mesh_oracle), "surviving triangle sets differ");
}

// --- Ears -------------------------------------------------------------------

fn make_pslg(positions: &[(f64, f64)], segments: &[(u32, u32, i32)]) -> Pslg {
    Pslg {
        vertices: positions.iter().map(|&(x, y)| PslgVertex::new(v(x, y))).collect(),
        segments: segments.iter().map(|&(a, b, marker)| PslgSegment { a, b, marker }).collect(),
        holes: Vec::new(),
    }
}

fn carved(positions: &[(f64, f64)], segments: &[(u32, u32, i32)]) -> CdtMesh {
    let mut mesh = CdtMesh::new();
    for &(x, y) in positions {
        push(&mut mesh, x, y);
    }
    let pslg = make_pslg(positions, segments);
    delaunay(&mut mesh, DivConqOptions::default()).unwrap();
    form_skeleton(&mut mesh, &pslg, None).unwrap();
    carve_holes(&mut mesh, &pslg, false).unwrap();
    mesh
}

#[test]
fn clips_a_single_small_ear() {
    let positions = [(0.0, 0.0), (10.0, 0.0), (10.0, 5.0), (0.0, 0.1)];
    let segments = [(0u32, 1, 1), (1, 2, 1), (2, 3, 1), (3, 0, 1)];
    let mut mesh = carved(&positions, &segments);
    assert_eq!(mesh.live_triangle_count(), 2, "quad triangulates to 2 triangles");
    let killed = clip_ears(&mut mesh, 1.0f64.to_bits()).unwrap();
    assert_eq!(killed, 1);
    assert_eq!(mesh.live_triangle_count(), 1);
    let mut wall_edges = 0;
    for tri_idx in 1..mesh.triangles.len() as u32 {
        if mesh.triangle(tri_idx).is_dead() {
            continue;
        }
        for orient in 0..3u8 {
            let here = Otri::new(tri_idx, orient);
            if mesh.tspivot(here).sub != DUMMY_SUB {
                wall_edges += 1;
            }
        }
    }
    assert_eq!(wall_edges, 3);
}

#[test]
fn threshold_below_area_is_noop() {
    let positions = [(0.0, 0.0), (4.0, 0.0), (4.0, 4.0), (0.2, 4.0), (0.0, 3.8)];
    let segments = [(0u32, 1, 1), (1, 2, 1), (2, 3, 1), (3, 4, 1), (4, 0, 1)];
    let mut mesh = carved(&positions, &segments);
    let before = mesh.live_triangle_count();
    let killed = clip_ears(&mut mesh, 0.001f64.to_bits()).unwrap();
    assert_eq!(killed, 0);
    assert_eq!(mesh.live_triangle_count(), before);
}

#[test]
fn cascades_along_a_stair_strip() {
    let mut positions: Vec<(f64, f64)> = vec![(0.0, 0.0), (5.0, 0.0)];
    let mut x = 5.0;
    let mut y = 0.0;
    for _ in 0..5 {
        y += 1.0;
        positions.push((x, y));
        x -= 1.0;
        positions.push((x, y));
    }
    let segments: Vec<(u32, u32, i32)> = (0..positions.len() as u32)
        .map(|i| (i, (i + 1) % positions.len() as u32, 1))
        .collect();
    let mut mesh = carved(&positions, &segments);
    let before = mesh.live_triangle_count();

    let killed = clip_ears(&mut mesh, 0.6f64.to_bits()).unwrap();
    let after = mesh.live_triangle_count();
    assert!(killed > 0, "stair should produce ears");
    assert!(after < before);
    assert!(mesh.live_triangle_count() > 0);
    let small_ears_left = find_ear_candidates(&mesh, 0.6f64.to_bits()).len();
    assert_eq!(small_ears_left, 0, "all small ears should be gone");
    // Clipping again finds nothing more.
    assert_eq!(clip_ears(&mut mesh, 0.6f64.to_bits()).unwrap(), 0);
}

#[test]
fn bowtie_pair_is_skipped() {
    let positions = [(0.0, 0.0), (1.0, 0.0), (2.0, 1.0), (1.0, 2.0), (0.0, 1.0)];
    let segments = [(0u32, 1, 1), (1, 2, 1), (2, 3, 1), (3, 4, 1), (4, 0, 1)];
    let mut mesh = carved(&positions, &segments);
    let before = mesh.live_triangle_count();
    let _ = clip_ears(&mut mesh, 0.001f64.to_bits());
    assert_eq!(mesh.live_triangle_count(), before);
}

#[test]
fn two_ears_that_share_their_edge_stay() {
    // A square: both triangles are ears of each other.
    let positions = [(0.0, 0.0), (1.0, 0.0), (1.0, 1.0), (0.0, 1.0)];
    let segments = [(0u32, 1, 1), (1, 2, 1), (2, 3, 1), (3, 0, 1)];
    let mut mesh = carved(&positions, &segments);
    assert_eq!(clip_ears(&mut mesh, 10.0f64.to_bits()).unwrap(), 0);
    assert_eq!(mesh.live_triangle_count(), 2);
    // No area at all is below zero.
    assert_eq!(clip_ears(&mut mesh, 0.0f64.to_bits()).unwrap(), 0);
}

// --- Winding ----------------------------------------------------------------

fn contour(pts: &[(f64, f64)], marker: i32) -> SoupContour {
    SoupContour { points: pts.iter().map(|&(x, y)| v(x, y)).collect(), marker }
}

fn ccw_square(x0: f64, y0: f64, x1: f64, y1: f64, marker: i32) -> SoupContour {
    contour(&[(x0, y0), (x1, y0), (x1, y1), (x0, y1)], marker)
}

fn cw_square(x0: f64, y0: f64, x1: f64, y1: f64, marker: i32) -> SoupContour {
    contour(&[(x0, y0), (x0, y1), (x1, y1), (x1, y0)], marker)
}

#[test]
fn winding_primitives() {
    let ccw = ccw_square(0.0, 0.0, 10.0, 10.0, 1);
    let cw = cw_square(0.0, 0.0, 10.0, 10.0, 1);
    let p = v(5.0, 5.0);
    assert_eq!(winding_number(p, &vec![ccw.clone()]), 1);
    assert_eq!(winding_number(p, &vec![cw.clone()]), -1);
    assert_eq!(winding_number(v(20.0, 5.0), &vec![ccw.clone()]), 0);
    let inner = cw_square(4.0, 4.0, 6.0, 6.0, 2);
    assert_eq!(winding_number(p, &vec![ccw.clone(), inner.clone()]), 0);
    assert_eq!(winding_number(v(2.0, 2.0), &vec![ccw.clone(), inner]), 1);
    let shifted = ccw_square(3.0, 3.0, 13.0, 13.0, 3);
    assert_eq!(winding_number(p, &vec![ccw, shifted]), 2);
}

#[test]
fn winding_bowtie_lobes_are_opposite() {
    let bow = contour(&[(0.0, 0.0), (10.0, 10.0), (10.0, 0.0), (0.0, 10.0)], 1);
    assert_eq!(winding_number(v(2.0, 5.0), &vec![bow.clone()]), 1);
    assert_eq!(winding_number(v(8.0, 5.0), &vec![bow.clone()]), -1);
    assert_eq!(winding_number(v(5.0, 2.0), &vec![bow.clone()]), 0);
    assert_eq!(winding_number(v(15.0, 5.0), &vec![bow]), 0);
}

#[test]
fn winding_ray_through_vertices_not_double_counted() {
    let diamond = contour(&[(5.0, 0.0), (10.0, 5.0), (5.0, 10.0), (0.0, 5.0)], 1);
    assert_eq!(winding_number(v(5.0, 5.0), &vec![diamond.clone()]), 1);
    assert_eq!(winding_number(v(-5.0, 10.0), &vec![diamond]), 0);
}

#[test]
fn matches_carve_holes_on_square_with_hole() {
    let live_subsegs = |mesh: &CdtMesh| -> Vec<(u32, i32)> {
        (0..mesh.subsegs.len() as u32)
            .filter(|&i| !mesh.subseg(i).is_dead())
            .map(|i| (i, mesh.subseg(i).marker))
            .collect()
    };
    let (mut m1, pslg) = build_square_with_square_hole();
    carve_holes(&mut m1, &pslg, false).unwrap();

    let (mut m2, _) = build_square_with_square_hole();
    let outer = ccw_square(0.0, 0.0, 4.0, 4.0, 10);
    let hole = cw_square(1.5, 1.5, 2.5, 2.5, 20);
    let killed = carve_by_winding(&mut m2, &vec![outer, hole]).unwrap();

    assert!(killed > 0);
    assert_eq!(m2.live_triangle_count(), 8);
    assert_eq!(survivors(&m1), survivors(&m2), "survivor sets differ");
    assert_eq!(live_subsegs(&m1), live_subsegs(&m2), "subseg sets differ");
}

#[test]
fn nested_island_survives() {
    let mut mesh = CdtMesh::new();
    let rings: [&[(f64, f64)]; 3] = [
        &[(0.0, 0.0), (12.0, 0.0), (12.0, 12.0), (0.0, 12.0)],
        &[(2.0, 2.0), (10.0, 2.0), (10.0, 10.0), (2.0, 10.0)],
        &[(4.0, 4.0), (8.0, 4.0), (8.0, 8.0), (4.0, 8.0)],
    ];
    let mut pslg = Pslg::new();
    let mut next = 0u32;
    for ring in rings {
        let start = next;
        for &(x, y) in ring {
            push(&mut mesh, x, y);
            pslg.vertices.push(PslgVertex::new(v(x, y)));
            next += 1;
        }
        for i in 0..4u32 {
            pslg.segments.push(PslgSegment { a: start + i, b: start + (i + 1) % 4, marker: 1 });
        }
    }
    delaunay(&mut mesh, DivConqOptions::default()).unwrap();
    form_skeleton(&mut mesh, &pslg, None).unwrap();

    let outer = ccw_square(0.0, 0.0, 12.0, 12.0, 1);
    let moat = cw_square(2.0, 2.0, 10.0, 10.0, 1);
    let island = ccw_square(4.0, 4.0, 8.0, 8.0, 1);
    carve_by_winding(&mut mesh, &vec![outer, moat, island]).unwrap();

    assert!(covers(&mesh, v(1.0, 6.0)), "outer ring area lost");
    assert!(!covers(&mesh, v(3.0, 6.0)), "moat not culled");
    assert!(covers(&mesh, v(6.0, 6.0)), "island lost");
}

#[test]
fn flipped_ring_culls_everything() {
    let mut mesh = CdtMesh::new();
    let pts = [(0.0, 0.0), (10.0, 0.0), (10.0, 4.0), (0.0, 4.0)];
    let mut pslg = Pslg::new();
    for &(x, y) in &pts {
        push(&mut mesh, x, y);
        pslg.vertices.push(PslgVertex::new(v(x, y)));
    }
    for i in 0..4u32 {
        pslg.segments.push(PslgSegment { a: i, b: (i + 1) % 4, marker: 1 });
    }
    delaunay(&mut mesh, DivConqOptions::default()).unwrap();
    form_skeleton(&mut mesh, &pslg, None).unwrap();

    let flipped = cw_square(0.0, 0.0, 10.0, 4.0, 1);
    carve_by_winding(&mut mesh, &vec![flipped]).unwrap();
    assert_eq!(mesh.live_triangle_count(), 0);
}

#[test]
fn drop_interior_constraints_is_set_membership() {
    let mut mesh = CdtMesh::new();
    let pts = [(0.0, 0.0), (10.0, 0.0), (10.0, 10.0), (0.0, 10.0)];
    let mut pslg = Pslg::new();
    for &(x, y) in &pts {
        push(&mut mesh, x, y);
        pslg.vertices.push(PslgVertex::new(v(x, y)));
    }
    for i in 0..4u32 {
        pslg.segments.push(PslgSegment { a: i, b: (i + 1) % 4, marker: 10 });
    }
    push(&mut mesh, 5.0, 5.0);
    pslg.vertices.push(PslgVertex::new(v(5.0, 5.0)));
    pslg.segments.push(PslgSegment { a: 4, b: 0, marker: 1000 });
    pslg.segments.push(PslgSegment { a: 4, b: 2, marker: 55 });

    delaunay(&mut mesh, DivConqOptions::default()).unwrap();
    form_skeleton(&mut mesh, &pslg, None).unwrap();
    let outer = ccw_square(0.0, 0.0, 10.0, 10.0, 10);
    carve_by_winding(&mut mesh, &vec![outer]).unwrap();

    let live_markers = |mesh: &CdtMesh| -> Vec<i32> {
        (0..mesh.subsegs.len() as u32)
            .filter(|&i| !mesh.subseg(i).is_dead())
            .map(|i| mesh.subseg(i).marker)
            .collect()
    };
    assert!(live_markers(&mesh).contains(&1000));
    assert!(live_markers(&mesh).contains(&55));

    let killed = drop_interior_constraints(&mut mesh, &vec![10, 1000]);
    assert_eq!(killed, 1, "exactly the marker-1000 interior constraint dies");
    let markers = live_markers(&mesh);
    assert!(!markers.contains(&1000), "soup constraint must die");
    assert!(markers.contains(&55), "non-soup marker must survive");
    assert_eq!(markers.iter().filter(|&&m| m == 10).count(), 4);
}

fn assert_agrees(contours: &Vec<SoupContour>, pts: &[Vertex]) {
    let idx = WindingIndex::build(contours);
    for &p in pts {
        assert_eq!(idx.winding(p), winding_number(p, contours), "index disagrees at {p:?}");
    }
}

#[test]
fn index_matches_oracle_on_fixtures() {
    let ccw = ccw_square(0.0, 0.0, 10.0, 10.0, 1);
    let cw = cw_square(0.0, 0.0, 10.0, 10.0, 1);
    let inner = cw_square(4.0, 4.0, 6.0, 6.0, 2);
    let shifted = ccw_square(3.0, 3.0, 13.0, 13.0, 3);
    let bow = contour(&[(0.0, 0.0), (10.0, 10.0), (10.0, 0.0), (0.0, 10.0)], 1);
    let diamond = contour(&[(5.0, 0.0), (10.0, 5.0), (5.0, 10.0), (0.0, 5.0)], 1);

    let mut pts = Vec::new();
    for &(x, y) in &[
        (5.0, 5.0),
        (20.0, 5.0),
        (2.0, 2.0),
        (2.0, 5.0),
        (8.0, 5.0),
        (5.0, 2.0),
        (15.0, 5.0),
        (-5.0, 10.0),
        (0.0, 0.0),
        (10.0, 10.0),
        (10.0, 0.0),
        (0.0, 10.0),
        (5.0, 0.0),
        (0.0, 5.0),
        (10.0, 5.0),
        (5.0, 10.0),
        (4.0, 4.0),
        (6.0, 6.0),
        (-1.0, 5.0),
        (11.0, 5.0),
        (5.0, -1.0),
        (5.0, 11.0),
        (-100.0, -100.0),
        (100.0, 100.0),
    ] {
        pts.push(v(x, y));
    }

    for set in [
        vec![ccw.clone()],
        vec![cw.clone()],
        vec![ccw.clone(), inner.clone()],
        vec![ccw.clone(), shifted.clone()],
        vec![bow.clone()],
        vec![diamond.clone()],
        vec![ccw, cw, inner, shifted, bow, diamond],
    ] {
        assert_agrees(&set, &pts);
    }
}

#[test]
fn index_matches_oracle_on_random_scenes() {
    let mut rng = Lcg(0x171D_E0FF);
    for _scene in 0..40 {
        let mut contours = Vec::new();
        let rings = 1 + (rng.next_u64() % 4) as usize;
        for _ in 0..rings {
            let cx = rng.next_f64() * 20.0 - 10.0;
            let cy = rng.next_f64() * 20.0 - 10.0;
            let n = 3 + (rng.next_u64() % 10) as usize;
            let pts: Vec<Vertex> = (0..n)
                .map(|i| {
                    let t = (i as f64 / n as f64) * std::f64::consts::TAU;
                    let r = if i % 2 == 0 { 6.0 } else { 2.0 } * (0.5 + rng.next_f64());
                    v(cx + r * t.cos(), cy + r * t.sin())
                })
                .collect();
            contours.push(SoupContour { points: pts, marker: 1 });
        }

        let mut pts = Vec::new();
        for c in &contours {
            let n = c.points.len();
            for i in 0..n {
                let a = c.points[i];
                let b = c.points[(i + 1) % n];
                pts.push(a);
                pts.push(v((x_of(a) + x_of(b)) / 2.0, (y_of(a) + y_of(b)) / 2.0));
            }
        }
        let all: Vec<f64> =
            contours.iter().flat_map(|c| c.points.iter()).map(|p| y_of(*p)).collect();
        let ylo = all.iter().fold(f64::INFINITY, |m, y| m.min(*y));
        let yhi = all.iter().fold(f64::NEG_INFINITY, |m, y| m.max(*y));
        for i in 0..20 {
            let x = -20.0 + i as f64 * 2.0;
            pts.push(v(x, ylo));
            pts.push(v(x, yhi));
        }
        for _ in 0..200 {
            pts.push(v(rng.next_f64() * 40.0 - 20.0, rng.next_f64() * 40.0 - 20.0));
        }
        assert_agrees(&contours, &pts);
    }
}

#[test]
fn index_is_invariant_to_bucket_count() {
    let mut rng = Lcg(0xB0CC_1E5);
    let contours = vec![
        ccw_square(0.0, 0.0, 30.0, 30.0, 1),
        cw_square(5.0, 5.0, 12.0, 12.0, 2),
        cw_square(18.0, 4.0, 26.0, 21.0, 3),
        contour(&[(2.0, 20.0), (14.0, 29.0), (14.0, 20.0), (2.0, 29.0)], 4),
    ];
    let pts: Vec<Vertex> = (0..2000)
        .map(|_| v(rng.next_f64() * 34.0 - 2.0, rng.next_f64() * 34.0 - 2.0))
        .collect();

    let reference: Vec<i32> = pts.iter().map(|&p| winding_number(p, &contours)).collect();
    for nb in [1usize, 2, 17, 4096, 1 << 40] {
        let idx = WindingIndex::build_inner(&contours, Some(nb));
        let got: Vec<i32> = pts.iter().map(|&p| idx.winding(p)).collect();
        assert_eq!(got, reference, "bucket count {nb} changed the result");
    }
}

#[test]
fn winding_numbers_add_up() {
    let (a, b) = (ccw_square(0.0, 0.0, 4.0, 4.0, 1), ccw_square(2.0, 2.0, 6.0, 6.0, 2));
    let back = SoupContour { points: a.points.iter().rev().copied().collect(), marker: 1 };
    let mut moved = a.clone();
    moved.points.rotate_left(3);
    for p in [v(3.0, 3.0), v(1.0, 1.0), v(4.0, 2.0), v(0.0, 0.0), v(5.0, 5.0), v(9.0, 1.0)] {
        let one = winding_number(p, &vec![a.clone()]);
        let other = winding_number(p, &vec![b.clone()]);
        assert_eq!(winding_number(p, &vec![a.clone(), b.clone()]), one + other);
        assert_eq!(winding_number(p, &vec![back.clone()]), -one);
        assert_eq!(winding_number(p, &vec![moved.clone()]), one);
    }
    assert_eq!(winding_number(v(3.0, 3.0), &vec![a, b]), 2);
}

#[test]
fn edges_that_are_no_places_count_nothing() {
    let square = ccw_square(0.0, 0.0, 4.0, 4.0, 1);
    let nan = contour(&[(0.0, 0.0), (f64::NAN, 4.0), (-1.0, f64::NAN)], 2);
    let soup = vec![square, nan];
    let p = v(1.0, 1.0);
    // Of the second contour only the edges with an end that is no number.
    assert_eq!(winding_number(p, &soup), 1);
    assert_eq!(WindingIndex::build(&soup).winding(p), 1);
    let nowhere = v(1.0, f64::NAN);
    assert_eq!(winding_number(nowhere, &soup), 0);
    assert_eq!(WindingIndex::build(&soup).winding(nowhere), 0);
}

#[test]
fn index_matches_oracle_on_degenerate_soups() {
    let pts: Vec<Vertex> =
        [(0.0, 0.0), (5.0, 0.0), (5.0, 5.0), (-1.0, 0.0), (100.0, 0.0), (2.5, 1e-300)]
            .iter()
            .map(|&(x, y)| v(x, y))
            .collect();

    assert_agrees(&Vec::new(), &pts);
    assert_agrees(&vec![contour(&[(0.0, 0.0), (5.0, 0.0), (10.0, 0.0)], 1)], &pts);
    assert_agrees(
        &vec![contour(&[(0.0, 0.0), (5.0, 0.0)], 1), contour(&[(1.0, 0.0), (9.0, 0.0)], 2)],
        &pts,
    );
    assert_agrees(
        &vec![contour(
            &[(0.0, 0.0), (0.0, 0.0), (5.0, 0.0), (5.0, 5.0), (5.0, 5.0), (0.0, 5.0)],
            1,
        )],
        &pts,
    );
    assert_agrees(&vec![contour(&[(3.0, 3.0)], 1)], &pts);
}

#[test]
fn index_matches_oracle_just_below_top_of_extent() {
    let tri = contour(
        &[
            (0.0, 13.038690931021135),
            (10.0, 13.038690931021135),
            (5.0, 29.597568789406075),
        ],
        1,
    );
    assert_agrees(&vec![tri], &[v(5.0, 29.597568789406072)]);

    let mut rng = Lcg(0x51DE_BEEF);
    for _ in 0..300 {
        let y0 = rng.next_f64() * 40.0 - 20.0;
        let y1 = y0 + rng.next_f64() * 30.0 + 0.5;
        let x0 = rng.next_f64() * 10.0 - 20.0;
        let rect = vec![ccw_square(x0, y0, x0 + 12.0, y1, 1)];
        let mut pts = Vec::new();
        for steps in 0..8u32 {
            let mut y = y1;
            for _ in 0..steps {
                y = f64::from_bits(y.to_bits() - 1);
            }
            pts.push(v(x0 + 6.0, y));
        }
        assert_agrees(&rect, &pts);
        for nb in [1usize, 2, 17, 4096] {
            let idx = WindingIndex::build_inner(&rect, Some(nb));
            for &p in &pts {
                assert_eq!(
                    idx.winding(p),
                    winding_number(p, &rect),
                    "nb {nb} disagrees at {p:?}"
                );
            }
        }
    }
}

#[test]
fn index_item_budget_bounds_tall_edge_soups() {
    let mut rng = Lcg(0x7A11_0000);
    let contours: Vec<SoupContour> = (0..1200)
        .map(|i| {
            let x = i as f64 * 0.5;
            ccw_square(x, -100_000.0, x + 0.25, 100_000.0, i as i32)
        })
        .collect();
    let n: usize = contours.iter().map(|c| c.points.len()).sum();
    let idx = WindingIndex::build(&contours);
    assert!(
        idx.item_count() <= (1 << 23) + n,
        "item list {} exceeds budget",
        idx.item_count()
    );

    let pts: Vec<Vertex> = (0..500)
        .map(|_| v(rng.next_f64() * 700.0 - 50.0, rng.next_f64() * 220_000.0 - 110_000.0))
        .collect();
    for &p in &pts {
        assert_eq!(idx.winding(p), winding_number(p, &contours), "at {p:?}");
    }
}

#[test]
fn index_matches_oracle_with_non_finite_edges() {
    let base = ccw_square(0.0, 0.0, 10.0, 10.0, 1);
    let pts: Vec<Vertex> =
        [(5.0, 5.0), (-1.0, 5.0), (20.0, 5.0), (5.0, 0.0), (5.0, 10.0), (0.0, 0.0)]
            .iter()
            .map(|&(x, y)| v(x, y))
            .collect();

    let nan = contour(&[(1.0, 1.0), (2.0, 2.0), (3.0, 3.0)], 9);
    let mut with_nan = nan.clone();
    with_nan.points[1] = v(2.0, f64::NAN);
    assert_agrees(&vec![base.clone(), with_nan], &pts);

    let mut with_inf = nan.clone();
    with_inf.points[1] = v(f64::INFINITY, 2.0);
    assert_agrees(&vec![base.clone(), with_inf], &pts);

    let mut with_neg_inf = nan;
    with_neg_inf.points[0] = v(1.0, f64::NEG_INFINITY);
    assert_agrees(&vec![base, with_neg_inf], &pts);
}

#[test]
fn index_agrees_at_the_centroid_of_a_triangle() {
    let contours = vec![
        ccw_square(0.0, 0.0, 12.0, 12.0, 1),
        cw_square(4.0, 4.0, 8.0, 8.0, 2),
    ];
    let idx = WindingIndex::build(&contours);
    // The centroids are (2, 2), (6, 6) and (20, 2).
    assert_eq!(idx.winding_at_centroid(v(0.0, 0.0), v(3.0, 0.0), v(3.0, 6.0)), 1);
    assert_eq!(idx.winding_at_centroid(v(5.0, 5.0), v(7.0, 5.0), v(6.0, 8.0)), 0);
    assert_eq!(idx.winding_at_centroid(v(19.0, 1.0), v(21.0, 1.0), v(20.0, 4.0)), 0);
}

#[test]
fn subseg_bookkeeping_invariants() {
    let (mut mesh, _) = build_square_with_square_hole();
    let outer = ccw_square(0.0, 0.0, 4.0, 4.0, 10);
    let hole = cw_square(1.5, 1.5, 2.5, 2.5, 20);
    carve_by_winding(&mut mesh, &vec![outer, hole]).unwrap();

    let sides = live_sides(&mesh);
    for sub_idx in 1..mesh.subsegs.len() as u32 {
        if mesh.subseg(sub_idx).is_dead() {
            continue;
        }
        assert!(
            sides[sub_idx as usize].0.is_some(),
            "subseg {sub_idx} floats with no live triangle"
        );
    }
    for tri_idx in 1..mesh.triangles.len() as u32 {
        if !is_real(mesh.triangle(tri_idx)) {
            continue;
        }
        for orient in 0..3u8 {
            let here = Otri::new(tri_idx, orient);
            if mesh.sym(here).tri == DUMMY_TRI {
                let sub = mesh.tspivot(here);
                assert_ne!(sub.sub, DUMMY_SUB, "boundary edge without subseg");
                assert_ne!(mesh.subseg(sub.sub).marker, 0, "unmarked wall");
            }
        }
    }
}

// --- Rings ------------------------------------------------------------------

fn ring(pts: &[(f64, f64)], kind: RingKind, marker: i32) -> InsetRing {
    InsetRing { points: pts.iter().map(|&(x, y)| v(x, y)).collect(), kind, marker }
}

const OUTER: [(f64, f64); 4] = [(0.0, 0.0), (40.0, 0.0), (40.0, 40.0), (0.0, 40.0)];
const HOLE: [(f64, f64); 4] = [(15.0, 15.0), (25.0, 15.0), (25.0, 25.0), (15.0, 25.0)];

/// Build from rings that do not cross, without an inset: the rings are the
/// soup, and their edges are the segments.
fn build_plain(plan: InsetPlan) -> InsetBuild {
    let mut vertices: Vec<Vertex> = Vec::new();
    let mut segments: Vec<PslgSegment> = Vec::new();
    let mut soup: Vec<SoupContour> = Vec::new();
    for r in &plan.rings {
        let base = vertices.len() as u32;
        let n = r.points.len() as u32;
        vertices.extend(r.points.iter().copied());
        for i in 0..n {
            segments.push(PslgSegment { a: base + i, b: base + (i + 1) % n, marker: r.marker });
        }
        soup.push(SoupContour { points: r.points.clone(), marker: r.marker });
    }
    finish_inset(&vertices, segments, soup, plan.skipped).unwrap()
}

#[test]
fn square_with_hole_inset_zero() {
    let rings =
        vec![ring(&OUTER, RingKind::Perimeter, 10), ring(&HOLE, RingKind::Hole, 20)];
    let plan = plan_inset(&rings, 0.0f64.to_bits()).unwrap();
    assert!(plan.walkable());
    let built = build_plain(plan);
    assert!(built.skipped_rings.is_empty());
    let area = live_area(&built.mesh);
    assert!((area - (1600.0 - 100.0)).abs() < 1e-6, "area {area}");
    assert!(covers(&built.mesh, v(5.0, 5.0)));
    assert!(!covers(&built.mesh, v(20.0, 20.0)));
}

#[test]
fn full_erosion_is_ok_and_empty() {
    let rings = vec![ring(&OUTER, RingKind::Perimeter, 1)];
    let plan = plan_inset(&rings, 1000.0f64.to_bits()).unwrap();
    assert!(!plan.walkable(), "must be Ok-and-empty");
    assert!(plan.rings.is_empty());
    assert!(plan.skipped.is_empty());
}

#[test]
fn degenerate_rings_skipped_uniformly() {
    let bad = [(10.0, 10.0), (12.0, 10.0)];
    for inset in [0.0f64, 5.0] {
        let rings = vec![ring(&OUTER, RingKind::Perimeter, 1), ring(&bad, RingKind::Hole, 2)];
        let plan = plan_inset(&rings, inset.to_bits()).unwrap();
        assert_eq!(plan.skipped, vec![(1, RingKind::Hole)]);
        assert!(plan.walkable());
        if inset == 0.0 {
            let built = build_plain(plan);
            assert_eq!(built.skipped_rings, vec![(1, RingKind::Hole)]);
            assert!(built.mesh.live_triangle_count() > 0);
        }
    }
    for inset in [0.0f64, 5.0] {
        let rings = vec![ring(&bad, RingKind::Perimeter, 1)];
        let plan = plan_inset(&rings, inset.to_bits()).unwrap();
        assert!(!plan.walkable());
        assert_eq!(plan.skipped, vec![(0, RingKind::Perimeter)]);
    }
}

#[test]
fn input_winding_is_irrelevant() {
    let outer_cw = [(0.0, 40.0), (40.0, 40.0), (40.0, 0.0), (0.0, 0.0)];
    let rings =
        vec![ring(&outer_cw, RingKind::Perimeter, 1), ring(&HOLE, RingKind::Hole, 2)];
    let built = build_plain(plan_inset(&rings, 0.0f64.to_bits()).unwrap());
    assert!(covers(&built.mesh, v(5.0, 5.0)));
    assert!(!covers(&built.mesh, v(20.0, 20.0)));
}

#[test]
fn deterministic_across_runs() {
    let outer = [(0.1, 0.2), (40.3, 0.1), (39.8, 40.2), (0.2, 39.9)];
    let hole = [(15.1, 15.2), (25.3, 15.1), (24.9, 25.2), (15.2, 24.8)];
    let build = || {
        let rings =
            vec![ring(&outer, RingKind::Perimeter, 1), ring(&hole, RingKind::Hole, 2)];
        build_plain(plan_inset(&rings, 0.0f64.to_bits()).unwrap())
    };
    let (b1, b2) = (build(), build());
    let dump = |b: &InsetBuild| -> Vec<(u64, u64)> {
        b.mesh.vertices.iter().map(|s| (s.position.x, s.position.y)).collect()
    };
    assert_eq!(dump(&b1), dump(&b2));
    assert_eq!(b1.mesh.live_triangle_count(), b2.mesh.live_triangle_count());
}

#[test]
fn insets_and_rings_that_are_refused() {
    let rings = vec![ring(&OUTER, RingKind::Perimeter, 1)];
    for bad in [f64::NAN, -1.0, f64::INFINITY] {
        assert!(matches!(
            plan_inset(&rings, bad.to_bits()),
            Err(InsetError::InvalidInset { .. })
        ));
    }
    let wild = vec![ring(&[(0.0, 0.0), (f64::NAN, 1.0), (2.0, 2.0)], RingKind::Hole, 1)];
    assert!(matches!(plan_inset(&wild, 0), Err(InsetError::NonFiniteVertex)));
    assert!(check_snap_cell(0.25f64.to_bits()).is_ok());
    for bad in [0.0, -0.5, f64::NAN, f64::INFINITY, f64::from_bits(1)] {
        assert!(matches!(
            check_snap_cell(bad.to_bits()),
            Err(InsetError::InvalidSnapCell { .. })
        ));
    }
    let e = plan_inset(&rings, (-1.0f64).to_bits()).unwrap_err();
    let text = e.message(&|b: u64| format!("{}", f64::from_bits(b)));
    assert_eq!(text, "inset must be finite and >= 0, got -1");
    let two = vec![v(0.0, 0.0), v(1.0, 0.0)];
    assert!(matches!(
        finish_inset(&two, Vec::new(), Vec::new(), Vec::new()),
        Err(InsetError::Planarize { error: PlanarizeError::Degenerate })
    ));
}

#[test]
fn rings_are_normalized() {
    // Repeated points go, the closing point goes, and a hole runs clockwise.
    let r = ring(
        &[(0.0, 0.0), (0.0, 0.0), (4.0, 0.0), (4.0, 4.0), (0.0, 4.0), (0.0, 0.0)],
        RingKind::Hole,
        3,
    );
    let got: Vec<(f64, f64)> =
        normalize_ring(&r).unwrap().iter().map(|p| (x_of(*p), y_of(*p))).collect();
    assert_eq!(got.len(), 4);
    let mut area2 = 0.0;
    for i in 0..4 {
        let (a, b) = (got[i], got[(i + 1) % 4]);
        area2 += a.0 * b.1 - b.0 * a.1;
    }
    assert_eq!(area2, -32.0);
    let flat = ring(&[(0.0, 0.0), (1.0, 1.0), (2.0, 2.0)], RingKind::Perimeter, 1);
    assert!(normalize_ring(&flat).is_none());
}

fn scattered(n: usize) -> CdtMesh {
    let mut m = CdtMesh::new();
    let mut state = 0x0dd_b1a5_e5ba_5eedu64;
    for _ in 0..n {
        push(&mut m, lcg_rand(&mut state) * 10.0, lcg_rand(&mut state) * 10.0);
    }
    delaunay(&mut m, DivConqOptions::default()).unwrap();
    m
}

fn has_edge(m: &CdtMesh, a: VertexId, b: VertexId) -> bool {
    live_triangles(m).iter().any(|t| t.contains(&a) && t.contains(&b))
}

/// The vertices furthest to the left and to the right.
fn far_ends(m: &CdtMesh) -> (VertexId, VertexId) {
    let ids = in_order(m);
    (ids[0], ids[ids.len() - 1])
}

#[test]
fn triangulations_are_recognised() {
    let m = scattered(40);
    assert!(check_plane(&m) && check_cdt(&m) && check_counted(&m) && check_tidy(&m));
    assert!(find_used(&m).iter().all(|u| *u));
    assert!(check_uses_all(&m, &in_order(&m)));
    // With a triangle of the hull gone the boundary is bent inward.
    let mut bent = scattered(40);
    let open = bent.sym(Otri { tri: 0, orient: 0 });
    let next = bent.sym(open.lnext());
    let prev = bent.sym(open.lprev());
    assert!(next.tri != 0 && prev.tri != 0);
    bent.dissolve(next);
    bent.dissolve(prev);
    bent.kill_triangle(open.tri);
    assert!(!check_plane(&bent));
}

#[test]
fn straightening_makes_an_edge_of_any_way() {
    let mut m = scattered(60);
    let (a, b) = far_ends(&m);
    assert!(!has_edge(&m, a, b));
    let area = live_area(&m);
    let o = straighten(&mut m, a, b);
    let ends = (m.org(o), m.dest(o));
    assert!(ends == (a, b) || ends == (b, a));
    assert!(has_edge(&m, a, b));
    assert!(check_plane(&m));
    assert!((live_area(&m) - area).abs() < 1e-9);
    // Nothing is constrained, so settling brings the triangulation back.
    assert!(!check_cdt(&m));
    settle_edges(&mut m);
    assert!(check_cdt(&m));
    assert!(!has_edge(&m, a, b));
    assert_eq!(delaunay_fault(&m), None);
}

#[test]
fn threaded_segments_stay() {
    let mut m = scattered(60);
    let (a, b) = far_ends(&m);
    let (p, q) = (m.vertex_pos(a), m.vertex_pos(b));
    thread_segment(&mut m, a, b, 5).unwrap();
    settle_edges(&mut m);
    assert!(check_cdt(&m));
    assert!(has_edge(&m, a, b));
    assert_eq!(m.sub_marker(1), 5);
    assert!(does_lead(&m, &vec![1], p, q) || does_lead(&m, &vec![1], q, p));
    assert!(!find_crossing(&m, p, q));
}

#[test]
fn threading_stops_at_corners_on_the_way() {
    let mut m = CdtMesh::new();
    for y in 0..5 {
        for x in 0..5 {
            push(&mut m, x as f64, y as f64);
        }
    }
    delaunay(&mut m, DivConqOptions::default()).unwrap();
    // From (0, 0) over (2, 1) to (4, 2).
    thread_segment(&mut m, VertexId::new(0), VertexId::new(14), 3).unwrap();
    settle_edges(&mut m);
    assert!(check_cdt(&m));
    assert!(has_edge(&m, VertexId::new(0), VertexId::new(7)));
    assert!(has_edge(&m, VertexId::new(7), VertexId::new(14)));
    assert!(does_lead(&m, &vec![1, 2], v(0.0, 0.0), v(4.0, 2.0)));
    assert_eq!(m.subsegs.len(), 3);
    assert!(find_crossing(&m, v(0.0, 1.0), v(1.0, 0.0)));
    assert!(!find_crossing(&m, v(2.0, 1.0), v(3.0, 1.0)));
}

#[test]
fn segments_are_refused_where_they_cross_and_only_there() {
    let mut m = scattered(50);
    let ids = in_order(&m);
    let mut kept: Vec<(VertexId, VertexId)> = Vec::new();
    let mut refused = 0;
    for i in 0..25 {
        let (a, b) = (ids[i], ids[(i * 17 + 23) % 50]);
        if a == b {
            continue;
        }
        let (p, q) = (m.vertex_pos(a), m.vertex_pos(b));
        let crossed = kept.iter().any(|(c, d)| {
            let (r, s) = (m.vertex_pos(*c), m.vertex_pos(*d));
            orient2d(p, q, r) * orient2d(p, q, s) < 0 && orient2d(r, s, p) * orient2d(r, s, q) < 0
        });
        match insert_segment(&mut m, a, b, 1) {
            Ok(()) => {
                assert!(!crossed);
                kept.push((a, b));
            }
            Err(e) => {
                assert!(crossed);
                assert_eq!(
                    e,
                    SegmentInsertError::SelfIntersection { endpoint1: a, endpoint2: b }
                );
                refused += 1;
            }
        }
        assert!(check_cdt(&m));
        assert!(kept.iter().all(|(c, d)| has_edge(&m, *c, *d)));
    }
    assert!(kept.len() > 3 && refused > 3);
}

#[test]
fn planar_graphs_go_in_either_way() {
    let mut m = CdtMesh::new();
    for y in 0..6 {
        for x in 0..6 {
            push(&mut m, x as f64, y as f64 + (x as f64) * 0.125);
        }
    }
    delaunay(&mut m, DivConqOptions::default()).unwrap();
    let at = |x: u32, y: u32| y * 6 + x;
    let seg = |a: u32, b: u32| PslgSegment { a, b, marker: 2 };
    let pslg = Pslg {
        vertices: Vec::new(),
        segments: vec![
            seg(at(0, 0), at(5, 1)),
            seg(at(0, 1), at(5, 5)),
            seg(at(0, 1), at(0, 5)),
            seg(at(5, 1), at(5, 5)),
            seg(at(1, 3), at(3, 5)),
        ],
        holes: Vec::new(),
    };
    let mut t = m.copied();
    thread_skeleton(&mut t, &pslg, Some(9)).unwrap();
    form_skeleton(&mut m, &pslg, Some(9)).unwrap();
    for w in [&m, &t] {
        assert!(check_cdt(w) && check_tidy(w));
        assert!(has_edge(w, VertexId::new(at(0, 0)), VertexId::new(at(5, 1))));
        assert!(has_edge(w, VertexId::new(at(1, 3)), VertexId::new(at(2, 4))));
        let open = w.sym(Otri { tri: 0, orient: 0 });
        assert!(w.tspivot(open).sub != DUMMY_SUB);
    }
    assert_eq!(m.live_triangle_count(), t.live_triangle_count());
    // One that crosses is refused, and what came before stays.
    let crossing = Pslg {
        vertices: Vec::new(),
        segments: vec![seg(at(0, 0), at(4, 5)), seg(at(0, 4), at(5, 2))],
        holes: Vec::new(),
    };
    let mut u = CdtMesh::new();
    for slot in &m.vertices {
        u.push_vertex(VertexSlot::new(slot.position, 0));
    }
    delaunay(&mut u, DivConqOptions::default()).unwrap();
    let e = form_skeleton(&mut u, &crossing, None).unwrap_err();
    assert!(matches!(e, SegmentInsertError::SelfIntersection { .. }));
    assert!(check_cdt(&u));
    assert!(has_edge(&u, VertexId::new(at(0, 0)), VertexId::new(at(4, 5))));
}
