//! Voxel grids, walkable surfaces, regions, contours, portals and navigation
//! meshes, from triangle soups in world units.

use rsnav::builder::MeshBuilder;
use rsnav::channel::{find_triangle_at_xy, find_triangle_channel, triangle_adjacency};
use rsnav::config::WatershedConfig;
use rsnav::contour::{
    does_hold_cell, edge_end_corner, extract_contours, find_inner_cell, reverse_to_cw,
    signed_area_2d, ContourVertex, RegionContour, RegionContours,
};
use rsnav::coord::coord_of_halves;
use rsnav::distance::build_distance_field;
use rsnav::funnel::{approx_eq, channel_to_portals, funnel, funnel_in_region, refine_with_funnel};
use rsnav::grid::{VoxelGrid, EMPTY, SOLID, WALKABLE};
use rsnav::navmesh::{
    build_all_navmeshes, build_region_navmesh, build_seeded_navmesh, hole_seeds,
    AllRegionNavMeshes, NavVertex, RegionNavMesh,
};
use rsnav::output::{Heightfield, PipelineOutput, Region, RegionId};
use rsnav::pathfind::{
    closest_sample, find_path, find_region_at_xy, region_mean_z, sample_hf_layers,
    surface_z_in_region, Path, RingHits, Standing, Waypoint,
};
use rsnav::polysoup::{PolySoup, PolySoupError};
use rsnav::portals::{extract_portals, Portal, SeamPlace, SeamPoint};
use rsnav::world::Point3;
use rsnav::predicates::{orient2d, Vertex};
use rsnav::search::{find_route, Link, NO_TAG};
use rsnav::synth::{box_triangles, plane_cuts, plane_triangles, ramp_triangles};
use rsnav::voxelize::{cell_box, clamp_cell, rasterize_triangle};
use rsnav::walkability::{classify_walkability, CompactHeightfield};
use rsnav::watershed::{segment, RegionMap};

type P = [f64; 3];

const COS_45: f64 = 0.707_106_781_186_547_5;

fn point(p: P) -> Point3 {
    Point3 { x: p[0].to_bits(), y: p[1].to_bits(), z: p[2].to_bits() }
}

fn place(p: Point3) -> P {
    [f64::from_bits(p.x), f64::from_bits(p.y), f64::from_bits(p.z)]
}

fn v(x: f64, y: f64) -> Vertex {
    Vertex::new(x.to_bits(), y.to_bits())
}

fn xy(p: Vertex) -> (f64, f64) {
    (f64::from_bits(p.x), f64::from_bits(p.y))
}

fn minus(a: P, b: P) -> P {
    [a[0] - b[0], a[1] - b[1], a[2] - b[2]]
}

fn dot(a: P, b: P) -> f64 {
    a[0] * b[0] + a[1] * b[1] + a[2] * b[2]
}

fn cross(a: P, b: P) -> P {
    [a[1] * b[2] - a[2] * b[1], a[2] * b[0] - a[0] * b[2], a[0] * b[1] - a[1] * b[0]]
}

fn soup(vertices: &[P], triangles: Vec<[u32; 3]>) -> PolySoup {
    PolySoup { vertices: vertices.iter().map(|p| point(*p)).collect(), triangles }
}

fn bounds(s: &PolySoup) -> (P, P) {
    match s.bounds() {
        Some((lo, hi)) => (place(lo), place(hi)),
        None => ([f64::INFINITY; 3], [f64::NEG_INFINITY; 3]),
    }
}

// --- Scenes -----------------------------------------------------------------

fn plane(ex: f64, ey: f64, subdivisions: u32) -> PolySoup {
    let n = plane_cuts(subdivisions);
    let mut pts = Vec::new();
    for j in 0..=n {
        for i in 0..=n {
            let (a, b) = (i as f64 / n as f64, j as f64 / n as f64);
            pts.push([-ex * 0.5 + ex * a, -ey * 0.5 + ey * b, 0.0]);
        }
    }
    soup(&pts, plane_triangles(n))
}

fn ramp(x0: f64, run: f64, rise: f64, width: f64) -> PolySoup {
    let h = width * 0.5;
    let x1 = x0 + run;
    soup(&[[x0, -h, 0.0], [x1, -h, rise], [x1, h, rise], [x0, h, 0.0]], ramp_triangles())
}

fn box_aabb(lo: P, hi: P) -> PolySoup {
    soup(
        &[
            [lo[0], lo[1], lo[2]],
            [hi[0], lo[1], lo[2]],
            [hi[0], hi[1], lo[2]],
            [lo[0], hi[1], lo[2]],
            [lo[0], lo[1], hi[2]],
            [hi[0], lo[1], hi[2]],
            [hi[0], hi[1], hi[2]],
            [lo[0], hi[1], hi[2]],
        ],
        box_triangles(),
    )
}

fn moved(s: &PolySoup, by: P) -> Vec<Point3> {
    s.vertices
        .iter()
        .map(|p| {
            let q = place(*p);
            point([q[0] + by[0], q[1] + by[1], q[2] + by[2]])
        })
        .collect()
}

fn floor_with_ramp_and_platform() -> PolySoup {
    let mut b = MeshBuilder::new();
    b.add_identity(&plane(12.0, 8.0, 1));
    b.add_identity(&ramp(2.0, 4.0, 1.5, 4.0));
    let top = box_aabb([0.0, 0.0, 0.0], [4.0, 4.0, 0.1]);
    b.add(&top, &moved(&top, [6.0, -2.0, 1.5]));
    b.build()
}

fn two_together(mut a: PolySoup, b: PolySoup) -> PolySoup {
    a.append(&b);
    a
}

fn under_ramp() -> PolySoup {
    two_together(plane(10.0, 4.0, 1), ramp(0.0, 4.0, 3.0, 4.0))
}

fn raised(s: PolySoup, by: P) -> PolySoup {
    PolySoup { vertices: moved(&s, by), triangles: s.triangles }
}

// --- World grids ------------------------------------------------------------

struct WorldGrid {
    origin: P,
    cs: f64,
    grid: VoxelGrid,
}

impl WorldGrid {
    fn new(lo: P, hi: P, cs: f64) -> WorldGrid {
        let n = |k: usize| ((hi[k] - lo[k]) / cs).ceil().max(1.0) as u32;
        WorldGrid { origin: lo, cs, grid: VoxelGrid::new(n(0), n(1), n(2)) }
    }

    fn from_polysoup(s: &PolySoup, cs: f64, padding: u32, cos_max_slope: f64) -> WorldGrid {
        let (mut lo, mut hi) = bounds(s);
        let pad = cs * padding as f64;
        for k in 0..3 {
            lo[k] -= pad;
            hi[k] += pad;
        }
        let mut w = WorldGrid::new(lo, hi, cs);
        for t in s.triangle_positions() {
            w.rasterize([place(t[0]), place(t[1]), place(t[2])], cos_max_slope);
        }
        w
    }

    fn rasterize(&mut self, tri: [P; 3], cos_max_slope: f64) {
        let area = classify_triangle(tri, cos_max_slope);
        if area == EMPTY {
            return;
        }
        let (origin, cs) = (self.origin, self.cs);
        let mut lo = [0i64; 3];
        let mut hi = [0i64; 3];
        for k in 0..3 {
            let mn = tri[0][k].min(tri[1][k]).min(tri[2][k]);
            let mx = tri[0][k].max(tri[1][k]).max(tri[2][k]);
            lo[k] = ((mn - origin[k]) / cs).floor() as i64;
            hi[k] = ((mx - origin[k]) / cs).floor() as i64;
        }
        let b = cell_box(&self.grid, lo, hi);
        let half = [cs * 0.5; 3];
        rasterize_triangle(&mut self.grid, b, area, |c: u32, r: u32, l: u32| {
            let center = [
                origin[0] + (c as f64 + 0.5) * cs,
                origin[1] + (r as f64 + 0.5) * cs,
                origin[2] + (l as f64 + 0.5) * cs,
            ];
            tri_box_overlap(tri, center, half)
        });
    }
}

fn classify_triangle(tri: [P; 3], cos_max_slope: f64) -> u8 {
    let n = cross(minus(tri[1], tri[0]), minus(tri[2], tri[0]));
    let len = dot(n, n).sqrt();
    if len == 0.0 {
        EMPTY
    } else if (n[2] / len).abs() >= cos_max_slope {
        WALKABLE
    } else {
        SOLID
    }
}

fn axis_test(axis: P, tri: [P; 3], half: P) -> bool {
    let p = [dot(axis, tri[0]), dot(axis, tri[1]), dot(axis, tri[2])];
    let mn = p[0].min(p[1]).min(p[2]);
    let mx = p[0].max(p[1]).max(p[2]);
    let r = half[0] * axis[0].abs() + half[1] * axis[1].abs() + half[2] * axis[2].abs();
    let eps = r * 1e-9 + 1e-12;
    !(mn > r + eps || mx < -r - eps)
}

fn tri_box_overlap(tri: [P; 3], center: P, half: P) -> bool {
    let t = [minus(tri[0], center), minus(tri[1], center), minus(tri[2], center)];
    let e = [minus(t[1], t[0]), minus(t[2], t[1]), minus(t[0], t[2])];
    let axes = [[1.0, 0.0, 0.0], [0.0, 1.0, 0.0], [0.0, 0.0, 1.0]];
    if axes.iter().any(|a| !axis_test(*a, t, half)) || !axis_test(cross(e[0], e[1]), t, half) {
        return false;
    }
    for edge in e {
        for a in axes {
            let c = cross(edge, a);
            if dot(c, c) > 1e-20 && !axis_test(c, t, half) {
                return false;
            }
        }
    }
    true
}

struct Walk {
    clearance: f64,
    step: f64,
}

const WALK: Walk = Walk { clearance: 1.8, step: 0.4 };

fn default_cos() -> f64 {
    45.0_f64.to_radians().cos()
}

fn build_chf(s: &PolySoup, cs: f64) -> (WorldGrid, CompactHeightfield) {
    let w = WorldGrid::from_polysoup(s, cs, 1, default_cos());
    let chf = classify_walkability(
        &w.grid,
        (WALK.clearance / cs).ceil() as u32,
        (WALK.step / cs).floor() as u32,
    );
    (w, chf)
}

fn build_regions(s: &PolySoup, cs: f64) -> (WorldGrid, CompactHeightfield, RegionMap) {
    let (w, chf) = build_chf(s, cs);
    let rm = segment(&chf, &WatershedConfig::default());
    (w, chf, rm)
}

fn build_contours(s: &PolySoup, cs: f64) -> (WorldGrid, RegionContours) {
    let (w, chf, rm) = build_regions(s, cs);
    let contours = extract_contours(&chf, &rm);
    (w, contours)
}

/// Whether a ring in grid units holds a point, by crossings to the right.
fn ring_holds(ring: &[ContourVertex], x: f64, y: f64) -> bool {
    let n = ring.len();
    let mut inside = false;
    for i in 0..n {
        let (a, b) = (ring[i], ring[(i + 1) % n]);
        let (ax, ay) = (a.col as f64, a.row as f64);
        let (bx, by) = (b.col as f64, b.row as f64);
        if (ay > y) != (by > y) && x < ax + (y - ay) / (by - ay) * (bx - ax) {
            inside = !inside;
        }
    }
    inside
}

fn build_navmeshes(s: &PolySoup, cs: f64) -> (WorldGrid, AllRegionNavMeshes) {
    let (w, contours) = build_contours(s, cs);
    let all = build_all_navmeshes(&contours);
    (w, all)
}

fn world_z(w: &WorldGrid, height2: u64) -> f64 {
    w.origin[2] + height2 as f64 * 0.5 * w.cs
}

fn largest(all: &AllRegionNavMeshes) -> &RegionNavMesh {
    all.meshes.iter().flatten().max_by_key(|m| m.triangle_count()).expect("a mesh")
}

// --- Grid -------------------------------------------------------------------

fn unit_grid() -> VoxelGrid {
    WorldGrid::new([0.0; 3], [4.0; 3], 1.0).grid
}

#[test]
fn new_sizes_correctly() {
    let g = unit_grid();
    assert_eq!(g.cols, 4);
    assert_eq!(g.rows, 4);
    assert_eq!(g.layers, 4);
    assert_eq!(g.cell_count(), 64);
    assert_eq!(g.occupied_count(), 0);
    assert!(g.is_empty_grid());
}

#[test]
fn set_and_area_at_roundtrip() {
    let mut g = unit_grid();
    g.set_area(2, 1, 3, WALKABLE);
    assert_eq!(g.area_at(2, 1, 3), WALKABLE);
    assert!(g.is_occupied(2, 1, 3));
    assert!(!g.is_occupied(0, 0, 0));
    assert_eq!(g.occupied_count(), 1);
    assert_eq!(g.walkable_count(), 1);
}

#[test]
fn merge_keeps_walkable_over_solid() {
    let mut g = unit_grid();
    g.merge_area(1, 1, 1, SOLID);
    assert_eq!(g.area_at(1, 1, 1), SOLID);
    g.merge_area(1, 1, 1, WALKABLE);
    assert_eq!(g.area_at(1, 1, 1), WALKABLE);
    g.merge_area(1, 1, 1, SOLID);
    assert_eq!(g.area_at(1, 1, 1), WALKABLE);
}

#[test]
fn out_of_range_is_safe() {
    let mut g = unit_grid();
    g.set_area(99, 0, 0, SOLID);
    g.merge_area(99, 0, 0, WALKABLE);
    assert_eq!(g.area_at(99, 0, 0), EMPTY);
    assert!(!g.is_occupied(99, 0, 0));
    assert_eq!(g.occupied_count(), 0);
}

#[test]
fn iter_with_area_returns_set_cells() {
    let mut g = unit_grid();
    let pts = [(0, 0, 0, WALKABLE), (3, 3, 3, SOLID), (1, 2, 1, WALKABLE)];
    for &(c, r, l, a) in &pts {
        g.set_area(c, r, l, a);
    }
    let mut got = g.iter_with_area();
    got.sort();
    let mut want: Vec<_> = pts.to_vec();
    want.sort();
    assert_eq!(got, want);
    assert_eq!(g.iter_occupied(), vec![(0, 0, 0), (1, 2, 1), (3, 3, 3)]);
}

#[test]
fn clear_resets_occupancy() {
    let mut g = unit_grid();
    g.set_area(0, 0, 0, WALKABLE);
    g.set_area(3, 3, 3, SOLID);
    assert_eq!(g.occupied_count(), 2);
    g.clear();
    assert_eq!(g.occupied_count(), 0);
    assert!(g.is_empty_grid());
}

// --- Soups ------------------------------------------------------------------

fn cube() -> PolySoup {
    soup(
        &[
            [0.0, 0.0, 0.0],
            [1.0, 0.0, 0.0],
            [1.0, 1.0, 0.0],
            [0.0, 1.0, 0.0],
            [0.0, 0.0, 1.0],
            [1.0, 0.0, 1.0],
            [1.0, 1.0, 1.0],
            [0.0, 1.0, 1.0],
        ],
        vec![
            [0, 1, 2],
            [0, 2, 3],
            [4, 5, 6],
            [4, 6, 7],
            [0, 1, 5],
            [0, 5, 4],
            [3, 2, 6],
            [3, 6, 7],
            [0, 3, 7],
            [0, 7, 4],
            [1, 2, 6],
            [1, 6, 5],
        ],
    )
}

#[test]
fn empty_is_valid() {
    let s = PolySoup::new();
    assert!(s.is_empty());
    assert!(s.validate().is_ok());
    assert!(bounds(&s).0[0] > bounds(&s).1[0]);
}

#[test]
fn cube_validates_and_iters() {
    let s = cube();
    assert!(s.validate().is_ok());
    assert_eq!(s.vertex_count(), 8);
    assert_eq!(s.triangle_count(), 12);
    assert_eq!(bounds(&s).0, [0.0, 0.0, 0.0]);
    assert_eq!(bounds(&s).1, [1.0, 1.0, 1.0]);
    assert_eq!(s.triangle_positions().len(), 12);
}

#[test]
fn rejects_out_of_range() {
    let mut s = cube();
    s.triangles.push([0, 1, 99]);
    assert_eq!(
        s.validate(),
        Err(PolySoupError::OutOfRangeIndex { triangle: 12, vertex: 99 })
    );
}

#[test]
fn rejects_index_degenerate() {
    let mut s = cube();
    s.triangles.push([3, 3, 0]);
    assert_eq!(s.validate(), Err(PolySoupError::DegenerateTriangle { triangle: 12 }));
}

#[test]
fn append_remaps_indices() {
    let mut a = cube();
    let b = cube();
    let n0 = a.vertex_count();
    a.append(&b);
    assert_eq!(a.vertex_count(), 16);
    assert_eq!(a.triangle_count(), 24);
    let last = a.triangles.last().unwrap();
    assert!(last.iter().all(|&v| (v as usize) >= n0));
    assert!(a.validate().is_ok());
}

#[test]
fn builder_aggregates_with_offset() {
    let quad = soup(
        &[[0.0, 0.0, 0.0], [1.0, 0.0, 0.0], [1.0, 1.0, 0.0], [0.0, 1.0, 0.0]],
        vec![[0, 1, 2], [0, 2, 3]],
    );
    let mut b = MeshBuilder::new();
    b.add_identity(&quad);
    b.add(&quad, &moved(&quad, [10.0, 0.0, 0.0]));
    assert_eq!((b.vertex_count(), b.triangle_count()), (8, 4));
    let s = b.build();
    assert_eq!(s.vertex_count(), 8);
    assert_eq!(s.triangle_count(), 4);
    assert!(s.validate().is_ok());
    assert_eq!(place(s.vertices[4]), [10.0, 0.0, 0.0]);
    assert_eq!(s.triangles[2], [4, 5, 6]);
}

#[test]
fn plane_has_expected_size_and_winds_validly() {
    let p = plane(10.0, 6.0, 1);
    assert_eq!(p.vertex_count(), 4);
    assert_eq!(p.triangle_count(), 2);
    assert!(p.validate().is_ok());
    assert_eq!(bounds(&p), ([-5.0, -3.0, 0.0], [5.0, 3.0, 0.0]));
    assert_eq!(plane_cuts(0), 1);
}

#[test]
fn plane_subdivisions() {
    let p = plane(4.0, 4.0, 4);
    assert_eq!(p.vertex_count(), 25);
    assert_eq!(p.triangle_count(), 32);
    assert!(p.validate().is_ok());
}

#[test]
fn ramp_spans_expected_range() {
    let r = ramp(1.0, 3.0, 2.0, 4.0);
    assert_eq!(r.vertex_count(), 4);
    assert_eq!(r.triangle_count(), 2);
    assert!(r.validate().is_ok());
    assert_eq!(bounds(&r), ([1.0, -2.0, 0.0], [4.0, 2.0, 2.0]));
}

#[test]
fn box_has_six_faces() {
    let b = box_aabb([0.0, 0.0, 0.0], [2.0, 3.0, 4.0]);
    assert_eq!(b.vertex_count(), 8);
    assert_eq!(b.triangle_count(), 12);
    assert!(b.validate().is_ok());
    assert_eq!(bounds(&b), ([0.0, 0.0, 0.0], [2.0, 3.0, 4.0]));
}

#[test]
fn composed_scene_validates() {
    let s = floor_with_ramp_and_platform();
    assert!(s.validate().is_ok());
    let (lo, hi) = bounds(&s);
    assert!(lo[0] <= -6.0);
    assert!(hi[0] >= 10.0);
    assert!((hi[2] - 1.6).abs() < 1e-9);
}

// --- Rasterizing ------------------------------------------------------------

#[test]
fn rasterize_horizontal_plane_marks_walkable() {
    let w = WorldGrid::from_polysoup(&plane(10.0, 10.0, 1), 1.0, 0, COS_45);
    assert!(w.grid.walkable_count() >= 100);
    for (c, r, l, a) in w.grid.iter_with_area() {
        assert_eq!(a, WALKABLE, "cell ({},{},{}) should be walkable", c, r, l);
    }
}

#[test]
fn rasterize_ramp_walkability_depends_on_slope() {
    let gentle = ramp(0.0, 4.0, 4.0 / 3.0_f64.sqrt(), 3.0);
    let g = WorldGrid::from_polysoup(&gentle, 0.5, 0, COS_45).grid;
    assert!(g.walkable_count() > 0);
    let steep = ramp(0.0, 1.0, 3.0_f64.sqrt(), 3.0);
    let g = WorldGrid::from_polysoup(&steep, 0.5, 0, COS_45).grid;
    assert_eq!(g.walkable_count(), 0);
    assert!(g.occupied_count() > 0);
}

#[test]
fn rasterize_box_top_and_bottom_walkable_sides_solid() {
    let b = box_aabb([0.0, 0.0, 0.0], [2.0, 2.0, 2.0]);
    let grid = WorldGrid::from_polysoup(&b, 0.5, 0, COS_45).grid;
    for c in 0..4 {
        for r in 0..4 {
            assert_eq!(grid.area_at(c, r, 0), WALKABLE);
            assert_eq!(grid.area_at(c, r, 3), WALKABLE);
        }
    }
    assert_eq!(grid.area_at(0, 0, 1), SOLID);
    assert_eq!(grid.area_at(3, 3, 1), SOLID);
    assert_eq!(grid.area_at(1, 1, 1), EMPTY);
}

#[test]
fn cells_are_clamped_to_the_grid() {
    assert_eq!(clamp_cell(-5, 4), 0);
    assert_eq!(clamp_cell(2, 4), 2);
    assert_eq!(clamp_cell(9, 4), 3);
    let b = cell_box(&unit_grid(), [-1, 1, 2], [0, 9, 2]);
    assert_eq!((b.lo_col, b.hi_col), (0, 0));
    assert_eq!((b.lo_row, b.hi_row), (1, 3));
    assert_eq!((b.lo_layer, b.hi_layer), (2, 2));
}

// --- Walkable surfaces ------------------------------------------------------

#[test]
fn flat_plane_one_surface_per_column() {
    let (_, chf) = build_chf(&plane(10.0, 10.0, 1), 0.5);
    assert!(chf.walkable_column_count() >= 400);
    for (_, _, si, _) in chf.iter() {
        assert_eq!(si, 0, "flat plane shouldn't produce stacked surfaces");
    }
}

#[test]
fn vertical_wall_produces_no_walkable() {
    let wall = soup(&[[0.0, 0.0, 0.0], [0.0, 1.0, 0.0], [0.0, 0.0, 1.0]], vec![[0, 1, 2]]);
    let (_, chf) = build_chf(&wall, 0.25);
    assert_eq!(chf.walkable_count(), 0);
}

#[test]
fn under_ramp_floor_and_ramp_surface_both_walkable() {
    let (w, chf) = build_chf(&under_ramp(), 0.2);
    let col = (((3.0 - w.origin[0]) / w.cs).floor() as u32).min(w.grid.cols - 1);
    let row = (((0.0 - w.origin[1]) / w.cs).floor() as u32).min(w.grid.rows - 1);
    let surfaces = chf.surfaces_at(col, row);
    assert!(surfaces.len() >= 2, "stacked surfaces found: {:?}", surfaces);
    assert_eq!(chf.surface_count(col, row), surfaces.len());
    assert_eq!(chf.surface(col, row, 1), Some(surfaces[1]));
}

#[test]
fn ceiling_blocks_clearance() {
    let s = two_together(plane(4.0, 4.0, 1), raised(plane(4.0, 4.0, 1), [0.0, 0.0, 1.0]));
    let (w, chf) = build_chf(&s, 0.25);
    for (_, _, _, cell) in chf.iter() {
        let z = w.origin[2] + (cell.layer as f64 + 1.0) * w.cs;
        assert!(z > 1.0 - 1e-6, "found walkable cell below the ceiling at z={}", z);
    }
}

#[test]
fn neighbor_links_follow_back() {
    let (_, chf) = build_chf(&plane(4.0, 4.0, 1), 0.5);
    for (c, r, si, cell) in chf.iter() {
        if let Some(n_idx) = cell.neighbors[0] {
            let other = &chf.surfaces_at(c + 1, r)[n_idx as usize];
            let back = other.neighbors[2];
            assert_eq!(back, Some(si), "neighbor link asymmetry at ({},{}) si={}", c, r, si);
            assert_eq!(chf.neighbor_cell(c, r, si, 0), Some((c + 1, r, n_idx)));
        }
    }
}

// --- Distances --------------------------------------------------------------

#[test]
fn flat_plane_has_distance_increasing_toward_center() {
    let (_, chf) = build_chf(&plane(10.0, 10.0, 1), 0.5);
    let df = build_distance_field(&chf);
    let max = df.max_distance();
    assert!(max > 0, "expected positive max distance for an open plane");
    let (c, r) = (chf.cols / 2, chf.rows / 2);
    assert!(!chf.surfaces_at(c, r).is_empty(), "center column should be walkable");
    let center_dist = df.at(c, r, 0).unwrap();
    assert!(center_dist > 0, "center distance should be > 0, got {}", center_dist);
}

#[test]
fn boundary_cells_are_zero() {
    let (_, chf) = build_chf(&plane(4.0, 4.0, 1), 0.5);
    let df = build_distance_field(&chf);
    for (c, r, si, cell) in chf.iter() {
        if cell.neighbors.iter().any(|n| n.is_none()) {
            let d = df.at(c, r, si).unwrap();
            assert_eq!(d, 0, "boundary cell ({},{},{}) has distance {}", c, r, si, d);
        }
    }
}

#[test]
fn relaxation_monotone() {
    let (_, chf) = build_chf(&plane(8.0, 8.0, 1), 0.5);
    let df = build_distance_field(&chf);
    for (c, r, si, _) in chf.iter() {
        let d = df.at(c, r, si).unwrap();
        for k in 0..4 {
            if let Some((nc, nr, n_si)) = chf.neighbor_cell(c, r, si, k) {
                let nd = df.at(nc, nr, n_si).unwrap();
                assert!(
                    d <= nd.saturating_add(1),
                    "distance not monotone at ({},{},{}): d={}, neighbor[{}] = {}",
                    c, r, si, d, k, nd
                );
            }
        }
    }
    assert_eq!(df.iter().len(), chf.walkable_count());
}

// --- Regions ----------------------------------------------------------------

#[test]
fn flat_plane_one_region() {
    let (_, _, rm) = build_regions(&plane(8.0, 8.0, 1), 0.5);
    assert_eq!(rm.region_count, 1, "flat plane should produce exactly one region");
    for (_, _, _, rid) in rm.iter() {
        assert_eq!(rid, RegionId(0));
    }
    assert_eq!(rm.cell_count(RegionId(0)), rm.iter().len());
}

#[test]
fn two_disconnected_planes_two_regions() {
    let s = two_together(plane(6.0, 6.0, 1), raised(plane(6.0, 6.0, 1), [0.0, 0.0, 5.0]));
    let (_, _, rm) = build_regions(&s, 0.5);
    assert_eq!(rm.region_count, 2);
}

#[test]
fn under_ramp_floor_and_top_are_different_regions() {
    let (_, _, rm) = build_regions(&under_ramp(), 0.2);
    assert!(rm.region_count >= 2, "got {}", rm.region_count);
}

#[test]
fn tiny_region_dropped_by_filter() {
    let s = two_together(plane(6.0, 6.0, 1), raised(plane(0.2, 0.2, 1), [10.0, 0.0, 5.0]));
    let (_, _, rm) = build_regions(&s, 0.5);
    assert_eq!(rm.region_count, 1);
}

#[test]
fn all_assigned_cells_have_valid_region_ids() {
    let (_, _, rm) = build_regions(&floor_with_ramp_and_platform(), 0.2);
    for (c, r, si, rid) in rm.iter() {
        assert_eq!(rm.at(c, r, si), rid);
        if rid != RegionId::invalid() {
            assert!(rid.0 < rm.region_count, "region id {} at ({},{},{})", rid.0, c, r, si);
        }
    }
}

#[test]
fn watershed_defaults_are_self_consistent() {
    let ws = WatershedConfig::default();
    assert!(ws.merge_region_cells >= ws.min_region_cells);
    assert_eq!((ws.min_region_cells, ws.merge_region_cells, ws.max_layer_step), (8, 20, 1));
}

// --- Contours ---------------------------------------------------------------

#[test]
fn flat_plane_outer_is_ccw_rectangle() {
    let (w, contours) = build_contours(&plane(4.0, 4.0, 1), 1.0);
    assert_eq!(contours.region_count, 1);
    let r0 = &contours.contours[0];
    assert!(!r0.outer.is_empty(), "should have an outer contour");
    assert!(r0.holes.is_empty(), "no holes expected for a plane");
    // Twice the area in cells.
    let area = signed_area_2d(&r0.outer) as f64 * 0.5 * w.cs * w.cs;
    assert!(area > 0.0, "outer should be CCW (positive area), got {}", area);
    assert!(area >= 12.0 && area <= 25.0, "area {} outside expected range", area);
}

#[test]
fn small_plane_contour_traces_rectangular_boundary() {
    let (w, contours) = build_contours(&plane(2.0, 2.0, 1), 0.5);
    let outer = &contours.contours[0].outer;
    assert!(outer.len() >= 8, "expected at least 8 perimeter vertices, got {}", outer.len());
    let span = |f: fn(&ContourVertex) -> u32| {
        let lo = outer.iter().map(f).min().unwrap();
        let hi = outer.iter().map(f).max().unwrap();
        (hi - lo) as f64 * w.cs
    };
    let span_x = span(|v| v.col);
    let span_y = span(|v| v.row);
    assert!(span_x >= 2.0 && span_x <= 3.0, "x span {} not roughly 2m", span_x);
    assert!(span_y >= 2.0 && span_y <= 3.0, "y span {} not roughly 2m", span_y);
}

#[test]
fn under_ramp_two_regions_each_get_a_contour() {
    let (_, contours) = build_contours(&under_ramp(), 0.2);
    assert!(contours.region_count >= 2);
    let with_outer = contours.contours.iter().filter(|c| !c.outer.is_empty()).count();
    assert_eq!(with_outer, contours.region_count as usize);
}

#[test]
fn contour_vertices_lie_on_grid_corners() {
    let (w, contours) = build_contours(&plane(3.0, 3.0, 1), 0.5);
    for v in &contours.contours[0].outer {
        assert!(v.col <= w.grid.cols && v.row <= w.grid.rows);
    }
    assert_eq!(edge_end_corner(2, 3, 0), (3, 4));
}

#[test]
fn flat_plane_across_region_is_invalid_everywhere() {
    let (_, contours) = build_contours(&plane(2.0, 2.0, 1), 0.5);
    for v in &contours.contours[0].outer {
        assert_eq!(v.across_region, RegionId::invalid());
    }
}

#[test]
fn two_disconnected_planes_each_get_their_own_contour() {
    let s = two_together(plane(3.0, 3.0, 1), raised(plane(3.0, 3.0, 1), [0.0, 0.0, 5.0]));
    let (_, contours) = build_contours(&s, 0.5);
    assert_eq!(contours.region_count, 2);
    assert!(!contours.contours[0].is_empty());
    assert!(!contours.contours[1].is_empty());
}

// --- Portals ----------------------------------------------------------------

#[test]
fn isolated_plane_produces_no_portals() {
    let (_, contours) = build_contours(&plane(4.0, 4.0, 1), 0.5);
    assert!(extract_portals(&contours).is_empty());
}

#[test]
fn floor_with_ramp_and_platform_has_some_portals() {
    let (_, contours) = build_contours(&floor_with_ramp_and_platform(), 0.2);
    let portals = extract_portals(&contours);
    assert!(!portals.is_empty());
    for p in &portals {
        assert!(p.a.0 < p.b.0, "portal not canonically ordered: {:?}", p);
        assert!(p.edge.len() >= 2, "portal polyline too short: {:?}", p);
        assert!(p.is_rectilinear());
    }
}

/// A place along a seam, in grid units.
fn on_seam(p: &Portal, m: SeamPlace) -> (f64, f64, f64) {
    let a = p.edge[m.at];
    let b = if m.at + 1 < p.edge.len() { p.edge[m.at + 1] } else { a };
    let t = m.num as f64 / m.den as f64;
    let mix = |x: f64, y: f64| x + (y - x) * t;
    (
        mix(a.col as f64, b.col as f64),
        mix(a.row as f64, b.row as f64),
        mix(a.height2 as f64, b.height2 as f64) * 0.5,
    )
}

#[test]
fn portal_midpoint_lies_on_polyline() {
    let (_, contours) = build_contours(&floor_with_ramp_and_platform(), 0.2);
    for p in &extract_portals(&contours) {
        let mid = on_seam(p, p.midpoint().unwrap());
        let xs = p.edge.iter().map(|v| v.col as f64);
        let ys = p.edge.iter().map(|v| v.row as f64);
        let min_x = xs.clone().fold(f64::INFINITY, f64::min);
        let max_x = xs.fold(f64::NEG_INFINITY, f64::max);
        let min_y = ys.clone().fold(f64::INFINITY, f64::min);
        let max_y = ys.fold(f64::NEG_INFINITY, f64::max);
        assert!(mid.0 >= min_x - 1e-9 && mid.0 <= max_x + 1e-9);
        assert!(mid.1 >= min_y - 1e-9 && mid.1 <= max_y + 1e-9);
    }
}

#[test]
fn portal_length_and_midpoint() {
    let at = |col: u32, row: u32| SeamPoint { col, row, height2: 0 };
    let p = Portal {
        a: RegionId(0),
        b: RegionId(1),
        edge: vec![at(0, 0), at(3, 0), at(3, 4)],
        max_step2: 0,
    };
    assert_eq!(p.length_xy(), 7);
    let m = on_seam(&p, p.midpoint().unwrap());
    assert!((m.0 - 3.0).abs() < 1e-9);
    assert!((m.1 - 0.5).abs() < 1e-9);
}

#[test]
fn the_midpoint_has_the_height_of_the_nearest_point() {
    let at = |col: u32, row: u32, height2: u64| SeamPoint { col, row, height2 };
    let portal = |edge: Vec<SeamPoint>| Portal { a: RegionId(0), b: RegionId(1), edge, max_step2: 0 };
    let p = portal(vec![at(0, 0, 0), at(3, 0, 0), at(3, 4, 16)]);
    assert_eq!(p.midpoint_height2(), Some(0));
    let p = portal(vec![at(0, 0, 4), at(1, 0, 6), at(10, 0, 8)]);
    assert_eq!(p.midpoint_height2(), Some(6));
    assert_eq!(portal(vec![at(0, 0, 4), at(2, 0, 6)]).midpoint_height2(), Some(4));
    assert_eq!(portal(vec![at(5, 5, 7), at(5, 5, 9)]).midpoint_height2(), Some(7));
    assert_eq!(portal(Vec::new()).midpoint_height2(), None);
}

/// A ring round the cell at the origin with the given regions across.
fn unit_ring(across: [u32; 4]) -> Vec<ContourVertex> {
    [(0, 0), (1, 0), (1, 1), (0, 1)]
        .iter()
        .zip(across)
        .map(|(&(col, row), id)| ContourVertex {
            col,
            row,
            height2: 0,
            across_region: RegionId(id),
        })
        .collect()
}

fn ring_portal_edges(across: [u32; 4]) -> Vec<(u32, u32, Vec<(u32, u32)>)> {
    let blank = || RegionContour { outer: Vec::new(), holes: Vec::new() };
    let mut contours = vec![RegionContour { outer: unit_ring(across), holes: Vec::new() }];
    contours.extend((0..3).map(|_| blank()));
    extract_portals(&RegionContours { region_count: 4, contours })
        .iter()
        .map(|p| (p.a.0, p.b.0, p.edge.iter().map(|e| (e.col, e.row)).collect()))
        .collect()
}

#[test]
fn each_run_of_edges_with_one_neighbor_is_a_portal() {
    let none = RegionId::invalid().0;
    assert_eq!(
        ring_portal_edges([1, 1, 2, 2]),
        vec![(0, 1, vec![(0, 0), (1, 0), (1, 1)]), (0, 2, vec![(1, 1), (0, 1), (0, 0)])]
    );
    // A run over the end of the ring is one portal.
    assert_eq!(
        ring_portal_edges([1, 2, 2, 1]),
        vec![(0, 2, vec![(1, 0), (1, 1), (0, 1)]), (0, 1, vec![(0, 1), (0, 0), (1, 0)])]
    );
    assert_eq!(
        ring_portal_edges([1, none, 3, 1]),
        vec![(0, 3, vec![(1, 1), (0, 1)]), (0, 1, vec![(0, 1), (0, 0), (1, 0)])]
    );
    // One neighbor all round: the portal closes.
    assert_eq!(
        ring_portal_edges([2, 2, 2, 2]),
        vec![(0, 2, vec![(0, 0), (1, 0), (1, 1), (0, 1), (0, 0)])]
    );
}

#[test]
fn regions_across_belong_to_the_edge_that_follows() {
    // Two cells side by side, two layers apart: linked, but two regions.
    let mut g = VoxelGrid::new(2, 1, 8);
    g.set_area(0, 0, 0, WALKABLE);
    g.set_area(1, 0, 2, WALKABLE);
    let chf = classify_walkability(&g, 1, 3);
    let config = WatershedConfig { min_region_cells: 1, merge_region_cells: 0, max_layer_step: 1 };
    let rm = segment(&chf, &config);
    assert_eq!((rm.at(0, 0, 0), rm.at(1, 0, 0)), (RegionId(0), RegionId(1)));
    let contours = extract_contours(&chf, &rm);
    for (id, from, to, other) in [(0, (1, 0), (1, 1), 1), (1, (1, 1), (1, 0), 0)] {
        let ring = &contours.contours[id].outer;
        assert_eq!(ring.len(), 4);
        for i in 0..4 {
            let (a, b) = (&ring[i], &ring[(i + 1) % 4]);
            let shared = (a.col, a.row) == from && (b.col, b.row) == to;
            let expected = if shared { RegionId(other) } else { RegionId::invalid() };
            assert_eq!(a.across_region, expected);
        }
    }
    let portals = extract_portals(&contours);
    assert_eq!(portals.len(), 1);
    let ends: Vec<(u32, u32)> = portals[0].edge.iter().map(|e| (e.col, e.row)).collect();
    assert_eq!(ends, vec![(1, 0), (1, 1)]);
}

#[test]
fn a_ring_taken_backwards_keeps_the_regions_of_its_edges() {
    let ring: Vec<ContourVertex> = unit_ring([1, 2, 3, 4]).into_iter().take(3).collect();
    let back = reverse_to_cw(&ring);
    let places: Vec<(u32, u32)> = back.iter().map(|v| (v.col, v.row)).collect();
    assert_eq!(places, vec![(1, 1), (1, 0), (0, 0)]);
    let across: Vec<u32> = back.iter().map(|v| v.across_region.0).collect();
    assert_eq!(across, vec![2, 1, 3]);
}

#[test]
fn regions_are_numbered_by_their_first_surface() {
    // Three patches; the one with the first cell, row by row, comes first.
    let mut g = VoxelGrid::new(5, 2, 4);
    for (c, r) in [(2, 0), (2, 1), (4, 0), (0, 1)] {
        g.set_area(c, r, 0, WALKABLE);
    }
    let chf = classify_walkability(&g, 1, 1);
    let config = WatershedConfig { min_region_cells: 1, merge_region_cells: 0, max_layer_step: 1 };
    let rm = segment(&chf, &config);
    assert_eq!(rm.region_count, 3);
    let ids = [(2, 0), (2, 1), (4, 0), (0, 1)].map(|(c, r)| rm.at(c, r, 0).0);
    assert_eq!(ids, [0, 0, 1, 2]);
}

#[test]
fn distances_are_the_lengths_of_shortest_chains() {
    let mut g = VoxelGrid::new(7, 7, 4);
    for r in 0..7 {
        for c in 0..7 {
            g.set_area(c, r, 0, WALKABLE);
        }
    }
    let df = build_distance_field(&classify_walkability(&g, 1, 1));
    for (r, c) in (0..7u32).flat_map(|r| (0..7u32).map(move |c| (r, c))) {
        let steps = r.min(c).min(6 - r).min(6 - c) as u16;
        assert_eq!(df.at(c, r, 0), Some(steps));
    }
}

#[test]
fn bounds_leave_out_what_no_triangle_uses() {
    let far = [9.0, 9.0, 9.0];
    let s = soup(&[[0.0, 1.0, -2.0], [3.0, 0.0, 0.0], [1.0, 4.0, 5.0], far], vec![[0, 1, 2]]);
    assert_eq!(bounds(&s), ([0.0, 0.0, -2.0], [3.0, 4.0, 5.0]));
    assert_eq!(soup(&[far], Vec::new()).bounds(), None);
}

// --- Output -----------------------------------------------------------------

fn small_heightfield() -> Heightfield {
    Heightfield {
        cols: 2,
        rows: 2,
        data: vec![Some(0), Some(u16::MAX), None, Some(u16::MAX / 2)],
    }
}

/// A level between 0 and 10 world units.
fn level(q: f64) -> f64 {
    q / u16::MAX as f64 * 10.0
}

#[test]
fn heightfield_samples_cells() {
    let hf = small_heightfield();
    let sample = |c: u32, r: u32| hf.sample_cell(c, r).map(|q| level(q as f64));
    assert_eq!(sample(0, 0), Some(0.0));
    assert_eq!(sample(1, 0), Some(10.0));
    assert_eq!(sample(0, 1), None);
    let mid = sample(1, 1).unwrap();
    assert!((mid - 5.0).abs() < 1e-3, "expected ~5.0, got {}", mid);
    assert_eq!(sample(2, 0), None);
}

#[test]
fn region_mean_height() {
    let r = Region {
        id: RegionId(0),
        contour: RegionContour { outer: Vec::new(), holes: Vec::new() },
        heightfield: small_heightfield(),
    };
    let (sum, count) = r.mean_height().unwrap();
    let mean = level(sum as f64 / count as f64);
    assert!((mean - 5.0).abs() < 1e-3);
}

#[test]
fn pipeline_output_is_looked_up_by_region() {
    let region = |id: u32| Region {
        id: RegionId(id),
        contour: RegionContour { outer: Vec::new(), holes: Vec::new() },
        heightfield: Heightfield { cols: 0, rows: 0, data: Vec::new() },
    };
    let portal =
        |a: u32, b: u32| Portal { a: RegionId(a), b: RegionId(b), edge: Vec::new(), max_step2: 0 };
    let out = PipelineOutput {
        regions: vec![region(0), region(1)],
        portals: vec![portal(0, 1), portal(1, 2), portal(0, 2)],
    };
    assert_eq!(out.region(RegionId(1)).map(|r| r.id), Some(RegionId(1)));
    assert!(out.region(RegionId(7)).is_none());
    assert_eq!(out.portals_for(RegionId(2)), vec![1, 2]);
    assert!(region(0).mean_height().is_none());
}

// --- Navigation meshes ------------------------------------------------------

#[test]
fn flat_plane_navmesh_is_planar() {
    let (w, result) = build_navmeshes(&plane(4.0, 4.0, 1), 1.0);
    assert!(result.built_count() >= 1);
    let mesh = result.meshes[0].as_ref().expect("region 0 should triangulate");
    assert!(mesh.triangle_count() > 0);
    for v in &mesh.vertices {
        let z = world_z(&w, v.height2);
        assert!((z - 1.0).abs() < 1e-6, "plane vertex Z {} not at expected 1.0", z);
    }
}

#[test]
fn ramp_navmesh_has_varying_z() {
    let (w, result) = build_navmeshes(&ramp(0.0, 4.0, 2.0, 3.0), 0.2);
    let mesh = largest(&result);
    let zs: Vec<f64> = mesh.vertices.iter().map(|v| world_z(&w, v.height2)).collect();
    let min_z = zs.iter().copied().fold(f64::INFINITY, f64::min);
    let max_z = zs.iter().copied().fold(f64::NEG_INFINITY, f64::max);
    assert!(max_z - min_z > 0.4, "got {}..{}", min_z, max_z);
}

#[test]
fn under_ramp_produces_multiple_navmeshes() {
    let (_, result) = build_navmeshes(&under_ramp(), 0.2);
    assert!(result.built_count() >= 2, "got {}", result.built_count());
}

#[test]
fn navmesh_triangle_indices_are_valid() {
    let (_, result) = build_navmeshes(&floor_with_ramp_and_platform(), 0.2);
    let mut total = 0;
    for m in result.meshes.iter().flatten() {
        total += m.triangle_count();
        for tri in &m.triangles {
            for &idx in tri {
                assert!((idx as usize) < m.vertex_count());
            }
        }
    }
    assert_eq!(total, result.total_triangle_count());
}

// --- Paths over regions -----------------------------------------------------

fn standing(w: &WorldGrid, contours: &RegionContours, p: P) -> Standing {
    let x = (p[0] - w.origin[0]) / w.cs;
    let y = (p[1] - w.origin[1]) / w.cs;
    let hits = contours
        .contours
        .iter()
        .map(|c| RingHits {
            outer: ring_holds(&c.outer, x, y),
            holes: c.holes.iter().map(|h| ring_holds(h, x, y)).collect(),
        })
        .collect();
    let gaps = contours
        .contours
        .iter()
        .map(|c| {
            let (sum, den) = region_mean_z(c);
            let z = w.origin[2] + sum as f64 / den as f64 * w.cs;
            (z - p[2]).abs().to_bits()
        })
        .collect();
    Standing { hits, gaps }
}

fn path_between(
    w: &WorldGrid,
    contours: &RegionContours,
    portals: &Vec<Portal>,
    src: P,
    dst: P,
) -> Option<Path> {
    let mids: Vec<P> = portals
        .iter()
        .map(|p| {
            let m = on_seam(p, p.midpoint().unwrap());
            [
                w.origin[0] + m.0 * w.cs,
                w.origin[1] + m.1 * w.cs,
                w.origin[2] + m.2 * w.cs,
            ]
        })
        .collect();
    let far = |a: P, b: P| dot(minus(a, b), minus(a, b)).sqrt();
    find_path(
        contours,
        portals,
        &standing(w, contours, src),
        &standing(w, contours, dst),
        |cost: u64, _from: usize, from_tag: u32, _to: usize, tag: u32| {
            let at = if from_tag == NO_TAG { src } else { mids[from_tag as usize] };
            let mid = mids[tag as usize];
            let total = f64::from_bits(cost) + far(at, mid);
            (total.to_bits(), (total + far(mid, dst)).to_bits())
        },
    )
}

#[test]
fn same_region_path_is_direct() {
    let (w, contours) = build_contours(&plane(8.0, 8.0, 1), 0.5);
    let portals = extract_portals(&contours);
    let path =
        path_between(&w, &contours, &portals, [-2.0, 0.0, 0.5], [2.0, 0.0, 0.5]).expect("path");
    assert_eq!(path.waypoints, vec![Waypoint::Source, Waypoint::Target]);
    assert_eq!(path.regions.len(), 1);
    assert_eq!(path.segment_region(0), path.regions[0]);
}

#[test]
fn cross_region_path_uses_portal_midpoint() {
    let (w, contours) = build_contours(&floor_with_ramp_and_platform(), 0.2);
    let portals = extract_portals(&contours);
    let found = path_between(&w, &contours, &portals, [-3.0, 0.0, 0.0], [8.0, 0.0, 1.6]);
    if let Some(path) = found {
        assert!(path.waypoints.len() >= 3);
        assert!(path.regions.len() >= 2);
        assert_eq!(path.waypoints[0], Waypoint::Source);
        for (i, step) in path.waypoints[1..path.waypoints.len() - 1].iter().enumerate() {
            match step {
                Waypoint::Portal(k) => {
                    let p = &portals[*k as usize];
                    let pair = (path.regions[i], path.regions[i + 1]);
                    assert!(pair == (p.a, p.b) || pair == (p.b, p.a));
                }
                _ => panic!("a portal is between the ends"),
            }
        }
    }
}

#[test]
fn no_region_returns_none() {
    let (w, contours) = build_contours(&plane(4.0, 4.0, 1), 0.5);
    let portals = extract_portals(&contours);
    assert!(path_between(&w, &contours, &portals, [100.0, 100.0, 0.0], [0.0, 0.0, 0.5]).is_none());
    let hits = standing(&w, &contours, [0.0, 0.0, 0.0]).hits;
    assert_eq!(find_region_at_xy(&contours, &hits), Some(RegionId(0)));
}

#[test]
fn surfaces_are_sampled_in_their_region() {
    let (w, chf, rm) = build_regions(&plane(4.0, 4.0, 1), 0.5);
    let (c, r) = (w.grid.cols / 2, w.grid.rows / 2);
    let layer = chf.surfaces_at(c, r)[0].layer;
    assert_eq!(surface_z_in_region(&chf, &rm, RegionId(0), c, r), Some(layer));
    assert_eq!(surface_z_in_region(&chf, &rm, RegionId(5), c, r), None);
    assert!(sample_hf_layers(&chf, &rm, RegionId(0), c, r).contains(&layer));
    assert_eq!(closest_sample(&vec![3, 1, 1]), Some(1));
    assert_eq!(closest_sample(&Vec::new()), None);
}

// --- Strings through meshes -------------------------------------------------

fn centroid(m: &RegionNavMesh, t: usize) -> (f64, f64) {
    let mut c = (0.0, 0.0);
    for i in m.triangles[t] {
        let p = xy(m.vertices[i as usize].position);
        c = (c.0 + p.0 / 3.0, c.1 + p.1 / 3.0);
    }
    c
}

fn apart(a: (f64, f64), b: (f64, f64)) -> f64 {
    ((a.0 - b.0) * (a.0 - b.0) + (a.1 - b.1) * (a.1 - b.1)).sqrt()
}

/// A string through a mesh, in world units.
fn string_in(w: &WorldGrid, m: &RegionNavMesh, a: (f64, f64), b: (f64, f64)) -> Vec<(f64, f64)> {
    let to_grid = |p: (f64, f64)| ((p.0 - w.origin[0]) / w.cs, (p.1 - w.origin[1]) / w.cs);
    let (s, d) = (to_grid(a), to_grid(b));
    let price = |cost: u64, from: usize, _t: u32, to: usize, _u: u32| {
        let total = f64::from_bits(cost) + apart(centroid(m, from), centroid(m, to));
        (total.to_bits(), (total + apart(centroid(m, to), d)).to_bits())
    };
    funnel_in_region(m, v(s.0, s.1), v(d.0, d.1), price)
        .expect("a route")
        .iter()
        .map(|p| {
            let q = xy(*p);
            (w.origin[0] + q.0 * w.cs, w.origin[1] + q.1 * w.cs)
        })
        .collect()
}

#[test]
fn straight_line_through_plane_is_two_points() {
    let (w, all) = build_navmeshes(&plane(8.0, 8.0, 1), 0.5);
    let path = string_in(&w, largest(&all), (-2.0, 0.0), (2.0, 0.0));
    assert!(path.len() >= 2);
    assert!((path[0].0 - -2.0).abs() < 1e-6);
    assert!((path[path.len() - 1].0 - 2.0).abs() < 1e-6);
}

#[test]
fn path_routes_around_hole_in_plane() {
    let s = two_together(plane(10.0, 10.0, 1), box_aabb([-1.0, -1.0, 0.0], [1.0, 1.0, 4.0]));
    let (w, all) = build_navmeshes(&s, 0.3);
    let path = string_in(&w, largest(&all), (-4.0, 0.0), (4.0, 0.0));
    assert!(path.len() >= 3, "no corner round the hole: {:?}", path);
    for &(x, y) in &path {
        assert!(!(x.abs() <= 1.0 && y.abs() <= 1.0), "{:?} lies inside the pillar", (x, y));
    }
}

#[test]
fn triangle_adjacency_is_symmetric() {
    let (_, all) = build_navmeshes(&plane(4.0, 4.0, 1), 0.5);
    let mesh = all.meshes[0].as_ref().unwrap();
    let adj = triangle_adjacency(mesh);
    for (i, neighbors) in adj.iter().enumerate() {
        for &n in neighbors {
            if let Some(j) = n {
                assert!(adj[j].iter().any(|x| *x == Some(i)), "{} and {}", i, j);
            }
        }
    }
    let goal = mesh.triangle_count() - 1;
    let channel = find_triangle_channel(&adj, 0, goal, |g: u64, _: usize, _: u32, _: usize, _: u32| {
        let total = f64::from_bits(g) + 1.0;
        (total.to_bits(), total.to_bits())
    })
    .expect("the plane is connected");
    assert_eq!((channel[0], channel[channel.len() - 1]), (0, goal));
    let c = centroid(mesh, 0);
    assert_eq!(find_triangle_at_xy(mesh, v(c.0, c.1)), Some(0));
    assert_eq!(find_triangle_at_xy(mesh, v(-50.0, 0.0)), None);
    let e = centroid(mesh, goal);
    let doors = channel_to_portals(mesh, &channel, v(c.0, c.1), v(e.0, e.1));
    assert_eq!(doors.len(), channel.len() + 1);
    assert_eq!(doors[0], (v(c.0, c.1), v(c.0, c.1)));
}

#[test]
fn strings_turn_only_where_they_must() {
    // A corridor that bends left: the string touches the inner corner.
    let doors = vec![
        (v(0.0, 0.0), v(0.0, 0.0)),
        (v(2.0, 1.0), v(2.0, -1.0)),
        (v(4.0, 1.0), v(6.0, 1.0)),
        (v(4.0, 5.0), v(4.0, 5.0)),
    ];
    let s = funnel(&doors);
    assert_eq!(s.first(), Some(&v(0.0, 0.0)));
    assert_eq!(s.last(), Some(&v(4.0, 5.0)));
    assert_eq!(s.len(), 3);
    assert_eq!(s[1], v(4.0, 1.0));
    assert!(approx_eq(v(1.0, 1.0), v(1.0 + 1e-12, 1.0)));
    assert!(!approx_eq(v(1.0, 1.0), v(1.0 + 1e-6, 1.0)));
}

#[test]
fn a_path_in_one_region_is_refined_in_its_mesh() {
    let (w, contours) = build_contours(&plane(8.0, 8.0, 1), 0.5);
    let portals = extract_portals(&contours);
    let path =
        path_between(&w, &contours, &portals, [-2.0, 0.0, 0.5], [2.0, 0.0, 0.5]).expect("path");
    let all = build_all_navmeshes(&contours);
    let m = largest(&all);
    let price = |cost: u64, from: usize, _t: u32, to: usize, _u: u32| {
        let total = f64::from_bits(cost) + apart(centroid(m, from), centroid(m, to));
        (total.to_bits(), total.to_bits())
    };
    let g = |x: f64, y: f64| v((x - w.origin[0]) / w.cs, (y - w.origin[1]) / w.cs);
    let fine = refine_with_funnel(&path, &all, g(-2.0, 0.0), g(2.0, 0.0), price).expect("refined");
    assert_eq!(fine.first(), Some(&g(-2.0, 0.0)));
    assert_eq!(fine.last(), Some(&g(2.0, 0.0)));
}

#[test]
fn routes_follow_the_cheapest_links() {
    let links = vec![
        vec![Link { to: 1, tag: 10 }, Link { to: 2, tag: 20 }],
        vec![Link { to: 3, tag: 13 }],
        vec![Link { to: 3, tag: 23 }],
        Vec::new(),
        Vec::new(),
    ];
    let price = |cost: u64, _f: usize, _t: u32, _to: usize, tag: u32| {
        let total = f64::from_bits(cost) + tag as f64;
        (total.to_bits(), total.to_bits())
    };
    for reopens in [false, true] {
        assert_eq!(find_route(&links, 0, 3, reopens, price), Some((vec![0, 1, 3], vec![10, 13])));
        assert_eq!(find_route(&links, 0, 4, reopens, price), None);
        assert_eq!(find_route(&links, 2, 2, reopens, price), Some((vec![2], Vec::new())));
    }
}

fn ring_of(corners: &[(u32, u32)]) -> Vec<ContourVertex> {
    corners
        .iter()
        .map(|&(col, row)| ContourVertex { col, row, height2: 2, across_region: RegionId(0) })
        .collect()
}

#[test]
fn holes_are_marked_and_left_open() {
    let contour = RegionContour {
        outer: ring_of(&[(0, 0), (8, 0), (8, 8), (0, 8)]),
        holes: vec![
            ring_of(&[(1, 1), (1, 3), (3, 3), (3, 1)]),
            // A bent one, and one that holds nothing.
            ring_of(&[(4, 4), (4, 7), (5, 7), (5, 5), (7, 5), (7, 4)]),
            ring_of(&[(6, 6), (7, 6)]),
        ],
    };
    let seeds = hole_seeds(&contour);
    assert_eq!(seeds.len(), 2);
    assert_eq!(seeds[0].point, v(1.5, 1.5));
    for (s, h) in seeds.iter().zip(&contour.holes) {
        let p = xy(s.point);
        assert!(ring_holds(h, p.0, p.1));
    }
    let m = build_region_navmesh(RegionId(0), &contour).expect("a surface");
    let mut area = 0.0;
    for t in 0..m.triangles.len() {
        let c = centroid(&m, t);
        assert!(contour.holes.iter().all(|h| !ring_holds(h, c.0, c.1)));
        let [p, q, r] = m.triangles[t].map(|i| xy(m.vertices[i as usize].position));
        area += ((q.0 - p.0) * (r.1 - p.1) - (q.1 - p.1) * (r.0 - p.0)) / 2.0;
    }
    assert_eq!(area, 64.0 - 4.0 - 5.0);
    let closed = build_seeded_navmesh(RegionId(0), &contour, &Vec::new()).expect("a surface");
    assert!(closed.triangle_count() > m.triangle_count());
}

#[test]
fn inner_cells_lie_beside_a_vertex() {
    let ring = ring_of(&[(2, 2), (5, 2), (5, 4), (2, 4)]);
    assert!(does_hold_cell(&ring, 2, 2) && does_hold_cell(&ring, 4, 3));
    assert!(!does_hold_cell(&ring, 1, 2) && !does_hold_cell(&ring, 5, 3));
    assert!(!does_hold_cell(&ring, 2, 4) && !does_hold_cell(&ring, 2, 1));
    let (c, r) = find_inner_cell(&ring).expect("a cell");
    assert!((2..5).contains(&c) && (2..4).contains(&r));
    assert_eq!(find_inner_cell(&ring_of(&[(2, 2), (5, 2)])), None);
    assert_eq!(f64::from_bits(coord_of_halves(7)), 3.5);
    assert_eq!(f64::from_bits(coord_of_halves(0)), 0.0);
    assert_eq!(f64::from_bits(coord_of_halves(1 << 33)), 4294967296.0);
}

fn flat_mesh(corners: &[(f64, f64)], triangles: Vec<[u32; 3]>) -> RegionNavMesh {
    let vertices =
        corners.iter().map(|c| NavVertex { position: v(c.0, c.1), height2: 0 }).collect();
    RegionNavMesh { region: RegionId(0), vertices, triangles }
}

#[test]
fn doorways_of_slanted_triangles_are_not_turned_round() {
    // Both ends of the edge lie to the left of the way between the centroids.
    let m = flat_mesh(
        &[(0.0, 0.0), (1.0, 0.0), (-10.0, 1.0), (-10.0, -1.0)],
        vec![[0, 1, 2], [1, 0, 3]],
    );
    let doors = channel_to_portals(&m, &vec![0, 1], v(0.0, 0.05), v(0.0, -0.05));
    assert_eq!(doors[1], (v(1.0, 0.0), v(0.0, 0.0)));
    let back = channel_to_portals(&m, &vec![1, 0], v(0.0, -0.05), v(0.0, 0.05));
    assert_eq!(back[1], (v(0.0, 0.0), v(1.0, 0.0)));
}

#[test]
fn strings_pass_between_the_ends_of_doorways() {
    // Around a corner at (2, 2) of a square hole.
    let m = flat_mesh(
        &[(0.0, 0.0), (4.0, 0.0), (2.0, 2.0), (4.0, 4.0), (0.0, 2.0), (2.0, 4.0)],
        vec![[0, 1, 2], [1, 3, 2], [0, 2, 4], [2, 3, 5]],
    );
    let (src, dst) = (v(0.25, 1.5), v(2.5, 3.75));
    let doors = channel_to_portals(&m, &vec![2, 0, 1, 3], src, dst);
    let mut s = funnel(&doors);
    // The doorways turn about the corner, which is listed for more than one.
    s.dedup();
    assert_eq!(s, vec![src, v(2.0, 2.0), dst]);
    for d in &doors[1..4] {
        assert!(orient2d(s[0], s[1], d.0) >= 0 || d.0 == s[1]);
    }
    assert!(orient2d(s[0], s[1], doors[1].1) <= 0);
    assert!(orient2d(s[1], s[2], doors[3].1) <= 0);
}
