//! Stitched layers: seams, reachability, corridors and strings across seams.

use rsnav::crossing::{
    folds_back, has_two_ends, left_and_right, pull_posts, weave, CorridorEdge, Woven,
};
use rsnav::divconq::{delaunay, DivConqOptions};
use rsnav::funnel::funnel;
use rsnav::mesh::{CdtMesh, Otri, VertexSlot, DUMMY_TRI};
use rsnav::path::{
    closest_floor, closest_layer, path_ends, path_error, WorldAstarError, WorldPathError,
};
use rsnav::predicates::{orient2d, Vertex};
use rsnav::pslg::{Pslg, PslgSegment, PslgVertex};
use rsnav::segment::form_skeleton;
use rsnav::unionfind::UnionFind;
use rsnav::world::{
    BoundaryEdge, EdgeRef, LayerMesh, LayerTriangle, Point3, World, WorldBuildError,
};
use std::cell::RefCell;
use std::collections::HashMap;

type Xy = (f64, f64);

fn vert(p: Xy) -> Vertex {
    Vertex::new(p.0.to_bits(), p.1.to_bits())
}

fn xy(p: Vertex) -> Xy {
    (f64::from_bits(p.x), f64::from_bits(p.y))
}

fn minus(a: Xy, b: Xy) -> Xy {
    (a.0 - b.0, a.1 - b.1)
}

fn dot(a: Xy, b: Xy) -> f64 {
    a.0 * b.0 + a.1 * b.1
}

fn cross(a: Xy, b: Xy) -> f64 {
    a.0 * b.1 - a.1 * b.0
}

fn apart(a: Xy, b: Xy) -> f64 {
    dot(minus(a, b), minus(a, b)).sqrt()
}

fn dist3(a: Xy, az: f64, b: Xy, bz: f64) -> f64 {
    (dot(minus(a, b), minus(a, b)) + (az - bz) * (az - bz)).sqrt()
}

const SEAM: i32 = -1;

/// Triangulate a ring; edges with the marker [`SEAM`] are seams of
/// connection 0.
fn build_layer(pts: &[Xy], markers: &[i32], z: impl Fn(Xy) -> f64) -> LayerMesh {
    assert_eq!(pts.len(), markers.len());
    let mut mesh = CdtMesh::new();
    for &p in pts {
        mesh.push_vertex(VertexSlot::new(vert(p), 0));
    }
    delaunay(&mut mesh, DivConqOptions::default()).unwrap();
    let n = pts.len() as u32;
    let pslg = Pslg {
        vertices: pts.iter().map(|&p| PslgVertex::new(vert(p))).collect(),
        segments: (0..n)
            .map(|i| PslgSegment { a: i, b: (i + 1) % n, marker: markers[i as usize] })
            .collect(),
        holes: Vec::new(),
    };
    form_skeleton(&mut mesh, &pslg, None).unwrap();
    let live: Vec<u32> =
        (1..mesh.triangles.len() as u32).filter(|t| !mesh.triangle(*t).is_dead()).collect();
    let number = |t: u32| live.iter().position(|x| *x == t).map_or(u32::MAX, |i| i as u32);
    let mut triangles = Vec::new();
    let mut boundary = Vec::new();
    for (i, &t) in live.iter().enumerate() {
        let mut edges = [[0u32; 2]; 3];
        let mut neighbors = [u32::MAX; 3];
        let mut walls = [false; 3];
        for e in 0..3u8 {
            let o = Otri::new(t, e);
            edges[e as usize] = [mesh.org(o).get(), mesh.dest(o).get()];
            let beyond = mesh.sym(o).tri;
            if beyond == DUMMY_TRI {
                walls[e as usize] = true;
                let marker = mesh.subseg(mesh.tspivot(o).sub).marker;
                boundary.push(BoundaryEdge {
                    triangle: i as u32,
                    from: edges[e as usize][0],
                    to: edges[e as usize][1],
                    connection: if marker == SEAM { Some(0) } else { None },
                });
            } else {
                neighbors[e as usize] = number(beyond);
            }
        }
        triangles.push(LayerTriangle { edges, neighbors, walls, region: 0 });
    }
    let vertices = pts
        .iter()
        .map(|&p| Point3 { x: p.0.to_bits(), y: p.1.to_bits(), z: z(p).to_bits() })
        .collect();
    LayerMesh { vertices, triangles, boundary, region_count: 1 }
}

fn at(l: &LayerMesh, v: u32) -> (Xy, f64) {
    let p = l.vertices[v as usize];
    ((f64::from_bits(p.x), f64::from_bits(p.y)), f64::from_bits(p.z))
}

fn corners(l: &LayerMesh, t: u32) -> [(Xy, f64); 3] {
    let e = l.triangles[t as usize].edges;
    [at(l, e[0][0]), at(l, e[1][0]), at(l, e[2][0])]
}

fn centroid(l: &LayerMesh, t: u32) -> Xy {
    let c = corners(l, t);
    (
        (c[0].0 .0 + c[1].0 .0 + c[2].0 .0) / 3.0,
        (c[0].0 .1 + c[1].0 .1 + c[2].0 .1) / 3.0,
    )
}

/// The first triangle that holds a point.
fn locate_in(l: &LayerMesh, p: Xy) -> Option<u32> {
    (0..l.triangles.len() as u32).find(|&t| {
        let c = corners(l, t);
        let s = |a: usize, b: usize| orient2d(vert(c[a].0), vert(c[b].0), vert(p));
        let (x, y, z) = (s(0, 1), s(1, 2), s(2, 0));
        (x >= 0 && y >= 0 && z >= 0) || (x <= 0 && y <= 0 && z <= 0)
    })
}

/// The height of a triangle's plane at a point.
fn z_at(l: &LayerMesh, t: u32, p: Xy) -> f64 {
    let c = corners(l, t);
    let (u, w, d) = (minus(c[1].0, c[0].0), minus(c[2].0, c[0].0), minus(p, c[0].0));
    let den = cross(u, w);
    let (a, b) = (cross(d, w) / den, cross(u, d) / den);
    c[0].1 + a * (c[1].1 - c[0].1) + b * (c[2].1 - c[0].1)
}

fn on_segment(a: Xy, b: Xy, p: Xy) -> Xy {
    let len2 = dot(minus(b, a), minus(b, a));
    let t = if len2 == 0.0 { 0.0 } else { (dot(minus(p, a), minus(b, a)) / len2).clamp(0.0, 1.0) };
    (a.0 + t * (b.0 - a.0), a.1 + t * (b.1 - a.1))
}

fn edge_z(a: (Xy, f64), b: (Xy, f64), p: Xy) -> f64 {
    let len2 = dot(minus(b.0, a.0), minus(b.0, a.0));
    let t = (dot(minus(p, a.0), minus(b.0, a.0)) / len2).clamp(0.0, 1.0);
    a.1 + t * (b.1 - a.1)
}

/// Whether a vertex lies on a wall that is no seam.
fn is_wall_vertex(l: &LayerMesh, v: u32) -> bool {
    l.boundary.iter().any(|b| b.connection.is_none() && (b.from == v || b.to == v))
}

#[derive(Copy, Clone, Debug, PartialEq)]
struct Spot {
    layer: u32,
    pos: Xy,
    z: f64,
}

struct Trip {
    points: Vec<Spot>,
    triangles: Vec<(u32, u32)>,
}

impl Trip {
    fn length(&self) -> f64 {
        self.points.windows(2).map(|w| dist3(w[0].pos, w[0].z, w[1].pos, w[1].z)).sum()
    }
}

fn corridor(
    w: &World,
    start: (u32, Xy, u32),
    goal: (u32, Xy, u32),
    clearance: f64,
) -> Result<Vec<(u32, u32)>, WorldAstarError> {
    let gz = z_at(w.layer(goal.0), goal.2, goal.1);
    let sz = z_at(w.layer(start.0), start.2, start.1);
    let first = w.flat_index(start.0, start.2);
    let last = w.flat_index(goal.0, goal.2);
    // Where the way to a node at a cost enters it.
    let entries: RefCell<HashMap<(usize, u64), (Xy, f64)>> = RefCell::new(HashMap::new());
    entries.borrow_mut().insert((first, 0), (start.1, sz));
    w.astar(
        (start.0, start.2),
        (goal.0, goal.2),
        |layer: u32, tri: u32, edge: u8| {
            let l = w.layer(layer);
            let [a, b] = l.triangles[tri as usize].edges[edge as usize];
            let mut needed = 0.0;
            for v in [a, b] {
                if is_wall_vertex(l, v) {
                    needed += clearance;
                }
            }
            clearance <= 0.0 || apart(at(l, a).0, at(l, b).0) > needed
        },
        |cost: u64, from: usize, _tag: u32, to: usize, edge: u32| {
            let (entry, ez) = entries.borrow()[&(from, cost)];
            let (layer, tri) = w.node_to_tri(from);
            let l = w.layer(layer);
            let [a, b] = l.triangles[tri as usize].edges[edge as usize];
            let (pa, pb) = (at(l, a), at(l, b));
            let c = on_segment(pa.0, pb.0, entry);
            let cz = edge_z(pa, pb, c);
            let mut step = dist3(entry, ez, c, cz);
            let mut ahead = dist3(c, cz, goal.1, gz);
            if to == last {
                step += ahead;
                ahead = 0.0;
            }
            let total = f64::from_bits(cost) + step;
            entries.borrow_mut().entry((to, total.to_bits())).or_insert((c, cz));
            (total.to_bits(), (total + ahead).to_bits())
        },
    )
}

/// A portal of a corridor: its ends with their heights, and the hinge where it
/// is a seam.
struct Door {
    layer: u32,
    left: (Xy, f64),
    right: (Xy, f64),
    hinge: Option<((Xy, f64), (Xy, f64), Xy, Xy)>,
}

fn shrink(l: Xy, r: Xy, lw: bool, rw: bool, by: f64) -> (Xy, Xy) {
    let len = apart(l, r);
    if by <= 0.0 || len == 0.0 {
        return (l, r);
    }
    let (a, b) = (if lw { by } else { 0.0 }, if rw { by } else { 0.0 });
    let k = if a + b <= len { 1.0 } else { len / (a + b) };
    let d = ((r.0 - l.0) / len, (r.1 - l.1) / len);
    (
        (l.0 + d.0 * a * k, l.1 + d.1 * a * k),
        (r.0 - d.0 * b * k, r.1 - d.1 * b * k),
    )
}

fn door(w: &World, e: &CorridorEdge, next: (u32, u32), clearance: f64) -> Door {
    let l = w.layer(e.layer);
    let [a, b] = l.triangles[e.tri as usize].edges[e.edge as usize];
    let (pa, pb) = (at(l, a), at(l, b));
    let from_c = centroid(l, e.tri);
    let to_c = centroid(w.layer(next.0), next.1);
    let ends = if e.seam {
        (vert(pb.0), vert(pa.0))
    } else {
        left_and_right(vert(from_c), vert(to_c), vert(pa.0), vert(pb.0))
    };
    let (lv, rv) = if ends.0 == vert(pa.0) { (a, b) } else { (b, a) };
    let (left, right) = shrink(
        xy(ends.0),
        xy(ends.1),
        is_wall_vertex(l, lv),
        is_wall_vertex(l, rv),
        clearance,
    );
    Door {
        layer: e.layer,
        left: (left, edge_z(pa, pb, left)),
        right: (right, edge_z(pa, pb, right)),
        hinge: if e.seam { Some((pa, pb, from_c, to_c)) } else { None },
    }
}

/// A plane motion: a matrix, a shift, and whether it turns the plane over.
#[derive(Copy, Clone)]
struct Fold {
    m: [f64; 4],
    t: Xy,
    flip: bool,
}

impl Fold {
    fn apply(&self, p: Xy) -> Xy {
        (
            self.m[0] * p.0 + self.m[1] * p.1 + self.t.0,
            self.m[2] * p.0 + self.m[3] * p.1 + self.t.1,
        )
    }

    /// The reflection across the line through `a` and `b`, after this.
    fn reflected(&self, a: Xy, b: Xy) -> Fold {
        let d = minus(b, a);
        let len = dot(d, d).sqrt();
        let (ux, uy) = (d.0 / len, d.1 / len);
        let (p, q) = (ux * ux - uy * uy, 2.0 * ux * uy);
        let r = Fold {
            m: [p, q, q, -p],
            t: (a.0 - (p * a.0 + q * a.1), a.1 - (q * a.0 - p * a.1)),
            flip: true,
        };
        let o = self.m;
        Fold {
            m: [
                r.m[0] * o[0] + r.m[1] * o[2],
                r.m[0] * o[1] + r.m[1] * o[3],
                r.m[2] * o[0] + r.m[3] * o[2],
                r.m[2] * o[1] + r.m[3] * o[3],
            ],
            t: r.apply(self.t),
            flip: !self.flip,
        }
    }
}

fn crossing(a0: Xy, a1: Xy, b0: Xy, b1: Xy) -> Option<(f64, f64)> {
    let (r, s) = (minus(a1, a0), minus(b1, b0));
    let den = cross(r, s);
    if den == 0.0 {
        return None;
    }
    let t = cross(minus(b0, a0), s) / den;
    let u = cross(minus(b0, a0), r) / den;
    let near = |x: f64| (-1e-12..=1.0 + 1e-12).contains(&x);
    if near(t) && near(u) {
        Some((t.clamp(0.0, 1.0), u.clamp(0.0, 1.0)))
    } else {
        None
    }
}

fn string(
    w: &World,
    steps: &Vec<(u32, u32)>,
    start: Spot,
    goal: Spot,
    clearance: f64,
) -> Vec<Spot> {
    if steps.len() <= 1 {
        let ends = ((start.layer, vert(start.pos)), (goal.layer, vert(goal.pos)));
        return if has_two_ends(ends.0, ends.1) { vec![start, goal] } else { vec![start] };
    }
    let edges = w.corridor_edges(steps);
    let mut fold = Fold { m: [1.0, 0.0, 0.0, 1.0], t: (0.0, 0.0), flip: false };
    let mut doors: Vec<(Vertex, Vertex)> = vec![(vert(start.pos), vert(start.pos))];
    let mut spots: Vec<(Spot, Spot)> = vec![(start, start)];
    let mut hinges = Vec::new();
    for (i, e) in edges.iter().enumerate() {
        let d = door(w, e, steps[i + 1], clearance);
        let (mut l, mut r) = (d.left, d.right);
        if fold.flip {
            std::mem::swap(&mut l, &mut r);
        }
        doors.push((vert(fold.apply(l.0)), vert(fold.apply(r.0))));
        let spot = |x: (Xy, f64)| Spot { layer: d.layer, pos: x.0, z: x.1 };
        spots.push((spot(l), spot(r)));
        if let Some((a, b, exit, enter)) = d.hinge {
            let (ha, hb) = (fold.apply(a.0), fold.apply(b.0));
            let folded = folds_back(
                vert(ha),
                vert(hb),
                vert(fold.apply(exit)),
                vert(fold.apply(enter)),
            );
            hinges.push((ha, hb, a, b, d.layer));
            if folded {
                fold = fold.reflected(ha, hb);
            }
        }
    }
    let end = fold.apply(goal.pos);
    doors.push((vert(end), vert(end)));
    spots.push((goal, goal));
    let posts = pull_posts(&doors);
    let pulled: Vec<Xy> = funnel(&doors).iter().map(|p| xy(*p)).collect();
    let meet = |corner: usize, hinge: usize| {
        let h = &hinges[hinge];
        crossing(pulled[corner - 1], pulled[corner], h.0, h.1).map(|(t, _)| t > 0.0 && t < 1.0)
    };
    weave(pulled.len(), hinges.len(), meet)
        .iter()
        .map(|x| match x {
            Woven::Corner(i) => {
                let s = spots[posts[*i] / 2];
                if posts[*i] % 2 == 0 {
                    s.0
                } else {
                    s.1
                }
            }
            Woven::Crossing { corner, hinge } => {
                let (ha, hb, a, b, layer) = hinges[*hinge];
                let (_, u) = crossing(pulled[corner - 1], pulled[*corner], ha, hb).unwrap();
                Spot {
                    layer,
                    pos: (a.0 .0 + (b.0 .0 - a.0 .0) * u, a.0 .1 + (b.0 .1 - a.0 .1) * u),
                    z: a.1 + (b.1 - a.1) * u,
                }
            }
        })
        .collect()
}

fn find_path(w: &World, start: (u32, Xy), goal: (u32, Xy), clearance: f64) -> Result<Trip, WorldPathError> {
    let (s, g) = path_ends(
        locate_in(w.layer(start.0), start.1),
        locate_in(w.layer(goal.0), goal.1),
    )?;
    let triangles = corridor(w, (start.0, start.1, s), (goal.0, goal.1, g), clearance)
        .map_err(path_error)?;
    let spot = |p: (u32, Xy), t: u32| Spot { layer: p.0, pos: p.1, z: z_at(w.layer(p.0), t, p.1) };
    let points = string(w, &triangles, spot(start, s), spot(goal, g), clearance);
    Ok(Trip { points, triangles })
}

fn left_square(z: impl Fn(Xy) -> f64) -> LayerMesh {
    build_layer(
        &[(0.0, 0.0), (10.0, 0.0), (10.0, 5.0), (10.0, 10.0), (0.0, 10.0)],
        &[1, SEAM, SEAM, 1, 1],
        z,
    )
}

fn right_square(z: impl Fn(Xy) -> f64) -> LayerMesh {
    build_layer(
        &[(10.0, 0.0), (20.0, 0.0), (20.0, 10.0), (10.0, 10.0), (10.0, 5.0)],
        &[1, 1, 1, SEAM, SEAM],
        z,
    )
}

fn ground_layer() -> LayerMesh {
    left_square(|_| 0.0)
}

fn ramp_layer() -> LayerMesh {
    right_square(|p| (p.0 - 10.0) * 0.5)
}

fn island_layer() -> LayerMesh {
    build_layer(
        &[(100.0, 0.0), (110.0, 0.0), (110.0, 10.0), (100.0, 10.0)],
        &[1, 1, 1, 1],
        |_| 0.0,
    )
}

// --- Stitching --------------------------------------------------------------

#[test]
fn seam_sub_edges_match_bit_exactly() {
    let world = World::build(vec![ground_layer(), ramp_layer()]).unwrap();
    assert_eq!(world.layer_count(), 2);
    assert_eq!(world.connections().len(), 1);
    let c = &world.connections()[0];
    assert_eq!(c.id, 0);
    assert_eq!(c.sub_edges.len(), 2, "the seam chain has two sub-edges");
    for s in &c.sub_edges {
        assert_ne!(s.a.layer, s.b.layer, "each sub-edge joins the two layers");
        assert_eq!(world.seam_neighbor(s.a), Some(s.b));
        assert_eq!(world.seam_neighbor(s.b), Some(s.a));
    }
    assert_eq!(world.seam_neighbor(EdgeRef { layer: 7, tri: 0, edge: 0 }), None);
}

#[test]
fn reachability_spans_the_seam_but_not_the_island() {
    let world = World::build(vec![ground_layer(), ramp_layer(), island_layer()]).unwrap();
    let t0 = locate_in(world.layer(0), (2.0, 5.0)).unwrap();
    let t1 = locate_in(world.layer(1), (18.0, 5.0)).unwrap();
    let t2 = locate_in(world.layer(2), (105.0, 5.0)).unwrap();
    assert!(world.reachable((0, t0), (1, t1)));
    assert!(!world.reachable((0, t0), (2, t2)));
    assert!(!world.reachable((1, t1), (2, t2)));
}

#[test]
fn unmatched_seam_edge_fails_the_build() {
    match World::build(vec![ground_layer()]) {
        Err(WorldBuildError::UnmatchedSeamEdge { connection, layer, .. }) => {
            assert_eq!(connection, 0);
            assert_eq!(layer, 0);
        }
        other => panic!("expected UnmatchedSeamEdge, got {:?}", other.map(|_| ())),
    }
}

#[test]
fn a_seam_of_three_layers_is_ambiguous() {
    let r = World::build(vec![ground_layer(), ramp_layer(), ground_layer()]);
    let e = r.map(|_| ()).unwrap_err();
    assert!(matches!(e, WorldBuildError::AmbiguousSeamEdge { connection: 0, .. }));
    let text = e.message(&|b: u64| format!("{}", f64::from_bits(b)));
    assert!(text.starts_with("seam edge (10,"));
    assert!(text.ends_with(" of connection 0 matches more than two layers"));
}

#[test]
fn triangles_are_numbered_through_all_layers() {
    let world = World::build(vec![ground_layer(), ramp_layer(), island_layer()]).unwrap();
    assert_eq!(world.total_triangles(), 8);
    for node in 0..8 {
        let (l, t) = world.node_to_tri(node);
        assert_eq!(world.flat_index(l, t), node);
    }
}

#[test]
fn joined_sets_share_a_root() {
    let mut u = UnionFind::new(5);
    u.union(0, 3);
    u.union(3, 4);
    assert_eq!(u.find(4), 0);
    assert_eq!(u.find(3), 0);
    assert_eq!(u.find(1), 1);
}

// --- Paths ------------------------------------------------------------------

#[test]
fn path_crosses_the_seam_with_true_3d_cost() {
    let world = World::build(vec![ground_layer(), ramp_layer()]).unwrap();
    let path = find_path(&world, (0, (2.0, 5.0)), (1, (18.0, 5.0)), 0.0).unwrap();
    let switches = path.triangles.windows(2).filter(|w| w[0].0 != w[1].0).count();
    assert_eq!(switches, 1, "corridor: {:?}", path.triangles);
    assert_eq!(path.points.first().map(|p| p.pos), Some((2.0, 5.0)));
    assert_eq!(path.points.last().map(|p| p.pos), Some((18.0, 5.0)));
    assert!((path.points.first().unwrap().z - 0.0).abs() < 1e-9);
    assert!((path.points.last().unwrap().z - 4.0).abs() < 1e-9);
    for w in path.points.windows(2) {
        if w[0].pos == w[1].pos {
            assert!((w[0].z - w[1].z).abs() < 1e-9, "z jump at {:?}", w[0].pos);
        }
    }
    let expect = 8.0 + (8.0f64 * 8.0 + 4.0 * 4.0).sqrt();
    let len = path.length();
    assert!((len - expect).abs() < 1e-9, "{len} against {expect}: {:?}", path.points);
}

#[test]
fn same_layer_pathing_still_works() {
    let world = World::build(vec![ground_layer(), ramp_layer()]).unwrap();
    let path = find_path(&world, (0, (1.0, 1.0)), (0, (9.0, 9.0)), 0.0).unwrap();
    assert!(path.triangles.iter().all(|&(l, _)| l == 0));
    assert!((path.length() - (8.0f64 * 8.0 + 8.0 * 8.0).sqrt()).abs() < 1e-9);
}

#[test]
fn unreachable_island_reports_unreachable() {
    let world = World::build(vec![ground_layer(), ramp_layer(), island_layer()]).unwrap();
    let r = find_path(&world, (0, (2.0, 5.0)), (2, (105.0, 5.0)), 0.0);
    assert_eq!(r.map(|_| ()).unwrap_err(), WorldPathError::Unreachable);
    let r = find_path(&world, (0, (-2.0, 5.0)), (1, (18.0, 5.0)), 0.0);
    assert_eq!(r.map(|_| ()).unwrap_err(), WorldPathError::StartOutsideMesh);
    let r = find_path(&world, (0, (2.0, 5.0)), (1, (28.0, 5.0)), 0.0);
    assert_eq!(r.map(|_| ()).unwrap_err(), WorldPathError::GoalOutsideMesh);
    // Too wide for every way out of the first triangle.
    let s = locate_in(world.layer(0), (2.0, 5.0)).unwrap();
    let g = locate_in(world.layer(1), (18.0, 5.0)).unwrap();
    let r = corridor(&world, (0, (2.0, 5.0), s), (1, (18.0, 5.0), g), 1000.0);
    assert_eq!(r.unwrap_err(), WorldAstarError::Unreachable);
}

#[test]
fn clearance_applies_across_the_world() {
    let world = World::build(vec![ground_layer(), ramp_layer()]).unwrap();
    let path = find_path(&world, (0, (2.0, 5.0)), (1, (18.0, 5.0)), 1.0).unwrap();
    assert!(path.length() > 0.0);
}

#[test]
fn flat_seam_is_invisible() {
    let world = World::build(vec![left_square(|_| 0.0), right_square(|_| 0.0)]).unwrap();
    let path = find_path(&world, (0, (2.0, 2.0)), (1, (18.0, 3.0)), 0.0).unwrap();
    let straight = apart((2.0, 2.0), (18.0, 3.0));
    assert!(
        (path.length() - straight).abs() < 1e-9,
        "length {} against straight {straight}: {:?}",
        path.length(),
        path.points
    );
    assert_eq!(path.points.len(), 3, "start, crossing, goal: {:?}", path.points);
    let mid = path.points[1];
    assert_eq!(mid.layer, 0, "crossing attributed to the exited layer");
    assert!((mid.pos.0 - 10.0).abs() < 1e-9);
    assert!((mid.pos.1 - 2.5).abs() < 1e-9, "crossing at {:?}", mid.pos);
    assert!(path.points.iter().all(|p| p.z == 0.0));
}

#[test]
fn seam_chain_vertex_pins_the_crossing_by_at_most_the_detour() {
    let world = World::build(vec![left_square(|_| 0.0), right_square(|_| 0.0)]).unwrap();
    let path = find_path(&world, (0, (2.0, 4.0)), (1, (18.0, 8.0)), 0.0).unwrap();
    let straight = apart((2.0, 4.0), (18.0, 8.0));
    let detour = apart((2.0, 4.0), (10.0, 5.0)) + apart((10.0, 5.0), (18.0, 8.0));
    assert!(path.length() >= straight - 1e-9);
    assert!(
        path.length() <= detour + 1e-9,
        "{} against {detour}: {:?}",
        path.length(),
        path.points
    );
}

#[test]
fn ramp_seam_walks_the_surface_geodesic() {
    let world = World::build(vec![ground_layer(), ramp_layer()]).unwrap();
    let path = find_path(&world, (0, (2.0, 5.0)), (1, (18.0, 5.0)), 0.0).unwrap();
    let expect = 8.0 + (8.0f64 * 8.0 + 4.0 * 4.0).sqrt();
    assert!((path.length() - expect).abs() < 1e-9, "{:?}", path.points);
    assert!((path.points.last().unwrap().z - 4.0).abs() < 1e-9);
    for w in path.points.windows(2) {
        if w[0].pos == w[1].pos {
            assert!((w[0].z - w[1].z).abs() < 1e-9);
        }
    }
}

#[test]
fn folded_layers_unfold_across_the_hinge() {
    let ground = left_square(|_| 0.0);
    let upper = left_square(|p| (10.0 - p.0) * 0.5);
    let world = World::build(vec![ground, upper]).unwrap();
    let path = find_path(&world, (0, (2.0, 6.0)), (1, (2.0, 9.0)), 0.0).unwrap();
    assert!(path.triangles.iter().any(|&(l, _)| l == 0));
    assert!(path.triangles.iter().any(|&(l, _)| l == 1));
    assert_eq!(path.points.len(), 3, "start, crossing, goal: {:?}", path.points);
    let mid = path.points[1];
    assert_eq!(mid.layer, 0);
    assert!((mid.pos.0 - 10.0).abs() < 1e-9);
    assert!((mid.pos.1 - 7.5).abs() < 1e-9, "crossing at {:?}", mid.pos);
    assert!((mid.z - 0.0).abs() < 1e-9, "seam is at ground height");
    let leg1 = apart(path.points[0].pos, mid.pos);
    let leg2 = apart(mid.pos, path.points[2].pos);
    assert!((leg1 - leg2).abs() < 1e-9, "{leg1} against {leg2}");
    assert!((path.points[2].z - 4.0).abs() < 1e-9);
    let expect = leg1 + (leg2 * leg2 + 16.0).sqrt();
    assert!((path.length() - expect).abs() < 1e-9, "{} against {expect}", path.length());
}

#[test]
fn fat_agent_shrinks_seam_portals_only_at_real_walls() {
    let world = World::build(vec![left_square(|_| 0.0), right_square(|_| 0.0)]).unwrap();
    let path = find_path(&world, (0, (2.0, 2.0)), (1, (18.0, 3.0)), 1.5).unwrap();
    let straight = apart((2.0, 2.0), (18.0, 3.0));
    assert!(
        (path.length() - straight).abs() < 1e-9,
        "{} against {straight}: {:?}",
        path.length(),
        path.points
    );
}

#[test]
fn corridors_name_the_edges_they_cross() {
    let world = World::build(vec![ground_layer(), ramp_layer()]).unwrap();
    let path = find_path(&world, (0, (2.0, 5.0)), (1, (18.0, 5.0)), 0.0).unwrap();
    let edges = world.corridor_edges(&path.triangles);
    assert_eq!(edges.len(), path.triangles.len() - 1);
    assert_eq!(edges.iter().filter(|e| e.seam).count(), 1);
    for (i, e) in edges.iter().enumerate() {
        assert_eq!((e.layer, e.tri), path.triangles[i]);
        assert_eq!(world.way_across(e.layer, e.tri, e.edge), Some(path.triangles[i + 1]));
    }
}

// --- Floors -----------------------------------------------------------------

fn stacked_world() -> World {
    World::build(vec![left_square(|_| 0.0), left_square(|p| (10.0 - p.0) * 0.6)]).unwrap()
}

fn locate(w: &World, p: Xy, z: f64, max_dz: f64) -> Option<(u32, u32)> {
    let floors = (0..w.layer_count() as u32)
        .map(|i| {
            let l = w.layer(i);
            locate_in(l, p).map(|t| (t, (z_at(l, t, p) - z).abs().to_bits()))
        })
        .collect();
    closest_floor(&floors, max_dz.to_bits())
}

#[test]
fn locate_picks_the_floor_nearest_in_z() {
    let world = stacked_world();
    let p = (2.0, 5.0);
    let (l0, _) = locate(&world, p, 0.3, f64::INFINITY).unwrap();
    assert_eq!(l0, 0, "z near the ground picks the ground layer");
    let (l1, _) = locate(&world, p, 4.5, f64::INFINITY).unwrap();
    assert_eq!(l1, 1, "z near the upper floor picks the upper layer");
    assert_eq!(locate(&world, p, 2.0, 0.5), None);
    assert_eq!(locate(&world, (50.0, 5.0), 0.0, f64::INFINITY), None);
}

/// The nearest point of a layer's surface in the plane, with its triangle.
fn nearest_in(l: &LayerMesh, p: Xy) -> (Xy, u32) {
    if let Some(t) = locate_in(l, p) {
        return (p, t);
    }
    let mut best = (f64::INFINITY, p, 0);
    for (t, tri) in l.triangles.iter().enumerate() {
        for e in tri.edges {
            let q = on_segment(at(l, e[0]).0, at(l, e[1]).0, p);
            if apart(p, q) < best.0 {
                best = (apart(p, q), q, t as u32);
            }
        }
    }
    (best.1, best.2)
}

fn nearest(w: &World, p: Xy, z: f64) -> Option<(Spot, f64)> {
    let found: Vec<(Spot, f64)> = (0..w.layer_count() as u32)
        .map(|i| {
            let (q, t) = nearest_in(w.layer(i), p);
            let qz = z_at(w.layer(i), t, q);
            (Spot { layer: i, pos: q, z: qz }, dist3(p, z, q, qz))
        })
        .collect();
    let distances = found.iter().map(|f| Some(f.1.to_bits())).collect();
    closest_layer(&distances).map(|l| found[l as usize])
}

#[test]
fn nearest_snaps_in_3d() {
    let world = stacked_world();
    let (n, _) = nearest(&world, (-1.0, 5.0), 5.5).unwrap();
    assert_eq!(n.layer, 1);
    assert!((n.pos.0 - 0.0).abs() < 1e-9);
    assert!((n.z - 6.0).abs() < 1e-9);
    let (n, _) = nearest(&world, (-1.0, 5.0), 0.5).unwrap();
    assert_eq!(n.layer, 0);
    assert!((n.z - 0.0).abs() < 1e-9);
    let (n, d) = nearest(&world, (2.0, 5.0), 0.25).unwrap();
    assert_eq!(n.layer, 0);
    assert!((d - 0.25).abs() < 1e-9);
}
