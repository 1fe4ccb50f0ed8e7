//! Exact signs, orders of vertices, and the graphs that are triangulated.

use rsnav::coord::{coord_equal, coord_key, coord_less, coord_of};
use rsnav::mesh::{CdtMesh, VertexId, VertexSlot};
use rsnav::predicates::{area_below, incircle, orient2d, Vertex};
use rsnav::pslg::{Pslg, PslgSegment, PslgVertex};
use rsnav::sort::{alternate_axes, vertex_median, vertex_sort};

fn v(x: f64, y: f64) -> Vertex {
    Vertex::new(x.to_bits(), y.to_bits())
}

fn x_of(p: Vertex) -> f64 {
    f64::from_bits(p.x)
}

#[test]
fn orient2d_ccw_cw_collinear() {
    assert!(orient2d(v(0.0, 0.0), v(1.0, 0.0), v(0.0, 1.0)) > 0);
    assert!(orient2d(v(0.0, 0.0), v(1.0, 0.0), v(0.0, -1.0)) < 0);
    assert_eq!(orient2d(v(0.0, 0.0), v(1.0, 0.0), v(2.0, 0.0)), 0);
}

#[test]
fn orient2d_exactly_collinear_difficult() {
    let a = v(0.5, 0.5);
    let b = v(12.0, 12.0);
    let c = v(24.0, 24.0);
    assert_eq!(orient2d(a, b, c), 0);
}

#[test]
fn orient2d_tiny_perturbation_gives_sign() {
    let a = v(0.0, 0.0);
    let b = v(1.0, 1.0);
    let c_left = v(0.5 - 1e-15, 0.5 + 1e-15);
    let c_right = v(0.5 + 1e-15, 0.5 - 1e-15);
    assert!(orient2d(a, b, c_left) > 0);
    assert!(orient2d(a, b, c_right) < 0);
}

#[test]
fn incircle_unit_circle() {
    let a = v(1.0, 0.0);
    let b = v(0.0, 1.0);
    let c = v(-1.0, 0.0);
    assert!(incircle(a, b, c, v(0.0, 0.0)) > 0);
    assert!(incircle(a, b, c, v(2.0, 0.0)) < 0);
    assert_eq!(incircle(a, b, c, v(0.0, -1.0)), 0);
}

#[test]
fn incircle_exact_cocircular() {
    let a = v(1.0, 0.0);
    let b = v(0.0, 1.0);
    let c = v(-1.0, 0.0);
    let d = v(0.0, -1.0);
    assert_eq!(incircle(a, b, c, d), 0);
}

#[test]
fn signs_turn_with_their_corners() {
    let (a, b, c, d) = (v(0.1, 0.7), v(3.3, -2.0), v(5.9, 4.1), v(2.0, 1.0));
    assert_eq!(orient2d(a, b, c), orient2d(b, c, a));
    assert_eq!(orient2d(a, b, c), -orient2d(b, a, c));
    assert_eq!(incircle(a, b, c, d), incircle(b, c, a, d));
    assert_eq!(incircle(a, b, c, a), 0);
}

#[test]
fn signs_survive_extreme_scales() {
    let tiny = f64::from_bits(1);
    assert!(orient2d(v(0.0, 0.0), v(tiny, 0.0), v(0.0, tiny)) > 0);
    assert!(orient2d(v(1e300, 0.0), v(-1e300, tiny), v(0.0, 0.0)) > 0);
    assert!(incircle(v(tiny, 0.0), v(0.0, tiny), v(-tiny, 0.0), v(0.0, 0.0)) > 0);
}

#[test]
fn areas_are_compared_strictly() {
    let (a, b, c) = (v(0.0, 0.0), v(4.0, 0.0), v(0.0, 2.0));
    // The area is four.
    assert!(area_below(a, b, c, 4.5f64.to_bits()));
    assert!(!area_below(a, b, c, 4.0f64.to_bits()));
    assert!(area_below(a, c, b, 4.5f64.to_bits()));
}

#[test]
fn coordinates_are_ordered_as_numbers() {
    let list = [-1e300, -2.5, -f64::from_bits(1), -0.0, 0.0, 1e-300, 1.0, 7.25];
    for i in 0..list.len() {
        for j in 0..list.len() {
            let (a, b) = (list[i].to_bits(), list[j].to_bits());
            assert_eq!(coord_less(a, b), list[i] < list[j]);
            assert_eq!(coord_equal(a, b), list[i] == list[j]);
            assert_eq!(coord_key(a) < coord_key(b), list[i] < list[j]);
        }
    }
    assert_eq!(f64::from_bits(coord_of(12345)), 12345.0);
    assert_eq!(f64::from_bits(coord_of(0)), 0.0);
    assert_eq!(f64::from_bits(coord_of(u32::MAX)), u32::MAX as f64);
}

#[test]
fn vertex_attribute_count_is_consistent() {
    let mut p = Pslg::new();
    p.vertices.push(PslgVertex::new(v(0.0, 0.0)).with_attribute(1.0f64.to_bits()));
    p.vertices.push(PslgVertex::new(v(1.0, 0.0)).with_attribute(2.0f64.to_bits()));
    assert_eq!(p.vertex_attribute_count(), 1);
}

#[test]
fn marker_detection() {
    let mut p = Pslg::new();
    p.vertices.push(PslgVertex::new(v(0.0, 0.0)));
    p.vertices.push(PslgVertex::new(v(1.0, 0.0)).with_marker(5));
    assert!(p.has_vertex_markers());

    p.segments.push(PslgSegment::new(0, 1));
    assert!(!p.has_segment_markers());
    p.segments.last_mut().unwrap().marker = 7;
    assert!(p.has_segment_markers());
}

fn push(mesh: &mut CdtMesh, x: f64, y: f64) -> VertexId {
    mesh.push_vertex(VertexSlot::new(v(x, y), 0))
}

#[test]
fn vertex_sort_lex() {
    let mut m = CdtMesh::new();
    let a = push(&mut m, 3.0, 1.0);
    let b = push(&mut m, 1.0, 2.0);
    let c = push(&mut m, 1.0, 1.0);
    let d = push(&mut m, 2.0, 5.0);
    let mut ids = vec![a, b, c, d];
    vertex_sort(&m, &mut ids);
    assert_eq!(ids, vec![c, b, d, a]);
}

#[test]
fn vertex_median_places_middle() {
    let mut m = CdtMesh::new();
    let list: Vec<VertexId> = (0..7).map(|i| push(&mut m, i as f64, 0.0)).collect();
    let mut shuffled = list.clone();
    shuffled.swap(0, 6);
    shuffled.swap(1, 5);
    vertex_median(&m, &mut shuffled, 3, 0);
    let mid_pos = m.vertex_pos(shuffled[3]);
    assert_eq!(x_of(mid_pos), 3.0);
    for id in &shuffled[..3] {
        assert!(x_of(m.vertex_pos(*id)) < 3.0);
    }
    for id in &shuffled[4..] {
        assert!(x_of(m.vertex_pos(*id)) > 3.0);
    }
}

#[test]
fn alternate_axes_terminates_and_partitions() {
    let mut m = CdtMesh::new();
    let mut ids = Vec::new();
    for x in 0..4 {
        for y in 0..2 {
            ids.push(push(&mut m, x as f64, y as f64));
        }
    }
    let original: Vec<VertexId> = ids.clone();
    alternate_axes(&m, &mut ids, 0);

    let mut a: Vec<u32> = ids.iter().map(|i| i.get()).collect();
    let mut b: Vec<u32> = original.iter().map(|i| i.get()).collect();
    a.sort();
    b.sort();
    assert_eq!(a, b);

    let n = ids.len();
    let mid = n / 2;
    let median_x = x_of(m.vertex_pos(ids[mid]));
    for id in &ids[..mid] {
        assert!(x_of(m.vertex_pos(*id)) <= median_x);
    }
}

#[test]
fn alternate_axes_tiny_inputs_sort_by_x() {
    let mut m = CdtMesh::new();
    let a = push(&mut m, 2.0, 0.0);
    let b = push(&mut m, 1.0, 0.0);
    let mut ids = vec![a, b];
    alternate_axes(&m, &mut ids, 1);
    assert_eq!(ids, vec![b, a]);
}
