//! The pools of the triangulation, its handles and bonds, and edge flips.

use rsnav::flip::{flip, unflip};
use rsnav::mesh::{
    CdtMesh, EncodedSub, EncodedTri, Osub, Otri, VertexId, VertexSlot, DUMMY_SUB, DUMMY_TRI,
};
use rsnav::predicates::Vertex;

fn v(x: f64, y: f64) -> Vertex {
    Vertex::new(x.to_bits(), y.to_bits())
}

#[test]
fn encoded_tri_round_trip() {
    for tri in [1u32, 5, 1000, (1u32 << 30) - 1] {
        for orient in 0..3u8 {
            let enc = EncodedTri::pack(tri, orient);
            assert_eq!(enc.tri(), tri);
            assert_eq!(enc.orient(), orient);
            assert_eq!(enc.to_otri(), Otri { tri, orient });
        }
    }
}

#[test]
fn encoded_sub_round_trip() {
    for sub in [1u32, 5, 1000, (1u32 << 31) - 1] {
        for orient in 0..2u8 {
            let enc = EncodedSub::pack(sub, orient);
            assert_eq!(enc.sub(), sub);
            assert_eq!(enc.orient(), orient);
            assert_eq!(enc.to_osub(), Osub { sub, orient });
        }
    }
}

#[test]
fn dummy_constants() {
    assert_eq!(EncodedTri::dummy().tri(), DUMMY_TRI);
    assert_eq!(EncodedTri::dummy().orient(), 0);
    assert_eq!(EncodedSub::dummy().sub(), DUMMY_SUB);
    assert_eq!(EncodedSub::dummy().orient(), 0);
}

#[test]
fn lnext_lprev_are_inverses() {
    let o = Otri::new(7, 0);
    assert_eq!(o.lnext().lprev(), o);
    assert_eq!(o.lprev().lnext(), o);
    assert_eq!(o.lnext().lnext().lnext(), o);
    assert_eq!(o.lprev().lprev().lprev(), o);
}

#[test]
fn osub_ssym_is_involution() {
    let s = Osub::new(3, 0);
    assert_eq!(s.ssym(), Osub::new(3, 1));
    assert_eq!(s.ssym().ssym(), s);
}

#[test]
fn make_triangle_starts_after_dummy() {
    let mut m = CdtMesh::new();
    let a = m.make_triangle();
    let b = m.make_triangle();
    assert_eq!(a.tri, 1);
    assert_eq!(b.tri, 2);
    assert_eq!(m.live_triangle_count(), 2);
}

#[test]
fn kill_recycles_triangle_slot() {
    let mut m = CdtMesh::new();
    let a = m.make_triangle();
    let _b = m.make_triangle();
    m.kill_triangle(a.tri);
    assert_eq!(m.live_triangle_count(), 1);
    let c = m.make_triangle();
    assert_eq!(c.tri, a.tri);
    assert!(!m.triangle(c.tri).is_dead());
}

/// Two triangles that share edge (B, C): t1 = (A, B, C), t2 = (D, C, B).
#[test]
fn bond_sym_round_trip() {
    let mut m = CdtMesh::new();
    let a = m.push_vertex(VertexSlot::new(v(0.0, 0.0), 0));
    let b = m.push_vertex(VertexSlot::new(v(1.0, 0.0), 0));
    let c = m.push_vertex(VertexSlot::new(v(0.0, 1.0), 0));
    let d = m.push_vertex(VertexSlot::new(v(1.0, 1.0), 0));

    let t1 = m.make_triangle();
    m.set_corners(t1, a, b, c);
    let t2 = m.make_triangle();
    m.set_corners(t2, d, c, b);

    let edge_bc_in_t1 = t1.lnext();
    let edge_cb_in_t2 = t2.lnext();
    assert_eq!((m.org(edge_bc_in_t1), m.dest(edge_bc_in_t1)), (b, c));
    assert_eq!((m.org(edge_cb_in_t2), m.dest(edge_cb_in_t2)), (c, b));

    m.bond(edge_bc_in_t1, edge_cb_in_t2);

    assert_eq!(m.sym(edge_bc_in_t1), edge_cb_in_t2);
    assert_eq!(m.sym(edge_cb_in_t2), edge_bc_in_t1);

    let stepped = m.sym(edge_bc_in_t1).lnext();
    assert_eq!(m.org(stepped), b);
    assert_eq!(m.dest(stepped), d);
    assert_eq!(m.apex(stepped), c);
}

#[test]
fn lnext_visits_three_edges() {
    let mut m = CdtMesh::new();
    let a = m.push_vertex(VertexSlot::new(v(0.0, 0.0), 0));
    let b = m.push_vertex(VertexSlot::new(v(1.0, 0.0), 0));
    let c = m.push_vertex(VertexSlot::new(v(0.0, 1.0), 0));
    let t = m.make_triangle();
    m.set_corners(t, a, b, c);

    let e0 = t;
    let e1 = e0.lnext();
    let e2 = e1.lnext();
    assert_eq!(e2.lnext(), e0);
    assert_eq!(
        [m.org(e0), m.org(e1), m.org(e2)],
        [a, b, c],
        "org cycles through the corners in CCW order"
    );
    assert_eq!([m.dest(e0), m.dest(e1), m.dest(e2)], [b, c, a]);
    assert_eq!([m.apex(e0), m.apex(e1), m.apex(e2)], [c, a, b]);
}

#[test]
fn tsbond_round_trip() {
    let mut m = CdtMesh::new();
    let a = m.push_vertex(VertexSlot::new(v(0.0, 0.0), 0));
    let b = m.push_vertex(VertexSlot::new(v(1.0, 0.0), 0));
    let c = m.push_vertex(VertexSlot::new(v(0.0, 1.0), 0));
    let t = m.make_triangle();
    m.set_corners(t, a, b, c);

    let s = m.make_subseg();
    m.set_sorg(s, a);
    m.set_sdest(s, b);

    m.tsbond(t, s);
    assert_eq!(m.tspivot(t), s);
    assert_eq!(m.stpivot(s), t);

    m.ts_dissolve(t);
    assert_eq!(m.tspivot(t), Osub::dummy());
    // The subsegment still names the triangle: each side is let go by itself.
    assert_eq!(m.stpivot(s), t);
}

#[test]
fn unbonded_edge_reports_dummy_neighbor() {
    let mut m = CdtMesh::new();
    let t = m.make_triangle();
    assert_eq!(m.sym(t), Otri::dummy());
    assert_eq!(m.tspivot(t), Osub::dummy());
}

#[test]
fn writing_a_slot_changes_that_slot_only() {
    let mut m = CdtMesh::default();
    let a = m.push_vertex(VertexSlot::new(v(0.0, 0.0), 0));
    let t = m.make_triangle();
    let u = m.make_triangle();
    let s = m.make_subseg();
    m.triangle_mut(t.tri).vertices[0] = a;
    m.subseg_mut(s.sub).marker = 9;
    m.vertex_mut(a).marker = 4;
    assert_eq!(m.apex(t), a);
    assert_eq!(m.apex(u), VertexId::invalid());
    assert_eq!(m.sub_marker(s.sub), 9);
    assert_eq!(m.vertex(a).marker, 4);
}

/// A quadrilateral split by edge a-b into abc and bad, with c below and d
/// above.
fn quad_setup() -> (CdtMesh, Otri, [VertexId; 4]) {
    let mut m = CdtMesh::new();
    let a = m.push_vertex(VertexSlot::new(v(1.0, 0.0), 0));
    let b = m.push_vertex(VertexSlot::new(v(-1.0, 0.0), 0));
    let c = m.push_vertex(VertexSlot::new(v(0.0, -1.0), 0));
    let d = m.push_vertex(VertexSlot::new(v(0.0, 1.0), 0));
    let t1 = m.make_triangle();
    m.set_corners(t1, a, b, c);
    let t2 = m.make_triangle();
    m.set_corners(t2, b, a, d);
    m.bond(t1, t2);
    (m, t1, [a, b, c, d])
}

#[test]
fn flip_swaps_diagonal_then_unflip_restores() {
    let (mut m, mut e, [a, b, c, d]) = quad_setup();

    assert_eq!(m.org(e), a);
    assert_eq!(m.dest(e), b);
    assert_eq!(m.apex(e), c);
    assert_eq!(m.apex(m.sym(e)), d);

    flip(&mut m, &mut e);

    assert_eq!(m.org(e), d);
    assert_eq!(m.dest(e), c);
    assert_eq!(m.apex(e), a);
    let sym_e = m.sym(e);
    assert_eq!(m.org(sym_e), c);
    assert_eq!(m.dest(sym_e), d);
    assert_eq!(m.apex(sym_e), b);

    unflip(&mut m, &mut e);
    assert_eq!(m.org(e), a);
    assert_eq!(m.dest(e), b);
    assert_eq!(m.apex(e), c);
    assert_eq!(m.apex(m.sym(e)), d);
}

#[test]
fn flip_twice_yields_identity() {
    let (mut m, mut e, [_a, _b, _c, _d]) = quad_setup();

    flip(&mut m, &mut e);
    flip(&mut m, &mut e);
    let v0 = m.triangle(e.tri).vertices;
    let v1 = m.triangle(m.sym(e).tri).vertices;
    let mut combined: Vec<u32> = v0.iter().chain(v1.iter()).map(|v| v.get()).collect();
    combined.sort();
    combined.dedup();
    assert_eq!(combined.len(), 4);
}
