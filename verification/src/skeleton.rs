//! Putting the segments of a planar graph into a triangulation: where no two
//! of them cross, all of them go in.

use crate::empty_circle::{is_constrained_delaunay, is_live};
use crate::fold::is_crossed;
use crate::mesh::{CdtMesh, MeshView, Otri, VertexId};
use crate::paving::{corners, is_plane, is_used};
use crate::predicates::Vertex;
use crate::pslg::{Pslg, PslgSegment};
use crate::segment::{
    all_traced, canonical, canonical_is_first, canonical_remap, insert_subseg,
    lemma_all_traced_last, same_frame, MeshFault, SegmentInsertError,
};
use crate::settle::settle_edges;
use crate::threading::{
    crosses, crosses_any, find_crossing, find_used, grows_along, is_old, is_part, is_sub,
    lemma_flipped_subs, lemma_full_kept, lemma_subseg_full, lemma_subseg_links, lemma_subseg_plane,
    parts_cross_as_wholes, spare, sub_end, thread_segment,
};
use crate::trail::{is_traced, lasting_goes_on, lasts, tidy};
use vstd::prelude::*;

verus! {

// --- Planar graphs ----------------------------------------------------------

/// The first vertex at the position of an end of a segment.
pub open spec fn first_end(m: MeshView, i: u32) -> VertexId {
    canonical(m.vertices, i as int)
}

/// Whether two segments cross, each with its ends strictly on both sides of
/// the other.
pub open spec fn segments_cross(m: MeshView, s: PslgSegment, t: PslgSegment) -> bool {
    let (a, b) = (m.pos(VertexId(s.a)), m.pos(VertexId(s.b)));
    let (c, d) = (m.pos(VertexId(t.a)), m.pos(VertexId(t.b)));
    is_crossed(a, b, c, d) || is_crossed(a, b, d, c)
}

/// Whether the ends of a segment are corners of live triangles, and no live
/// subsegment crosses it.
pub open spec fn is_placed(m: MeshView, s: PslgSegment) -> bool {
    &&& s.a < m.vertices.len() && s.b < m.vertices.len()
    &&& corners(m).contains(first_end(m, s.a))
    &&& corners(m).contains(first_end(m, s.b))
    &&& !crosses_any(m, m.pos(VertexId(s.a)), m.pos(VertexId(s.b)))
}

/// Whether segments can go into a mesh together: each on its own, and no two
/// of them cross.
pub open spec fn is_planar(m: MeshView, segments: Seq<PslgSegment>) -> bool {
    &&& forall|i: int| 0 <= i < segments.len() ==> is_placed(m, #[trigger] segments[i])
    &&& forall|i: int, j: int|
        0 <= i < segments.len() && 0 <= j < segments.len() ==> !#[trigger] segments_cross(
            m,
            segments[i],
            segments[j],
        )
}

/// How many subsegments the segments of a graph and the hull may take.
pub open spec fn most_subsegs(m: MeshView, segments: Seq<PslgSegment>) -> nat {
    segments.len() * m.vertices.len() + 3 * m.tri_count
}

// --- Segments ---------------------------------------------------------------

/// Whether a subsegment lies on one of the first `n` segments.
pub open spec fn is_part_of_some(
    m: MeshView,
    w: MeshView,
    segments: Seq<PslgSegment>,
    n: int,
    k: u32,
) -> bool {
    exists|j: int|
        0 <= j < n && is_part(
            w,
            k,
            m.pos(VertexId((#[trigger] segments[j]).a)),
            m.pos(VertexId(segments[j].b)),
        )
}

/// Whether every live subsegment of `w` was in `m` or lies on one of the first
/// `n` segments.
pub open spec fn comes_of(m: MeshView, w: MeshView, segments: Seq<PslgSegment>, n: int) -> bool {
    forall|k: u32| #[trigger]
        is_sub(w, k) ==> is_old(m, w, k) || is_part_of_some(m, w, segments, n, k)
}

proof fn lemma_comes_on(m: MeshView, v: MeshView, w: MeshView, segments: Seq<PslgSegment>, n: int)
    requires
        0 <= n < segments.len(),
        comes_of(m, v, segments, n),
        grows_along(
            v,
            w,
            m.pos(VertexId(segments[n].a)),
            m.pos(VertexId(segments[n].b)),
        ),
    ensures
        comes_of(m, w, segments, n + 1),
{
    assert forall|k: u32| #[trigger] is_sub(w, k) implies is_old(m, w, k) || is_part_of_some(
        m,
        w,
        segments,
        n + 1,
        k,
    ) by {
        if is_old(v, w, k) {
            assert(is_sub(v, k));
            if !is_old(m, v, k) {
                let j = choose|j: int|
                    0 <= j < n && is_part(
                        v,
                        k,
                        m.pos(VertexId((#[trigger] segments[j]).a)),
                        m.pos(VertexId(segments[j].b)),
                    );
                assert(is_part(
                    w,
                    k,
                    m.pos(VertexId(segments[j].a)),
                    m.pos(VertexId(segments[j].b)),
                ));
            }
        } else {
            assert(is_part(
                w,
                k,
                m.pos(VertexId(segments[n].a)),
                m.pos(VertexId(segments[n].b)),
            ));
        }
    }
}

/// A segment of a planar graph is crossed by nothing that came before.
proof fn lemma_planar_uncrossed(m: MeshView, w: MeshView, segments: Seq<PslgSegment>, n: int)
    requires
        is_planar(m, segments),
        0 <= n < segments.len(),
        comes_of(m, w, segments, n),
    ensures
        !crosses_any(w, m.pos(VertexId(segments[n].a)), m.pos(VertexId(segments[n].b))),
{
    let (a, b) = (m.pos(VertexId(segments[n].a)), m.pos(VertexId(segments[n].b)));
    assert(is_placed(m, segments[n]));
    if crosses_any(w, a, b) {
        let k = choose|k: u32| #[trigger] crosses(w, k, a, b);
        assert(is_sub(w, k));
        if is_old(m, w, k) {
            assert(crosses(m, k, a, b));
        } else {
            let j = choose|j: int|
                0 <= j < n && is_part(
                    w,
                    k,
                    m.pos(VertexId((#[trigger] segments[j]).a)),
                    m.pos(VertexId(segments[j].b)),
                );
            let (c, d) = (m.pos(VertexId(segments[j].a)), m.pos(VertexId(segments[j].b)));
            let (p, q) = (sub_end(w, k, 0), sub_end(w, k, 1));
            if is_crossed(a, b, p, q) {
                parts_cross_as_wholes(a, b, c, d, p, q);
            } else {
                parts_cross_as_wholes(a, b, c, d, q, p);
            }
            assert(segments_cross(m, segments[n], segments[j]));
        }
    }
}

/// Put segments into a triangulation, in order, up to the first that fails.
#[verifier::spinoff_prover]
#[verifier::rlimit(60)]
fn thread_segments(mesh: &mut CdtMesh, segments: &Vec<PslgSegment>) -> (r: Result<
    (),
    SegmentInsertError,
>)
    requires
        old(mesh)@.wf(),
        is_plane(old(mesh)@),
        tidy(old(mesh)@),
    ensures
        final(mesh)@.wf(),
        is_plane(final(mesh)@),
        tidy(final(mesh)@),
        corners(final(mesh)@) == corners(old(mesh)@),
        same_frame(old(mesh)@, final(mesh)@),
        lasts(old(mesh)@, final(mesh)@),
        r is Ok ==> all_traced(final(mesh)@, segments@, segments@.len() as int),
        r is Ok ==> comes_of(old(mesh)@, final(mesh)@, segments@, segments@.len() as int),
        r is Ok ==> spare(final(mesh)@) >= spare(old(mesh)@) - segments@.len()
            * old(mesh)@.vertices.len(),
        r is Err ==> !is_planar(old(mesh)@, segments@) || spare(old(mesh)@) < most_subsegs(
            old(mesh)@,
            segments@,
        ),
        r matches Err(SegmentInsertError::Fault { fault }) ==> fault is Full,
{
    let ghost m0 = mesh@;
    let ghost list = segments@;
    let ghost nv = m0.vertices.len() as int;
    let used = find_used(mesh);
    let remap = canonical_remap(mesh);
    let mut i: usize = 0;
    assert(0 * nv == 0);
    while i < segments.len()
        invariant
            m0 == old(mesh)@,
            list == segments@,
            nv == m0.vertices.len(),
            i <= list.len(),
            mesh@.wf(),
            is_plane(mesh@),
            tidy(mesh@),
            tidy(m0),
            is_plane(m0),
            m0.wf(),
            corners(mesh@) == corners(m0),
            same_frame(m0, mesh@),
            lasts(m0, mesh@),
            all_traced(mesh@, list, i as int),
            comes_of(m0, mesh@, list, i as int),
            spare(mesh@) >= spare(m0) - i * nv,
            used@.len() == nv,
            remap@.len() == nv,
            forall|v: VertexId| #[trigger]
                m0.has_vertex(v) ==> used@[v.0 as int] == is_used(m0, v),
            forall|k: int| 0 <= k < nv ==> #[trigger] remap@[k] == canonical(m0.vertices, k),
        decreases list.len() - i,
    {
        let seg = segments[i];
        if seg.a as usize >= remap.len() || seg.b as usize >= remap.len() {
            let bad: u32 = if seg.a as usize >= remap.len() {
                seg.a
            } else {
                seg.b
            };
            assert(!is_placed(m0, list[i as int]));
            return Err(
                SegmentInsertError::VertexNotInTriangulation { vertex: VertexId::new(bad) },
            );
        }
        let (a, b) = (remap[seg.a as usize], remap[seg.b as usize]);
        let ghost m1 = mesh@;
        let ghost (s, t) = (m0.pos(VertexId(seg.a)), m0.pos(VertexId(seg.b)));
        proof {
            canonical_is_first(m0.vertices, seg.a as int);
            canonical_is_first(m0.vertices, seg.b as int);
            assert(m0.pos(a) == s && m0.pos(b) == t);
            assert(m1.vertices[seg.a as int].position == m0.vertices[seg.a as int].position);
            assert(m1.vertices[seg.b as int].position == m0.vertices[seg.b as int].position);
            assert(m1.vertices[a.0 as int].position == s);
            assert(m1.vertices[b.0 as int].position == t);
            assert((i + 1) * nv == i * nv + nv) by (nonlinear_arith);
        }
        if a != b {
            if !used[a.0 as usize] || !used[b.0 as usize] {
                let vertex = if !used[a.0 as usize] {
                    a
                } else {
                    b
                };
                proof {
                    reveal(corners);
                    assert(m0.has_vertex(a) && m0.has_vertex(b));
                    assert(!is_placed(m0, list[i as int]));
                }
                return Err(SegmentInsertError::VertexNotInTriangulation { vertex });
            }
            assert(corners(m0).contains(a) && corners(m0).contains(b)) by {
                reveal(corners);
                assert(m0.has_vertex(a) && m0.has_vertex(b));
            }
            if find_crossing(mesh, mesh.vertex_pos(a), mesh.vertex_pos(b)) {
                proof {
                    if is_planar(m0, list) {
                        lemma_planar_uncrossed(m0, m1, list, i as int);
                    }
                }
                return Err(SegmentInsertError::SelfIntersection { endpoint1: a, endpoint2: b });
            }
            let put = thread_segment(mesh, a, b, seg.marker);
            proof {
                lasting_goes_on(m0, m1, mesh@);
                lemma_comes_on(m0, m1, mesh@, list, i as int);
            }
            if let Err(fault) = put {
                proof {
                    assert(i * nv + nv <= list.len() * nv) by (nonlinear_arith)
                        requires
                            i + 1 <= list.len(),
                            nv >= 0,
                    ;
                }
                return Err(SegmentInsertError::Fault { fault });
            }
            proof {
                lemma_all_traced_last(m1, mesh@, list, i as int);
                assert(mesh@.vertices[seg.a as int].position == s);
                assert(mesh@.vertices[seg.b as int].position == t);
                assert(mesh@.vertices[a.0 as int].position == s);
                assert(mesh@.vertices[b.0 as int].position == t);
            }
        } else {
            proof {
                assert forall|k: u32| #[trigger] is_sub(m1, k) implies is_old(m0, m1, k)
                    || is_part_of_some(m0, m1, list, i + 1, k) by {
                    if !is_old(m0, m1, k) {
                        let j = choose|j: int|
                            0 <= j < i && is_part(
                                m1,
                                k,
                                m0.pos(VertexId((#[trigger] list[j]).a)),
                                m0.pos(VertexId(list[j].b)),
                            );
                        assert(0 <= j < i + 1);
                    }
                }
            }
        }
        assert(is_traced(mesh@, VertexId(seg.a), VertexId(seg.b)));
        i += 1;
    }
    Ok(())
}

// --- The hull ---------------------------------------------------------------

/// Constrain the edges with nothing across.
#[verifier::spinoff_prover]
#[verifier::rlimit(60)]
fn wall_hull(mesh: &mut CdtMesh, marker: i32) -> (r: Result<(), MeshFault>)
    requires
        old(mesh)@.wf(),
        is_plane(old(mesh)@),
        tidy(old(mesh)@),
    ensures
        final(mesh)@.wf(),
        is_plane(final(mesh)@),
        tidy(final(mesh)@),
        corners(final(mesh)@) == corners(old(mesh)@),
        same_frame(old(mesh)@, final(mesh)@),
        lasts(old(mesh)@, final(mesh)@),
        r matches Err(fault) ==> fault is Full && spare(old(mesh)@) < 3 * old(mesh)@.tri_count,
        r is Ok ==> forall|o: Otri| #[trigger]
            is_live(final(mesh)@, o) && final(mesh)@.nbr[o].tri == 0
                ==> final(mesh)@.tsub[o].sub != 0,
{
    let ghost m0 = mesh@;
    let n: usize = mesh.tri_slots();
    let mut t: u32 = 1;
    while (t as usize) < n
        invariant
            m0 == old(mesh)@,
            1 <= t <= n,
            n == mesh@.tri_count,
            n == m0.tri_count,
            mesh@.wf(),
            is_plane(mesh@),
            tidy(mesh@),
            corners(mesh@) == corners(m0),
            same_frame(m0, mesh@),
            lasts(m0, mesh@),
            spare(mesh@) >= spare(m0) - 3 * (t - 1),
            forall|o: Otri| #[trigger]
                is_live(mesh@, o) && mesh@.nbr[o].tri == 0 && o.tri < t ==> mesh@.tsub[o].sub != 0,
        decreases n - t,
    {
        let mut k: u8 = 0;
        while k < 3 && !mesh.is_dead(t)
            invariant
                m0 == old(mesh)@,
                k <= 3,
                0 < t < n,
                n == mesh@.tri_count,
                n == m0.tri_count,
                mesh@.wf(),
                is_plane(mesh@),
                tidy(mesh@),
                corners(mesh@) == corners(m0),
                same_frame(m0, mesh@),
                lasts(m0, mesh@),
                spare(mesh@) >= spare(m0) - 3 * (t - 1) - k,
                forall|o: Otri| #[trigger]
                    is_live(mesh@, o) && mesh@.nbr[o].tri == 0 && (o.tri < t || (o.tri == t
                        && o.orient < k)) ==> mesh@.tsub[o].sub != 0,
            decreases 3 - k,
        {
            let o = Otri { tri: t, orient: k };
            let ghost m1 = mesh@;
            assert(is_live(m1, o));
            if mesh.sym(o).tri == 0 {
                let put = insert_subseg(mesh, o, marker);
                proof {
                    lasting_goes_on(m0, m1, mesh@);
                }
                if let Err(fault) = put {
                    proof {
                        lemma_subseg_full(m1, o, marker);
                        lemma_full_kept(m1, mesh@);
                    }
                    return Err(fault);
                }
                proof {
                    lemma_subseg_links(m1, o, marker);
                    lemma_subseg_plane(m1, o, marker);
                    assert forall|x: Otri| #[trigger]
                        is_live(mesh@, x) && mesh@.nbr[x].tri == 0 && (x.tri < t || (x.tri == t
                            && x.orient < k + 1)) implies mesh@.tsub[x].sub != 0 by {
                        assert(is_live(m1, x));
                    }
                }
            }
            k += 1;
        }
        t += 1;
    }
    Ok(())
}

// --- The graph --------------------------------------------------------------

proof fn lemma_still_comes(m: MeshView, v: MeshView, w: MeshView, segments: Seq<PslgSegment>)
    requires
        comes_of(m, v, segments, segments.len() as int),
        forall|k: u32| #[trigger] is_sub(w, k) ==> is_old(v, w, k),
    ensures
        comes_of(m, w, segments, segments.len() as int),
{
    let n = segments.len() as int;
    assert forall|k: u32| #[trigger] is_sub(w, k) implies is_old(m, w, k) || is_part_of_some(
        m,
        w,
        segments,
        n,
        k,
    ) by {
        assert(is_old(v, w, k));
        assert(is_sub(v, k));
        if !is_old(m, v, k) {
            let j = choose|j: int|
                0 <= j < n && is_part(
                    v,
                    k,
                    m.pos(VertexId((#[trigger] segments[j]).a)),
                    m.pos(VertexId(segments[j].b)),
                );
            assert(is_part(
                w,
                k,
                m.pos(VertexId(segments[j].a)),
                m.pos(VertexId(segments[j].b)),
            ));
        }
    }
}

/// Put the segments of a graph into a triangulation, in order, up to the first
/// that fails, then, if asked, constrain the hull; and settle the edges.
pub fn thread_skeleton(mesh: &mut CdtMesh, pslg: &Pslg, mark_hull_with: Option<i32>) -> (r: Result<
    (),
    SegmentInsertError,
>)
    requires
        old(mesh)@.wf(),
        is_plane(old(mesh)@),
        tidy(old(mesh)@),
    ensures
        final(mesh)@.wf(),
        is_plane(final(mesh)@),
        is_constrained_delaunay(final(mesh)@),
        tidy(final(mesh)@),
        corners(final(mesh)@) == corners(old(mesh)@),
        same_frame(old(mesh)@, final(mesh)@),
        lasts(old(mesh)@, final(mesh)@),
        r is Ok ==> all_traced(final(mesh)@, pslg.segments@, pslg.segments@.len() as int),
        r is Ok && mark_hull_with is None ==> comes_of(
            old(mesh)@,
            final(mesh)@,
            pslg.segments@,
            pslg.segments@.len() as int,
        ),
        r is Err ==> !is_planar(old(mesh)@, pslg.segments@) || spare(old(mesh)@) < most_subsegs(
            old(mesh)@,
            pslg.segments@,
        ),
        r matches Err(SegmentInsertError::Fault { fault }) ==> fault is Full,
{
    let ghost m0 = mesh@;
    let ghost list = pslg.segments@;
    let mut r = thread_segments(mesh, &pslg.segments);
    let ghost m1 = mesh@;
    if r.is_ok() {
        if let Some(mark) = mark_hull_with {
            let walled = wall_hull(mesh, mark);
            proof {
                lasting_goes_on(m0, m1, mesh@);
                lemma_all_traced_last(m1, mesh@, list, list.len() as int);
            }
            if let Err(fault) = walled {
                r = Err(SegmentInsertError::Fault { fault });
            }
        }
    }
    let ghost m2 = mesh@;
    settle_edges(mesh);
    proof {
        let p = Vertex { x: 0, y: 0 };
        lemma_flipped_subs(m2, mesh@, p, p);
        lasting_goes_on(m0, m2, mesh@);
        if r is Ok {
            lemma_all_traced_last(m2, mesh@, list, list.len() as int);
            if mark_hull_with is None {
                lemma_still_comes(m0, m2, mesh@, list);
            }
        }
    }
    r
}

} // verus!
