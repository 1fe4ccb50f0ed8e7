//! Segments in a mesh: chains of subsegments from one place to another.

use crate::coord::{coord_less, value};
use crate::mesh::{CdtMesh, MeshView, Osub, VertexId};
use crate::predicates::{orient, orient2d, Vertex};
use crate::segment::{is_same_place, known, same_place};
use vstd::prelude::*;

verus! {

/// The place at the other end of subsegment `s` from the place `from`: none
/// where `s` is not a live subsegment with an end there.
pub open spec fn next_place(m: MeshView, s: u32, from: Vertex) -> Option<Vertex> {
    let (u, v) = (m.svert[Osub { sub: s, orient: 0 }], m.svert[Osub { sub: s, orient: 1 }]);
    if !(0 < s < m.sub_count) || m.sub_dead(s) || !m.has_vertex(u) || !m.has_vertex(v) {
        None
    } else if same_place(m.pos(u), from) {
        Some(m.pos(v))
    } else if same_place(m.pos(v), from) {
        Some(m.pos(u))
    } else {
        None
    }
}

/// The place reached from `from` along the first `n` subsegments of a trail.
pub open spec fn followed(m: MeshView, trail: Seq<u32>, from: Vertex, n: nat) -> Option<Vertex>
    decreases n,
{
    if n == 0 {
        Some(from)
    } else {
        match followed(m, trail, from, (n - 1) as nat) {
            None => None,
            Some(p) => next_place(m, trail[n - 1], p),
        }
    }
}

/// Whether `c` is `a`, `b` or between them.
pub open spec fn in_range(a: u64, b: u64, c: u64) -> bool {
    value(a) <= value(c) <= value(b) || value(b) <= value(c) <= value(a)
}

/// Whether `p` lies on the straight line from `a` to `b`, ends counted.
pub open spec fn on_segment(a: Vertex, b: Vertex, p: Vertex) -> bool {
    orient(a, b, p) == 0 && in_range(a.x, b.x, p.x) && in_range(a.y, b.y, p.y)
}

/// Whether a trail of subsegments leads from `a` to `b` along the straight
/// line between them.
pub open spec fn leads(m: MeshView, trail: Seq<u32>, a: Vertex, b: Vertex) -> bool {
    &&& forall|n: int|
        0 <= n <= trail.len() ==> (#[trigger] followed(m, trail, a, n as nat) matches Some(p)
            && on_segment(a, b, p))
    &&& followed(m, trail, a, trail.len()) matches Some(p) && same_place(p, b)
}

/// Whether the segment between two vertices is in the mesh: subsegments lead
/// from the place of one to that of the other along the straight line. Two
/// vertices at one place need none.
pub open spec fn is_traced(m: MeshView, a: VertexId, b: VertexId) -> bool {
    ||| same_place(m.pos(a), m.pos(b))
    ||| exists|trail: Seq<u32>| #[trigger] leads(m, trail, m.pos(a), m.pos(b))
    ||| exists|trail: Seq<u32>| #[trigger] leads(m, trail, m.pos(b), m.pos(a))
}

pub(crate) fn is_in_range(a: u64, b: u64, c: u64) -> (r: bool)
    ensures
        r == in_range(a, b, c),
{
    (!coord_less(c, a) && !coord_less(b, c)) || (!coord_less(c, b) && !coord_less(a, c))
}

fn find_next_place(mesh: &CdtMesh, s: u32, from: Vertex) -> (r: Option<Vertex>)
    requires
        mesh@.wf(),
    ensures
        r == next_place(mesh@, s, from),
{
    if s == 0 || s as usize >= mesh.sub_slots() || mesh.is_sub_dead(s) {
        return None;
    }
    let u = mesh.sorg(Osub { sub: s, orient: 0 });
    let v = mesh.sorg(Osub { sub: s, orient: 1 });
    if !known(mesh, u) || !known(mesh, v) {
        None
    } else if is_same_place(mesh.vertex_pos(u), from) {
        Some(mesh.vertex_pos(v))
    } else if is_same_place(mesh.vertex_pos(v), from) {
        Some(mesh.vertex_pos(u))
    } else {
        None
    }
}

/// Whether a trail leads from `a` to `b`.
pub fn does_lead(mesh: &CdtMesh, trail: &Vec<u32>, a: Vertex, b: Vertex) -> (r: bool)
    requires
        mesh@.wf(),
    ensures
        r == leads(mesh@, trail@, a, b),
{
    let mut p = a;
    let mut i: usize = 0;
    loop
        invariant
            mesh@.wf(),
            i <= trail@.len(),
            followed(mesh@, trail@, a, i as nat) == Some(p),
            forall|n: int|
                0 <= n < i ==> (#[trigger] followed(mesh@, trail@, a, n as nat) matches Some(q)
                    && on_segment(a, b, q)),
        decreases trail@.len() - i,
    {
        if orient2d(a, b, p) != 0 || !is_in_range(a.x, b.x, p.x) || !is_in_range(a.y, b.y, p.y) {
            assert(!on_segment(a, b, p));
            assert(followed(mesh@, trail@, a, (i as int) as nat) == Some(p));
            return false;
        }
        if i == trail.len() {
            return is_same_place(p, b);
        }
        match find_next_place(mesh, trail[i], p) {
            None => {
                assert(followed(mesh@, trail@, a, (i + 1) as nat) is None);
                return false;
            },
            Some(q) => {
                p = q;
            },
        }
        i += 1;
    }
}

// --- What lasts -------------------------------------------------------------

/// Whether the slots put up for reuse are dead subsegments, each once.
pub open spec fn tidy(m: MeshView) -> bool {
    &&& m.free_subs.no_duplicates()
    &&& forall|i: int| 0 <= i < m.free_subs.len() ==> m.sub_dead(#[trigger] m.free_subs[i])
}

/// Whether every place and every live subsegment of `m` is in `w` as it was.
pub open spec fn lasts(m: MeshView, w: MeshView) -> bool {
    &&& w.vertices.len() == m.vertices.len()
    &&& forall|i: int|
        0 <= i < m.vertices.len() ==> (#[trigger] w.vertices[i]).position == m.vertices[i].position
    &&& tidy(m) ==> tidy(w)
    &&& tidy(m) ==> w.sub_count >= m.sub_count
    &&& tidy(m) ==> forall|s: Osub| #[trigger]
        m.has_sub(s) && !m.sub_dead(s.sub) ==> w.svert[s] == m.svert[s] && !w.sub_dead(s.sub)
}

/// What lasts from `m` to `w` and from `w` to `x` lasts from `m` to `x`.
pub proof fn lasting_goes_on(m: MeshView, w: MeshView, x: MeshView)
    requires
        lasts(m, w),
        lasts(w, x),
    ensures
        lasts(m, x),
{
    assert forall|i: int| 0 <= i < m.vertices.len() implies (#[trigger] x.vertices[i]).position
        == m.vertices[i].position by {
        assert(w.vertices[i].position == m.vertices[i].position);
    }
    if tidy(m) {
        assert forall|s: Osub| #[trigger] m.has_sub(s) && !m.sub_dead(s.sub) implies x.svert[s]
            == m.svert[s] && !x.sub_dead(s.sub) by {
            assert(w.has_sub(s) && !w.sub_dead(s.sub));
        }
    }
}

proof fn lemma_place_lasts(m: MeshView, w: MeshView, s: u32, from: Vertex)
    requires
        tidy(m),
        lasts(m, w),
        next_place(m, s, from) is Some,
    ensures
        next_place(w, s, from) == next_place(m, s, from),
{
    let (s0, s1) = (Osub { sub: s, orient: 0 }, Osub { sub: s, orient: 1 });
    assert(m.has_sub(s0) && m.has_sub(s1));
    let (u, v) = (m.svert[s0], m.svert[s1]);
    assert(w.vertices[u.0 as int].position == m.pos(u));
    assert(w.vertices[v.0 as int].position == m.pos(v));
}

pub(crate) proof fn lemma_followed_lasts(m: MeshView, w: MeshView, trail: Seq<u32>, from: Vertex, n: nat)
    requires
        tidy(m),
        lasts(m, w),
        followed(m, trail, from, n) is Some,
    ensures
        followed(w, trail, from, n) == followed(m, trail, from, n),
    decreases n,
{
    if n > 0 {
        lemma_followed_lasts(m, w, trail, from, (n - 1) as nat);
        let p = followed(m, trail, from, (n - 1) as nat).unwrap();
        lemma_place_lasts(m, w, trail[n - 1], p);
    }
}

proof fn lemma_leads_lasts(m: MeshView, w: MeshView, trail: Seq<u32>, a: Vertex, b: Vertex)
    requires
        tidy(m),
        lasts(m, w),
        leads(m, trail, a, b),
    ensures
        leads(w, trail, a, b),
{
    assert forall|n: int| 0 <= n <= trail.len() implies (#[trigger] followed(
        w,
        trail,
        a,
        n as nat,
    ) matches Some(p) && on_segment(a, b, p)) by {
        assert(followed(m, trail, a, n as nat) is Some);
        lemma_followed_lasts(m, w, trail, a, n as nat);
    }
    lemma_followed_lasts(m, w, trail, a, trail.len());
}

/// A segment in the mesh stays there as long as its subsegments last.
pub proof fn traces_last(m: MeshView, w: MeshView, a: VertexId, b: VertexId)
    requires
        tidy(m),
        lasts(m, w),
        m.has_vertex(a),
        m.has_vertex(b),
        is_traced(m, a, b),
    ensures
        is_traced(w, a, b),
{
    assert(w.vertices[a.0 as int].position == m.pos(a));
    assert(w.vertices[b.0 as int].position == m.pos(b));
    if same_place(m.pos(a), m.pos(b)) {
    } else if exists|trail: Seq<u32>| #[trigger] leads(m, trail, m.pos(a), m.pos(b)) {
        let trail = choose|trail: Seq<u32>| #[trigger] leads(m, trail, m.pos(a), m.pos(b));
        lemma_leads_lasts(m, w, trail, m.pos(a), m.pos(b));
    } else {
        let trail = choose|trail: Seq<u32>| #[trigger] leads(m, trail, m.pos(b), m.pos(a));
        lemma_leads_lasts(m, w, trail, m.pos(b), m.pos(a));
    }
}

} // verus!
