//! Whether a mesh is a triangulation of the convex hull of its corners.

use crate::coord::{coord_less, value};
use crate::empty_circle::{
    check_constrained_delaunay, count_sides, face_count, is_anchored, is_constrained_delaunay,
    is_face, is_joined, is_live, is_side, lemma_no_faces, on_one_line,
};
use crate::forcing::every_vertex_is_a_corner;
use crate::knitting::{is_edge, lemma_three, lemma_turns};
use crate::lawson::{bounds_all, covers, is_convex, is_corner, is_tile, is_tiled};
use crate::mesh::{no_tri, CdtMesh, MeshView, Osub, Otri, VertexId};
use crate::paving::{corners, is_bound, is_cell, is_laid, is_plane, is_used};
use crate::plane::{areas_add, areas_turn, lemma_balance};
use crate::predicates::{orient, orient2d, orient_det, orientation_turns, Vertex};
use crate::segment::{known, same_place};
use crate::threading::find_used;
use crate::trail::tidy;
use vstd::prelude::*;

verus! {

// --- Triangles --------------------------------------------------------------

/// Whether a live edge has three known corners, counter-clockwise, and is
/// joined to its partner and bound to its subsegment.
spec fn is_neat(m: MeshView, o: Otri) -> bool {
    &&& m.has_vertex(m.org(o)) && m.has_vertex(m.dest(o)) && m.has_vertex(m.apex(o))
    &&& orient(m.pos(m.org(o)), m.pos(m.dest(o)), m.pos(m.apex(o))) > 0
    &&& is_joined(m, o)
    &&& is_bound(m, o)
}

fn has_three(mesh: &CdtMesh, o: Otri) -> (r: bool)
    requires
        mesh@.wf(),
        mesh@.has(o),
    ensures
        r == (mesh@.has_vertex(mesh@.org(o)) && mesh@.has_vertex(mesh@.dest(o)) && mesh@.has_vertex(
            mesh@.apex(o),
        )),
{
    known(mesh, mesh.org(o)) && known(mesh, mesh.dest(o)) && known(mesh, mesh.apex(o))
}

fn is_face_edge(mesh: &CdtMesh, p: Otri) -> (r: bool)
    requires
        mesh@.wf(),
        mesh@.has(p),
    ensures
        r == is_side(mesh@, p),
{
    p.tri != 0 && !mesh.is_dead(p.tri) && has_three(mesh, Otri { tri: p.tri, orient: 0 })
}

fn is_neat_at(mesh: &CdtMesh, o: Otri) -> (r: bool)
    requires
        mesh@.wf(),
        is_live(mesh@, o),
    ensures
        r == is_neat(mesh@, o),
{
    if !has_three(mesh, o) {
        return false;
    }
    let (u, v, w) = (mesh.org(o), mesh.dest(o), mesh.apex(o));
    if orient2d(mesh.vertex_pos(u), mesh.vertex_pos(v), mesh.vertex_pos(w)) <= 0 {
        return false;
    }
    let p = mesh.sym(o);
    let k = mesh.tspivot(o).sub;
    assert(mesh@.has(p));
    assert(mesh@.has_sub(mesh@.tsub[o]));
    if p.tri != 0 {
        if !is_face_edge(mesh, p) || mesh.sym(p) != o || mesh.org(p) != v || mesh.dest(p) != u {
            return false;
        }
        if mesh.tspivot(p).sub != k {
            return false;
        }
    }
    if k != 0 {
        if mesh.is_sub_dead(k) {
            return false;
        }
        let x = mesh.sorg(Osub { sub: k, orient: 0 });
        let y = mesh.sorg(Osub { sub: k, orient: 1 });
        if !((x == u && y == v) || (x == v && y == u)) {
            return false;
        }
    }
    true
}

// --- Corners in triangles ---------------------------------------------------

proof fn lemma_pull(x: int, p: int, y: int, q: int, z: int, r: int)
    requires
        p >= 0 && q >= 0 && r >= 0,
        p + q + r > 0,
        x * p + y * q + z * r == 0,
    ensures
        !(x > 0 && y > 0 && z > 0),
        !(x < 0 && y < 0 && z < 0),
{
    if x > 0 && y > 0 && z > 0 {
        assert(x * p >= p && y * q >= q && z * r >= r) by (nonlinear_arith)
            requires
                p >= 0 && q >= 0 && r >= 0,
                x > 0 && y > 0 && z > 0,
        ;
    }
    if x < 0 && y < 0 && z < 0 {
        assert(x * p <= -p && y * q <= -q && z * r <= -r) by (nonlinear_arith)
            requires
                p >= 0 && q >= 0 && r >= 0,
                x < 0 && y < 0 && z < 0,
        ;
    }
}

/// A point of a triangle is not beyond all of its corners.
proof fn lemma_boxed(a: Vertex, b: Vertex, c: Vertex, v: Vertex)
    requires
        orient(a, b, c) > 0,
        orient(a, b, v) >= 0,
        orient(b, c, v) >= 0,
        orient(c, a, v) >= 0,
    ensures
        !(v.vx() < a.vx() && v.vx() < b.vx() && v.vx() < c.vx()),
        !(v.vx() > a.vx() && v.vx() > b.vx() && v.vx() > c.vx()),
        !(v.vy() < a.vy() && v.vy() < b.vy() && v.vy() < c.vy()),
        !(v.vy() > a.vy() && v.vy() > b.vy() && v.vy() > c.vy()),
{
    areas_add(a, b, c, v);
    let (ax, ay) = (a.vx() - v.vx(), a.vy() - v.vy());
    let (bx, by) = (b.vx() - v.vx(), b.vy() - v.vy());
    let (cx, cy) = (c.vx() - v.vx(), c.vy() - v.vy());
    lemma_balance(ax, ay, bx, by, cx, cy);
    let (p, q, r) = (orient_det(b, c, v), orient_det(c, a, v), orient_det(a, b, v));
    lemma_pull(ax, p, bx, q, cx, r);
    lemma_pull(ay, p, by, q, cy, r);
}

fn is_beyond(a: u64, b: u64, c: u64, p: u64) -> (r: bool)
    ensures
        r == ((value(p) < value(a) && value(p) < value(b) && value(p) < value(c)) || (value(p)
            > value(a) && value(p) > value(b) && value(p) > value(c))),
{
    if coord_less(p, a) {
        coord_less(p, b) && coord_less(p, c)
    } else {
        coord_less(a, p) && coord_less(b, p) && coord_less(c, p)
    }
}

fn does_cover(a: Vertex, b: Vertex, c: Vertex, v: Vertex) -> (r: bool)
    requires
        orient(a, b, c) > 0,
    ensures
        r == (orient(a, b, v) >= 0 && orient(b, c, v) >= 0 && orient(c, a, v) >= 0),
{
    if is_beyond(a.x, b.x, c.x, v.x) || is_beyond(a.y, b.y, c.y, v.y) {
        proof {
            if orient(a, b, v) >= 0 && orient(b, c, v) >= 0 && orient(c, a, v) >= 0 {
                lemma_boxed(a, b, c, v);
            }
        }
        return false;
    }
    orient2d(a, b, v) >= 0 && orient2d(b, c, v) >= 0 && orient2d(c, a, v) >= 0
}

/// Whether the triangle of an edge holds no other corner.
spec fn is_empty(m: MeshView, o: Otri) -> bool {
    forall|v: VertexId| #[trigger]
        corners(m).contains(v) && m.has_vertex(v) && covers(m, o, m.pos(v)) ==> is_corner(m, o, v)
}

/// Whether all known corners are on the left of an edge.
spec fn is_wall(m: MeshView, o: Otri) -> bool {
    forall|v: VertexId| #[trigger]
        corners(m).contains(v) && m.has_vertex(v) ==> orient(
            m.pos(m.org(o)),
            m.pos(m.dest(o)),
            m.pos(v),
        ) >= 0
}

spec fn marks(m: MeshView, used: Seq<bool>) -> bool {
    &&& used.len() == m.vertices.len()
    &&& forall|v: VertexId| #[trigger] m.has_vertex(v) ==> used[v.0 as int] == corners(m).contains(v)
}

fn is_empty_at(mesh: &CdtMesh, used: &Vec<bool>, o: Otri) -> (r: bool)
    requires
        mesh@.wf(),
        is_live(mesh@, o),
        is_neat(mesh@, o),
        marks(mesh@, used@),
    ensures
        r == is_empty(mesh@, o),
{
    let (u, v, w) = (mesh.org(o), mesh.dest(o), mesh.apex(o));
    let (a, b, c) = (mesh.vertex_pos(u), mesh.vertex_pos(v), mesh.vertex_pos(w));
    let mut i: usize = 0;
    while i < used.len()
        invariant
            i <= used@.len(),
            mesh@.wf(),
            marks(mesh@, used@),
            u == mesh@.org(o) && v == mesh@.dest(o) && w == mesh@.apex(o),
            a == mesh@.pos(u) && b == mesh@.pos(v) && c == mesh@.pos(w),
            orient(a, b, c) > 0,
            forall|x: VertexId|
                x.0 < i && #[trigger] corners(mesh@).contains(x) && covers(mesh@, o, mesh@.pos(x))
                    ==> is_corner(mesh@, o, x),
        decreases used.len() - i,
    {
        let x = VertexId(i as u32);
        assert(mesh@.has_vertex(x));
        if used[i] && x != u && x != v && x != w && does_cover(a, b, c, mesh.vertex_pos(x)) {
            assert(covers(mesh@, o, mesh@.pos(x)));
            return false;
        }
        i += 1;
    }
    true
}

fn is_wall_at(mesh: &CdtMesh, used: &Vec<bool>, o: Otri) -> (r: bool)
    requires
        mesh@.wf(),
        is_live(mesh@, o),
        is_neat(mesh@, o),
        marks(mesh@, used@),
    ensures
        r == is_wall(mesh@, o),
{
    let (a, b) = (mesh.vertex_pos(mesh.org(o)), mesh.vertex_pos(mesh.dest(o)));
    let mut i: usize = 0;
    while i < used.len()
        invariant
            i <= used@.len(),
            mesh@.wf(),
            marks(mesh@, used@),
            a == mesh@.pos(mesh@.org(o)) && b == mesh@.pos(mesh@.dest(o)),
            forall|x: VertexId|
                x.0 < i && #[trigger] corners(mesh@).contains(x) ==> orient(a, b, mesh@.pos(x))
                    >= 0,
        decreases used.len() - i,
    {
        let x = VertexId(i as u32);
        assert(mesh@.has_vertex(x));
        if used[i] && orient2d(a, b, mesh.vertex_pos(x)) < 0 {
            return false;
        }
        i += 1;
    }
    true
}

// --- The whole mesh ---------------------------------------------------------

/// What is looked at of a live edge.
spec fn is_sound_edge(m: MeshView, o: Otri) -> bool {
    &&& is_neat(m, o)
    &&& o.orient == 0 ==> is_empty(m, o)
    &&& m.nbr[o].tri == 0 ==> is_wall(m, o)
}

#[verifier::spinoff_prover]
#[verifier::rlimit(60)]
proof fn lemma_sound_is_plane(m: MeshView)
    requires
        m.wf(),
        is_anchored(m),
        forall|o: Otri| #[trigger] is_live(m, o) ==> is_sound_edge(m, o),
    ensures
        is_plane(m),
{
    let set = corners(m);
    assert forall|v: VertexId| #[trigger] set.contains(v) implies m.has_vertex(v) by {
        lemma_corner_edge(m, v);
    }
    assert forall|o: Otri| #[trigger] is_live(m, o) implies is_cell(m, set, o) by {
        let first = Otri { tri: o.tri, orient: 0 };
        lemma_turns(first);
        lemma_turns(o);
        lemma_three(first, o);
        assert(is_live(m, first) && is_live(m, o.next()) && is_live(m, o.prev()));
        assert(is_sound_edge(m, first) && is_sound_edge(m, o));
        lemma_edge_corner(m, o);
        lemma_edge_corner(m, o.next());
        lemma_edge_corner(m, o.prev());
        assert forall|v: VertexId| #[trigger]
            set.contains(v) && covers(m, o, m.pos(v)) implies is_corner(m, o, v) by {
            assert(covers(m, first, m.pos(v)));
            assert(is_corner(m, first, v));
        }
    }
    assert forall|v: VertexId, w: VertexId| #[trigger]
        set.contains(v) && #[trigger] set.contains(w) && same_place(m.pos(v), m.pos(w)) implies v
        == w by {
        let o = lemma_corner_edge(m, v);
        assert(is_cell(m, set, o));
        let (a, b, c) = (m.pos(m.org(o)), m.pos(m.dest(o)), m.pos(m.apex(o)));
        let p = m.pos(w);
        lemma_at_corner(a, b, c, p);
        assert(covers(m, o, p));
        assert(is_corner(m, o, w));
    }
    assert forall|o: Otri| #[trigger] is_live(m, o) && m.nbr[o].tri == 0 implies bounds_all(
        m,
        set,
        o,
    ) by {
        assert(is_sound_edge(m, o));
    }
    reveal(is_plane);
}

/// A point at a corner of a triangle is in it, and at no other corner.
proof fn lemma_at_corner(a: Vertex, b: Vertex, c: Vertex, p: Vertex)
    requires
        orient(a, b, c) > 0,
        same_place(a, p),
    ensures
        orient(a, b, p) == 0 && orient(b, c, p) > 0 && orient(c, a, p) == 0,
        !same_place(b, p) && !same_place(c, p),
{
    assert(orient_det(a, b, p) == orient_det(a, b, a));
    assert(orient_det(b, c, p) == orient_det(b, c, a));
    assert(orient_det(c, a, p) == orient_det(c, a, a));
    areas_turn(a, b, a);
    areas_turn(b, a, a);
    areas_turn(a, a, b);
    areas_turn(c, a, a);
    areas_turn(a, c, a);
    orientation_turns(a, b, c);
    if same_place(b, p) {
        assert(orient_det(a, b, c) == orient_det(a, a, c));
        areas_turn(a, b, c);
    }
    if same_place(c, p) {
        assert(orient_det(a, b, c) == orient_det(a, b, a));
    }
}

proof fn lemma_edge_corner(m: MeshView, o: Otri)
    requires
        is_live(m, o),
    ensures
        corners(m).contains(m.org(o)),
{
    reveal(corners);
    assert(is_used(m, m.org(o)));
}

proof fn lemma_corner_edge(m: MeshView, v: VertexId) -> (o: Otri)
    requires
        corners(m).contains(v),
    ensures
        is_live(m, o),
        m.org(o) == v,
{
    reveal(corners);
    assert(is_used(m, v));
    choose|o: Otri| #[trigger] is_live(m, o) && m.org(o) == v
}

proof fn lemma_plane_is_sound(m: MeshView, o: Otri)
    requires
        m.wf(),
        is_plane(m),
        is_live(m, o),
    ensures
        is_sound_edge(m, o),
{
    reveal(is_plane);
    assert(is_cell(m, corners(m), o));
    if m.nbr[o].tri == 0 {
        assert(bounds_all(m, corners(m), o));
    }
}

/// Whether a mesh is a triangulation of the convex hull of its corners.
pub fn check_plane(mesh: &CdtMesh) -> (r: bool)
    requires
        mesh@.wf(),
    ensures
        r == is_plane(mesh@),
{
    let dummy = Otri { tri: 0, orient: 0 };
    assert(mesh@.has(dummy));
    let first = mesh.sym(dummy);
    assert(mesh@.has(first));
    if first.tri != 0 && mesh.is_dead(first.tri) {
        assert(!is_plane(mesh@)) by {
            reveal(is_plane);
        }
        return false;
    }
    let used = find_used(mesh);
    assert(marks(mesh@, used@)) by {
        reveal(corners);
    }
    let n: usize = mesh.tri_slots();
    let mut t: u32 = 1;
    while (t as usize) < n
        invariant
            mesh@.wf(),
            1 <= t <= n,
            n == mesh@.tri_count,
            marks(mesh@, used@),
            forall|o: Otri| #[trigger] is_live(mesh@, o) && o.tri < t ==> is_sound_edge(mesh@, o),
        decreases n - t,
    {
        let mut k: u8 = 0;
        while k < 3 && !mesh.is_dead(t)
            invariant
                mesh@.wf(),
                k <= 3,
                0 < t < n,
                n == mesh@.tri_count,
                marks(mesh@, used@),
                forall|o: Otri| #[trigger]
                    is_live(mesh@, o) && (o.tri < t || (o.tri == t && o.orient < k))
                        ==> is_sound_edge(mesh@, o),
            decreases 3 - k,
        {
            let o = Otri { tri: t, orient: k };
            assert(is_live(mesh@, o));
            let sound: bool = is_neat_at(mesh, o) && (k != 0 || is_empty_at(mesh, &used, o)) && (
            mesh.sym(o).tri != 0 || is_wall_at(mesh, &used, o));
            if !sound {
                proof {
                    if is_plane(mesh@) {
                        lemma_plane_is_sound(mesh@, o);
                    }
                }
                return false;
            }
            k += 1;
        }
        t += 1;
    }
    proof {
        lemma_sound_is_plane(mesh@);
    }
    true
}

/// Whether the slots put up for reuse are dead subsegments, each once.
pub fn check_tidy(mesh: &CdtMesh) -> (r: bool)
    requires
        mesh@.wf(),
    ensures
        r == tidy(mesh@),
{
    let n: usize = mesh.free_sub_count();
    let mut i: usize = 0;
    while i < n
        invariant
            mesh@.wf(),
            i <= n,
            n == mesh@.free_subs.len(),
            forall|k: int| 0 <= k < i ==> mesh@.sub_dead(#[trigger] mesh@.free_subs[k]),
            forall|j: int, k: int|
                0 <= j < k < i ==> #[trigger] mesh@.free_subs[j] != #[trigger] mesh@.free_subs[k],
        decreases n - i,
    {
        let x: u32 = mesh.free_sub(i);
        assert(mesh@.free_subs[i as int] == x);
        if !mesh.is_sub_dead(x) {
            return false;
        }
        let mut j: usize = 0;
        while j < i
            invariant
                j <= i < n,
                n == mesh@.free_subs.len(),
                    x == mesh@.free_subs[i as int],
                forall|k: int| 0 <= k < j ==> #[trigger] mesh@.free_subs[k] != x,
            decreases i - j,
        {
            if mesh.free_sub(j) == x {
                assert(mesh@.free_subs[j as int] == mesh@.free_subs[i as int]);
                return false;
            }
            j += 1;
        }
        i += 1;
    }
    true
}

/// Whether a mesh is a constrained Delaunay triangulation of the convex hull of
/// its corners.
pub open spec fn is_cdt(m: MeshView) -> bool {
    is_plane(m) && is_constrained_delaunay(m)
}

/// Whether a mesh is a constrained Delaunay triangulation of the convex hull of
/// its corners.
pub fn check_cdt(mesh: &CdtMesh) -> (r: bool)
    requires
        mesh@.wf(),
    ensures
        r == is_cdt(mesh@),
{
    check_constrained_delaunay(mesh) && check_plane(mesh)
}

/// Whether every slot but the dummy's holds a triangle or waits to be used
/// again, so that the live triangles are the slots less these.
pub open spec fn is_counted(m: MeshView) -> bool {
    face_count(m, m.tri_count) + m.free_tris.len() + 1 == m.tri_count
}

/// Whether every slot but the dummy's holds a triangle or waits to be used
/// again.
pub fn check_counted(mesh: &CdtMesh) -> (r: bool)
    requires
        mesh@.wf(),
    ensures
        r == is_counted(mesh@),
{
    let (faces, _) = count_sides(mesh);
    let waiting: usize = mesh.free_tri_count();
    let slots: u64 = mesh.tri_slots() as u64;
    waiting < slots as usize && faces == slots - 1 - waiting as u64
}

/// A mesh without triangles is a triangulation of nothing.
pub proof fn fresh_meshes_are_plane(m: MeshView)
    requires
        m.wf(),
        m.tri_count == 1,
    ensures
        is_plane(m),
        m.free_tris.len() == 0 ==> is_counted(m),
{
    assert(m.has(no_tri()));
    assert(m.has(m.nbr[no_tri()]));
    lemma_sound_is_plane(m);
    assert forall|t: u32| !#[trigger] is_face(m, t) by {}
    lemma_no_faces(m, m.tri_count);
}

/// A triangulation of a convex hull in which every slot is used and nothing is
/// constrained.
#[verifier::spinoff_prover]
pub(crate) proof fn lemma_tiled_is_plane(m: MeshView, set: Set<VertexId>)
    requires
        is_tiled(m, set),
        is_convex(m, set),
        is_anchored(m),
    ensures
        is_plane(m),
{
    assert forall|v: VertexId| #[trigger] corners(m).contains(v) implies set.contains(v) by {
        let o = lemma_corner_edge(m, v);
        assert(is_edge(m, o));
        assert(is_tile(m, set, o));
    }
    assert forall|o: Otri| #[trigger] is_live(m, o) implies is_sound_edge(m, o) by {
        assert(is_edge(m, o));
        assert(is_tile(m, set, o));
        let p = m.nbr[o];
        if p.tri != 0 {
            assert(is_edge(m, p));
            assert(is_tile(m, set, p));
        }
        if p.tri == 0 {
            assert(bounds_all(m, set, o));
        }
    }
    lemma_sound_is_plane(m);
}

/// Whether all vertices of a list are corners, unless they lie on one line.
#[verifier::opaque]
pub open spec fn uses_all(m: MeshView, ids: Seq<VertexId>) -> bool {
    on_one_line(m, ids) || forall|i: int|
        0 <= i < ids.len() ==> corners(m).contains(#[trigger] ids[i])
}

/// Whether all vertices of a list are corners, unless they lie on one line.
pub fn check_uses_all(mesh: &CdtMesh, ids: &Vec<VertexId>) -> (r: bool)
    requires
        mesh@.wf(),
        ids@.len() >= 2,
        forall|i: int| 0 <= i < ids@.len() ==> mesh@.has_vertex(#[trigger] ids@[i]),
    ensures
        r == uses_all(mesh@, ids@),
{
    let used = find_used(mesh);
    proof {
        reveal(uses_all);
    }
    assert(marks(mesh@, used@)) by {
        reveal(corners);
    }
    assert(mesh@.has_vertex(ids@[0]) && mesh@.has_vertex(ids@[1]));
    let (a, b) = (mesh.vertex_pos(ids[0]), mesh.vertex_pos(ids[1]));
    let (mut all, mut straight): (bool, bool) = (true, true);
    let mut i: usize = 0;
    while i < ids.len()
        invariant
            mesh@.wf(),
            i <= ids@.len(),
            ids@.len() >= 2,
            marks(mesh@, used@),
            a == mesh@.pos(ids@[0]) && b == mesh@.pos(ids@[1]),
            forall|k: int| 0 <= k < ids@.len() ==> mesh@.has_vertex(#[trigger] ids@[k]),
            all == forall|k: int| 0 <= k < i ==> corners(mesh@).contains(#[trigger] ids@[k]),
            straight == forall|k: int|
                0 <= k < i ==> orient(a, b, mesh@.pos(#[trigger] ids@[k])) == 0,
        decreases ids.len() - i,
    {
        let v = ids[i];
        assert(mesh@.has_vertex(ids@[i as int]));
        if !used[v.index()] {
            all = false;
            assert(!corners(mesh@).contains(ids@[i as int]));
        }
        if orient2d(a, b, mesh.vertex_pos(v)) != 0 {
            straight = false;
            assert(orient(a, b, mesh@.pos(ids@[i as int])) != 0);
        }
        i += 1;
    }
    all || straight
}

/// In a triangulation of a convex hull in which every slot is used, every
/// vertex is a corner.
#[verifier::spinoff_prover]
pub(crate) proof fn lemma_tiled_uses(m: MeshView, set: Set<VertexId>, v: VertexId)
    requires
        is_tiled(m, set),
        is_convex(m, set),
        is_anchored(m),
        m.tri_count > 1,
        set.contains(v),
    ensures
        corners(m).contains(v),
{
    assert forall|o: Otri| #[trigger] is_live(m, o) implies is_cell(m, set, o) by {
        assert(is_edge(m, o));
        assert(is_tile(m, set, o));
        let p = m.nbr[o];
        if p.tri != 0 {
            assert(is_edge(m, p));
            assert(is_tile(m, set, p));
        }
    }
    assert forall|o: Otri| #[trigger] is_live(m, o) && m.nbr[o].tri == 0 implies bounds_all(
        m,
        set,
        o,
    ) by {
        assert(is_edge(m, o));
    }
    assert(is_laid(m, set)) by {
        reveal(is_laid);
    }
    let first = Otri { tri: 1, orient: 0 };
    assert(is_edge(m, first));
    assert(is_tile(m, set, first));
    assert(is_live(m, first));
    assert(is_used(m, m.org(first)));
    every_vertex_is_a_corner(m, set, m.org(first), v);
    reveal(corners);
}

} // verus!
