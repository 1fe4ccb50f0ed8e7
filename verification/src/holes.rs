//! Carving holes: infecting triangles from the hull and from hole seeds,
//! spreading the infection up to the constrained edges, and sweeping the
//! infected triangles away.

use crate::coord::{coord_key, key, key_orders_values};
use crate::empty_circle::{is_constrained_delaunay, is_live};
use crate::mesh::{
    no_sub, no_tri, CdtMesh, MeshView, Osub, Otri, VertexId, VertexSlot, DUMMY_SUB, DUMMY_TRI,
};
use crate::plane::{areas_add, lemma_times_three};
use crate::predicates::{cross, orient, orient2d, orient_det, Vertex};
use crate::pslg::{Pslg, PslgHole};
use crate::segment::{
    at_boundary, hull_marked, hull_walked, same_frame, subseg_inserted, to_boundary, turn_limit,
    MeshFault,
};
use crate::winding::lemma_product_sign;
use std::collections::VecDeque;
use vstd::prelude::*;

verus! {

/// Number of `false` entries.
pub open spec fn unmarked(s: Seq<bool>) -> nat
    decreases s.len(),
{
    if s.len() == 0 {
        0
    } else {
        unmarked(s.drop_last()) + if s.last() {
            0nat
        } else {
            1nat
        }
    }
}

proof fn lemma_unmarked_update(s: Seq<bool>, i: int)
    requires
        0 <= i < s.len(),
        !s[i],
    ensures
        unmarked(s.update(i, true)) == unmarked(s) - 1,
    decreases s.len(),
{
    let t = s.update(i, true);
    if i == s.len() - 1 {
        assert(t.drop_last() =~= s.drop_last());
    } else {
        assert(t.drop_last() =~= s.drop_last().update(i, true));
        lemma_unmarked_update(s.drop_last(), i);
    }
}

/// A vertex takes marker 1 where it has none.
pub open spec fn boundary_vertex(m: MeshView, v: VertexId) -> MeshView {
    if m.has_vertex(v) && m.vertices[v.0 as int].marker == 0 {
        m.with_vertex_slot(v, VertexSlot { marker: 1, ..m.vertices[v.0 as int] })
    } else {
        m
    }
}

pub(crate) fn mark_boundary_vertex(mesh: &mut CdtMesh, v: VertexId)
    requires
        old(mesh)@.wf(),
    ensures
        final(mesh)@ == boundary_vertex(old(mesh)@, v),
        final(mesh)@.wf(),
{
    if (v.0 as usize) < mesh.vertex_count() {
        let mut slot = *mesh.vertex(v);
        if slot.marker == 0 {
            slot.marker = 1;
            proof {
                assert(old(mesh)@.has(old(mesh)@.vertices[v.0 as int].triangle.handle()));
            }
            mesh.set_vertex(v, slot);
        }
    }
}

/// A subsegment becomes a boundary edge of what survives: it lets go of the
/// dying side, and it and the corners of the surviving edge `n` are marked.
pub open spec fn exposed(m: MeshView, s: Osub, n: Otri) -> MeshView {
    let p = m.with_stri(s, no_tri());
    let q = if p.smark[s.sub as int] == 0 {
        p.with_smark(s.sub, 1)
    } else {
        p
    };
    boundary_vertex(boundary_vertex(q, q.org(n)), q.dest(n))
}

pub(crate) fn expose(mesh: &mut CdtMesh, s: Osub, n: Otri)
    requires
        old(mesh)@.wf(),
        old(mesh)@.has_sub(s),
        old(mesh)@.has(n),
    ensures
        final(mesh)@ == exposed(old(mesh)@, s, n),
        final(mesh)@.wf(),
{
    mesh.st_dissolve(s);
    if mesh.sub_marker(s.sub) == 0 {
        mesh.set_sub_marker(s.sub, 1);
    }
    let norg = mesh.org(n);
    let ndest = mesh.dest(n);
    mark_boundary_vertex(mesh, norg);
    mark_boundary_vertex(mesh, ndest);
}

// --- The hull ---------------------------------------------------------------

/// The infected triangles and the worklist after one hull edge is looked at:
/// a hull triangle not protected by a subsegment is infected.
pub open spec fn hull_edge_infected(m: MeshView, infected: Seq<bool>, work: Seq<u32>, o: Otri) -> (
    Seq<bool>,
    Seq<u32>,
) {
    if !infected[o.tri as int] && m.tsub[o].sub == 0 {
        (infected.update(o.tri as int, true), work.push(o.tri))
    } else {
        (infected, work)
    }
}

/// Infecting the hull from edge `o` round to `start`.
pub open spec fn hull_infected(
    m: MeshView,
    infected: Seq<bool>,
    work: Seq<u32>,
    o: Otri,
    start: Otri,
    fuel: nat,
) -> (Seq<bool>, Seq<u32>, Result<(), MeshFault>)
    decreases fuel,
{
    let (i1, w1) = hull_edge_infected(m, infected, work, o);
    match at_boundary(m, o.next(), turn_limit(m)) {
        Err(e) => (i1, w1, Err(e)),
        Ok(n) => if n == start {
            (i1, w1, Ok(()))
        } else if fuel == 0 {
            (i1, w1, Err(MeshFault::Stalled))
        } else {
            hull_infected(m, i1, w1, n, start, (fuel - 1) as nat)
        },
    }
}

/// Infection of the unprotected hull triangles.
pub open spec fn hull_seeded(m: MeshView, infected: Seq<bool>, work: Seq<u32>) -> (
    Seq<bool>,
    Seq<u32>,
    Result<(), MeshFault>,
) {
    let start = m.sym(no_tri());
    if start.tri == 0 {
        (infected, work, Ok(()))
    } else {
        hull_infected(m, infected, work, start, start, turn_limit(m))
    }
}

/// Every worklist entry is an infected triangle.
pub open spec fn work_ok(m: MeshView, infected: Seq<bool>, work: Seq<u32>) -> bool {
    &&& infected.len() == m.tri_count
    &&& forall|i: int|
        0 <= i < work.len() ==> (#[trigger] work[i]) < m.tri_count && infected[work[i] as int]
}

/// Infect every hull triangle whose hull edge carries no subsegment.
pub fn infect_hull(mesh: &CdtMesh, infected: &mut Vec<bool>, worklist: &mut VecDeque<u32>) -> (r:
    Result<(), MeshFault>)
    requires
        mesh@.wf(),
        work_ok(mesh@, old(infected)@, old(worklist)@),
    ensures
        (final(infected)@, final(worklist)@, r) == hull_seeded(
            mesh@,
            old(infected)@,
            old(worklist)@,
        ),
        work_ok(mesh@, final(infected)@, final(worklist)@),
{
    let start = mesh.sym(Otri::dummy());
    if start.tri == DUMMY_TRI {
        return Ok(());
    }
    let mut hulltri = start;
    let mut fuel: u64 = 3 * mesh.tri_slots() as u64;
    loop
        invariant
            mesh@.wf(),
            mesh@.has(hulltri),
            work_ok(mesh@, infected@, worklist@),
            hull_infected(mesh@, infected@, worklist@, hulltri, start, fuel as nat) == hull_seeded(
                mesh@,
                old(infected)@,
                old(worklist)@,
            ),
        decreases fuel,
    {
        if !infected[hulltri.tri as usize] {
            if mesh.tspivot(hulltri).sub == DUMMY_SUB {
                infected.set(hulltri.tri as usize, true);
                worklist.push_back(hulltri.tri);
            }
        }
        let next = to_boundary(mesh, hulltri.lnext());
        hulltri = match next {
            Err(e) => return Err(e),
            Ok(n) => n,
        };
        if hulltri == start {
            return Ok(());
        }
        if fuel == 0 {
            return Err(MeshFault::Stalled);
        }
        fuel -= 1;
    }
}

// --- Hole seeds -------------------------------------------------------------

/// Whether a coordinate lies between the least and the greatest of three.
pub open spec fn between(a: u64, b: u64, c: u64, p: u64) -> bool {
    &&& key(p) >= key(a) || key(p) >= key(b) || key(p) >= key(c)
    &&& key(p) <= key(a) || key(p) <= key(b) || key(p) <= key(c)
}

/// Whether the closed triangle `a`, `b`, `c` holds `p`: `p` is in its
/// bounding box and no two of its edges have it strictly on different sides.
pub open spec fn triangle_contains(a: Vertex, b: Vertex, c: Vertex, p: Vertex) -> bool {
    let (s, t, u) = (orient(a, b, p), orient(b, c, p), orient(c, a, p));
    &&& between(a.x, b.x, c.x, p.x)
    &&& between(a.y, b.y, c.y, p.y)
    &&& !((s < 0 || t < 0 || u < 0) && (s > 0 || t > 0 || u > 0))
}

/// Whether the triangle in slot `t` is live with three known corners.
pub open spec fn solid(m: MeshView, t: u32) -> bool {
    &&& !m.dead(t)
    &&& m.has_vertex(m.corner[Otri { tri: t, orient: 0 }])
    &&& m.has_vertex(m.corner[Otri { tri: t, orient: 1 }])
    &&& m.has_vertex(m.corner[Otri { tri: t, orient: 2 }])
}

/// Whether the triangle in slot `t` is solid and holds `p`.
pub open spec fn holds(m: MeshView, t: u32, p: Vertex) -> bool {
    &&& solid(m, t)
    &&& triangle_contains(
        m.pos(m.corner[Otri { tri: t, orient: 0 }]),
        m.pos(m.corner[Otri { tri: t, orient: 1 }]),
        m.pos(m.corner[Otri { tri: t, orient: 2 }]),
        p,
    )
}

/// The first solid triangle, from slot `t` on, that holds `p`.
pub open spec fn first_holding(m: MeshView, p: Vertex, t: nat) -> Option<u32>
    decreases m.tri_count - t,
{
    if t >= m.tri_count {
        None
    } else if holds(m, t as u32, p) {
        Some(t as u32)
    } else {
        first_holding(m, p, t + 1)
    }
}

/// The first holding triangle holds the point and no earlier slot does; there
/// is none only where no triangle holds it.
pub proof fn first_holding_is_first(m: MeshView, p: Vertex, t: nat)
    requires
        m.wf(),
    ensures
        match first_holding(m, p, t) {
            Some(x) => t <= x < m.tri_count && holds(m, x, p) && forall|y: u32|
                t <= y < x ==> !#[trigger] holds(m, y, p),
            None => forall|y: u32| t <= y < m.tri_count ==> !#[trigger] holds(m, y, p),
        },
    decreases m.tri_count - t,
{
    if t < m.tri_count {
        first_holding_is_first(m, p, t + 1);
    }
}

fn is_between(a: u64, b: u64, c: u64, p: u64) -> (r: bool)
    ensures
        r == between(a, b, c, p),
{
    let (ka, kb, kc, kp) = (coord_key(a), coord_key(b), coord_key(c), coord_key(p));
    (kp >= ka || kp >= kb || kp >= kc) && (kp <= ka || kp <= kb || kp <= kc)
}

/// Whether the closed triangle `a`, `b`, `c` holds `p`.
pub fn contains(a: Vertex, b: Vertex, c: Vertex, p: Vertex) -> (r: bool)
    ensures
        r == triangle_contains(a, b, c, p),
{
    if !is_between(a.x, b.x, c.x, p.x) || !is_between(a.y, b.y, c.y, p.y) {
        return false;
    }
    let s: i32 = orient2d(a, b, p);
    let t: i32 = orient2d(b, c, p);
    let u: i32 = orient2d(c, a, p);
    !((s < 0 || t < 0 || u < 0) && (s > 0 || t > 0 || u > 0))
}

/// The corner positions of the triangle in slot `t`, where it is solid.
pub(crate) fn solid_corners(mesh: &CdtMesh, t: u32) -> (r: Option<(Vertex, Vertex, Vertex)>)
    requires
        mesh@.wf(),
        t < mesh@.tri_count,
    ensures
        r is Some <==> solid(mesh@, t),
        r matches Some((a, b, c)) ==> a == mesh@.pos(mesh@.corner[Otri { tri: t, orient: 0 }]) && b
            == mesh@.pos(mesh@.corner[Otri { tri: t, orient: 1 }]) && c == mesh@.pos(
            mesh@.corner[Otri { tri: t, orient: 2 }],
        ),
{
    if mesh.is_dead(t) {
        return None;
    }
    let n: usize = mesh.vertex_count();
    let v0 = mesh.apex(Otri::new(t, 0));
    let v1 = mesh.apex(Otri::new(t, 1));
    let v2 = mesh.apex(Otri::new(t, 2));
    if v0.index() < n && v1.index() < n && v2.index() < n {
        Some((mesh.vertex_pos(v0), mesh.vertex_pos(v1), mesh.vertex_pos(v2)))
    } else {
        None
    }
}

/// The first live triangle that holds `pt`, boundary counted in.
pub fn locate_triangle(mesh: &CdtMesh, pt: Vertex) -> (r: Option<u32>)
    requires
        mesh@.wf(),
    ensures
        r == first_holding(mesh@, pt, 1),
{
    let n: usize = mesh.tri_slots();
    let mut t: usize = 1;
    while t < n
        invariant
            1 <= t <= n,
            n == mesh@.tri_count,
            n <= crate::mesh::TRI_LIMIT,
            mesh@.wf(),
            first_holding(mesh@, pt, t as nat) == first_holding(mesh@, pt, 1),
        decreases n - t,
    {
        if let Some((a, b, c)) = solid_corners(mesh, t as u32) {
            if contains(a, b, c, pt) {
                return Some(t as u32);
            }
        }
        t += 1;
    }
    None
}

/// A key brought into `lo..=hi`.
pub open spec fn clamped(k: int, lo: int, hi: int) -> int {
    if k < lo {
        lo
    } else if k > hi {
        hi
    } else {
        k
    }
}

/// The cell of key `k` when `lo..=hi` is cut into `n` cells.
pub open spec fn cell(k: int, lo: int, hi: int, n: int) -> int {
    ((clamped(k, lo, hi) - lo) * n) / (hi - lo + 1)
}

pub(crate) proof fn lemma_cell_range(k: int, lo: int, hi: int, n: int)
    requires
        lo <= hi,
        n >= 1,
    ensures
        0 <= cell(k, lo, hi, n) < n,
{
    let off = clamped(k, lo, hi) - lo;
    let span = hi - lo + 1;
    assert(0 <= off * n < span * n) by (nonlinear_arith)
        requires
            0 <= off < span,
            n >= 1,
    ;
    vstd::arithmetic::div_mod::lemma_multiply_divide_lt(off * n, span, n);
    vstd::arithmetic::div_mod::lemma_div_pos_is_pos(off * n, span);
}

pub(crate) proof fn lemma_cell_monotone(j: int, k: int, lo: int, hi: int, n: int)
    requires
        lo <= hi,
        n >= 1,
        j <= k,
    ensures
        cell(j, lo, hi, n) <= cell(k, lo, hi, n),
{
    let (a, b) = (clamped(j, lo, hi) - lo, clamped(k, lo, hi) - lo);
    assert(a * n <= b * n) by (nonlinear_arith)
        requires
            a <= b,
            n >= 1,
    ;
    vstd::arithmetic::div_mod::lemma_div_is_ordered(a * n, b * n, hi - lo + 1);
}

/// The cell of a key, as an executable number.
pub(crate) fn cell_of(k: i64, lo: i64, hi: i64, n: usize) -> (r: usize)
    requires
        lo <= hi,
        1 <= n <= 0x8000,
    ensures
        r == cell(k as int, lo as int, hi as int, n as int),
        r < n,
{
    let c: i64 = if k < lo {
        lo
    } else if k > hi {
        hi
    } else {
        k
    };
    let off: i128 = c as i128 - lo as i128;
    let span: i128 = hi as i128 - lo as i128 + 1;
    proof {
        lemma_cell_range(k as int, lo as int, hi as int, n as int);
        assert(0 <= off * n <= 0x1_0000_0000_0000_0000 * 0x8000) by (nonlinear_arith)
            requires
                0 <= off <= 0x1_0000_0000_0000_0000,
                1 <= n <= 0x8000,
        ;
    }
    ((off * n as i128) / span) as usize
}

fn min3(a: i64, b: i64, c: i64) -> (r: i64)
    ensures
        r <= a,
        r <= b,
        r <= c,
        r == a || r == b || r == c,
{
    let m: i64 = if a < b {
        a
    } else {
        b
    };
    if m < c {
        m
    } else {
        c
    }
}

fn max3(a: i64, b: i64, c: i64) -> (r: i64)
    ensures
        r >= a,
        r >= b,
        r >= c,
        r == a || r == b || r == c,
{
    let m: i64 = if a > b {
        a
    } else {
        b
    };
    if m > c {
        m
    } else {
        c
    }
}

/// Cell index of a hole in an `n` by `n` grid.
spec fn hole_cell(p: Vertex, x0: int, x1: int, y0: int, y1: int, n: int) -> int {
    cell(key(p.y), y0, y1, n) * n + cell(key(p.x), x0, x1, n)
}

/// Whether hole `h` has been tried against the current triangle once the
/// cells of rows before `iy`, and of row `iy` before column `ix`, are done.
spec fn tried(cx: int, cy: int, c0: int, c1: int, r0: int, iy: int, ix: int) -> bool {
    c0 <= cx <= c1 && r0 <= cy && (cy < iy || (cy == iy && cx < ix))
}

/// For every hole, the first live triangle that holds it, found in one pass
/// over the triangles with the holes sorted into a grid of cells.
pub fn locate_holes_gridded(mesh: &CdtMesh, holes: &Vec<PslgHole>) -> (seeds: Vec<Option<u32>>)
    requires
        mesh@.wf(),
    ensures
        seeds@.len() == holes@.len(),
        forall|h: int| 0 <= h < holes@.len() ==> #[trigger] seeds@[h] == first_holding(
            mesh@,
            holes@[h].point,
            1,
        ),
{
    let count: usize = holes.len();
    let mut seeds: Vec<Option<u32>> = Vec::new();
    if count == 0 {
        return seeds;
    }
    let mut x0: i64 = coord_key(holes[0].point.x);
    let mut x1: i64 = x0;
    let mut y0: i64 = coord_key(holes[0].point.y);
    let mut y1: i64 = y0;
    let mut i: usize = 0;
    while i < count
        invariant
            i <= count,
            count == holes@.len(),
            seeds@.len() == i,
            x0 <= x1,
            y0 <= y1,
            forall|h: int| 0 <= h < i ==> #[trigger] seeds@[h] is None,
            forall|h: int|
                0 <= h < i ==> x0 <= key((#[trigger] holes@[h]).point.x) <= x1 && y0 <= key(
                    holes@[h].point.y,
                ) <= y1,
        decreases count - i,
    {
        let kx: i64 = coord_key(holes[i].point.x);
        let ky: i64 = coord_key(holes[i].point.y);
        x0 = min3(x0, kx, kx);
        x1 = max3(x1, kx, kx);
        y0 = min3(y0, ky, ky);
        y1 = max3(y1, ky, ky);
        seeds.push(None);
        i += 1;
    }
    let mut n: usize = 1;
    while n < 0x8000 && n * n < count
        invariant
            1 <= n <= 0x8000,
            n < 0x8000 ==> n * n <= 0x8000 * 0x8000,
        decreases 0x8000 - n,
    {
        n += 1;
        assert(n * n <= 0x8000 * 0x8000) by (nonlinear_arith)
            requires
                n <= 0x8000,
        ;
    }
    assert(n * n <= 0x8000 * 0x8000) by (nonlinear_arith)
        requires
            n <= 0x8000,
    ;
    let cells: usize = n * n;
    let mut buckets: Vec<Vec<usize>> = Vec::new();
    let mut i: usize = 0;
    while i < cells
        invariant
            i <= cells,
            buckets@.len() == i,
            forall|b: int, j: int|
                0 <= b < i && 0 <= j < buckets@[b]@.len() ==> (#[trigger] buckets@[b]@[j]) < count,
        decreases cells - i,
    {
        buckets.push(Vec::new());
        i += 1;
    }
    let ghost (gx0, gx1, gy0, gy1, gn) = (x0 as int, x1 as int, y0 as int, y1 as int, n as int);
    let mut i: usize = 0;
    while i < count
        invariant
            i <= count,
            count == holes@.len(),
            1 <= n <= 0x8000,
            cells == n * n,
            x0 <= x1,
            y0 <= y1,
            (gx0, gx1, gy0, gy1, gn) == (x0 as int, x1 as int, y0 as int, y1 as int, n as int),
            buckets@.len() == cells,
            forall|b: int, j: int|
                0 <= b < cells && 0 <= j < buckets@[b]@.len() ==> (#[trigger] buckets@[b]@[j])
                    < count,
            forall|h: int|
                0 <= h < i ==> 0 <= hole_cell((#[trigger] holes@[h]).point, gx0, gx1, gy0, gy1, gn)
                    < cells && buckets@[hole_cell(
                    holes@[h].point,
                    gx0,
                    gx1,
                    gy0,
                    gy1,
                    gn,
                )]@.contains(h as usize),
        decreases count - i,
    {
        let cx: usize = cell_of(coord_key(holes[i].point.x), x0, x1, n);
        let cy: usize = cell_of(coord_key(holes[i].point.y), y0, y1, n);
        assert(cy * n + cx < n * n) by (nonlinear_arith)
            requires
                cy < n,
                cx < n,
        ;
        assert(cy * n + cx >= 0) by (nonlinear_arith);
        assert(cy * n <= cy * n + cx && cy * n <= n * n) by (nonlinear_arith)
            requires
                cy < n,
                cx < n,
        ;
        let b: usize = cy * n + cx;
        let ghost before = buckets@;
        buckets[b].push(i);
        proof {
            assert(buckets@[b as int]@ == before[b as int]@.push(i));
            assert(buckets@[b as int]@[before[b as int]@.len() as int] == i);
            assert forall|h: int| 0 <= h < i + 1 implies 0 <= hole_cell(
                (#[trigger] holes@[h]).point,
                gx0,
                gx1,
                gy0,
                gy1,
                gn,
            ) < cells && buckets@[hole_cell(
                holes@[h].point,
                gx0,
                gx1,
                gy0,
                gy1,
                gn,
            )]@.contains(h as usize) by {
                if h < i {
                    let c = hole_cell(holes@[h].point, gx0, gx1, gy0, gy1, gn);
                    assert(before[c]@.contains(h as usize));
                    let j = choose|j: int|
                        0 <= j < before[c]@.len() && before[c]@[j] == h as usize;
                    assert(buckets@[c]@[j] == h as usize);
                }
            }
        }
        i += 1;
    }
    let slots: usize = mesh.tri_slots();
    let mut t: usize = 1;
    while t < slots
        invariant
            1 <= t <= slots,
            slots == mesh@.tri_count,
            slots <= crate::mesh::TRI_LIMIT,
            mesh@.wf(),
            count == holes@.len(),
            seeds@.len() == count,
            1 <= n <= 0x8000,
            cells == n * n,
            x0 <= x1,
            y0 <= y1,
            (gx0, gx1, gy0, gy1, gn) == (x0 as int, x1 as int, y0 as int, y1 as int, n as int),
            buckets@.len() == cells,
            forall|b: int, j: int|
                0 <= b < cells && 0 <= j < buckets@[b]@.len() ==> (#[trigger] buckets@[b]@[j])
                    < count,
            forall|h: int|
                0 <= h < count ==> 0 <= hole_cell(
                    (#[trigger] holes@[h]).point,
                    gx0,
                    gx1,
                    gy0,
                    gy1,
                    gn,
                ) < cells && buckets@[hole_cell(
                    holes@[h].point,
                    gx0,
                    gx1,
                    gy0,
                    gy1,
                    gn,
                )]@.contains(h as usize),
            forall|h: int|
                0 <= h < count ==> (match #[trigger] seeds@[h] {
                    Some(x) => first_holding(mesh@, holes@[h].point, 1) == Some(x),
                    None => first_holding(mesh@, holes@[h].point, 1) == first_holding(
                        mesh@,
                        holes@[h].point,
                        t as nat,
                    ),
                }),
        decreases slots - t,
    {
        let ghost seeds0 = seeds@;
        if let Some((a, b, c)) = solid_corners(mesh, t as u32) {
            let (ax, bx, cx) = (coord_key(a.x), coord_key(b.x), coord_key(c.x));
            let (ay, by, cy) = (coord_key(a.y), coord_key(b.y), coord_key(c.y));
            let c0: usize = cell_of(min3(ax, bx, cx), x0, x1, n);
            let c1: usize = cell_of(max3(ax, bx, cx), x0, x1, n);
            let r0: usize = cell_of(min3(ay, by, cy), y0, y1, n);
            let r1: usize = cell_of(max3(ay, by, cy), y0, y1, n);
            proof {
                lemma_cell_monotone(
                    min3_of(ax as int, bx as int, cx as int),
                    max3_of(ax as int, bx as int, cx as int),
                    gx0,
                    gx1,
                    gn,
                );
                lemma_cell_monotone(
                    min3_of(ay as int, by as int, cy as int),
                    max3_of(ay as int, by as int, cy as int),
                    gy0,
                    gy1,
                    gn,
                );
            }
            let mut iy: usize = r0;
            while iy <= r1
                invariant
                    r0 <= iy <= r1 + 1,
                    r1 < n,
                    c1 < n,
                    c0 <= c1,
                    t < slots,
                    slots == mesh@.tri_count,
                    slots <= crate::mesh::TRI_LIMIT,
                    count == holes@.len(),
                    seeds@.len() == count,
                    seeds0.len() == count,
                    1 <= n <= 0x8000,
                    cells == n * n,
                    gn == n,
                    buckets@.len() == cells,
                    solid(mesh@, t as u32),
                    a == mesh@.pos(mesh@.corner[Otri { tri: t as u32, orient: 0 }]),
                    b == mesh@.pos(mesh@.corner[Otri { tri: t as u32, orient: 1 }]),
                    c == mesh@.pos(mesh@.corner[Otri { tri: t as u32, orient: 2 }]),
                    forall|b: int, j: int|
                        0 <= b < cells && 0 <= j < buckets@[b]@.len() ==> (
                        #[trigger] buckets@[b]@[j]) < count,
                    forall|h: int|
                        0 <= h < count ==> 0 <= hole_cell(
                            (#[trigger] holes@[h]).point,
                            gx0,
                            gx1,
                            gy0,
                            gy1,
                            gn,
                        ) < cells && buckets@[hole_cell(
                            holes@[h].point,
                            gx0,
                            gx1,
                            gy0,
                            gy1,
                            gn,
                        )]@.contains(h as usize),
                    forall|h: int|
                        0 <= h < count ==> #[trigger] seeds@[h] == seeds0[h] || (seeds0[h] is None
                            && seeds@[h] == Some(t as u32) && holds(
                            mesh@,
                            t as u32,
                            holes@[h].point,
                        )),
                    forall|h: int|
                        0 <= h < count && tried(
                            cell(key(holes@[h].point.x), gx0, gx1, gn),
                            cell(key(holes@[h].point.y), gy0, gy1, gn),
                            c0 as int,
                            c1 as int,
                            r0 as int,
                            iy as int,
                            c0 as int,
                        ) && holds(mesh@, t as u32, holes@[h].point) ==> #[trigger] seeds@[h]
                            is Some,
                decreases r1 + 1 - iy,
            {
                let mut ix: usize = c0;
                while ix <= c1
                    invariant
                        c0 <= ix <= c1 + 1,
                        r0 <= iy <= r1,
                        r1 < n,
                        c1 < n,
                        t < slots,
                        slots == mesh@.tri_count,
                        slots <= crate::mesh::TRI_LIMIT,
                        count == holes@.len(),
                        seeds@.len() == count,
                        seeds0.len() == count,
                        1 <= n <= 0x8000,
                        cells == n * n,
                        gn == n,
                        buckets@.len() == cells,
                        solid(mesh@, t as u32),
                        a == mesh@.pos(mesh@.corner[Otri { tri: t as u32, orient: 0 }]),
                        b == mesh@.pos(mesh@.corner[Otri { tri: t as u32, orient: 1 }]),
                        c == mesh@.pos(mesh@.corner[Otri { tri: t as u32, orient: 2 }]),
                        forall|b: int, j: int|
                            0 <= b < cells && 0 <= j < buckets@[b]@.len() ==> (
                            #[trigger] buckets@[b]@[j]) < count,
                        forall|h: int|
                            0 <= h < count ==> 0 <= hole_cell(
                                (#[trigger] holes@[h]).point,
                                gx0,
                                gx1,
                                gy0,
                                gy1,
                                gn,
                            ) < cells && buckets@[hole_cell(
                                holes@[h].point,
                                gx0,
                                gx1,
                                gy0,
                                gy1,
                                gn,
                            )]@.contains(h as usize),
                        forall|h: int|
                            0 <= h < count ==> #[trigger] seeds@[h] == seeds0[h] || (
                            seeds0[h] is None && seeds@[h] == Some(t as u32) && holds(
                                mesh@,
                                t as u32,
                                holes@[h].point,
                            )),
                        forall|h: int|
                            0 <= h < count && tried(
                                cell(key(holes@[h].point.x), gx0, gx1, gn),
                                cell(key(holes@[h].point.y), gy0, gy1, gn),
                                c0 as int,
                                c1 as int,
                                r0 as int,
                                iy as int,
                                ix as int,
                            ) && holds(mesh@, t as u32, holes@[h].point) ==> #[trigger] seeds@[h]
                                is Some,
                    decreases c1 + 1 - ix,
                {
                    assert(iy * n + ix < n * n && iy * n <= n * n) by (nonlinear_arith)
                        requires
                            iy < n,
                            ix < n,
                    ;
                    let bi: usize = iy * n + ix;
                    let mut j: usize = 0;
                    while j < buckets[bi].len()
                        invariant
                            bi < cells,
                            bi == iy * n + ix,
                            j <= buckets@[bi as int]@.len(),
                            t < slots,
                            slots == mesh@.tri_count,
                            slots <= crate::mesh::TRI_LIMIT,
                            count == holes@.len(),
                            seeds@.len() == count,
                            seeds0.len() == count,
                            buckets@.len() == cells,
                            solid(mesh@, t as u32),
                            a == mesh@.pos(mesh@.corner[Otri { tri: t as u32, orient: 0 }]),
                            b == mesh@.pos(mesh@.corner[Otri { tri: t as u32, orient: 1 }]),
                            c == mesh@.pos(mesh@.corner[Otri { tri: t as u32, orient: 2 }]),
                            forall|b: int, j: int|
                                0 <= b < cells && 0 <= j < buckets@[b]@.len() ==> (
                                #[trigger] buckets@[b]@[j]) < count,
                            forall|h: int|
                                0 <= h < count ==> #[trigger] seeds@[h] == seeds0[h] || (
                                seeds0[h] is None && seeds@[h] == Some(t as u32) && holds(
                                    mesh@,
                                    t as u32,
                                    holes@[h].point,
                                )),
                            forall|h: int|
                                0 <= h < count && tried(
                                    cell(key(holes@[h].point.x), gx0, gx1, gn),
                                    cell(key(holes@[h].point.y), gy0, gy1, gn),
                                    c0 as int,
                                    c1 as int,
                                    r0 as int,
                                    iy as int,
                                    ix as int,
                                ) && holds(mesh@, t as u32, holes@[h].point)
                                    ==> #[trigger] seeds@[h] is Some,
                            forall|q: int|
                                0 <= q < j && holds(
                                    mesh@,
                                    t as u32,
                                    holes@[#[trigger] buckets@[bi as int]@[q] as int].point,
                                ) ==> seeds@[buckets@[bi as int]@[q] as int] is Some,
                        decreases buckets@[bi as int]@.len() - j,
                    {
                        let h: usize = buckets[bi][j];
                        if seeds[h].is_none() {
                            if contains(a, b, c, holes[h].point) {
                                seeds.set(h, Some(t as u32));
                            }
                        }
                        j += 1;
                    }
                    proof {
                        assert forall|h: int|
                            0 <= h < count && tried(
                                cell(key(holes@[h].point.x), gx0, gx1, gn),
                                cell(key(holes@[h].point.y), gy0, gy1, gn),
                                c0 as int,
                                c1 as int,
                                r0 as int,
                                iy as int,
                                ix + 1,
                            ) && holds(
                                mesh@,
                                t as u32,
                                holes@[h].point,
                            ) implies #[trigger] seeds@[h] is Some by {
                            let hx = cell(key(holes@[h].point.x), gx0, gx1, gn);
                            let hy = cell(key(holes@[h].point.y), gy0, gy1, gn);
                            if hx == ix && hy == iy {
                                assert(hole_cell(holes@[h].point, gx0, gx1, gy0, gy1, gn) == bi);
                                assert(buckets@[bi as int]@.contains(h as usize));
                                let q = choose|q: int|
                                    0 <= q < buckets@[bi as int]@.len()
                                        && buckets@[bi as int]@[q] == h as usize;
                                assert(buckets@[bi as int]@[q] == h);
                            }
                        }
                    }
                    ix += 1;
                }
                iy += 1;
            }
            proof {
                assert forall|h: int|
                    0 <= h < count && holds(
                        mesh@,
                        t as u32,
                        holes@[h].point,
                    ) implies #[trigger] seeds@[h] is Some by {
                    let p = holes@[h].point;
                    let lx = min3_of(ax as int, bx as int, cx as int);
                    let hx = max3_of(ax as int, bx as int, cx as int);
                    let ly = min3_of(ay as int, by as int, cy as int);
                    let hy = max3_of(ay as int, by as int, cy as int);
                    lemma_cell_monotone(lx, key(p.x), gx0, gx1, gn);
                    lemma_cell_monotone(key(p.x), hx, gx0, gx1, gn);
                    lemma_cell_monotone(ly, key(p.y), gy0, gy1, gn);
                    lemma_cell_monotone(key(p.y), hy, gy0, gy1, gn);
                }
            }
        }
        t += 1;
    }
    seeds
}

spec fn min3_of(a: int, b: int, c: int) -> int {
    if a <= b && a <= c {
        a
    } else if b <= c {
        b
    } else {
        c
    }
}

spec fn max3_of(a: int, b: int, c: int) -> int {
    if a >= b && a >= c {
        a
    } else if b >= c {
        b
    } else {
        c
    }
}

/// The infected triangles and the worklist after a seed triangle, if any, is
/// infected.
pub open spec fn seed_infected(infected: Seq<bool>, work: Seq<u32>, seed: Option<u32>) -> (
    Seq<bool>,
    Seq<u32>,
) {
    match seed {
        Some(t) => if infected[t as int] {
            (infected, work)
        } else {
            (infected.update(t as int, true), work.push(t))
        },
        None => (infected, work),
    }
}

/// Infection of the triangles that hold the holes from number `i` on.
pub open spec fn holes_seeded(
    m: MeshView,
    holes: Seq<PslgHole>,
    i: nat,
    infected: Seq<bool>,
    work: Seq<u32>,
) -> (Seq<bool>, Seq<u32>)
    decreases holes.len() - i,
{
    if i >= holes.len() {
        (infected, work)
    } else {
        let (i1, w1) = seed_infected(
            infected,
            work,
            first_holding(m, holes[i as int].point, 1),
        );
        holes_seeded(m, holes, i + 1, i1, w1)
    }
}

/// Infect, in hole order, the first triangle that holds each hole point; a
/// hole outside every triangle is skipped.
pub fn seed_holes(
    mesh: &CdtMesh,
    pslg: &Pslg,
    infected: &mut Vec<bool>,
    worklist: &mut VecDeque<u32>,
)
    requires
        mesh@.wf(),
        work_ok(mesh@, old(infected)@, old(worklist)@),
    ensures
        (final(infected)@, final(worklist)@) == holes_seeded(
            mesh@,
            pslg.holes@,
            0,
            old(infected)@,
            old(worklist)@,
        ),
        work_ok(mesh@, final(infected)@, final(worklist)@),
{
    let seeds: Vec<Option<u32>> = if pslg.holes.len() == 1 {
        let mut one: Vec<Option<u32>> = Vec::new();
        one.push(locate_triangle(mesh, pslg.holes[0].point));
        one
    } else {
        locate_holes_gridded(mesh, &pslg.holes)
    };
    let mut i: usize = 0;
    while i < seeds.len()
        invariant
            i <= seeds@.len(),
            seeds@.len() == pslg.holes@.len(),
            mesh@.wf(),
            work_ok(mesh@, infected@, worklist@),
            forall|h: int| 0 <= h < seeds@.len() ==> #[trigger] seeds@[h] == first_holding(
                mesh@,
                pslg.holes@[h].point,
                1,
            ),
            holes_seeded(mesh@, pslg.holes@, i as nat, infected@, worklist@) == holes_seeded(
                mesh@,
                pslg.holes@,
                0,
                old(infected)@,
                old(worklist)@,
            ),
        decreases seeds@.len() - i,
    {
        if let Some(t) = seeds[i] {
            proof {
                first_holding_is_first(mesh@, pslg.holes@[i as int].point, 1);
            }
            if !infected[t as usize] {
                infected.set(t as usize, true);
                worklist.push_back(t);
            }
        }
        i += 1;
    }
}

// --- Plague -----------------------------------------------------------------

/// Whether the infection already has the triangle beyond an edge: there is
/// none, or it is infected.
pub open spec fn beyond_is_lost(infected: Seq<bool>, n: Otri) -> bool {
    n.tri == 0 || n.tri >= infected.len() || infected[n.tri as int]
}

/// State of the spreading infection.
pub struct Plague {
    pub mesh: MeshView,
    pub infected: Seq<bool>,
    pub work: Seq<u32>,
}

/// The infection crossing edge `o` of an infected triangle: a subsegment
/// between two lost sides dies; a subsegment before a healthy triangle
/// becomes a boundary; an open edge passes the infection on.
pub open spec fn plague_edge(p: Plague, o: Otri) -> Plague {
    let n = p.mesh.sym(o);
    let s = p.mesh.tsub[o];
    if beyond_is_lost(p.infected, n) {
        if s.sub != 0 {
            let killed = p.mesh.without_subseg(s.sub);
            Plague {
                mesh: if n.tri != 0 {
                    killed.with_tsub(n, no_sub())
                } else {
                    killed
                },
                ..p
            }
        } else {
            p
        }
    } else if s.sub == 0 {
        Plague {
            infected: p.infected.update(n.tri as int, true),
            work: p.work.push(n.tri),
            ..p
        }
    } else {
        Plague { mesh: exposed(p.mesh, s, n), ..p }
    }
}

/// The infection crossing the three edges of triangle `t`.
pub open spec fn plague_triangle(p: Plague, t: u32) -> Plague {
    let o = Otri { tri: t, orient: 0 };
    plague_edge(plague_edge(plague_edge(p, o), o.next()), o.prev())
}

/// The infection spread until the worklist is empty.
pub open spec fn plagued(p: Plague) -> Plague
    decreases unmarked(p.infected), p.work.len(),
    via plagued_ends
{
    if p.work.len() == 0 {
        p
    } else {
        plagued(plague_triangle(Plague { work: p.work.drop_first(), ..p }, p.work[0]))
    }
}

#[via_fn]
proof fn plagued_ends(p: Plague) {
    if p.work.len() > 0 {
        let q = Plague { work: p.work.drop_first(), ..p };
        let o = Otri { tri: p.work[0], orient: 0 };
        lemma_plague_edge_measure(q, o);
        lemma_plague_edge_measure(plague_edge(q, o), o.next());
        lemma_plague_edge_measure(plague_edge(plague_edge(q, o), o.next()), o.prev());
    }
}

proof fn lemma_plague_edge_measure(p: Plague, o: Otri)
    ensures
        ({
            let q = plague_edge(p, o);
            unmarked(q.infected) < unmarked(p.infected) || (q.infected == p.infected && q.work
                == p.work)
        }),
{
    let n = p.mesh.sym(o);
    if !beyond_is_lost(p.infected, n) && p.mesh.tsub[o].sub == 0 {
        lemma_unmarked_update(p.infected, n.tri as int);
    }
}

fn cross_edge(
    mesh: &mut CdtMesh,
    infected: &mut Vec<bool>,
    worklist: &mut VecDeque<u32>,
    here: Otri,
)
    requires
        old(mesh)@.wf(),
        old(mesh)@.has(here),
        work_ok(old(mesh)@, old(infected)@, old(worklist)@),
    ensures
        (Plague { mesh: final(mesh)@, infected: final(infected)@, work: final(worklist)@ })
            == plague_edge(
            Plague { mesh: old(mesh)@, infected: old(infected)@, work: old(worklist)@ },
            here,
        ),
        final(mesh)@.wf(),
        final(mesh)@.tri_count == old(mesh)@.tri_count,
        same_frame(old(mesh)@, final(mesh)@),
        work_ok(final(mesh)@, final(infected)@, final(worklist)@),
{
    let neighbor = mesh.sym(here);
    let sub = mesh.tspivot(here);
    if neighbor.tri == DUMMY_TRI || infected[neighbor.tri as usize] {
        if sub.sub != DUMMY_SUB {
            mesh.kill_subseg(sub.sub);
            if neighbor.tri != DUMMY_TRI {
                mesh.ts_dissolve(neighbor);
            }
        }
    } else if sub.sub == DUMMY_SUB {
        infected.set(neighbor.tri as usize, true);
        worklist.push_back(neighbor.tri);
    } else {
        expose(mesh, sub, neighbor);
    }
}

/// Spread the infection over every edge without a subsegment.
pub fn plague(mesh: &mut CdtMesh, infected: &mut Vec<bool>, worklist: &mut VecDeque<u32>)
    requires
        old(mesh)@.wf(),
        work_ok(old(mesh)@, old(infected)@, old(worklist)@),
    ensures
        (Plague { mesh: final(mesh)@, infected: final(infected)@, work: final(worklist)@ })
            == plagued(
            Plague { mesh: old(mesh)@, infected: old(infected)@, work: old(worklist)@ },
        ),
        final(mesh)@.wf(),
        final(mesh)@.tri_count == old(mesh)@.tri_count,
        same_frame(old(mesh)@, final(mesh)@),
        final(infected)@.len() == old(infected)@.len(),
        final(worklist)@.len() == 0,
{
    while worklist.len() > 0
        invariant
            mesh@.wf(),
            mesh@.tri_count == old(mesh)@.tri_count,
            same_frame(old(mesh)@, mesh@),
            infected@.len() == old(infected)@.len(),
            work_ok(mesh@, infected@, worklist@),
            plagued(Plague { mesh: mesh@, infected: infected@, work: worklist@ }) == plagued(
                Plague { mesh: old(mesh)@, infected: old(infected)@, work: old(worklist)@ },
            ),
        decreases unmarked(infected@), worklist@.len(),
    {
        let ghost p0 = Plague { mesh: mesh@, infected: infected@, work: worklist@ };
        let popped = worklist.pop_front();
        if let Some(t) = popped {
            proof {
                assert(worklist@ =~= p0.work.drop_first());
                assert(work_ok(mesh@, infected@, worklist@)) by {
                    assert forall|i: int| 0 <= i < worklist@.len() implies (
                    #[trigger] worklist@[i]) < mesh@.tri_count && infected@[worklist@[i] as int] by {
                        assert(p0.work[i + 1] == worklist@[i]);
                    }
                }
            }
            let o = Otri::new(t, 0);
            let ghost q0 = Plague { mesh: mesh@, infected: infected@, work: worklist@ };
            proof {
                lemma_plague_edge_measure(q0, o);
                lemma_plague_edge_measure(plague_edge(q0, o), o.next());
                lemma_plague_edge_measure(plague_edge(plague_edge(q0, o), o.next()), o.prev());
            }
            cross_edge(mesh, infected, worklist, o);
            cross_edge(mesh, infected, worklist, o.lnext());
            cross_edge(mesh, infected, worklist, o.lprev());
        }
    }
}

// --- Sweep ------------------------------------------------------------------

/// A healthy triangle beyond edge `o` lets go of it.
pub open spec fn edge_released(m: MeshView, infected: Seq<bool>, o: Otri) -> MeshView {
    let n = m.sym(o);
    if n.tri != 0 && n.tri < infected.len() && !infected[n.tri as int] {
        m.with_nbr(n, no_tri())
    } else {
        m
    }
}

/// Whether the sweep takes the triangle in slot `t`.
pub open spec fn sweeps(m: MeshView, infected: Seq<bool>, t: u32) -> bool {
    infected[t as int] && !m.dead(t)
}

/// Sweeping the slots from `t` on: the mesh left and the number of triangles
/// taken.
pub open spec fn swept(m: MeshView, infected: Seq<bool>, t: nat) -> (MeshView, nat)
    decreases m.tri_count - t,
{
    if t >= m.tri_count {
        (m, 0)
    } else if sweeps(m, infected, t as u32) {
        let o = Otri { tri: t as u32, orient: 0 };
        let m1 = edge_released(m, infected, o);
        let m2 = edge_released(m1, infected, o.next());
        let m3 = edge_released(m2, infected, o.prev());
        let (w, k) = swept(m3.without_triangle(t as u32), infected, t + 1);
        (w, k + 1)
    } else {
        swept(m, infected, t + 1)
    }
}

fn release_edge(mesh: &mut CdtMesh, infected: &Vec<bool>, here: Otri)
    requires
        old(mesh)@.wf(),
        old(mesh)@.has(here),
        infected@.len() == old(mesh)@.tri_count,
    ensures
        final(mesh)@ == edge_released(old(mesh)@, infected@, here),
        final(mesh)@.wf(),
        final(mesh)@.tri_count == old(mesh)@.tri_count,
{
    let neighbor = mesh.sym(here);
    if neighbor.tri != DUMMY_TRI && !infected[neighbor.tri as usize] {
        mesh.dissolve(neighbor);
    }
}

/// Detach every infected triangle from its healthy neighbours and free its
/// slot. Returns the number of triangles killed.
pub fn sweep(mesh: &mut CdtMesh, infected: &Vec<bool>) -> (killed: usize)
    requires
        old(mesh)@.wf(),
        infected@.len() == old(mesh)@.tri_count,
    ensures
        (final(mesh)@, killed as nat) == swept(old(mesh)@, infected@, 1),
        final(mesh)@.wf(),
        final(mesh)@.tri_count == old(mesh)@.tri_count,
        final(mesh)@.vertices == old(mesh)@.vertices,
{
    let n: usize = mesh.tri_slots();
    let mut killed: usize = 0;
    let mut t: usize = 1;
    while t < n
        invariant
            1 <= t <= n,
            n == mesh@.tri_count,
            n == infected@.len(),
            n <= crate::mesh::TRI_LIMIT,
            killed < t,
            mesh@.wf(),
            mesh@.tri_count == old(mesh)@.tri_count,
            mesh@.vertices == old(mesh)@.vertices,
            swept(old(mesh)@, infected@, 1) == (
                swept(mesh@, infected@, t as nat).0,
                swept(mesh@, infected@, t as nat).1 + killed as nat,
            ),
        decreases n - t,
    {
        let ti: u32 = t as u32;
        if infected[t] && !mesh.is_dead(ti) {
            let o = Otri::new(ti, 0);
            release_edge(mesh, infected, o);
            release_edge(mesh, infected, o.lnext());
            release_edge(mesh, infected, o.lprev());
            mesh.kill_triangle(ti);
            killed += 1;
        }
        t += 1;
    }
    killed
}

/// Carving: infect from the hull unless the input is convex, infect from the
/// holes, spread, sweep.
pub open spec fn carved(m: MeshView, holes: Seq<PslgHole>, convex: bool) -> (
    MeshView,
    Result<nat, MeshFault>,
) {
    let none = Seq::new(m.tri_count, |i: int| false);
    let (i1, w1, r1) = if convex {
        (none, Seq::<u32>::empty(), Ok(()))
    } else {
        hull_seeded(m, none, Seq::empty())
    };
    match r1 {
        Err(e) => (m, Err(e)),
        Ok(_) => {
            let (i2, w2) = holes_seeded(m, holes, 0, i1, w1);
            let p = plagued(Plague { mesh: m, infected: i2, work: w2 });
            let (w, k) = swept(p.mesh, p.infected, 1);
            (w, Ok(k))
        },
    }
}

/// Carve the holes of `pslg` and, unless `convex`, the unprotected parts of
/// the hull. Returns the number of triangles removed.
pub fn carve_holes(mesh: &mut CdtMesh, pslg: &Pslg, convex: bool) -> (r: Result<usize, MeshFault>)
    requires
        old(mesh)@.wf(),
    ensures
        final(mesh)@ == carved(old(mesh)@, pslg.holes@, convex).0,
        match carved(old(mesh)@, pslg.holes@, convex).1 {
            Ok(k) => r matches Ok(n) && n == k,
            Err(e) => r == Err::<usize, MeshFault>(e),
        },
        final(mesh)@.wf(),
        final(mesh)@.tri_count == old(mesh)@.tri_count,
        same_frame(old(mesh)@, final(mesh)@),
{
    let mut infected: Vec<bool> = vec![false; mesh.tri_slots()];
    let mut worklist: VecDeque<u32> = VecDeque::new();
    proof {
        assert(infected@ =~= Seq::new(mesh@.tri_count, |i: int| false));
        assert(worklist@ =~= Seq::<u32>::empty());
    }
    if !convex {
        let seeded = infect_hull(mesh, &mut infected, &mut worklist);
        if let Err(e) = seeded {
            return Err(e);
        }
    }
    seed_holes(mesh, pslg, &mut infected, &mut worklist);
    plague(mesh, &mut infected, &mut worklist);
    Ok(sweep(mesh, &infected))
}

// --- What carving means -----------------------------------------------------

/// Every neighbour of a live triangle is live and glued back.
pub open spec fn live_links(m: MeshView) -> bool {
    forall|o: Otri|
        m.has(o) && o.tri != 0 && !m.dead(o.tri) && (#[trigger] m.nbr[o]).tri != 0 ==> !m.dead(
            m.nbr[o].tri,
        ) && m.nbr[m.nbr[o]] == o
}

/// Whether an edge lets the infection through: no subsegment, and a triangle
/// beyond.
pub open spec fn open_edge(m: MeshView, o: Otri) -> bool {
    m.has(o) && m.tsub[o].sub == 0 && m.nbr[o].tri != 0
}

/// Whether triangle `t` is at most `k` open edges away from a seed.
pub open spec fn reached(m: MeshView, seeds: Seq<bool>, t: u32, k: nat) -> bool
    decreases k,
{
    if k == 0 {
        seeds[t as int]
    } else {
        reached(m, seeds, t, (k - 1) as nat) || exists|o: Otri|
            #[trigger] open_edge(m, o) && m.nbr[o].tri == t && reached(
                m,
                seeds,
                o.tri,
                (k - 1) as nat,
            )
    }
}

/// Whether a chain of open edges leads from a seed to triangle `t`.
pub open spec fn reachable(m: MeshView, seeds: Seq<bool>, t: u32) -> bool {
    exists|k: nat| reached(m, seeds, t, k)
}

spec fn edge_done(m0: MeshView, infected: Seq<bool>, o: Otri) -> bool {
    open_edge(m0, o) ==> infected[m0.nbr[o].tri as int]
}

spec fn triangle_done(m0: MeshView, infected: Seq<bool>, t: u32) -> bool {
    forall|o: Otri| o.tri == t && m0.has(o) ==> #[trigger] edge_done(m0, infected, o)
}

spec fn spreading(m0: MeshView, seeds: Seq<bool>, p: Plague) -> bool {
    &&& p.mesh.nbr == m0.nbr
    &&& p.mesh.tri_count == m0.tri_count
    &&& p.infected.len() == m0.tri_count
    &&& seeds.len() == m0.tri_count
    &&& forall|t: u32|
        t < m0.tri_count && #[trigger] p.infected[t as int] ==> t != 0 && !m0.dead(t) && reachable(
            m0,
            seeds,
            t,
        )
    &&& forall|t: int| 0 <= t < m0.tri_count && seeds[t] ==> #[trigger] p.infected[t]
    &&& forall|o: Otri|
        m0.has(o) && #[trigger] p.mesh.tsub[o] != m0.tsub[o] ==> p.mesh.tsub[o] == no_sub()
            && p.infected[o.tri as int] && m0.nbr[o].tri != 0 && p.infected[m0.nbr[o].tri as int]
    &&& forall|i: int|
        0 <= i < p.work.len() ==> (#[trigger] p.work[i]) < m0.tri_count
            && p.infected[p.work[i] as int]
}

spec fn settled(m0: MeshView, p: Plague, cur: u32) -> bool {
    forall|t: u32|
        t < m0.tri_count && #[trigger] p.infected[t as int] ==> t == cur || p.work.contains(t)
            || triangle_done(m0, p.infected, t)
}

proof fn lemma_spread_edge(m0: MeshView, seeds: Seq<bool>, p: Plague, o: Otri)
    requires
        m0.wf(),
        live_links(m0),
        spreading(m0, seeds, p),
        m0.has(o),
        p.infected[o.tri as int],
        settled(m0, p, o.tri),
    ensures
        ({
            let q = plague_edge(p, o);
            &&& spreading(m0, seeds, q)
            &&& settled(m0, q, o.tri)
            &&& edge_done(m0, q.infected, o)
            &&& forall|t: int| 0 <= t < m0.tri_count && p.infected[t] ==> #[trigger] q.infected[t]
        }),
{
    let q = plague_edge(p, o);
    let n = m0.nbr[o];
    assert(reachable(m0, seeds, o.tri));
    assert(p.mesh.tsub[o] == p.mesh.tsub[o]);
    assert(m0.has(n));
    if !beyond_is_lost(p.infected, n) && p.mesh.tsub[o].sub == 0 {
        assert(open_edge(m0, o));
        let k = choose|k: nat| reached(m0, seeds, o.tri, k);
        assert(reached(m0, seeds, n.tri, k + 1));
        assert(q.work.last() == n.tri);
        assert forall|t: u32| p.work.contains(t) implies q.work.contains(t) by {
            let i = choose|i: int| 0 <= i < p.work.len() && p.work[i] == t;
            assert(q.work[i] == t);
        }
    }
    assert forall|t: u32| t < m0.tri_count && #[trigger] q.infected[t as int] implies t == o.tri
        || q.work.contains(t) || triangle_done(m0, q.infected, t) by {
        if p.infected[t as int] {
            if triangle_done(m0, p.infected, t) {
                assert forall|e: Otri| e.tri == t && m0.has(e) implies #[trigger] edge_done(
                    m0,
                    q.infected,
                    e,
                ) by {
                    assert(edge_done(m0, p.infected, e));
                    assert(m0.has(m0.nbr[e]));
                }
            }
        } else {
            assert(q.work[q.work.len() - 1] == t);
        }
    }
}

proof fn lemma_spread(m0: MeshView, seeds: Seq<bool>, p: Plague)
    requires
        m0.wf(),
        live_links(m0),
        spreading(m0, seeds, p),
        settled(m0, p, 0),
        !p.infected[0],
    ensures
        ({
            let q = plagued(p);
            &&& spreading(m0, seeds, q)
            &&& forall|t: u32|
                t < m0.tri_count && #[trigger] q.infected[t as int] ==> triangle_done(
                    m0,
                    q.infected,
                    t,
                )
        }),
    decreases unmarked(p.infected), p.work.len(),
{
    if p.work.len() == 0 {
        assert forall|t: u32| t < m0.tri_count && #[trigger] p.infected[t as int] implies
            triangle_done(m0, p.infected, t) by {
            assert(!p.work.contains(t));
        }
    } else {
        let t = p.work[0];
        let p0 = Plague { work: p.work.drop_first(), ..p };
        assert(spreading(m0, seeds, p0)) by {
            assert forall|i: int| 0 <= i < p0.work.len() implies (#[trigger] p0.work[i])
                < m0.tri_count && p0.infected[p0.work[i] as int] by {
                assert(p.work[i + 1] == p0.work[i]);
            }
        }
        assert(settled(m0, p0, t)) by {
            assert forall|x: u32| x < m0.tri_count && #[trigger] p0.infected[x as int] implies x
                == t || p0.work.contains(x) || triangle_done(m0, p0.infected, x) by {
                if p.work.contains(x) && x != t {
                    let i = choose|i: int| 0 <= i < p.work.len() && p.work[i] == x;
                    assert(p0.work[i - 1] == x);
                }
            }
        }
        let o = Otri { tri: t, orient: 0 };
        lemma_spread_edge(m0, seeds, p0, o);
        let p1 = plague_edge(p0, o);
        lemma_spread_edge(m0, seeds, p1, o.next());
        let p2 = plague_edge(p1, o.next());
        lemma_spread_edge(m0, seeds, p2, o.prev());
        let p3 = plague_edge(p2, o.prev());
        lemma_plague_edge_measure(p0, o);
        lemma_plague_edge_measure(p1, o.next());
        lemma_plague_edge_measure(p2, o.prev());
        assert(m0.has(m0.nbr[o]) && m0.has(m0.nbr[o.next()]) && m0.has(m0.nbr[o.prev()]));
        assert(triangle_done(m0, p3.infected, t)) by {
            assert(edge_done(m0, p1.infected, o));
            assert(edge_done(m0, p2.infected, o.next()));
            assert forall|e: Otri| e.tri == t && m0.has(e) implies #[trigger] edge_done(
                m0,
                p3.infected,
                e,
            ) by {
                assert(e == o || e == o.next() || e == o.prev());
            }
        }
        assert(settled(m0, p3, 0));
        assert(!p3.infected[0]) by {
            if p3.infected[0] {
                assert(reachable(m0, seeds, 0u32));
            }
        }
        lemma_spread(m0, seeds, p3);
    }
}

/// The plague takes exactly the triangles that a chain of edges without
/// subsegments joins to a seed.
pub proof fn plague_takes_what_it_reaches(m: MeshView, seeds: Seq<bool>, work: Seq<u32>)
    requires
        m.wf(),
        live_links(m),
        seeds.len() == m.tri_count,
        forall|t: u32| t < m.tri_count && #[trigger] seeds[t as int] ==> t != 0 && !m.dead(t)
            && work.contains(t),
        forall|i: int|
            0 <= i < work.len() ==> (#[trigger] work[i]) < m.tri_count && seeds[work[i] as int],
    ensures
        ({
            let q = plagued(Plague { mesh: m, infected: seeds, work });
            forall|t: u32|
                t < m.tri_count ==> (#[trigger] q.infected[t as int] <==> reachable(m, seeds, t))
        }),
{
    let p = Plague { mesh: m, infected: seeds, work };
    assert forall|t: u32| t < m.tri_count && seeds[t as int] implies #[trigger] reachable(
        m,
        seeds,
        t,
    ) by {
        assert(reached(m, seeds, t, 0));
    }
    assert(!seeds[0]) by {
        if seeds[0] {
            assert(seeds[0u32 as int]);
        }
    }
    lemma_spread(m, seeds, p);
    let q = plagued(p);
    assert forall|t: u32| t < m.tri_count implies (#[trigger] q.infected[t as int] <==> reachable(
        m,
        seeds,
        t,
    )) by {
        if reachable(m, seeds, t) {
            let k = choose|k: nat| reached(m, seeds, t, k);
            lemma_reached_taken(m, seeds, q, t, k);
        }
    }
}

proof fn lemma_reached_taken(m: MeshView, seeds: Seq<bool>, q: Plague, t: u32, k: nat)
    requires
        m.wf(),
        spreading(m, seeds, q),
        forall|t: u32|
            t < m.tri_count && #[trigger] q.infected[t as int] ==> triangle_done(
                m,
                q.infected,
                t,
            ),
        t < m.tri_count,
        reached(m, seeds, t, k),
    ensures
        q.infected[t as int],
    decreases k,
{
    if k > 0 {
        if reached(m, seeds, t, (k - 1) as nat) {
            lemma_reached_taken(m, seeds, q, t, (k - 1) as nat);
        } else {
            let o = choose|o: Otri|
                #[trigger] open_edge(m, o) && m.nbr[o].tri == t && reached(
                    m,
                    seeds,
                    o.tri,
                    (k - 1) as nat,
                );
            lemma_reached_taken(m, seeds, q, o.tri, (k - 1) as nat);
            assert(edge_done(m, q.infected, o));
        }
    }
}

/// Number of triangles from slot `t` on that a sweep takes.
pub open spec fn sweep_count(m: MeshView, infected: Seq<bool>, t: nat) -> nat
    decreases m.tri_count - t,
{
    if t >= m.tri_count {
        0
    } else {
        sweep_count(m, infected, t + 1) + if sweeps(m, infected, t as u32) {
            1nat
        } else {
            0nat
        }
    }
}

proof fn lemma_swept(m: MeshView, infected: Seq<bool>, t: nat)
    requires
        m.wf(),
        infected.len() == m.tri_count,
        t >= 1,
    ensures
        ({
            let (w, k) = swept(m, infected, t);
            &&& k == sweep_count(m, infected, t)
            &&& w == (MeshView { nbr: w.nbr, tflags: w.tflags, free_tris: w.free_tris, ..m })
            &&& w.tflags.len() == m.tflags.len()
            &&& forall|x: u32|
                x < m.tri_count ==> (#[trigger] w.dead(x) <==> m.dead(x) || (x >= t
                    && infected[x as int]))
            &&& forall|n: Otri|
                m.has(n) && n.tri != 0 && !infected[n.tri as int] && !(exists|o: Otri|
                    m.has(o) && o.tri >= t && sweeps(m, infected, o.tri) && #[trigger] m.nbr[o] == n)
                    ==> #[trigger] w.nbr[n] == m.nbr[n]
            &&& forall|o: Otri|
                m.has(o) && o.tri >= t && sweeps(m, infected, o.tri) && m.nbr[o].tri != 0
                    && !infected[m.nbr[o].tri as int] ==> w.nbr[#[trigger] m.nbr[o]] == no_tri()
            &&& forall|n: Otri| #[trigger] m.nbr[n] == no_tri() && !infected[n.tri as int] && m.has(
                n,
            ) ==> w.nbr[n] == no_tri()
        }),
    decreases m.tri_count - t,
{
    if t < m.tri_count {
        let ti = t as u32;
        if sweeps(m, infected, ti) {
            let o = Otri { tri: ti, orient: 0 };
            assert(m.has(m.nbr[o]) && m.has(m.nbr[o.next()]) && m.has(m.nbr[o.prev()]));
            let m1 = edge_released(m, infected, o);
            let m2 = edge_released(m1, infected, o.next());
            let m3 = edge_released(m2, infected, o.prev());
            let m4 = m3.without_triangle(ti);
            assert(m4.wf());
            let f = m.tflags[t as int];
            assert((f | 2) & 2 != 0) by (bit_vector);
            lemma_swept(m4, infected, t + 1);
            lemma_count_same(m, m4, infected, t + 1);
            let w = swept(m4, infected, t + 1).0;
            assert forall|e: Otri| m.has(e) && infected[e.tri as int] implies #[trigger] m4.nbr[e]
                == m.nbr[e] by {}
            assert forall|n: Otri|
                m.has(n) && n.tri != 0 && !infected[n.tri as int] && !(exists|o: Otri|
                    m.has(o) && o.tri >= t && sweeps(m, infected, o.tri) && #[trigger] m.nbr[o]
                        == n) implies #[trigger] w.nbr[n] == m.nbr[n] by {
                assert(m.nbr[o] != n && m.nbr[o.next()] != n && m.nbr[o.prev()] != n);
                assert(m4.nbr[n] == m.nbr[n]);
                assert(!(exists|e: Otri|
                    m4.has(e) && e.tri >= t + 1 && sweeps(m4, infected, e.tri) && #[trigger] m4.nbr[e]
                        == n)) by {
                    assert forall|e: Otri|
                        m4.has(e) && e.tri >= t + 1 && sweeps(
                            m4,
                            infected,
                            e.tri,
                        ) implies #[trigger] m4.nbr[e] != n by {
                        assert(m4.nbr[e] == m.nbr[e]);
                        assert(m4.tflags[e.tri as int] == m.tflags[e.tri as int]);
                    }
                }
            }
            assert forall|e: Otri|
                m.has(e) && e.tri >= t && sweeps(m, infected, e.tri) && m.nbr[e].tri != 0
                    && !infected[m.nbr[e].tri as int] implies w.nbr[#[trigger] m.nbr[e]]
                == no_tri() by {
                assert(m4.nbr[e] == m.nbr[e]);
                if e.tri == ti {
                    assert(e == o || e == o.next() || e == o.prev());
                    assert(m4.nbr[m.nbr[e]] == no_tri());
                } else {
                    assert(m4.tflags[e.tri as int] == m.tflags[e.tri as int]);
                    assert(sweeps(m4, infected, e.tri));
                }
            }
            assert forall|n: Otri| #[trigger] m.nbr[n] == no_tri() && !infected[n.tri as int]
                && m.has(n) implies w.nbr[n] == no_tri() by {
                assert(m4.nbr[n] == no_tri());
            }
            assert forall|x: u32| x < m.tri_count implies (#[trigger] w.dead(x) <==> m.dead(x) || (
            x >= t && infected[x as int])) by {
                if x != ti {
                    assert(m4.dead(x) == m.dead(x));
                }
            }
        } else {
            lemma_swept(m, infected, t + 1);
            let w = swept(m, infected, t + 1).0;
            assert forall|n: Otri|
                m.has(n) && n.tri != 0 && !infected[n.tri as int] && !(exists|o: Otri|
                    m.has(o) && o.tri >= t && sweeps(m, infected, o.tri) && #[trigger] m.nbr[o]
                        == n) implies #[trigger] w.nbr[n] == m.nbr[n] by {
                assert(!(exists|e: Otri|
                    m.has(e) && e.tri >= t + 1 && sweeps(m, infected, e.tri) && #[trigger] m.nbr[e]
                        == n)) by {
                    assert forall|e: Otri|
                        m.has(e) && e.tri >= t + 1 && sweeps(
                            m,
                            infected,
                            e.tri,
                        ) implies #[trigger] m.nbr[e] != n by {}
                }
            }
        }
    }
}

proof fn lemma_count_same(m: MeshView, w: MeshView, infected: Seq<bool>, t: nat)
    requires
        m.wf(),
        w.tri_count == m.tri_count,
        forall|x: int| t <= x < m.tri_count ==> #[trigger] w.tflags[x] == m.tflags[x],
    ensures
        sweep_count(m, infected, t) == sweep_count(w, infected, t),
    decreases m.tri_count - t,
{
    if t < m.tri_count {
        assert(w.tflags[t as int] == m.tflags[t as int]);
        lemma_count_same(m, w, infected, t + 1);
    }
}

/// A sweep kills exactly the infected triangles, counts the ones that were
/// alive, and leaves every survivor glued to its surviving neighbours only.
pub proof fn sweep_removes_the_infected(m: MeshView, infected: Seq<bool>)
    requires
        m.wf(),
        live_links(m),
        infected.len() == m.tri_count,
    ensures
        ({
            let (w, k) = swept(m, infected, 1);
            &&& k == sweep_count(m, infected, 1)
            &&& w.corner == m.corner
            &&& w.tsub == m.tsub
            &&& w.vertices == m.vertices
            &&& forall|t: u32|
                0 < t < m.tri_count ==> (#[trigger] w.dead(t) <==> m.dead(t) || infected[t as int])
            &&& forall|n: Otri|
                m.has(n) && n.tri != 0 && !m.dead(n.tri) && !infected[n.tri as int]
                    ==> #[trigger] w.nbr[n] == if m.nbr[n].tri != 0
                    && infected[m.nbr[n].tri as int] {
                    no_tri()
                } else {
                    m.nbr[n]
                }
        }),
{
    lemma_swept(m, infected, 1);
    let w = swept(m, infected, 1).0;
    assert forall|n: Otri|
        m.has(n) && n.tri != 0 && !m.dead(n.tri)
            && !infected[n.tri as int] implies #[trigger] w.nbr[n] == if m.nbr[n].tri != 0
        && infected[m.nbr[n].tri as int] {
        no_tri()
    } else {
        m.nbr[n]
    } by {
        let o = m.nbr[n];
        assert(m.has(o));
        if o.tri != 0 && infected[o.tri as int] {
            assert(m.nbr[o] == n);
            assert(sweeps(m, infected, o.tri));
        } else {
            assert(!(exists|e: Otri|
                m.has(e) && e.tri >= 1 && sweeps(m, infected, e.tri) && #[trigger] m.nbr[e] == n)) by {
                assert forall|e: Otri|
                    m.has(e) && e.tri >= 1 && sweeps(
                        m,
                        infected,
                        e.tri,
                    ) implies #[trigger] m.nbr[e] != n by {
                    if m.nbr[e] == n {
                        assert(m.nbr[n] == e);
                    }
                }
            }
        }
    }
}

// --- What carving leaves ----------------------------------------------------

/// The triangles that carving starts from: those on the hull that no
/// subsegment protects, unless `convex`, and those that hold a hole point.
pub open spec fn carving_seeds(m: MeshView, holes: Seq<PslgHole>, convex: bool) -> (
    Seq<bool>,
    Seq<u32>,
) {
    let none = Seq::new(m.tri_count, |i: int| false);
    let (i1, w1) = if convex {
        (none, Seq::<u32>::empty())
    } else {
        let (i0, w0, _) = hull_seeded(m, none, Seq::empty());
        (i0, w0)
    };
    holes_seeded(m, holes, 0, i1, w1)
}

/// Whether the infected triangles are live and are those on the worklist.
spec fn seeds_fit(m: MeshView, infected: Seq<bool>, work: Seq<u32>) -> bool {
    &&& work_ok(m, infected, work)
    &&& forall|t: u32|
        t < m.tri_count && #[trigger] infected[t as int] ==> t != 0 && !m.dead(t) && work.contains(
            t,
        )
}

proof fn lemma_seed_fits(m: MeshView, infected: Seq<bool>, work: Seq<u32>, t: u32)
    requires
        seeds_fit(m, infected, work),
        0 < t < m.tri_count,
        !m.dead(t),
    ensures
        seeds_fit(m, infected.update(t as int, true), work.push(t)),
{
    let (i1, w1) = (infected.update(t as int, true), work.push(t));
    assert forall|x: u32| x < m.tri_count && #[trigger] i1[x as int] implies x != 0 && !m.dead(x)
        && w1.contains(x) by {
        if x == t {
            assert(w1[work.len() as int] == t);
        } else {
            assert(infected[x as int]);
            let k = choose|k: int| 0 <= k < work.len() && work[k] == x;
            assert(w1[k] == x);
        }
    }
    assert forall|k: int| 0 <= k < w1.len() implies (#[trigger] w1[k]) < m.tri_count
        && i1[w1[k] as int] by {
        if k < work.len() {
            assert(w1[k] == work[k]);
        }
    }
}

proof fn lemma_boundary_live(m: MeshView, o: Otri, fuel: nat)
    requires
        m.wf(),
        live_links(m),
        m.has(o) && o.tri != 0 && !m.dead(o.tri),
    ensures
        at_boundary(m, o, fuel) matches Ok(n) ==> m.has(n) && n.tri != 0 && !m.dead(n.tri),
    decreases fuel,
{
    let p = m.nbr[o];
    assert(m.has(p));
    if p.next().tri != 0 && fuel > 0 {
        lemma_boundary_live(m, p.next(), (fuel - 1) as nat);
    }
}

proof fn lemma_hull_fits(
    m: MeshView,
    infected: Seq<bool>,
    work: Seq<u32>,
    o: Otri,
    start: Otri,
    fuel: nat,
)
    requires
        m.wf(),
        live_links(m),
        m.has(o) && o.tri != 0 && !m.dead(o.tri),
        seeds_fit(m, infected, work),
    ensures
        ({
            let (i1, w1, _) = hull_infected(m, infected, work, o, start, fuel);
            seeds_fit(m, i1, w1)
        }),
    decreases fuel,
{
    if !infected[o.tri as int] && m.tsub[o].sub == 0 {
        lemma_seed_fits(m, infected, work, o.tri);
    }
    let (i1, w1) = hull_edge_infected(m, infected, work, o);
    lemma_boundary_live(m, o.next(), turn_limit(m));
    match at_boundary(m, o.next(), turn_limit(m)) {
        Ok(n) => {
            if n != start && fuel > 0 {
                lemma_hull_fits(m, i1, w1, n, start, (fuel - 1) as nat);
            }
        },
        Err(_) => {},
    }
}

proof fn lemma_holes_fit(
    m: MeshView,
    holes: Seq<PslgHole>,
    i: nat,
    infected: Seq<bool>,
    work: Seq<u32>,
)
    requires
        m.wf(),
        seeds_fit(m, infected, work),
    ensures
        ({
            let (i1, w1) = holes_seeded(m, holes, i, infected, work);
            seeds_fit(m, i1, w1)
        }),
    decreases holes.len() - i,
{
    if i < holes.len() {
        let p = holes[i as int].point;
        first_holding_is_first(m, p, 1);
        match first_holding(m, p, 1) {
            Some(t) => {
                if !infected[t as int] {
                    lemma_seed_fits(m, infected, work, t);
                }
            },
            None => {},
        }
        let (i1, w1) = seed_infected(infected, work, first_holding(m, p, 1));
        lemma_holes_fit(m, holes, i + 1, i1, w1);
    }
}

proof fn lemma_plague_edge_frame(p: Plague, o: Otri)
    ensures
        plague_edge(p, o).mesh.tflags == p.mesh.tflags,
{
}

proof fn lemma_plague_frame(p: Plague)
    ensures
        plagued(p).mesh.tflags == p.mesh.tflags,
    decreases unmarked(p.infected), p.work.len(),
{
    if p.work.len() > 0 {
        let q = Plague { work: p.work.drop_first(), ..p };
        let o = Otri { tri: p.work[0], orient: 0 };
        lemma_plague_edge_measure(q, o);
        lemma_plague_edge_measure(plague_edge(q, o), o.next());
        lemma_plague_edge_measure(plague_edge(plague_edge(q, o), o.next()), o.prev());
        lemma_plague_edge_frame(q, o);
        lemma_plague_edge_frame(plague_edge(q, o), o.next());
        lemma_plague_edge_frame(plague_edge(plague_edge(q, o), o.next()), o.prev());
        lemma_plague_frame(plague_triangle(q, p.work[0]));
    }
}

/// Carving kills exactly the triangles that a chain of edges without
/// subsegments joins to one that it starts from.
pub proof fn carving_kills_what_it_reaches(m: MeshView, holes: Seq<PslgHole>, convex: bool)
    requires
        m.wf(),
        live_links(m),
        m.nbr[no_tri()].tri == 0 || !m.dead(m.nbr[no_tri()].tri),
        carved(m, holes, convex).1 is Ok,
    ensures
        ({
            let w = carved(m, holes, convex).0;
            let seeds = carving_seeds(m, holes, convex).0;
            forall|t: u32|
                0 < t < m.tri_count ==> (#[trigger] w.dead(t) <==> m.dead(t) || reachable(
                    m,
                    seeds,
                    t,
                ))
        }),
{
    let none = Seq::new(m.tri_count, |i: int| false);
    assert(seeds_fit(m, none, Seq::<u32>::empty()));
    assert(m.has(no_tri()));
    assert(m.has(m.nbr[no_tri()]));
    let start = m.nbr[no_tri()];
    if !convex && start.tri != 0 {
        lemma_hull_fits(m, none, Seq::empty(), start, start, turn_limit(m));
    }
    let (i1, w1) = if convex {
        (none, Seq::<u32>::empty())
    } else {
        let (i0, w0, _) = hull_seeded(m, none, Seq::empty());
        (i0, w0)
    };
    lemma_holes_fit(m, holes, 0, i1, w1);
    let (seeds, work) = holes_seeded(m, holes, 0, i1, w1);
    assert(carving_seeds(m, holes, convex) == (seeds, work));
    plague_takes_what_it_reaches(m, seeds, work);
    let p = Plague { mesh: m, infected: seeds, work };
    let q = plagued(p);
    lemma_plague_frame(p);
    assert(spreading(m, seeds, q)) by {
        lemma_seeds_spread(m, seeds, work);
    }
    lemma_swept_dead(q.mesh, q.infected, 1);
    let w = carved(m, holes, convex).0;
    assert forall|t: u32| 0 < t < m.tri_count implies (#[trigger] w.dead(t) <==> m.dead(t)
        || reachable(m, seeds, t)) by {
        assert(q.mesh.dead(t) == m.dead(t));
        assert(q.infected[t as int] <==> reachable(m, seeds, t));
    }
}

proof fn lemma_seeds_spread(m: MeshView, seeds: Seq<bool>, work: Seq<u32>)
    requires
        m.wf(),
        live_links(m),
        seeds_fit(m, seeds, work),
    ensures
        spreading(m, seeds, plagued(Plague { mesh: m, infected: seeds, work })),
{
    let p = Plague { mesh: m, infected: seeds, work };
    assert forall|t: u32| t < m.tri_count && seeds[t as int] implies #[trigger] reachable(
        m,
        seeds,
        t,
    ) by {
        assert(reached(m, seeds, t, 0));
    }
    assert(!seeds[0]) by {
        if seeds[0] {
            assert(seeds[0u32 as int]);
        }
    }
    lemma_spread(m, seeds, p);
}

/// Sweeping kills the infected triangles and no others.
pub(crate) proof fn lemma_swept_dead(m: MeshView, infected: Seq<bool>, t: nat)
    requires
        infected.len() == m.tri_count,
        m.tflags.len() == m.tri_count,
        m.tri_count <= crate::mesh::TRI_LIMIT,
    ensures
        ({
            let w = swept(m, infected, t).0;
            &&& w.tflags.len() == m.tflags.len()
            &&& forall|x: u32|
                x < m.tri_count ==> (#[trigger] w.dead(x) <==> m.dead(x) || (x >= t
                    && infected[x as int]))
        }),
    decreases m.tri_count - t,
{
    if t < m.tri_count {
        if sweeps(m, infected, t as u32) {
            let o = Otri { tri: t as u32, orient: 0 };
            let m1 = edge_released(m, infected, o);
            let m2 = edge_released(m1, infected, o.next());
            let m3 = edge_released(m2, infected, o.prev());
            let m4 = m3.without_triangle(t as u32);
            let f = m.tflags[t as int];
            assert((f | 2) & 2 != 0) by (bit_vector);
            assert(m3.tflags == m.tflags);
            lemma_swept_dead(m4, infected, t + 1);
            let w = swept(m, infected, t).0;
            assert forall|x: u32| x < m.tri_count implies (#[trigger] w.dead(x) <==> m.dead(x) || (
            x >= t && infected[x as int])) by {
                if x != t {
                    assert(m4.dead(x) == m.dead(x));
                } else {
                    assert(m4.dead(x));
                }
            }
        } else {
            lemma_swept_dead(m, infected, t + 1);
        }
    }
}

/// A constrained Delaunay triangulation is linked as carving needs it.
pub proof fn triangulations_are_linked(m: MeshView)
    requires
        m.wf(),
        is_constrained_delaunay(m),
    ensures
        live_links(m),
        m.nbr[no_tri()].tri == 0 || !m.dead(m.nbr[no_tri()].tri),
{
    assert forall|o: Otri|
        m.has(o) && o.tri != 0 && !m.dead(o.tri) && (#[trigger] m.nbr[o]).tri != 0 implies !m.dead(
        m.nbr[o].tri,
    ) && m.nbr[m.nbr[o]] == o by {
        assert(is_live(m, o));
    }
}

proof fn lemma_holes_seeded(
    m: MeshView,
    holes: Seq<PslgHole>,
    i: nat,
    infected: Seq<bool>,
    work: Seq<u32>,
    t: u32,
)
    requires
        m.wf(),
        infected.len() == m.tri_count,
        t < m.tri_count,
        infected[t as int] || exists|k: int|
            i <= k < holes.len() && first_holding(m, (#[trigger] holes[k]).point, 1) == Some(t),
    ensures
        holes_seeded(m, holes, i, infected, work).0[t as int],
    decreases holes.len() - i,
{
    if i < holes.len() {
        let p = holes[i as int].point;
        first_holding_is_first(m, p, 1);
        let (i1, w1) = seed_infected(infected, work, first_holding(m, p, 1));
        lemma_holes_seeded(m, holes, i + 1, i1, w1, t);
    }
}

/// Whether only subsegments part the triangles that `w` has left of `m` from
/// those that are gone, and the triangle in which each hole point is found is
/// one of the latter.
pub open spec fn is_fenced(m: MeshView, w: MeshView, holes: Seq<PslgHole>) -> bool {
    &&& forall|i: int|
        0 <= i < holes.len() ==> match first_holding(m, (#[trigger] holes[i]).point, 1) {
            Some(t) => w.dead(t),
            None => true,
        }
    &&& forall|o: Otri|
        m.has(o) && o.tri != 0 && !m.dead(o.tri) && (#[trigger] m.nbr[o]).tri != 0 && m.tsub[o].sub
            == 0 && w.dead(o.tri) ==> w.dead(m.nbr[o].tri)
}

/// Carving takes the triangles that hold the hole points, and goes on to the
/// nearest subsegments, no further.
pub proof fn carving_ends_at_subsegments(m: MeshView, holes: Seq<PslgHole>, convex: bool)
    requires
        m.wf(),
        is_constrained_delaunay(m),
        carved(m, holes, convex).1 is Ok,
    ensures
        is_fenced(m, carved(m, holes, convex).0, holes),
{
    triangulations_are_linked(m);
    carving_kills_what_it_reaches(m, holes, convex);
    let w = carved(m, holes, convex).0;
    let seeds = carving_seeds(m, holes, convex).0;
    assert forall|i: int| 0 <= i < holes.len() implies match first_holding(
        m,
        (#[trigger] holes[i]).point,
        1,
    ) {
        Some(t) => w.dead(t),
        None => true,
    } by {
        first_holding_is_first(m, holes[i].point, 1);
        if let Some(t) = first_holding(m, holes[i].point, 1) {
            let none = Seq::new(m.tri_count, |i: int| false);
            let (i1, w1) = if convex {
                (none, Seq::<u32>::empty())
            } else {
                let start = m.nbr[no_tri()];
                assert(m.has(no_tri()));
                assert(m.has(start));
                assert(seeds_fit(m, none, Seq::<u32>::empty()));
                if start.tri != 0 {
                    lemma_hull_fits(m, none, Seq::empty(), start, start, turn_limit(m));
                }
                let (i0, w0, _) = hull_seeded(m, none, Seq::empty());
                (i0, w0)
            };
            lemma_holes_seeded(m, holes, 0, i1, w1, t);
            assert(reached(m, seeds, t, 0));
            assert(reachable(m, seeds, t));
            assert(w.dead(t));
        }
    }
    assert forall|o: Otri|
        m.has(o) && o.tri != 0 && !m.dead(o.tri) && (#[trigger] m.nbr[o]).tri != 0 && m.tsub[o].sub
            == 0 && w.dead(o.tri) implies w.dead(m.nbr[o].tri) by {
        let n = m.nbr[o];
        assert(m.has(n));
        assert(open_edge(m, o));
        assert(reachable(m, seeds, o.tri));
        let k = choose|k: nat| reached(m, seeds, o.tri, k);
        assert(reached(m, seeds, n.tri, k + 1));
        assert(reachable(m, seeds, n.tri));
    }
}

// --- Where carving starts ---------------------------------------------------

/// The edge reached from `o` by turning `n` times clockwise about its origin.
pub open spec fn wheel(m: MeshView, o: Otri, n: nat) -> Otri
    decreases n,
{
    if n == 0 {
        o
    } else {
        m.nbr[wheel(m, o, (n - 1) as nat)].next()
    }
}

/// Whether `p` is the edge with nothing across that comes after `o` along the
/// boundary: the first reached by turning about the end of `o`.
pub open spec fn follows_rim(m: MeshView, o: Otri, p: Otri) -> bool {
    exists|n: nat| #[trigger]
        wheel(m, o.next(), n) == p && m.nbr[p].tri == 0 && forall|k: nat|
            k < n ==> m.nbr[#[trigger] wheel(m, o.next(), k)].tri != 0
}

/// Whether a list of edges goes along the boundary, from the edge that the dummy
/// is glued to.
pub open spec fn is_rim_walk(m: MeshView, walk: Seq<Otri>) -> bool {
    &&& walk.len() > 0
    &&& walk[0] == m.nbr[no_tri()]
    &&& walk[0].tri != 0
    &&& forall|i: int| 0 < i < walk.len() ==> #[trigger] follows_on(m, walk, i)
}

/// Whether an edge of a list follows the one before along the boundary.
pub open spec fn follows_on(m: MeshView, walk: Seq<Otri>, i: int) -> bool {
    follows_rim(m, walk[i - 1], walk[i])
}

/// Whether an edge is on the outer boundary.
pub open spec fn is_rim(m: MeshView, o: Otri) -> bool {
    exists|walk: Seq<Otri>| #[trigger] is_rim_walk(m, walk) && walk.last() == o
}

/// Whether carving starts from triangle `t`: it is the first to hold a hole point,
/// or, unless the input is convex, has an edge on the outer boundary without a
/// subsegment.
pub open spec fn is_carving_seed(m: MeshView, holes: Seq<PslgHole>, convex: bool, t: u32) -> bool {
    ||| exists|k: int|
        0 <= k < holes.len() && first_holding(m, (#[trigger] holes[k]).point, 1) == Some(t)
    ||| !convex && is_bare(m, t)
}

/// Whether a triangle has an edge on the outer boundary without a subsegment.
pub open spec fn is_bare(m: MeshView, t: u32) -> bool {
    exists|o: Otri| #[trigger] is_rim(m, o) && o.tri == t && m.tsub[o].sub == 0
}

proof fn lemma_at_boundary(m: MeshView, o: Otri, fuel: nat) -> (n: nat)
    requires
        at_boundary(m, o, fuel) is Ok,
    ensures
        wheel(m, o, n) == at_boundary(m, o, fuel)->Ok_0,
        m.nbr[wheel(m, o, n)].tri == 0,
        forall|k: nat| k < n ==> m.nbr[#[trigger] wheel(m, o, k)].tri != 0,
    decreases fuel,
{
    let p = m.nbr[o].next();
    if p.tri == 0 {
        0
    } else {
        let n = lemma_at_boundary(m, p, (fuel - 1) as nat);
        lemma_wheel_on(m, o, n);
        assert forall|k: nat| k < n + 1 implies m.nbr[#[trigger] wheel(m, o, k)].tri != 0 by {
            if k > 0 {
                lemma_wheel_on(m, o, (k - 1) as nat);
                assert(m.nbr[wheel(m, p, (k - 1) as nat)].tri != 0);
            } else {
                assert(m.nbr[o].next().tri == m.nbr[o].tri);
            }
        }
        n + 1
    }
}

proof fn lemma_wheel_on(m: MeshView, o: Otri, n: nat)
    ensures
        wheel(m, m.nbr[o].next(), n) == wheel(m, o, n + 1),
    decreases n,
{
    if n > 0 {
        lemma_wheel_on(m, o, (n - 1) as nat);
    } else {
        assert(wheel(m, o, 0) == o);
        assert(wheel(m, o, 1) == m.nbr[wheel(m, o, 0)].next());
    }
}

/// Only one edge comes next along the boundary.
proof fn lemma_rim_once(m: MeshView, o: Otri, p: Otri, q: Otri)
    requires
        follows_rim(m, o, p),
        follows_rim(m, o, q),
    ensures
        p == q,
{
    let a = choose|n: nat| #[trigger]
        wheel(m, o.next(), n) == p && m.nbr[p].tri == 0 && forall|k: nat|
            k < n ==> m.nbr[#[trigger] wheel(m, o.next(), k)].tri != 0;
    let b = choose|n: nat| #[trigger]
        wheel(m, o.next(), n) == q && m.nbr[q].tri == 0 && forall|k: nat|
            k < n ==> m.nbr[#[trigger] wheel(m, o.next(), k)].tri != 0;
    if a < b {
        assert(m.nbr[wheel(m, o.next(), a)].tri != 0);
    } else if b < a {
        assert(m.nbr[wheel(m, o.next(), b)].tri != 0);
    }
}

/// Whether an edge of a list without a subsegment is one of triangle `t`.
spec fn bares(m: MeshView, list: Seq<Otri>, t: u32) -> bool {
    exists|i: int|
        0 <= i < list.len() && (#[trigger] list[i]).tri == t && m.tsub[list[i]].sub == 0
}

/// The edges that infecting the hull goes along.
proof fn lemma_hull_list(
    m: MeshView,
    infected: Seq<bool>,
    work: Seq<u32>,
    o: Otri,
    start: Otri,
    fuel: nat,
) -> (list: Seq<Otri>)
    requires
        m.wf(),
        m.has(o),
        infected.len() == m.tri_count,
        hull_infected(m, infected, work, o, start, fuel).2 is Ok,
    ensures
        list.len() > 0,
        list[0] == o,
        forall|i: int| 0 < i < list.len() ==> #[trigger] follows_on(m, list, i),
        follows_rim(m, list.last(), start),
        forall|t: u32|
            t < m.tri_count ==> (#[trigger] hull_infected(
                m,
                infected,
                work,
                o,
                start,
                fuel,
            ).0[t as int] <==> infected[t as int] || bares(m, list, t)),
        hull_infected(m, infected, work, o, start, fuel).0.len() == m.tri_count,
    decreases fuel,
{
    let (i1, w1) = hull_edge_infected(m, infected, work, o);
    let n = lemma_at_boundary(m, o.next(), turn_limit(m));
    let p = at_boundary(m, o.next(), turn_limit(m))->Ok_0;
    assert(follows_rim(m, o, p));
    let all = hull_infected(m, infected, work, o, start, fuel).0;
    if p == start {
        let list = seq![o];
        assert forall|t: u32| t < m.tri_count implies (#[trigger] all[t as int] <==> infected[t as int]
            || bares(m, list, t)) by {
            assert(list[0] == o);
            if bares(m, list, t) {
                assert(o.tri == t && m.tsub[o].sub == 0);
            }
        }
        list
    } else {
        lemma_wheel_has(m, o.next(), n);
        let rest = lemma_hull_list(m, i1, w1, p, start, (fuel - 1) as nat);
        let list = seq![o] + rest;
        assert forall|i: int| 0 < i < list.len() implies #[trigger] follows_on(m, list, i) by {
            assert(list[i] == rest[i - 1]);
            if i > 1 {
                assert(list[i - 1] == rest[i - 2]);
                assert(follows_on(m, rest, i - 1));
            }
        }
        assert forall|t: u32| t < m.tri_count implies (#[trigger] all[t as int] <==> infected[t as int]
            || bares(m, list, t)) by {
            assert(list[0] == o);
            if bares(m, rest, t) {
                let i = choose|i: int|
                    0 <= i < rest.len() && (#[trigger] rest[i]).tri == t && m.tsub[rest[i]].sub == 0;
                assert(list[i + 1] == rest[i]);
            }
            if bares(m, list, t) {
                let i = choose|i: int|
                    0 <= i < list.len() && (#[trigger] list[i]).tri == t && m.tsub[list[i]].sub == 0;
                if i > 0 {
                    assert(rest[i - 1] == list[i]);
                }
            }
        }
        list
    }
}

proof fn lemma_wheel_has(m: MeshView, o: Otri, n: nat)
    requires
        m.wf(),
        m.has(o),
    ensures
        m.has(wheel(m, o, n)),
    decreases n,
{
    if n > 0 {
        lemma_wheel_has(m, o, (n - 1) as nat);
    }
}

/// Infecting the hull takes the triangles with a bare edge on the outer boundary.
proof fn lemma_hull_bare(m: MeshView, t: u32)
    requires
        m.wf(),
        t < m.tri_count,
        hull_seeded(m, Seq::new(m.tri_count, |i: int| false), Seq::empty()).2 is Ok,
    ensures
        hull_seeded(m, Seq::new(m.tri_count, |i: int| false), Seq::empty()).0[t as int] <==> is_bare(
            m,
            t,
        ),
{
    let none = Seq::new(m.tri_count, |i: int| false);
    let start = m.nbr[no_tri()];
    assert(m.has(no_tri()));
    if start.tri != 0 {
        let list = lemma_hull_list(m, none, Seq::empty(), start, start, turn_limit(m));
        if bares(m, list, t) {
            let i = choose|i: int|
                0 <= i < list.len() && (#[trigger] list[i]).tri == t && m.tsub[list[i]].sub == 0;
            let walk = list.take(i + 1);
            assert forall|j: int| 0 < j < walk.len() implies #[trigger] follows_on(m, walk, j) by {
                assert(follows_on(m, list, j));
            }
            assert(is_rim_walk(m, walk) && walk.last() == list[i]);
            assert(is_rim(m, list[i]));
        }
        if is_bare(m, t) {
            let o = choose|o: Otri| #[trigger] is_rim(m, o) && o.tri == t && m.tsub[o].sub == 0;
            let walk = choose|walk: Seq<Otri>| #[trigger] is_rim_walk(m, walk) && walk.last() == o;
            let i = lemma_rim_in_list(m, list, walk, walk.len() - 1);
            assert(list[i] == o);
            assert(bares(m, list, t));
        }
    } else if is_bare(m, t) {
        let o = choose|o: Otri| #[trigger] is_rim(m, o) && o.tri == t && m.tsub[o].sub == 0;
        let walk = choose|walk: Seq<Otri>| #[trigger] is_rim_walk(m, walk) && walk.last() == o;
        assert(walk[0].tri != 0);
    }
}

proof fn lemma_rim_in_list(m: MeshView, list: Seq<Otri>, walk: Seq<Otri>, j: int) -> (i: int)
    requires
        list.len() > 0,
        list[0] == m.nbr[no_tri()],
        forall|i: int| 0 < i < list.len() ==> #[trigger] follows_on(m, list, i),
        follows_rim(m, list.last(), list[0]),
        is_rim_walk(m, walk),
        0 <= j < walk.len(),
    ensures
        0 <= i < list.len(),
        list[i] == walk[j],
    decreases j,
{
    if j == 0 {
        0
    } else {
        let i = lemma_rim_in_list(m, list, walk, j - 1);
        assert(follows_on(m, walk, j));
        if i + 1 < list.len() {
            assert(follows_on(m, list, i + 1));
            lemma_rim_once(m, list[i], list[i + 1], walk[j]);
            i + 1
        } else {
            lemma_rim_once(m, list[i], list[0], walk[j]);
            0
        }
    }
}

proof fn lemma_holes_only(
    m: MeshView,
    holes: Seq<PslgHole>,
    i: nat,
    infected: Seq<bool>,
    work: Seq<u32>,
    t: u32,
)
    requires
        m.wf(),
        infected.len() == m.tri_count,
        t < m.tri_count,
        holes_seeded(m, holes, i, infected, work).0[t as int],
    ensures
        infected[t as int] || exists|k: int|
            i <= k < holes.len() && first_holding(m, (#[trigger] holes[k]).point, 1) == Some(t),
    decreases holes.len() - i,
{
    if i < holes.len() {
        let p = holes[i as int].point;
        first_holding_is_first(m, p, 1);
        let (i1, w1) = seed_infected(infected, work, first_holding(m, p, 1));
        lemma_holes_only(m, holes, i + 1, i1, w1, t);
        if i1[t as int] && !infected[t as int] {
            assert(first_holding(m, holes[i as int].point, 1) == Some(t));
        }
    }
}

/// Carving kills a triangle exactly where a chain of edges without subsegments
/// leads to it from one that holds a hole point or, unless the input is convex,
/// has a bare edge on the outer boundary.
pub proof fn carving_starts_from_holes_and_bare_edges(
    m: MeshView,
    holes: Seq<PslgHole>,
    convex: bool,
) -> (seeds: Seq<bool>)
    requires
        m.wf(),
        live_links(m),
        m.nbr[no_tri()].tri == 0 || !m.dead(m.nbr[no_tri()].tri),
        carved(m, holes, convex).1 is Ok,
    ensures
        seeds.len() == m.tri_count,
        forall|t: u32|
            t < m.tri_count ==> (#[trigger] seeds[t as int] <==> is_carving_seed(
                m,
                holes,
                convex,
                t,
            )),
        forall|t: u32|
            0 < t < m.tri_count ==> (#[trigger] carved(m, holes, convex).0.dead(t) <==> m.dead(t)
                || reachable(m, seeds, t)),
{
    carving_kills_what_it_reaches(m, holes, convex);
    let none = Seq::new(m.tri_count, |i: int| false);
    let start = m.nbr[no_tri()];
    assert(m.has(no_tri()));
    assert(m.has(start));
    assert(seeds_fit(m, none, Seq::<u32>::empty()));
    if !convex && start.tri != 0 {
        lemma_hull_fits(m, none, Seq::empty(), start, start, turn_limit(m));
    }
    let (i1, w1) = if convex {
        (none, Seq::<u32>::empty())
    } else {
        let (i0, w0, _) = hull_seeded(m, none, Seq::empty());
        (i0, w0)
    };
    lemma_holes_fit(m, holes, 0, i1, w1);
    let seeds = carving_seeds(m, holes, convex).0;
    assert forall|t: u32| t < m.tri_count implies (#[trigger] seeds[t as int] <==> is_carving_seed(
        m,
        holes,
        convex,
        t,
    )) by {
        if !convex {
            lemma_hull_bare(m, t);
        }
        if seeds[t as int] {
            lemma_holes_only(m, holes, 0, i1, w1, t);
        }
        if is_carving_seed(m, holes, convex, t) {
            lemma_holes_seeded(m, holes, 0, i1, w1, t);
        }
    }
    seeds
}

// --- The constrained hull ---------------------------------------------------

/// Whether the next subsegment of a mesh gets a slot of its own.
spec fn has_sound_slots(m: MeshView) -> bool {
    &&& 0 < m.sub_count <= crate::mesh::SUB_LIMIT
    &&& forall|i: int| 0 <= i < m.free_subs.len() ==> 0 < #[trigger] m.free_subs[i]
}

proof fn lemma_edge_constrained(m: MeshView, o: Otri, marker: i32)
    requires
        has_sound_slots(m),
        subseg_inserted(m, o, marker).1 is Ok,
    ensures
        ({
            let w = subseg_inserted(m, o, marker).0;
            &&& has_sound_slots(w)
            &&& w.nbr == m.nbr
            &&& w.tri_count == m.tri_count
            &&& w.tsub[o].sub != 0
            &&& forall|p: Otri| m.tsub[p].sub != 0 ==> #[trigger] w.tsub[p].sub != 0
        }),
{
    reveal(subseg_inserted);
}

proof fn lemma_wheel_same(m: MeshView, w: MeshView, o: Otri, n: nat)
    requires
        w.nbr == m.nbr,
    ensures
        wheel(w, o, n) == wheel(m, o, n),
    decreases n,
{
    if n > 0 {
        lemma_wheel_same(m, w, o, (n - 1) as nat);
    }
}

proof fn lemma_rim_same(m: MeshView, w: MeshView, o: Otri, p: Otri)
    requires
        w.nbr == m.nbr,
        follows_rim(w, o, p),
    ensures
        follows_rim(m, o, p),
{
    let n = choose|n: nat| #[trigger]
        wheel(w, o.next(), n) == p && w.nbr[p].tri == 0 && forall|k: nat|
            k < n ==> w.nbr[#[trigger] wheel(w, o.next(), k)].tri != 0;
    lemma_wheel_same(m, w, o.next(), n);
    assert forall|k: nat| k < n implies m.nbr[#[trigger] wheel(m, o.next(), k)].tri != 0 by {
        lemma_wheel_same(m, w, o.next(), k);
        assert(w.nbr[wheel(w, o.next(), k)].tri != 0);
    }
}

/// The edges that constraining the hull goes along.
proof fn lemma_hull_walk(m: MeshView, o: Otri, start: Otri, marker: i32, fuel: nat) -> (list: Seq<
    Otri,
>)
    requires
        has_sound_slots(m),
        hull_walked(m, o, start, marker, fuel).1 is Ok,
    ensures
        list.len() > 0,
        list[0] == o,
        forall|i: int| 0 < i < list.len() ==> #[trigger] follows_on(m, list, i),
        follows_rim(m, list.last(), start),
        ({
            let w = hull_walked(m, o, start, marker, fuel).0;
            &&& forall|i: int| 0 <= i < list.len() ==> w.tsub[#[trigger] list[i]].sub != 0
            &&& forall|p: Otri| m.tsub[p].sub != 0 ==> #[trigger] w.tsub[p].sub != 0
        }),
    decreases fuel,
{
    let m1 = subseg_inserted(m, o, marker).0;
    lemma_edge_constrained(m, o, marker);
    let n = lemma_at_boundary(m1, o.next(), turn_limit(m1));
    let p = at_boundary(m1, o.next(), turn_limit(m1))->Ok_0;
    assert(follows_rim(m1, o, p));
    lemma_rim_same(m, m1, o, p);
    if p == start {
        seq![o]
    } else {
        let rest = lemma_hull_walk(m1, p, start, marker, (fuel - 1) as nat);
        let list = seq![o] + rest;
        assert forall|i: int| 0 < i < list.len() implies #[trigger] follows_on(m, list, i) by {
            assert(list[i] == rest[i - 1]);
            if i > 1 {
                assert(list[i - 1] == rest[i - 2]);
                assert(follows_on(m1, rest, i - 1));
                lemma_rim_same(m, m1, list[i - 1], list[i]);
            }
        }
        lemma_rim_same(m, m1, rest.last(), start);
        assert(list.last() == rest.last());
        let w = hull_walked(m, o, start, marker, fuel).0;
        assert forall|i: int| 0 <= i < list.len() implies w.tsub[#[trigger] list[i]].sub != 0 by {
            if i > 0 {
                assert(list[i] == rest[i - 1]);
            } else {
                assert(m1.tsub[o].sub != 0);
            }
        }
        list
    }
}

/// Constraining the hull gives every edge of the outer boundary a subsegment,
/// and takes none away.
pub proof fn every_hull_edge_is_constrained(m: MeshView, marker: i32)
    requires
        m.wf(),
        hull_marked(m, marker).1 is Ok,
    ensures
        forall|o: Otri| #[trigger]
            is_rim(m, o) ==> hull_marked(m, marker).0.tsub[o].sub != 0,
        forall|o: Otri|
            m.tsub[o].sub != 0 ==> #[trigger] hull_marked(m, marker).0.tsub[o].sub != 0,
{
    let w = hull_marked(m, marker).0;
    let start = m.nbr[no_tri()];
    if start.tri != 0 {
        let list = lemma_hull_walk(m, start, start, marker, turn_limit(m));
        assert forall|o: Otri| #[trigger] is_rim(m, o) implies w.tsub[o].sub != 0 by {
            let walk = choose|walk: Seq<Otri>| #[trigger] is_rim_walk(m, walk) && walk.last() == o;
            let i = lemma_rim_in_list(m, list, walk, walk.len() - 1);
            assert(list[i] == o);
        }
    } else {
        assert forall|o: Otri| !(#[trigger] is_rim(m, o)) by {
            if is_rim(m, o) {
                let walk = choose|walk: Seq<Otri>| #[trigger]
                    is_rim_walk(m, walk) && walk.last() == o;
                assert(walk[0].tri != 0);
            }
        }
    }
}

// --- Points of a triangle ---------------------------------------------------

/// Whether weights on three corners balance at a point: none is negative, one
/// is positive, and their pulls on the point cancel.
pub open spec fn balances(
    a: Vertex,
    b: Vertex,
    c: Vertex,
    p: Vertex,
    u: int,
    v: int,
    w: int,
) -> bool {
    &&& u >= 0 && v >= 0 && w >= 0 && u + v + w > 0
    &&& u * (a.vx() - p.vx()) + v * (b.vx() - p.vx()) + w * (c.vx() - p.vx()) == 0
    &&& u * (a.vy() - p.vy()) + v * (b.vy() - p.vy()) + w * (c.vy() - p.vy()) == 0
}

/// Whether a point is a mixture of three corners.
pub open spec fn is_mixture(a: Vertex, b: Vertex, c: Vertex, p: Vertex) -> bool {
    exists|u: int, v: int, w: int| #[trigger] balances(a, b, c, p, u, v, w)
}

proof fn lemma_pull(x: int, y: int, z: int, u: int, v: int, w: int)
    requires
        u >= 0 && v >= 0 && w >= 0 && u + v + w > 0,
        u * x + v * y + w * z == 0,
    ensures
        x <= 0 || y <= 0 || z <= 0,
        x >= 0 || y >= 0 || z >= 0,
{
    lemma_product_sign(u, x);
    lemma_product_sign(v, y);
    lemma_product_sign(w, z);
}

proof fn lemma_share_of_area(
    ax: int,
    ay: int,
    bx: int,
    by: int,
    cx: int,
    cy: int,
    u: int,
    v: int,
    w: int,
)
    requires
        u * ax + v * bx + w * cx == 0,
        u * ay + v * by + w * cy == 0,
    ensures
        v * cross(ax, ay, bx, by) == w * cross(cx, cy, ax, ay),
{
    lemma_times_three(ax, u * ay, v * by, w * cy);
    lemma_times_three(ay, u * ax, v * bx, w * cx);
    assert(ax * (u * ay) == ay * (u * ax)) by (nonlinear_arith);
    assert(ax * (v * by) - ay * (v * bx) == v * (ax * by - ay * bx)) by (nonlinear_arith);
    assert(ax * (w * cy) - ay * (w * cx) == -(w * (cx * ay - cy * ax))) by (nonlinear_arith);
    assert(ax * 0 == 0 && ay * 0 == 0) by (nonlinear_arith);
}

proof fn lemma_even_handed(ab: int, bc: int, ca: int, u: int, v: int, w: int)
    requires
        u >= 0 && v >= 0 && w >= 0 && u + v + w > 0,
        v * ab == w * ca,
        w * bc == u * ab,
        u * ca == v * bc,
    ensures
        !((ab < 0 || bc < 0 || ca < 0) && (ab > 0 || bc > 0 || ca > 0)),
{
    lemma_product_sign(v, ab);
    lemma_product_sign(w, ca);
    lemma_product_sign(w, bc);
    lemma_product_sign(u, ab);
    lemma_product_sign(u, ca);
    lemma_product_sign(v, bc);
}

/// Whether no two of three signs are opposite.
pub open spec fn are_alike(x: int, y: int, z: int) -> bool {
    (x >= 0 && y >= 0 && z >= 0) || (x <= 0 && y <= 0 && z <= 0)
}

/// The edges of a triangle that is not flat have a point on no two different
/// sides exactly where it is a mixture of the corners.
pub proof fn mixtures_are_on_one_side(a: Vertex, b: Vertex, c: Vertex, p: Vertex)
    requires
        orient(a, b, c) != 0,
    ensures
        are_alike(orient(a, b, p), orient(b, c, p), orient(c, a, p)) <==> is_mixture(a, b, c, p),
{
    let (ax, ay) = (a.vx() - p.vx(), a.vy() - p.vy());
    let (bx, by) = (b.vx() - p.vx(), b.vy() - p.vy());
    let (cx, cy) = (c.vx() - p.vx(), c.vy() - p.vy());
    let (ab, bc, ca) = (cross(ax, ay, bx, by), cross(bx, by, cx, cy), cross(cx, cy, ax, ay));
    assert(ab == orient_det(a, b, p) && bc == orient_det(b, c, p) && ca == orient_det(c, a, p));
    areas_add(a, b, c, p);
    if are_alike(orient(a, b, p), orient(b, c, p), orient(c, a, p)) {
        assert((bx * cy - by * cx) * ax + (cx * ay - cy * ax) * bx + (ax * by - ay * bx) * cx == 0)
            by (nonlinear_arith);
        assert((bx * cy - by * cx) * ay + (cx * ay - cy * ax) * by + (ax * by - ay * bx) * cy == 0)
            by (nonlinear_arith);
        if ab + bc + ca > 0 {
            assert(balances(a, b, c, p, bc, ca, ab));
        } else {
            assert((-bc) * ax + (-ca) * bx + (-ab) * cx == -(bc * ax + ca * bx + ab * cx))
                by (nonlinear_arith);
            assert((-bc) * ay + (-ca) * by + (-ab) * cy == -(bc * ay + ca * by + ab * cy))
                by (nonlinear_arith);
            assert(balances(a, b, c, p, -bc, -ca, -ab));
        }
    }
    if is_mixture(a, b, c, p) {
        let (u, v, w) = choose|u: int, v: int, w: int| #[trigger] balances(a, b, c, p, u, v, w);
        lemma_share_of_area(ax, ay, bx, by, cx, cy, u, v, w);
        lemma_share_of_area(bx, by, cx, cy, ax, ay, v, w, u);
        lemma_share_of_area(cx, cy, ax, ay, bx, by, w, u, v);
        lemma_even_handed(ab, bc, ca, u, v, w);
    }
}

/// A triangle that is not flat holds exactly the mixtures of its corners.
pub proof fn triangles_hold_their_mixtures(a: Vertex, b: Vertex, c: Vertex, p: Vertex)
    requires
        orient(a, b, c) != 0,
    ensures
        triangle_contains(a, b, c, p) <==> is_mixture(a, b, c, p),
{
    mixtures_are_on_one_side(a, b, c, p);
    if is_mixture(a, b, c, p) {
        let (u, v, w) = choose|u: int, v: int, w: int| #[trigger] balances(a, b, c, p, u, v, w);
        lemma_pull(a.vx() - p.vx(), b.vx() - p.vx(), c.vx() - p.vx(), u, v, w);
        lemma_pull(a.vy() - p.vy(), b.vy() - p.vy(), c.vy() - p.vy(), u, v, w);
        key_orders_values(a.x, p.x);
        key_orders_values(b.x, p.x);
        key_orders_values(c.x, p.x);
        key_orders_values(a.y, p.y);
        key_orders_values(b.y, p.y);
        key_orders_values(c.y, p.y);
    }
}

} // verus!
