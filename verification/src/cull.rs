//! Culling triangles by winding number, and dropping constraints left inside
//! what survives.

use crate::holes::{
    beyond_is_lost, expose, exposed, lemma_swept_dead, solid, solid_corners, sweep, sweeps, swept,
};
use crate::mesh::{no_sub, CdtMesh, MeshView, Otri, DUMMY_SUB, DUMMY_TRI};
use crate::segment::{insert_subseg, same_frame, subseg_inserted, MeshFault};
use crate::winding::{
    all_edges, centroid_winding, index_agrees_at_centroids, Edge, SoupContour, WindingIndex,
};
use vstd::prelude::*;

verus! {

/// Whether the winding rule takes the triangle in slot `t`: it is live, and
/// it has an unknown corner or its centroid has a winding number below one.
pub open spec fn doomed(m: MeshView, edges: Seq<Edge>, t: u32) -> bool {
    &&& t != 0
    &&& !m.dead(t)
    &&& solid(m, t) ==> centroid_winding(
        edges,
        m.pos(m.corner[Otri { tri: t, orient: 0 }]),
        m.pos(m.corner[Otri { tri: t, orient: 1 }]),
        m.pos(m.corner[Otri { tri: t, orient: 2 }]),
    ) < 1
}

/// The triangles that the winding rule takes.
pub open spec fn doomed_set(m: MeshView, edges: Seq<Edge>) -> Seq<bool> {
    Seq::new(m.tri_count, |t: int| doomed(m, edges, t as u32))
}

/// Bookkeeping for the subsegment on edge `o` of a dying triangle: it dies
/// where the other side is lost too, and becomes a boundary otherwise.
pub open spec fn edge_cleaned(m: MeshView, infected: Seq<bool>, o: Otri) -> MeshView {
    let s = m.tsub[o];
    let n = m.sym(o);
    if s.sub == 0 {
        m
    } else if beyond_is_lost(infected, n) {
        let killed = m.without_subseg(s.sub).with_tsub(o, no_sub());
        if n.tri != 0 {
            killed.with_tsub(n, no_sub())
        } else {
            killed
        }
    } else {
        exposed(m, s, n)
    }
}

/// Bookkeeping for the dying triangles from slot `t` on.
pub open spec fn cleaned(m: MeshView, infected: Seq<bool>, t: nat) -> MeshView
    decreases infected.len() - t,
{
    if t >= infected.len() {
        m
    } else if sweeps(m, infected, t as u32) {
        let o = Otri { tri: t as u32, orient: 0 };
        let m1 = edge_cleaned(m, infected, o);
        let m2 = edge_cleaned(m1, infected, o.next());
        cleaned(edge_cleaned(m2, infected, o.prev()), infected, t + 1)
    } else {
        cleaned(m, infected, t + 1)
    }
}

fn clean_edge(mesh: &mut CdtMesh, infected: &Vec<bool>, here: Otri)
    requires
        old(mesh)@.wf(),
        old(mesh)@.has(here),
        infected@.len() == old(mesh)@.tri_count,
    ensures
        final(mesh)@ == edge_cleaned(old(mesh)@, infected@, here),
        final(mesh)@.wf(),
        final(mesh)@.tflags == old(mesh)@.tflags,
        final(mesh)@.tri_count == old(mesh)@.tri_count,
        same_frame(old(mesh)@, final(mesh)@),
{
    let sub = mesh.tspivot(here);
    if sub.sub == DUMMY_SUB {
        return;
    }
    let neighbor = mesh.sym(here);
    if neighbor.tri == DUMMY_TRI || infected[neighbor.tri as usize] {
        mesh.kill_subseg(sub.sub);
        mesh.ts_dissolve(here);
        if neighbor.tri != DUMMY_TRI {
            mesh.ts_dissolve(neighbor);
        }
    } else {
        expose(mesh, sub, neighbor);
    }
}

/// Subsegment bookkeeping for a set of dying triangles.
pub fn cleanup_boundary_subsegs(mesh: &mut CdtMesh, infected: &Vec<bool>)
    requires
        old(mesh)@.wf(),
        infected@.len() == old(mesh)@.tri_count,
    ensures
        final(mesh)@ == cleaned(old(mesh)@, infected@, 1),
        final(mesh)@.wf(),
        final(mesh)@.tflags == old(mesh)@.tflags,
        final(mesh)@.tri_count == old(mesh)@.tri_count,
        same_frame(old(mesh)@, final(mesh)@),
{
    let n: usize = mesh.tri_slots();
    let mut t: usize = 1;
    while t < n
        invariant
            1 <= t <= n,
            n == mesh@.tri_count,
            n == infected@.len(),
            n <= crate::mesh::TRI_LIMIT,
            mesh@.wf(),
            mesh@.tri_count == old(mesh)@.tri_count,
            same_frame(old(mesh)@, mesh@),
            mesh@.tflags == old(mesh)@.tflags,
            cleaned(mesh@, infected@, t as nat) == cleaned(old(mesh)@, infected@, 1),
        decreases n - t,
    {
        let ti: u32 = t as u32;
        if infected[t] && !mesh.is_dead(ti) {
            let o = Otri::new(ti, 0);
            clean_edge(mesh, infected, o);
            clean_edge(mesh, infected, o.lnext());
            clean_edge(mesh, infected, o.lprev());
        }
        t += 1;
    }
}

/// A bare boundary edge takes a subsegment marked 1.
pub open spec fn edge_backfilled(m: MeshView, o: Otri) -> (MeshView, Result<(), MeshFault>) {
    if m.sym(o).tri == 0 && m.tsub[o].sub == 0 {
        subseg_inserted(m, o, 1)
    } else {
        (m, Ok(()))
    }
}

/// Edges `k..3` of triangle `t` backfilled.
pub open spec fn triangle_backfilled(m: MeshView, t: u32, k: nat) -> (
    MeshView,
    Result<(), MeshFault>,
)
    decreases 3 - k,
{
    if k >= 3 {
        (m, Ok(()))
    } else {
        let (m1, r1) = edge_backfilled(m, Otri { tri: t, orient: k as u8 });
        match r1 {
            Err(e) => (m1, Err(e)),
            Ok(_) => triangle_backfilled(m1, t, k + 1),
        }
    }
}

/// Every bare boundary edge of the live triangles from slot `t` up to `end`
/// backfilled.
pub open spec fn backfilled(m: MeshView, t: nat, end: nat) -> (MeshView, Result<(), MeshFault>)
    decreases end - t,
{
    if t >= end {
        (m, Ok(()))
    } else if !solid(m, t as u32) {
        backfilled(m, t + 1, end)
    } else {
        let (m1, r1) = triangle_backfilled(m, t as u32, 0);
        match r1 {
            Err(e) => (m1, Err(e)),
            Ok(_) => backfilled(m1, t + 1, end),
        }
    }
}

/// Whether an edge of a solid triangle that has nothing across is constrained.
pub open spec fn is_walled(m: MeshView, o: Otri) -> bool {
    m.has(o) && o.tri != 0 && solid(m, o.tri) && m.sym(o).tri == 0 ==> m.tsub[o].sub != 0
}

/// Give every bare boundary edge a subsegment marked 1.
pub fn backfill_boundary_subsegs(mesh: &mut CdtMesh) -> (r: Result<(), MeshFault>)
    requires
        old(mesh)@.wf(),
    ensures
        (final(mesh)@, r) == backfilled(old(mesh)@, 1, old(mesh)@.tri_count),
        final(mesh)@.wf(),
        final(mesh)@.tflags == old(mesh)@.tflags,
        final(mesh)@.nbr == old(mesh)@.nbr,
        r is Ok ==> forall|o: Otri| #[trigger] is_walled(final(mesh)@, o),
        final(mesh)@.tri_count == old(mesh)@.tri_count,
        same_frame(old(mesh)@, final(mesh)@),
{
    let n: usize = mesh.tri_slots();
    let mut t: usize = 1;
    while t < n
        invariant
            1 <= t <= n,
            n == mesh@.tri_count,
            n <= crate::mesh::TRI_LIMIT,
            mesh@.wf(),
            mesh@.tri_count == old(mesh)@.tri_count,
            same_frame(old(mesh)@, mesh@),
            mesh@.tflags == old(mesh)@.tflags,
            mesh@.nbr == old(mesh)@.nbr,
            forall|o: Otri| o.tri < t ==> #[trigger] is_walled(mesh@, o),
            backfilled(mesh@, t as nat, n as nat) == backfilled(old(mesh)@, 1, n as nat),
        decreases n - t,
    {
        let ti: u32 = t as u32;
        if solid_corners(mesh, ti).is_some() {
            let ghost start = mesh@;
            let mut k: u8 = 0;
            while k < 3
                invariant
                    k <= 3,
                    t == ti,
                    t < n,
                    n == mesh@.tri_count,
                    n <= crate::mesh::TRI_LIMIT,
                    mesh@.wf(),
                    mesh@.tri_count == old(mesh)@.tri_count,
                    same_frame(old(mesh)@, mesh@),
                    solid(start, ti),
                    mesh@.tflags == old(mesh)@.tflags,
                    mesh@.nbr == old(mesh)@.nbr,
                    forall|o: Otri|
                        o.tri < t || (o.tri == t && o.orient < k) ==> #[trigger] is_walled(
                            mesh@,
                            o,
                        ),
                    backfilled(start, t as nat, n as nat) == backfilled(old(mesh)@, 1, n as nat),
                    triangle_backfilled(mesh@, ti, k as nat) == triangle_backfilled(start, ti, 0),
                decreases 3 - k,
            {
                let here = Otri::new(ti, k);
                let ghost before = mesh@;
                if mesh.sym(here).tri == DUMMY_TRI && mesh.tspivot(here).sub == DUMMY_SUB {
                    let inserted = insert_subseg(mesh, here, 1);
                    if let Err(e) = inserted {
                        return Err(e);
                    }
                }
                proof {
                    assert forall|o: Otri|
                        o.tri < t || (o.tri == t && o.orient < k + 1) implies #[trigger] is_walled(
                        mesh@,
                        o,
                    ) by {
                        if o != here && mesh@.has(o) {
                            assert(before.has(o));
                            assert(is_walled(before, o));
                            assert(solid(before, o.tri) == solid(mesh@, o.tri));
                        }
                    }
                }
                k += 1;
            }
        }
        t += 1;
    }
    Ok(())
}

/// Culling by winding number: bookkeeping, sweep, backfill; the number of
/// triangles taken.
pub open spec fn culled(m: MeshView, edges: Seq<Edge>) -> (MeshView, Result<nat, MeshFault>) {
    let infected = doomed_set(m, edges);
    let (m2, killed) = swept(cleaned(m, infected, 1), infected, 1);
    let (m3, r3) = backfilled(m2, 1, m2.tri_count);
    match r3 {
        Err(e) => (m3, Err(e)),
        Ok(_) => (m3, Ok(killed)),
    }
}

/// Kill every live triangle whose centroid has a winding number below one.
/// Subsegments between dying triangles die with them, those on the new
/// boundary are marked, and bare boundary edges get a subsegment marked 1.
/// Returns the number of triangles killed.
pub fn carve_by_winding(mesh: &mut CdtMesh, contours: &Vec<SoupContour>) -> (r: Result<
    usize,
    MeshFault,
>)
    requires
        old(mesh)@.wf(),
        all_edges(contours@).len() <= i32::MAX,
    ensures
        final(mesh)@ == culled(old(mesh)@, all_edges(contours@)).0,
        match culled(old(mesh)@, all_edges(contours@)).1 {
            Ok(k) => r matches Ok(n) && n == k,
            Err(e) => r == Err::<usize, MeshFault>(e),
        },
        final(mesh)@.wf(),
        final(mesh)@.tri_count == old(mesh)@.tri_count,
        same_frame(old(mesh)@, final(mesh)@),
        forall|t: u32|
            0 < t < old(mesh)@.tri_count ==> (#[trigger] final(mesh)@.dead(t) <==> old(mesh)@.dead(t)
                || doomed(old(mesh)@, all_edges(contours@), t)),
        r is Ok ==> forall|o: Otri| #[trigger] is_walled(final(mesh)@, o),
{
    let n: usize = mesh.tri_slots();
    let ghost edges = all_edges(contours@);
    let index = WindingIndex::build(contours);
    let mut infected: Vec<bool> = Vec::new();
    infected.push(false);
    let mut t: usize = 1;
    while t < n
        invariant
            1 <= t <= n,
            n == mesh@.tri_count,
            n <= crate::mesh::TRI_LIMIT,
            mesh@.wf(),
            mesh@ == old(mesh)@,
            index.wf(),
            index.edges() == crate::winding::sloped(edges),
            infected@.len() == t,
            forall|x: int| 0 <= x < t ==> #[trigger] infected@[x] == doomed(mesh@, edges, x as u32),
        decreases n - t,
    {
        let ti: u32 = t as u32;
        let dies: bool = if mesh.is_dead(ti) {
            false
        } else {
            match solid_corners(mesh, ti) {
                Some((a, b, c)) => {
                    proof {
                        index_agrees_at_centroids(edges, a, b, c);
                    }
                    index.winding_at_centroid(a, b, c) < 1
                },
                None => true,
            }
        };
        infected.push(dies);
        t += 1;
    }
    proof {
        assert(infected@ =~= doomed_set(mesh@, edges));
    }
    cleanup_boundary_subsegs(mesh, &infected);
    let ghost clean = mesh@;
    let killed: usize = sweep(mesh, &infected);
    let ghost rest = mesh@;
    let filled = backfill_boundary_subsegs(mesh);
    proof {
        lemma_swept_dead(clean, infected@, 1);
        assert forall|t: u32| 0 < t < old(mesh)@.tri_count implies (#[trigger] mesh@.dead(t)
            <==> old(mesh)@.dead(t) || doomed(old(mesh)@, edges, t)) by {
            assert(rest.dead(t) == mesh@.dead(t));
            assert(clean.dead(t) == old(mesh)@.dead(t));
            assert(infected@[t as int] == doomed(old(mesh)@, edges, t));
        }
    }
    match filled {
        Err(e) => Err(e),
        Ok(_) => Ok(killed),
    }
}

// --- Interior constraints ---------------------------------------------------

/// Edge number `e` in pool order.
pub open spec fn edge_at(e: int) -> Otri {
    Otri { tri: (e / 3) as u32, orient: (e % 3) as u8 }
}

/// The edges of live triangles, in pool order up to edge number `e`, that
/// carry subsegment `s`.
pub open spec fn sides_before(m: MeshView, s: u32, e: int) -> Seq<Otri>
    decreases e,
{
    if e <= 3 {
        Seq::empty()
    } else {
        let before = sides_before(m, s, e - 1);
        let o = edge_at(e - 1);
        if solid(m, o.tri) && m.tsub[o].sub == s {
            before.push(o)
        } else {
            before
        }
    }
}

/// The edges of live triangles that carry subsegment `s`.
pub open spec fn sides(m: MeshView, s: u32) -> Seq<Otri> {
    sides_before(m, s, 3 * m.tri_count as int)
}

/// The first two entries of a list.
pub open spec fn first_two(list: Seq<Otri>) -> (Option<Otri>, Option<Otri>) {
    (
        if list.len() > 0 {
            Some(list[0])
        } else {
            None
        },
        if list.len() > 1 {
            Some(list[1])
        } else {
            None
        },
    )
}

/// For every subsegment the first two live triangle edges that carry it.
pub fn live_sides(mesh: &CdtMesh) -> (r: Vec<(Option<Otri>, Option<Otri>)>)
    requires
        mesh@.wf(),
    ensures
        r@.len() == mesh@.sub_count,
        forall|s: int|
            0 < s < r@.len() ==> #[trigger] r@[s] == first_two(sides(mesh@, s as u32)),
{
    let n: usize = mesh.tri_slots();
    let subs: usize = mesh.sub_slots();
    let mut r: Vec<(Option<Otri>, Option<Otri>)> = Vec::new();
    let mut i: usize = 0;
    while i < subs
        invariant
            i <= subs,
            r@.len() == i,
            forall|s: int| 0 <= s < i ==> #[trigger] r@[s] == (None::<Otri>, None::<Otri>),
        decreases subs - i,
    {
        r.push((None, None));
        i += 1;
    }
    let mut t: usize = 1;
    while t < n
        invariant
            1 <= t <= n,
            n == mesh@.tri_count,
            n <= crate::mesh::TRI_LIMIT,
            subs == mesh@.sub_count,
            subs <= crate::mesh::SUB_LIMIT,
            mesh@.wf(),
            r@.len() == subs,
            forall|s: int|
                0 < s < subs ==> #[trigger] r@[s] == first_two(
                    sides_before(mesh@, s as u32, 3 * t),
                ),
        decreases n - t,
    {
        let ti: u32 = t as u32;
        let live: bool = solid_corners(mesh, ti).is_some();
        let mut k: u8 = 0;
        while k < 3
            invariant
                k <= 3,
                1 <= t < n,
                t == ti,
                n == mesh@.tri_count,
                n <= crate::mesh::TRI_LIMIT,
                subs == mesh@.sub_count,
                subs <= crate::mesh::SUB_LIMIT,
                mesh@.wf(),
                live == solid(mesh@, ti),
                r@.len() == subs,
                forall|s: int|
                    0 < s < subs ==> #[trigger] r@[s] == first_two(
                        sides_before(mesh@, s as u32, 3 * t + k),
                    ),
            decreases 3 - k,
        {
            let here = Otri::new(ti, k);
            assert(edge_at(3 * t + k) == here);
            if live {
                let sub = mesh.tspivot(here).sub;
                if sub != DUMMY_SUB {
                    let (first, second) = r[sub as usize];
                    if first.is_none() {
                        r.set(sub as usize, (Some(here), None));
                    } else if second.is_none() {
                        r.set(sub as usize, (first, Some(here)));
                    }
                }
            }
            k += 1;
        }
        t += 1;
    }
    r
}

/// Whether subsegment `s` is a live constraint with one of the given markers
/// and a live triangle on both sides.
pub open spec fn is_interior(m: MeshView, markers: Seq<i32>, live: MeshView, s: u32) -> bool {
    !m.sub_dead(s) && markers.contains(m.smark[s as int]) && sides(live, s).len() >= 2
}

/// Dropping the interior constraints from subsegment `s` up to `end`, sides
/// taken from `live`: the mesh left and the number dropped.
pub open spec fn dropped(m: MeshView, markers: Seq<i32>, live: MeshView, s: nat, end: nat) -> (
    MeshView,
    nat,
)
    decreases end - s,
{
    if s >= end {
        (m, 0)
    } else if is_interior(m, markers, live, s as u32) {
        let list = sides(live, s as u32);
        let m1 = m.with_tsub(list[0], no_sub()).with_tsub(list[1], no_sub()).without_subseg(
            s as u32,
        );
        let (w, k) = dropped(m1, markers, live, s + 1, end);
        (w, k + 1)
    } else {
        dropped(m, markers, live, s + 1, end)
    }
}

/// Whether the list is strictly ascending.
pub open spec fn ascending(list: Seq<i32>) -> bool {
    forall|i: int, j: int| 0 <= i < j < list.len() ==> list[i] < list[j]
}

fn has_marker(markers: &Vec<i32>, marker: i32) -> (r: bool)
    requires
        ascending(markers@),
    ensures
        r == markers@.contains(marker),
{
    let mut lo: usize = 0;
    let mut hi: usize = markers.len();
    while lo < hi
        invariant
            lo <= hi <= markers@.len(),
            ascending(markers@),
            forall|i: int| 0 <= i < lo ==> markers@[i] < marker,
            forall|i: int| hi <= i < markers@.len() ==> markers@[i] > marker,
        decreases hi - lo,
    {
        let mid: usize = lo + (hi - lo) / 2;
        if markers[mid] == marker {
            return true;
        }
        if markers[mid] < marker {
            lo = mid + 1;
        } else {
            hi = mid;
        }
    }
    false
}

proof fn lemma_sides_exist(m: MeshView, s: u32, e: int)
    requires
        m.wf(),
        e <= 3 * m.tri_count,
    ensures
        forall|i: int|
            0 <= i < sides_before(m, s, e).len() ==> m.has(#[trigger] sides_before(m, s, e)[i]),
    decreases e,
{
    if e > 3 {
        lemma_sides_exist(m, s, e - 1);
        let before = sides_before(m, s, e - 1);
        assert(m.has(edge_at(e - 1)));
        assert forall|i: int| 0 <= i < sides_before(m, s, e).len() implies m.has(
            #[trigger] sides_before(m, s, e)[i],
        ) by {
            if i < before.len() {
                assert(m.has(before[i]));
            }
        }
    }
}

/// Kill every subsegment whose marker is in `soup_markers` and that has a
/// live triangle on both sides. Returns the number killed.
pub fn drop_interior_constraints(mesh: &mut CdtMesh, soup_markers: &Vec<i32>) -> (killed: usize)
    requires
        old(mesh)@.wf(),
        ascending(soup_markers@),
    ensures
        (final(mesh)@, killed as nat) == dropped(
            old(mesh)@,
            soup_markers@,
            old(mesh)@,
            1,
            old(mesh)@.sub_count,
        ),
        final(mesh)@.wf(),
        final(mesh)@.tri_count == old(mesh)@.tri_count,
        final(mesh)@.vertices == old(mesh)@.vertices,
{
    let found = live_sides(mesh);
    let ghost live = mesh@;
    let n: usize = mesh.sub_slots();
    let mut killed: usize = 0;
    let mut s: usize = 1;
    while s < n
        invariant
            1 <= s <= n,
            n == mesh@.sub_count,
            n == found@.len(),
            n <= crate::mesh::SUB_LIMIT,
            killed < s,
            live == old(mesh)@,
            live.wf(),
            mesh@.wf(),
            mesh@.tri_count == live.tri_count,
            mesh@.vertices == old(mesh)@.vertices,
            ascending(soup_markers@),
            forall|x: int|
                0 < x < n ==> #[trigger] found@[x] == first_two(sides(live, x as u32)),
            dropped(old(mesh)@, soup_markers@, live, 1, n as nat) == (
                dropped(mesh@, soup_markers@, live, s as nat, n as nat).0,
                dropped(mesh@, soup_markers@, live, s as nat, n as nat).1 + killed as nat,
            ),
        decreases n - s,
    {
        let si: u32 = s as u32;
        if !mesh.is_sub_dead(si) && has_marker(soup_markers, mesh.sub_marker(si)) {
            let (first, second) = found[s];
            if let Some(t0) = first {
                if let Some(t1) = second {
                    proof {
                        lemma_sides_exist(live, si, 3 * live.tri_count as int);
                        assert(live.has(sides(live, si)[0]) && live.has(sides(live, si)[1]));
                    }
                    mesh.ts_dissolve(t0);
                    mesh.ts_dissolve(t1);
                    mesh.kill_subseg(si);
                    killed += 1;
                }
            }
        }
        s += 1;
    }
    killed
}

/// Dropping interior constraints kills exactly the live subsegments that
/// carry one of the markers and separate two live triangles; markers and
/// everything about the triangles but their subsegment links stay.
pub proof fn only_interior_constraints_are_dropped(m: MeshView, markers: Seq<i32>)
    requires
        m.wf(),
    ensures
        ({
            let (w, k) = dropped(m, markers, m, 1, m.sub_count);
            &&& w.nbr == m.nbr
            &&& w.corner == m.corner
            &&& w.tflags == m.tflags
            &&& w.smark == m.smark
            &&& forall|s: u32|
                0 < s < m.sub_count ==> (#[trigger] w.sub_dead(s) <==> m.sub_dead(s)
                    || is_interior(m, markers, m, s))
        }),
{
    lemma_dropped(m, m, markers, 1, m.sub_count);
}

proof fn lemma_dropped(m: MeshView, live: MeshView, markers: Seq<i32>, s: nat, end: nat)
    requires
        end <= 0x8000_0000,
        m.sflags.len() == end,
    ensures
        ({
            let (w, k) = dropped(m, markers, live, s, end);
            &&& w.nbr == m.nbr
            &&& w.corner == m.corner
            &&& w.tflags == m.tflags
            &&& w.smark == m.smark
            &&& w.sflags.len() == m.sflags.len()
            &&& forall|x: u32|
                x < end ==> (#[trigger] w.sub_dead(x) <==> m.sub_dead(x) || (x >= s
                    && is_interior(m, markers, live, x)))
        }),
    decreases end - s,
{
    if s < end {
        let si = s as u32;
        if is_interior(m, markers, live, si) {
            let list = sides(live, si);
            let m1 = m.with_tsub(list[0], no_sub()).with_tsub(list[1], no_sub()).without_subseg(si);
            let f = m.sflags[s as int];
            assert((f | 1) & 1 != 0) by (bit_vector);
            lemma_dropped(m1, live, markers, s + 1, end);
            let w = dropped(m1, markers, live, s + 1, end).0;
            assert forall|x: u32| x < end implies (#[trigger] w.sub_dead(x) <==> m.sub_dead(x) || (
            x >= s && is_interior(m, markers, live, x))) by {
                if x != si {
                    assert(m1.sub_dead(x) == m.sub_dead(x));
                }
            }
        } else {
            lemma_dropped(m, live, markers, s + 1, end);
        }
    }
}

/// Whether an edge of a solid triangle carries subsegment `s`.
pub open spec fn carries(m: MeshView, s: u32, o: Otri) -> bool {
    0 < o.tri < m.tri_count && o.orient < 3 && solid(m, o.tri) && m.tsub[o].sub == s
}

/// Whether two edges of solid triangles carry subsegment `s`.
pub open spec fn is_between(m: MeshView, s: u32) -> bool {
    exists|o: Otri, p: Otri| o != p && #[trigger] carries(m, s, o) && #[trigger] carries(m, s, p)
}

/// The number of an edge in pool order.
spec fn number_of_edge(o: Otri) -> int {
    3 * o.tri + o.orient
}

proof fn lemma_sides_carry(m: MeshView, s: u32, e: int)
    requires
        e <= 3 * m.tri_count,
        m.tri_count <= u32::MAX,
    ensures
        ({
            let list = sides_before(m, s, e);
            &&& forall|i: int|
                0 <= i < list.len() ==> carries(m, s, #[trigger] list[i]) && number_of_edge(
                    list[i],
                ) < e
            &&& forall|i: int, j: int|
                0 <= i < j < list.len() ==> number_of_edge(list[i]) < number_of_edge(list[j])
            &&& forall|o: Otri| #[trigger]
                carries(m, s, o) && number_of_edge(o) < e ==> list.contains(o)
        }),
    decreases e,
{
    let list = sides_before(m, s, e);
    if e > 3 {
        lemma_sides_carry(m, s, e - 1);
        let before = sides_before(m, s, e - 1);
        let o = edge_at(e - 1);
        assert(number_of_edge(o) == e - 1);
        assert(0 < o.tri < m.tri_count);
        assert forall|p: Otri| #[trigger] carries(m, s, p) && number_of_edge(p) < e implies list.contains(
            p,
        ) by {
            if number_of_edge(p) < e - 1 {
                assert(before.contains(p));
                assert(list[before.index_of(p)] == p);
            } else {
                assert(p == o);
                assert(list[before.len() as int] == p);
            }
        }
    }
}

proof fn lemma_sides_between(m: MeshView, s: u32)
    requires
        m.tri_count <= u32::MAX,
    ensures
        sides(m, s).len() >= 2 <==> is_between(m, s),
{
    let list = sides(m, s);
    lemma_sides_carry(m, s, 3 * m.tri_count as int);
    if list.len() >= 2 {
        assert(carries(m, s, list[0]) && carries(m, s, list[1]));
        assert(number_of_edge(list[0]) < number_of_edge(list[1]));
    }
    if is_between(m, s) {
        let (o, p) = choose|o: Otri, p: Otri|
            o != p && #[trigger] carries(m, s, o) && #[trigger] carries(m, s, p);
        assert(list.contains(o) && list.contains(p));
        let (i, j) = (list.index_of(o), list.index_of(p));
        assert(list[i] == o && list[j] == p);
    }
}

/// A live subsegment is dropped where it has one of the markers and is carried
/// by edges of two solid triangles, or by two of one; every other stays.
pub proof fn constraints_between_triangles_are_dropped(m: MeshView, markers: Seq<i32>)
    requires
        m.wf(),
    ensures
        ({
            let w = dropped(m, markers, m, 1, m.sub_count).0;
            forall|s: u32|
                0 < s < m.sub_count ==> (#[trigger] w.sub_dead(s) <==> m.sub_dead(s) || (exists|
                    i: int,
                |
                    0 <= i < markers.len() && #[trigger] markers[i] == m.smark[s as int])
                    && is_between(m, s))
        }),
{
    let w = dropped(m, markers, m, 1, m.sub_count).0;
    only_interior_constraints_are_dropped(m, markers);
    assert forall|s: u32| 0 < s < m.sub_count implies (#[trigger] w.sub_dead(s) <==> m.sub_dead(s)
        || (exists|i: int| 0 <= i < markers.len() && #[trigger] markers[i] == m.smark[s as int])
        && is_between(m, s)) by {
        lemma_sides_between(m, s);
    }
}

} // verus!
