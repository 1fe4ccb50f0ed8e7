//! Ear clipping: removal of small triangles that hang on a mesh by one edge.
//!
//! An ear has two constrained edges and one interior edge. Clipping it makes
//! the interior edge a constraint of the neighbor.

use crate::coord::{coord_less, exponent_of, finite, scale, significand, unsigned_bits, value};
use crate::holes::{solid, solid_corners};
use crate::mesh::{flags_dead, no_sub, no_tri, CdtMesh, MeshView, Osub, Otri, DUMMY_SUB, DUMMY_TRI};
use crate::predicates::{area_below, area_less};
use crate::segment::MeshFault;
use vstd::arithmetic::power2::pow2;
use vstd::prelude::*;

verus! {

/// A small triangle with two constrained edges, the edge it hangs on, the
/// triangle beyond that edge, and the marker that the edge would take.
#[derive(Copy, Clone, Debug, PartialEq, Eq, Structural)]
pub struct Ear {
    pub tri: u32,
    pub orient: u8,
    pub neighbor: u32,
    pub marker: i32,
}

/// Whether a bit pattern is not a number.
pub open spec fn not_a_number(bits: u64) -> bool {
    unsigned_bits(bits) > 0x7ff0_0000_0000_0000
}

/// Whether no area is below the limit.
pub open spec fn clips_nothing(limit: u64) -> bool {
    !not_a_number(limit) && value(limit) <= 0
}

/// Whether the edge is a constraint.
pub open spec fn walled(m: MeshView, o: Otri) -> bool {
    m.tsub[o].sub != DUMMY_SUB
}

/// Whether the edge leads to another triangle and is no constraint.
pub open spec fn passable(m: MeshView, o: Otri) -> bool {
    !walled(m, o) && m.sym(o).tri != DUMMY_TRI
}

/// The only passable edge of a triangle whose other two are constraints.
pub open spec fn ear_edge(m: MeshView, t: u32) -> Option<u8> {
    let (e0, e1, e2) = (
        Otri { tri: t, orient: 0 },
        Otri { tri: t, orient: 1 },
        Otri { tri: t, orient: 2 },
    );
    if passable(m, e0) && walled(m, e1) && walled(m, e2) {
        Some(0)
    } else if walled(m, e0) && passable(m, e1) && walled(m, e2) {
        Some(1)
    } else if walled(m, e0) && walled(m, e1) && passable(m, e2) {
        Some(2)
    } else {
        None
    }
}

/// The smaller nonzero marker of two; 1 where both are zero.
pub open spec fn inherited(a: i32, b: i32) -> i32 {
    if a == 0 && b == 0 {
        1
    } else if a == 0 {
        b
    } else if b == 0 {
        a
    } else if a < b {
        a
    } else {
        b
    }
}

/// Whether the area of a solid triangle is below the limit.
pub open spec fn small(m: MeshView, t: u32, limit: u64) -> bool {
    !finite(limit) || area_less(
        m.pos(m.corner[Otri { tri: t, orient: 0 }]),
        m.pos(m.corner[Otri { tri: t, orient: 1 }]),
        m.pos(m.corner[Otri { tri: t, orient: 2 }]),
        limit,
    )
}

/// The ear in slot `t`, where there is one.
pub open spec fn ear_at(m: MeshView, t: u32, limit: u64) -> Option<Ear> {
    match ear_edge(m, t) {
        None => None,
        Some(k) => if solid(m, t) && small(m, t, limit) {
            let o = Otri { tri: t, orient: k };
            Some(
                Ear {
                    tri: t,
                    orient: k,
                    neighbor: m.sym(o).tri,
                    marker: inherited(
                        m.smark[m.tsub[o.next()].sub as int],
                        m.smark[m.tsub[o.prev()].sub as int],
                    ),
                },
            )
        } else {
            None
        },
    }
}

/// The ears in the slots before `n`, in order.
pub open spec fn ears_to(m: MeshView, limit: u64, n: nat) -> Seq<Ear>
    decreases n,
{
    if n <= 1 {
        Seq::empty()
    } else {
        let before = ears_to(m, limit, (n - 1) as nat);
        match ear_at(m, (n - 1) as u32, limit) {
            None => before,
            Some(e) => before.push(e),
        }
    }
}

/// The mesh without the constraint on edge `o`, where it has one.
pub open spec fn unwalled(m: MeshView, o: Otri) -> MeshView {
    let s = m.tsub[o];
    if s.sub == DUMMY_SUB {
        m
    } else {
        m.with_tsub(o, no_sub()).without_subseg(s.sub)
    }
}

/// The mesh without an ear: its walls are gone, the edge it hung on is a
/// constraint of the neighbor, its slot is free.
pub open spec fn ear_clipped(m: MeshView, e: Ear) -> (MeshView, Result<(), MeshFault>) {
    let here = Otri { tri: e.tri, orient: e.orient };
    let n = m.sym(here);
    let m1 = unwalled(unwalled(m, here.next()), here.prev()).with_nbr(n, no_tri());
    if !m1.sub_room() {
        (m1, Err(MeshFault::Full))
    } else {
        let s = Osub { sub: m1.next_sub(), orient: 0 };
        let (a, b) = (m.org(n), m.dest(n));
        let m2 = m1.with_subseg().with_svert(s, b).with_svert(s.other(), a).with_segvert(
            s,
            b,
        ).with_segvert(s.other(), a).with_smark(s.sub, e.marker).ts_bonded(n, s);
        (m2.without_triangle(e.tri), Ok(()))
    }
}

/// Whether the ear and its neighbor are both ears that hang on each other.
pub open spec fn bowtie(ears: Seq<Ear>, e: Ear) -> bool {
    exists|k: int|
        #![trigger ears[k]]
        0 <= k < ears.len() && ears[k].tri == e.neighbor && ears[k].neighbor == e.tri
}

/// One pass over the ears from the `i`-th on: each is clipped unless it or
/// its neighbor was touched before in the pass or the two are a bowtie. The
/// mesh, how many were clipped, and whether there was room.
pub open spec fn pass_clipped(m: MeshView, ears: Seq<Ear>, i: nat, touched: Set<u32>) -> (
    MeshView,
    nat,
    Result<(), MeshFault>,
)
    decreases ears.len() - i,
{
    if i >= ears.len() {
        (m, 0, Ok(()))
    } else {
        let e = ears[i as int];
        if touched.contains(e.tri) || touched.contains(e.neighbor) || bowtie(ears, e) {
            pass_clipped(m, ears, i + 1, touched)
        } else {
            let (m1, r1) = ear_clipped(m, e);
            match r1 {
                Err(f) => (m1, 0, Err(f)),
                Ok(_) => {
                    let (m2, n, r) = pass_clipped(
                        m1,
                        ears,
                        i + 1,
                        touched.insert(e.tri).insert(e.neighbor),
                    );
                    (m2, n + 1, r)
                },
            }
        }
    }
}

/// Pass after pass until one clips nothing, at most `fuel` of them, and how
/// many ears were clipped.
pub open spec fn ears_clipped(m: MeshView, limit: u64, fuel: nat) -> (
    MeshView,
    Result<nat, MeshFault>,
)
    decreases fuel,
{
    let ears = ears_to(m, limit, m.tri_count);
    let (m1, n, r) = pass_clipped(m, ears, 0, Set::empty());
    match r {
        Err(f) => (m1, Err(f)),
        Ok(_) => if n == 0 || fuel == 0 {
            (m1, Ok(n))
        } else {
            let (m2, r2) = ears_clipped(m1, limit, (fuel - 1) as nat);
            match r2 {
                Err(f) => (m2, Err(f)),
                Ok(k) => (m2, Ok(n + k)),
            }
        },
    }
}

fn is_walled(mesh: &CdtMesh, o: Otri) -> (r: bool)
    requires
        mesh@.wf(),
        mesh@.has(o),
    ensures
        r == walled(mesh@, o),
{
    mesh.tspivot(o).sub != DUMMY_SUB
}

fn find_ear_edge(mesh: &CdtMesh, t: u32) -> (r: Option<u8>)
    requires
        mesh@.wf(),
        t < mesh@.tri_count,
    ensures
        r == ear_edge(mesh@, t),
{
    let (e0, e1, e2) = (Otri::new(t, 0), Otri::new(t, 1), Otri::new(t, 2));
    let (w0, w1, w2) = (is_walled(mesh, e0), is_walled(mesh, e1), is_walled(mesh, e2));
    let p0 = !w0 && mesh.sym(e0).tri != DUMMY_TRI;
    let p1 = !w1 && mesh.sym(e1).tri != DUMMY_TRI;
    let p2 = !w2 && mesh.sym(e2).tri != DUMMY_TRI;
    if p0 && w1 && w2 {
        Some(0)
    } else if w0 && p1 && w2 {
        Some(1)
    } else if w0 && w1 && p2 {
        Some(2)
    } else {
        None
    }
}

fn inherit(a: i32, b: i32) -> (r: i32)
    ensures
        r == inherited(a, b),
{
    if a == 0 && b == 0 {
        1
    } else if a == 0 {
        b
    } else if b == 0 {
        a
    } else if a < b {
        a
    } else {
        b
    }
}

fn find_ear(mesh: &CdtMesh, t: u32, limit: u64) -> (r: Option<Ear>)
    requires
        mesh@.wf(),
        t < mesh@.tri_count,
        !clips_nothing(limit),
    ensures
        r == ear_at(mesh@, t, limit),
{
    let k: u8 = match find_ear_edge(mesh, t) {
        None => return None,
        Some(k) => k,
    };
    let (a, b, c) = match solid_corners(mesh, t) {
        None => return None,
        Some(x) => x,
    };
    if exponent_of(limit) != 0x7ff && !area_below(a, b, c, limit) {
        return None;
    }
    let o = Otri::new(t, k);
    let first: i32 = mesh.sub_marker(mesh.tspivot(o.lnext()).sub);
    let second: i32 = mesh.sub_marker(mesh.tspivot(o.lprev()).sub);
    Some(Ear { tri: t, orient: k, neighbor: mesh.sym(o).tri, marker: inherit(first, second) })
}

/// What every list of ears has: ascending live slots.
spec fn ears_fit(m: MeshView, ears: Seq<Ear>, n: nat) -> bool {
    &&& forall|i: int|
        0 <= i < ears.len() ==> {
            &&& 0 < (#[trigger] ears[i]).tri < n
            &&& n <= m.tri_count
            &&& ears[i].orient < 3
            &&& ears[i].neighbor < m.tri_count
        }
    &&& forall|i: int| 0 <= i < ears.len() ==> !m.dead((#[trigger] ears[i]).tri)
    &&& forall|i: int, j: int| 0 <= i < j < ears.len() ==> ears[i].tri < ears[j].tri
}

/// The ears of the mesh with an area below `limit`, in slot order.
pub fn find_ear_candidates(mesh: &CdtMesh, limit: u64) -> (out: Vec<Ear>)
    requires
        mesh@.wf(),
        !clips_nothing(limit),
    ensures
        out@ == ears_to(mesh@, limit, mesh@.tri_count),
        lists_hanging(mesh@, limit, out@),
        forall|i: int| 0 <= i < out@.len() ==> ear_at(mesh@, (#[trigger] out@[i]).tri, limit) == Some(
            out@[i],
        ) && 0 < out@[i].tri < mesh@.tri_count,
        forall|i: int, j: int| 0 <= i < j < out@.len() ==> out@[i].tri < out@[j].tri,
{
    let n: usize = mesh.tri_slots();
    let mut out: Vec<Ear> = Vec::new();
    let mut t: u32 = 1;
    while (t as usize) < n
        invariant
            mesh@.wf(),
            !clips_nothing(limit),
            n == mesh@.tri_count,
            1 <= t <= n,
            out@ == ears_to(mesh@, limit, t as nat),
            forall|i: int|
                0 <= i < out@.len() ==> ear_at(mesh@, (#[trigger] out@[i]).tri, limit) == Some(
                    out@[i],
                ) && 0 < out@[i].tri < t,
            forall|i: int, j: int| 0 <= i < j < out@.len() ==> out@[i].tri < out@[j].tri,
        decreases n - t,
    {
        if let Some(e) = find_ear(mesh, t, limit) {
            out.push(e);
        }
        t += 1;
    }
    proof {
        every_hanging_triangle_is_an_ear(mesh@, limit);
    }
    out
}

fn remove_wall(mesh: &mut CdtMesh, o: Otri)
    requires
        old(mesh)@.wf(),
        old(mesh)@.has(o),
    ensures
        final(mesh)@ == unwalled(old(mesh)@, o),
        final(mesh)@.wf(),
        final(mesh)@.tri_count == old(mesh)@.tri_count,
{
    let s = mesh.tspivot(o);
    if s.sub != DUMMY_SUB {
        mesh.ts_dissolve(o);
        mesh.kill_subseg(s.sub);
    }
}

/// Clip one ear.
pub fn clip_one(mesh: &mut CdtMesh, e: Ear) -> (r: Result<(), MeshFault>)
    requires
        old(mesh)@.wf(),
        0 < e.tri < old(mesh)@.tri_count,
        e.orient < 3,
    ensures
        (final(mesh)@, r) == ear_clipped(old(mesh)@, e),
        final(mesh)@.wf(),
        final(mesh)@.tri_count == old(mesh)@.tri_count,
        final(mesh)@.vertices == old(mesh)@.vertices,
        r is Ok ==> final(mesh)@.tflags == old(mesh)@.tflags.update(
            e.tri as int,
            old(mesh)@.tflags[e.tri as int] | 2,
        ),
{
    let here = Otri::new(e.tri, e.orient);
    let n = mesh.sym(here);
    let (a, b) = (mesh.org(n), mesh.dest(n));
    remove_wall(mesh, here.lnext());
    remove_wall(mesh, here.lprev());
    mesh.dissolve(n);
    if !mesh.has_sub_room() {
        return Err(MeshFault::Full);
    }
    let s = mesh.make_subseg();
    mesh.set_sorg(s, b);
    mesh.set_sdest(s, a);
    mesh.set_segorg(s, b);
    mesh.set_segdest(s, a);
    mesh.set_sub_marker(s.sub, e.marker);
    mesh.tsbond(n, s);
    mesh.kill_triangle(e.tri);
    Ok(())
}

/// How many of the slots from 1 up to `n` are live.
pub open spec fn live_to(flags: Seq<u8>, n: nat) -> nat
    decreases n,
{
    if n <= 1 {
        0
    } else {
        live_to(flags, (n - 1) as nat) + if flags_dead(flags[n - 1]) {
            0nat
        } else {
            1
        }
    }
}

proof fn lemma_kill_counts(flags: Seq<u8>, t: int, n: nat)
    requires
        0 < t < flags.len(),
        n <= flags.len(),
        !flags_dead(flags[t]),
    ensures
        live_to(flags, n) == live_to(flags.update(t, flags[t] | 2), n) + if t < n {
            1int
        } else {
            0
        },
    decreases n,
{
    let f = flags[t];
    assert((f | 2) & 2 != 0) by (bit_vector);
    if n > 1 {
        lemma_kill_counts(flags, t, (n - 1) as nat);
    }
}

proof fn lemma_live_bound(flags: Seq<u8>, n: nat)
    ensures
        live_to(flags, n) <= n,
        n > 0 ==> live_to(flags, n) < n,
    decreases n,
{
    if n > 1 {
        lemma_live_bound(flags, (n - 1) as nat);
    }
}

proof fn lemma_some_live(flags: Seq<u8>, t: int, n: nat)
    requires
        0 < t < n,
        !flags_dead(flags[t]),
    ensures
        live_to(flags, n) > 0,
    decreases n,
{
    if t < n - 1 {
        lemma_some_live(flags, t, (n - 1) as nat);
    }
}

/// Clip each ear of a list, once over.
fn clip_pass(mesh: &mut CdtMesh, ears: &Vec<Ear>) -> (r: (usize, Result<(), MeshFault>))
    requires
        old(mesh)@.wf(),
        ears_fit(old(mesh)@, ears@, old(mesh)@.tri_count),
    ensures
        ({
            let (m, n, res) = pass_clipped(old(mesh)@, ears@, 0, Set::empty());
            &&& final(mesh)@ == m
            &&& r.1 == res
            &&& res is Ok ==> r.0 == n
        }),
        final(mesh)@.wf(),
        final(mesh)@.tri_count == old(mesh)@.tri_count,
        final(mesh)@.vertices == old(mesh)@.vertices,
        r.1 is Ok ==> live_to(final(mesh)@.tflags, final(mesh)@.tri_count) + r.0 == live_to(
            old(mesh)@.tflags,
            old(mesh)@.tri_count,
        ),
{
    let slots: usize = mesh.tri_slots();
    let mut facing: Vec<u32> = Vec::new();
    let mut touched: Vec<bool> = Vec::new();
    let mut t: usize = 0;
    while t < slots
        invariant
            t <= slots,
            facing@.len() == t,
            touched@.len() == t,
            forall|k: int| 0 <= k < t ==> facing@[k] == u32::MAX,
            forall|k: int| 0 <= k < t ==> !touched@[k],
        decreases slots - t,
    {
        facing.push(u32::MAX);
        touched.push(false);
        t += 1;
    }
    let mut j: usize = 0;
    while j < ears.len()
        invariant
            j <= ears@.len(),
            slots == mesh@.tri_count,
            slots == old(mesh)@.tri_count,
            mesh@ == old(mesh)@,
            mesh@.wf(),
            facing@.len() == slots,
            ears_fit(mesh@, ears@, mesh@.tri_count),
            forall|k: int| 0 <= k < j ==> facing@[(#[trigger] ears@[k]).tri as int] == ears@[k].neighbor,
            forall|t: int|
                0 <= t < slots && #[trigger] facing@[t] != u32::MAX ==> exists|k: int|
                    #![trigger ears@[k]]
                    0 <= k < j && ears@[k].tri == t && ears@[k].neighbor == facing@[t],
        decreases ears.len() - j,
    {
        let e = ears[j];
        let ghost before = facing@;
        facing.set(e.tri as usize, e.neighbor);
        proof {
            assert forall|t: int|
                0 <= t < slots && #[trigger] facing@[t] != u32::MAX implies exists|k: int|
                #![trigger ears@[k]]
                0 <= k < j + 1 && ears@[k].tri == t && ears@[k].neighbor == facing@[t] by {
                if t == e.tri {
                    assert(ears@[j as int].tri == t);
                } else {
                    assert(before[t] == facing@[t]);
                }
            }
        }
        j += 1;
    }
    let mut killed: usize = 0;
    let mut i: usize = 0;
    let ghost mut done: Set<u32> = Set::empty();
    let ghost whole = pass_clipped(mesh@, ears@, 0, Set::empty());
    while i < ears.len()
        invariant
            i <= ears@.len(),
            killed <= i,
            slots == mesh@.tri_count,
            slots == old(mesh)@.tri_count,
            mesh@.vertices == old(mesh)@.vertices,
            mesh@.wf(),
            old(mesh)@.wf(),
            facing@.len() == slots,
            touched@.len() == slots,
            ears_fit(old(mesh)@, ears@, old(mesh)@.tri_count),
            forall|k: int| 0 <= k < ears@.len() ==> facing@[(#[trigger] ears@[k]).tri as int]
                == ears@[k].neighbor,
            forall|t: int|
                0 <= t < slots && #[trigger] facing@[t] != u32::MAX ==> exists|k: int|
                    #![trigger ears@[k]]
                    0 <= k < ears@.len() && ears@[k].tri == t && ears@[k].neighbor == facing@[t],
            forall|k: int| i <= k < ears@.len() ==> !mesh@.dead((#[trigger] ears@[k]).tri),
            forall|t: u32| t < slots ==> #[trigger] touched@[t as int] == done.contains(t),
            live_to(mesh@.tflags, mesh@.tri_count) + killed == live_to(
                old(mesh)@.tflags,
                old(mesh)@.tri_count,
            ),
            whole == pass_clipped(old(mesh)@, ears@, 0, Set::empty()),
            ({
                let rest = pass_clipped(mesh@, ears@, i as nat, done);
                &&& rest.0 == whole.0
                &&& rest.2 == whole.2
                &&& whole.2 is Ok ==> killed + rest.1 == whole.1
            }),
        decreases ears.len() - i,
    {
        let e = ears[i];
        let bow = facing[e.neighbor as usize] == e.tri;
        proof {
            if bow {
                assert(facing@[e.neighbor as int] != u32::MAX);
                assert(bowtie(ears@, e));
            }
            if bowtie(ears@, e) {
                let k = choose|k: int|
                    #![trigger ears@[k]]
                    0 <= k < ears@.len() && ears@[k].tri == e.neighbor && ears@[k].neighbor == e.tri;
                assert(facing@[ears@[k].tri as int] == ears@[k].neighbor);
            }
        }
        if !(touched[e.tri as usize] || touched[e.neighbor as usize] || bow) {
            proof {
                lemma_kill_counts(mesh@.tflags, e.tri as int, mesh@.tri_count);
            }
            let r = clip_one(mesh, e);
            if let Err(f) = r {
                return (killed, Err(f));
            }
            touched.set(e.tri as usize, true);
            touched.set(e.neighbor as usize, true);
            killed += 1;
            proof {
                done = done.insert(e.tri).insert(e.neighbor);
            }
        }
        i += 1;
    }
    (killed, Ok(()))
}

/// Remove triangles with two constrained edges, one interior neighbor and an
/// area below `max_area` (the bits of a binary64 number), until none is left
/// to remove, and return how many were removed.
///
/// The interior edge becomes a constraint of the neighbor, with the smaller
/// nonzero marker of the two walls, or 1 where both are zero. Two ears that
/// hang on each other stay.
pub fn clip_ears(mesh: &mut CdtMesh, max_area: u64) -> (r: Result<usize, MeshFault>)
    requires
        old(mesh)@.wf(),
    ensures
        clips_nothing(max_area) ==> final(mesh)@ == old(mesh)@ && r == Ok::<usize, MeshFault>(0),
        !clips_nothing(max_area) ==> ({
            let (m, res) = ears_clipped(old(mesh)@, max_area, old(mesh)@.tri_count);
            &&& final(mesh)@ == m
            &&& match res {
                Ok(n) => r matches Ok(k) && k == n,
                Err(f) => r == Err::<usize, MeshFault>(f),
            }
        }),
        final(mesh)@.wf(),
        final(mesh)@.vertices == old(mesh)@.vertices,
        r is Ok && !clips_nothing(max_area) ==> only_pairs_hang(final(mesh)@, max_area)
            && only_slight_ones_went(old(mesh)@, final(mesh)@, max_area),
        r matches Ok(k) ==> live_to(final(mesh)@.tflags, final(mesh)@.tri_count) + k == live_to(
            old(mesh)@.tflags,
            old(mesh)@.tri_count,
        ),
{
    proof {
        assert(significand(0) == 0);
        assert(0 * pow2(scale(0)) == 0) by (nonlinear_arith);
        assert(value(0) == 0);
    }
    let nan = max_area % 0x8000_0000_0000_0000 > 0x7ff0_0000_0000_0000;
    if !nan && !coord_less(0, max_area) {
        return Ok(0);
    }
    let mut fuel: usize = mesh.tri_slots();
    let mut total: usize = 0;
    let ghost whole = ears_clipped(mesh@, max_area, fuel as nat);
    proof {
        lemma_live_bound(mesh@.tflags, mesh@.tri_count);
    }
    loop
        invariant
            mesh@.wf(),
            old(mesh)@.wf(),
            mesh@.vertices == old(mesh)@.vertices,
            mesh@.tri_count == old(mesh)@.tri_count,
            !clips_nothing(max_area),
            live_to(mesh@.tflags, mesh@.tri_count) <= fuel,
            total + live_to(mesh@.tflags, mesh@.tri_count) == live_to(
                old(mesh)@.tflags,
                old(mesh)@.tri_count,
            ),
            live_to(old(mesh)@.tflags, old(mesh)@.tri_count) <= old(mesh)@.tri_count <= usize::MAX,
            whole == ears_clipped(old(mesh)@, max_area, old(mesh)@.tri_count),
            ({
                let rest = ears_clipped(mesh@, max_area, fuel as nat);
                &&& rest.0 == whole.0
                &&& match (rest.1, whole.1) {
                    (Ok(a), Ok(b)) => total + a == b,
                    (Err(f), Err(g)) => f == g,
                    _ => false,
                }
            }),
        decreases fuel,
    {
        let ears = find_ear_candidates(mesh, max_area);
        let ghost before = mesh@;
        let (n, r) = clip_pass(mesh, &ears);
        if let Err(f) = r {
            return Err(f);
        }
        total += n;
        if n == 0 {
            proof {
                no_ear_is_left_alone(old(mesh)@, max_area);
                large_triangles_stay(old(mesh)@, max_area);
            }
            return Ok(total);
        }
        proof {
            assert(fuel > 0);
        }
        fuel -= 1;
    }
}

proof fn lemma_pass(m: MeshView, ears: Seq<Ear>, i: nat, touched: Set<u32>)
    requires
        m.tflags.len() == m.tri_count,
        i <= ears.len(),
        forall|k: int|
            i <= k < ears.len() ==> 0 < (#[trigger] ears[k]).tri < m.tri_count && !m.dead(
                ears[k].tri,
            ),
        forall|j: int, k: int| 0 <= j < k < ears.len() ==> ears[j].tri < ears[k].tri,
    ensures
        ({
            let (w, n, r) = pass_clipped(m, ears, i, touched);
            r is Ok ==> {
                &&& w.tri_count == m.tri_count
                &&& w.tflags.len() == m.tflags.len()
                &&& live_to(w.tflags, m.tri_count) + n == live_to(m.tflags, m.tri_count)
                &&& n == 0 ==> w == m
            }
        }),
    decreases ears.len() - i,
{
    if i < ears.len() {
        let e = ears[i as int];
        if touched.contains(e.tri) || touched.contains(e.neighbor) || bowtie(ears, e) {
            lemma_pass(m, ears, i + 1, touched);
        } else {
            let (m1, r1) = ear_clipped(m, e);
            if r1 is Ok {
                lemma_kill_counts(m.tflags, e.tri as int, m.tri_count);
                assert(m1.tflags == m.tflags.update(e.tri as int, m.tflags[e.tri as int] | 2));
                lemma_pass(m1, ears, i + 1, touched.insert(e.tri).insert(e.neighbor));
            }
        }
    }
}

/// Ascending live slots before `n`.
spec fn ascending_live(m: MeshView, ears: Seq<Ear>, n: nat) -> bool {
    &&& forall|k: int|
        0 <= k < ears.len() ==> 0 < (#[trigger] ears[k]).tri < n && !m.dead(ears[k].tri)
    &&& forall|j: int, k: int| 0 <= j < k < ears.len() ==> ears[j].tri < ears[k].tri
}

proof fn lemma_ears_live(m: MeshView, limit: u64, n: nat)
    requires
        n <= m.tri_count <= u32::MAX,
    ensures
        ascending_live(m, ears_to(m, limit, n), n),
    decreases n,
{
    if n > 1 {
        lemma_ears_live(m, limit, (n - 1) as nat);
        let before = ears_to(m, limit, (n - 1) as nat);
        assert(ears_to(m, limit, n) == match ear_at(m, (n - 1) as u32, limit) {
            None => before,
            Some(e) => before.push(e),
        });
    }
}

proof fn lemma_clipped_out(m: MeshView, limit: u64, fuel: nat)
    requires
        m.tflags.len() == m.tri_count,
        m.tri_count <= u32::MAX,
        live_to(m.tflags, m.tri_count) <= fuel,
        ears_clipped(m, limit, fuel).1 is Ok,
    ensures
        ({
            let w = ears_clipped(m, limit, fuel).0;
            &&& w.tri_count == m.tri_count
            &&& forall|k: nat| #[trigger]
                ears_clipped(w, limit, k) == (w, Ok::<nat, MeshFault>(0))
        }),
    decreases fuel,
{
    let ears = ears_to(m, limit, m.tri_count);
    lemma_ears_live(m, limit, m.tri_count);
    lemma_pass(m, ears, 0, Set::empty());
    let (m1, n, r) = pass_clipped(m, ears, 0, Set::empty());
    if n > 0 {
        lemma_clipped_out(m1, limit, (fuel - 1) as nat);
    }
}

/// Once the ears are clipped, clipping with the same limit removes nothing
/// more.
pub proof fn clipping_twice_is_clipping_once(m: MeshView, limit: u64)
    requires
        m.wf(),
        ears_clipped(m, limit, m.tri_count).1 is Ok,
    ensures
        ({
            let w = ears_clipped(m, limit, m.tri_count).0;
            ears_clipped(w, limit, w.tri_count) == (w, Ok::<nat, MeshFault>(0))
        }),
{
    lemma_live_bound(m.tflags, m.tri_count);
    lemma_clipped_out(m, limit, m.tri_count);
}

proof fn lemma_nothing_clipped(m: MeshView, ears: Seq<Ear>, i: nat)
    requires
        pass_clipped(m, ears, i, Set::empty()).1 == 0,
        pass_clipped(m, ears, i, Set::empty()).2 is Ok,
    ensures
        forall|k: int| i <= k < ears.len() ==> bowtie(ears, #[trigger] ears[k]),
    decreases ears.len() - i,
{
    if i < ears.len() && bowtie(ears, ears[i as int]) {
        lemma_nothing_clipped(m, ears, i + 1);
    }
}

/// Once the ears are clipped, every ear below the limit that is left hangs on
/// another one that hangs on it.
pub proof fn only_bowties_are_left(m: MeshView, limit: u64, k: int)
    requires
        m.wf(),
        ears_clipped(m, limit, m.tri_count).1 is Ok,
        ({
            let w = ears_clipped(m, limit, m.tri_count).0;
            0 <= k < ears_to(w, limit, w.tri_count).len()
        }),
    ensures
        ({
            let w = ears_clipped(m, limit, m.tri_count).0;
            let ears = ears_to(w, limit, w.tri_count);
            bowtie(ears, ears[k])
        }),
{
    lemma_live_bound(m.tflags, m.tri_count);
    lemma_clipped_out(m, limit, m.tri_count);
    let w = ears_clipped(m, limit, m.tri_count).0;
    let ears = ears_to(w, limit, w.tri_count);
    assert(ears_clipped(w, limit, 0) == (w, Ok::<nat, MeshFault>(0)));
    lemma_nothing_clipped(w, ears, 0);
}

// --- What hangs, what goes and what stays -----------------------------------

/// Whether a triangle hangs on the triangle beyond its edge `k`: that edge is
/// free, a triangle is beyond it, the two other edges are constrained, and the
/// triangle has three corners and an area below `limit`, where `limit` is
/// finite.
pub open spec fn hangs(m: MeshView, limit: u64, t: u32, k: u8) -> bool {
    let (a, b, c) = (
        m.corner[Otri { tri: t, orient: 0 }],
        m.corner[Otri { tri: t, orient: 1 }],
        m.corner[Otri { tri: t, orient: 2 }],
    );
    &&& 0 < t < m.tri_count && k < 3
    &&& !m.dead(t) && m.has_vertex(a) && m.has_vertex(b) && m.has_vertex(c)
    &&& m.nbr[Otri { tri: t, orient: k }].tri != DUMMY_TRI
    &&& forall|j: u8|
        j < 3 ==> ((#[trigger] m.tsub[Otri { tri: t, orient: j }]).sub == DUMMY_SUB) == (j == k)
    &&& finite(limit) ==> area_less(m.pos(a), m.pos(b), m.pos(c), limit)
}

/// Whether `x` is the marker for an edge between walls marked `a` and `b`: the
/// lesser of those that are set, and 1 where none is.
pub open spec fn takes_marker(a: i32, b: i32, x: i32) -> bool {
    &&& x != 0
    &&& a != 0 ==> x <= a
    &&& b != 0 ==> x <= b
    &&& x == a || x == b || (a == 0 && b == 0 && x == 1)
}

/// Whether an ear tells of a triangle that hangs on another: which edge, which
/// triangle is beyond it, and which marker the edge would take.
pub open spec fn tells_ear(m: MeshView, limit: u64, e: Ear) -> bool {
    let o = Otri { tri: e.tri, orient: e.orient };
    &&& hangs(m, limit, e.tri, e.orient)
    &&& e.neighbor == m.nbr[o].tri
    &&& takes_marker(
        m.smark[m.tsub[o.next()].sub as int],
        m.smark[m.tsub[o.prev()].sub as int],
        e.marker,
    )
}

/// Whether a list holds an ear of triangle `t` at edge `k`.
pub open spec fn has_ear(ears: Seq<Ear>, t: u32, k: u8) -> bool {
    exists|i: int|
        0 <= i < ears.len() && (#[trigger] ears[i]).tri == t && ears[i].orient == k
}

/// Whether a list of ears is of triangles that hang, and of each of them.
pub open spec fn lists_hanging(m: MeshView, limit: u64, ears: Seq<Ear>) -> bool {
    &&& forall|i: int| 0 <= i < ears.len() ==> tells_ear(m, limit, #[trigger] ears[i])
    &&& forall|t: u32, k: u8| #[trigger] hangs(m, limit, t, k) ==> has_ear(ears, t, k)
}

proof fn lemma_ear_hangs(m: MeshView, limit: u64, t: u32)
    requires
        0 < t < m.tri_count,
    ensures
        match ear_at(m, t, limit) {
            None => forall|k: u8| !(#[trigger] hangs(m, limit, t, k)),
            Some(e) => e.tri == t && tells_ear(m, limit, e) && forall|k: u8| #[trigger]
                hangs(m, limit, t, k) ==> k == e.orient,
        },
{
    let (e0, e1, e2) = (
        Otri { tri: t, orient: 0 },
        Otri { tri: t, orient: 1 },
        Otri { tri: t, orient: 2 },
    );
    assert forall|k: u8| #[trigger] hangs(m, limit, t, k) implies ear_edge(m, t) == Some(k) by {
        let (x, y, z) = (m.tsub[e0], m.tsub[e1], m.tsub[e2]);
        assert((x.sub == DUMMY_SUB) == (k == 0));
        assert((y.sub == DUMMY_SUB) == (k == 1));
        assert((z.sub == DUMMY_SUB) == (k == 2));
    }
}

proof fn lemma_ears_hang(m: MeshView, limit: u64, n: nat)
    requires
        n <= m.tri_count <= u32::MAX,
    ensures
        forall|i: int|
            0 <= i < ears_to(m, limit, n).len() ==> tells_ear(
                m,
                limit,
                #[trigger] ears_to(m, limit, n)[i],
            ),
        forall|t: u32, k: u8| t < n && #[trigger] hangs(m, limit, t, k) ==> has_ear(
            ears_to(m, limit, n),
            t,
            k,
        ),
    decreases n,
{
    if n > 1 {
        let before = ears_to(m, limit, (n - 1) as nat);
        let all = ears_to(m, limit, n);
        let last = (n - 1) as u32;
        lemma_ears_hang(m, limit, (n - 1) as nat);
        lemma_ear_hangs(m, limit, last);
        assert forall|t: u32, k: u8| t < n && #[trigger] hangs(m, limit, t, k) implies has_ear(
            all,
            t,
            k,
        ) by {
            if t < last {
                let i = choose|i: int|
                    0 <= i < before.len() && (#[trigger] before[i]).tri == t && before[i].orient == k;
                assert(all[i] == before[i]);
            } else {
                assert(all[before.len() as int].tri == t);
            }
        }
    }
}

/// The ears of a mesh are the triangles that hang on another by one edge: each
/// such triangle is one, and nothing else is.
pub proof fn every_hanging_triangle_is_an_ear(m: MeshView, limit: u64)
    requires
        m.wf(),
    ensures
        lists_hanging(m, limit, ears_to(m, limit, m.tri_count)),
{
    lemma_ears_hang(m, limit, m.tri_count);
}

/// Whether every triangle that hangs, hangs on one that hangs on it.
pub open spec fn only_pairs_hang(m: MeshView, limit: u64) -> bool {
    forall|t: u32, k: u8| #[trigger]
        hangs(m, limit, t, k) ==> exists|j: u8| #[trigger]
            hangs(m, limit, m.nbr[Otri { tri: t, orient: k }].tri, j) && m.nbr[Otri {
                tri: m.nbr[Otri { tri: t, orient: k }].tri,
                orient: j,
            }].tri == t
}

/// Once the ears are clipped, no triangle hangs on another that does not hang
/// on it.
pub proof fn no_ear_is_left_alone(m: MeshView, limit: u64)
    requires
        m.wf(),
        ears_clipped(m, limit, m.tri_count).1 is Ok,
        ears_clipped(m, limit, m.tri_count).0.wf(),
    ensures
        only_pairs_hang(ears_clipped(m, limit, m.tri_count).0, limit),
{
    let w = ears_clipped(m, limit, m.tri_count).0;
    let ears = ears_to(w, limit, w.tri_count);
    every_hanging_triangle_is_an_ear(w, limit);
    assert forall|t: u32, k: u8| #[trigger] hangs(w, limit, t, k) implies exists|j: u8| #[trigger]
        hangs(w, limit, w.nbr[Otri { tri: t, orient: k }].tri, j) && w.nbr[Otri {
            tri: w.nbr[Otri { tri: t, orient: k }].tri,
            orient: j,
        }].tri == t by {
        assert(has_ear(ears, t, k));
        let i = choose|i: int|
            0 <= i < ears.len() && (#[trigger] ears[i]).tri == t && ears[i].orient == k;
        assert(tells_ear(w, limit, ears[i]));
        only_bowties_are_left(m, limit, i);
        let e = choose|e: int|
            #![trigger ears[e]]
            0 <= e < ears.len() && ears[e].tri == ears[i].neighbor && ears[e].neighbor
                == ears[i].tri;
        assert(tells_ear(w, limit, ears[e]));
        assert(hangs(w, limit, w.nbr[Otri { tri: t, orient: k }].tri, ears[e].orient));
    }
}

/// Whether a triangle has three corners and an area below `limit`, where
/// `limit` is finite.
pub open spec fn is_slight(m: MeshView, limit: u64, t: u32) -> bool {
    let (a, b, c) = (
        m.corner[Otri { tri: t, orient: 0 }],
        m.corner[Otri { tri: t, orient: 1 }],
        m.corner[Otri { tri: t, orient: 2 }],
    );
    &&& m.has_vertex(a) && m.has_vertex(b) && m.has_vertex(c)
    &&& finite(limit) ==> area_less(m.pos(a), m.pos(b), m.pos(c), limit)
}

/// Whether triangles went from `m` to `w` and nothing else of them changed:
/// every triangle that went is slight.
pub open spec fn only_slight_ones_went(m: MeshView, w: MeshView, limit: u64) -> bool {
    &&& w.tri_count == m.tri_count
    &&& w.tflags.len() == m.tflags.len()
    &&& w.corner == m.corner
    &&& w.vertices == m.vertices
    &&& forall|t: u32|
        #![trigger w.tflags[t as int]]
        t < m.tri_count && w.tflags[t as int] != m.tflags[t as int] ==> w.dead(t) && !m.dead(t)
            && is_slight(m, limit, t)
}

proof fn lemma_pass_takes_slight_ones(
    first: MeshView,
    m: MeshView,
    limit: u64,
    ears: Seq<Ear>,
    i: nat,
    touched: Set<u32>,
)
    requires
        m.tflags.len() == m.tri_count,
        i <= ears.len(),
        only_slight_ones_went(first, m, limit),
        forall|k: int|
            i <= k < ears.len() ==> 0 < (#[trigger] ears[k]).tri < m.tri_count && !m.dead(
                ears[k].tri,
            ) && is_slight(first, limit, ears[k].tri),
        forall|j: int, k: int| 0 <= j < k < ears.len() ==> ears[j].tri < ears[k].tri,
    ensures
        pass_clipped(m, ears, i, touched).2 is Ok ==> only_slight_ones_went(
            first,
            pass_clipped(m, ears, i, touched).0,
            limit,
        ),
    decreases ears.len() - i,
{
    if i < ears.len() {
        let e = ears[i as int];
        if touched.contains(e.tri) || touched.contains(e.neighbor) || bowtie(ears, e) {
            lemma_pass_takes_slight_ones(first, m, limit, ears, i + 1, touched);
        } else {
            let (m1, r1) = ear_clipped(m, e);
            if r1 is Ok {
                let f = m.tflags[e.tri as int];
                assert(m1.tflags == m.tflags.update(e.tri as int, f | 2));
                lemma_kill_counts(m.tflags, e.tri as int, m.tri_count);
                assert(f | 2 == 2 | f && (f | 2) & 2 == 2) by (bit_vector);
                assert(first.tflags[e.tri as int] == f) by {
                    assert(m.tflags[e.tri as int] == f);
                }
                assert forall|t: u32|
                    #![trigger m1.tflags[t as int]]
                    t < first.tri_count && m1.tflags[t as int] != first.tflags[t as int] implies m1.dead(
                    t,
                ) && !first.dead(t) && is_slight(first, limit, t) by {
                    if t != e.tri {
                        assert(m1.tflags[t as int] == m.tflags[t as int]);
                    }
                }
                assert(only_slight_ones_went(first, m1, limit));
                lemma_pass_takes_slight_ones(
                    first,
                    m1,
                    limit,
                    ears,
                    i + 1,
                    touched.insert(e.tri).insert(e.neighbor),
                );
            }
        }
    }
}

proof fn lemma_clipping_takes_slight_ones(first: MeshView, m: MeshView, limit: u64, fuel: nat)
    requires
        m.tflags.len() == m.tri_count <= u32::MAX,
        only_slight_ones_went(first, m, limit),
        ears_clipped(m, limit, fuel).1 is Ok,
    ensures
        only_slight_ones_went(first, ears_clipped(m, limit, fuel).0, limit),
    decreases fuel,
{
    let ears = ears_to(m, limit, m.tri_count);
    lemma_ears_live(m, limit, m.tri_count);
    lemma_ears_hang(m, limit, m.tri_count);
    assert forall|k: int| 0 <= k < ears.len() implies is_slight(
        first,
        limit,
        (#[trigger] ears[k]).tri,
    ) by {
        assert(tells_ear(m, limit, ears[k]));
    }
    lemma_pass_takes_slight_ones(first, m, limit, ears, 0, Set::empty());
    let (m1, n, r) = pass_clipped(m, ears, 0, Set::empty());
    if n > 0 && fuel > 0 {
        lemma_clipping_takes_slight_ones(first, m1, limit, (fuel - 1) as nat);
    }
}

/// Clipping takes away only triangles with an area below the limit; every other
/// triangle stays, and none changes its corners.
pub proof fn large_triangles_stay(m: MeshView, limit: u64)
    requires
        m.wf(),
        ears_clipped(m, limit, m.tri_count).1 is Ok,
    ensures
        only_slight_ones_went(m, ears_clipped(m, limit, m.tri_count).0, limit),
{
    lemma_clipping_takes_slight_ones(m, m, limit, m.tri_count);
}

} // verus!
