//! Pulling a string tight through a channel of triangles.

use crate::bigint::BigInt;
use crate::channel::{
    channel_found, channel_missed, covers, find_triangle_at_xy, find_triangle_channel, is_channel,
    is_neighbor, neighboring, triangle_adjacency,
};
use crate::coord::{scale, significand, value};
use crate::navmesh::{AllRegionNavMeshes, RegionNavMesh};
use crate::pathfind::Path;
use crate::search::affordable;
use crate::predicates::{
    big_diff, big_relative, cross, lemma_cross_scaled, lemma_relative, lemma_sgn_scaled,
    magnitude_of, min_scale, orient, orient2d, sgn, Vertex,
};
use crate::taut::{
    are_distinct, is_laid_out, is_sleeve, is_taut, strings_go_through_channels,
    strings_go_through_doorways,
};
use vstd::arithmetic::power2::{lemma_pow2_pos, pow2};
use vstd::prelude::*;

verus! {

// --- Portals ----------------------------------------------------------------

/// The corners that triangle `a` shares with `b`, among the first `n` of `a`.
pub open spec fn shared_corners(a: Seq<u32>, b: Seq<u32>, n: nat) -> Seq<u32>
    decreases n,
{
    if n == 0 {
        Seq::empty()
    } else {
        let before = shared_corners(a, b, (n - 1) as nat);
        if b[0] == a[n - 1] || b[1] == a[n - 1] || b[2] == a[n - 1] {
            before.push(a[n - 1])
        } else {
            before
        }
    }
}

/// The two corners that triangles share, where they share two.
pub open spec fn shared_pair(mesh: RegionNavMesh, s: int, t: int) -> Option<(u32, u32)> {
    let list = shared_corners(mesh.triangles@[s]@, mesh.triangles@[t]@, 3);
    if list.len() == 2 {
        Some((list[0], list[1]))
    } else {
        None
    }
}

fn shared_vertex_pair(mesh: &RegionNavMesh, s: usize, t: usize) -> (r: Option<(u32, u32)>)
    requires
        s < mesh.triangles@.len(),
        t < mesh.triangles@.len(),
    ensures
        r == shared_pair(*mesh, s as int, t as int),
{
    let a = mesh.triangles[s];
    let b = mesh.triangles[t];
    let mut list: Vec<u32> = Vec::new();
    let mut i: usize = 0;
    while i < 3
        invariant
            i <= 3,
            list@ == shared_corners(a@, b@, i as nat),
        decreases 3 - i,
    {
        let v: u32 = a[i];
        if b[0] == v || b[1] == v || b[2] == v {
            list.push(v);
        }
        i += 1;
    }
    if list.len() == 2 {
        Some((list[0], list[1]))
    } else {
        None
    }
}

/// Three times the centroid of a triangle, on x.
pub open spec fn corner_sum_x(mesh: RegionNavMesh, t: int) -> int {
    mesh.corner_at(t, 0).vx() + mesh.corner_at(t, 1).vx() + mesh.corner_at(t, 2).vx()
}

/// Three times the centroid of a triangle, on y.
pub open spec fn corner_sum_y(mesh: RegionNavMesh, t: int) -> int {
    mesh.corner_at(t, 0).vy() + mesh.corner_at(t, 1).vy() + mesh.corner_at(t, 2).vy()
}

/// On which side of the way between the centroids of two triangles a point
/// lies: negative on the left.
pub open spec fn walk_side(mesh: RegionNavMesh, s: int, t: int, p: Vertex) -> int {
    let (sx, sy) = (corner_sum_x(mesh, s), corner_sum_y(mesh, s));
    sgn(
        cross(
            3 * p.vx() - sx,
            3 * p.vy() - sy,
            corner_sum_x(mesh, t) - sx,
            corner_sum_y(mesh, t) - sy,
        ),
    )
}

/// The sum of `a[k] - b[k]` over three coordinates.
fn sum_of_gaps(a: [u64; 3], b: [u64; 3], unit: u32) -> (r: BigInt)
    requires
        forall|k: int|
            0 <= k < 3 ==> unit <= scale(#[trigger] a@[k]) && unit <= scale(b@[k]),
    ensures
        value(a@[0]) + value(a@[1]) + value(a@[2]) - value(b@[0]) - value(b@[1]) - value(b@[2])
            == pow2(unit as nat) * r@,
        r.size() < 104,
{
    assert(unit <= scale(a@[0]) && unit <= scale(a@[1]) && unit <= scale(a@[2]));
    let x = big_diff(a[0], b[0], unit);
    let y = big_diff(a[1], b[1], unit);
    let z = big_diff(a[2], b[2], unit);
    let r = x.plus(&y).plus(&z);
    proof {
        let p = pow2(unit as nat) as int;
        let (u, v, w) = (x@, y@, z@);
        assert(p * u + p * v + p * w == p * (u + v + w)) by (nonlinear_arith);
    }
    r
}

#[verifier::spinoff_prover]
#[verifier::rlimit(60)]
fn find_walk_side(mesh: &RegionNavMesh, s: usize, t: usize, p: Vertex) -> (r: i32)
    requires
        mesh.wf(),
        s < mesh.triangles@.len(),
        t < mesh.triangles@.len(),
    ensures
        r == walk_side(*mesh, s as int, t as int, p),
{
    let a = mesh.triangles[s];
    let b = mesh.triangles[t];
    assert(a@[0] == mesh.triangles@[s as int]@[0] && a@[1] == mesh.triangles@[s as int]@[1] && a@[2]
        == mesh.triangles@[s as int]@[2]);
    assert(b@[0] == mesh.triangles@[t as int]@[0] && b@[1] == mesh.triangles@[t as int]@[1] && b@[2]
        == mesh.triangles@[t as int]@[2]);
    let (a0, a1, a2) = (
        mesh.vertices[a[0] as usize].position,
        mesh.vertices[a[1] as usize].position,
        mesh.vertices[a[2] as usize].position,
    );
    let (b0, b1, b2) = (
        mesh.vertices[b[0] as usize].position,
        mesh.vertices[b[1] as usize].position,
        mesh.vertices[b[2] as usize].position,
    );
    let mut unit: u32 = min_scale(2048, p);
    unit = min_scale(min_scale(min_scale(unit, a0), a1), a2);
    unit = min_scale(min_scale(min_scale(unit, b0), b1), b2);
    let ux = sum_of_gaps([p.x, p.x, p.x], [a0.x, a1.x, a2.x], unit);
    let uy = sum_of_gaps([p.y, p.y, p.y], [a0.y, a1.y, a2.y], unit);
    let wx = sum_of_gaps([b0.x, b1.x, b2.x], [a0.x, a1.x, a2.x], unit);
    let wy = sum_of_gaps([b0.y, b1.y, b2.y], [a0.y, a1.y, a2.y], unit);
    let det = ux.times(&wy).minus(&uy.times(&wx));
    proof {
        let q = pow2(unit as nat) as int;
        lemma_pow2_pos(unit as nat);
        let (sx, sy) = (corner_sum_x(*mesh, s as int), corner_sum_y(*mesh, s as int));
        assert(3 * p.vx() - sx == q * ux@);
        assert(3 * p.vy() - sy == q * uy@);
        assert(corner_sum_x(*mesh, t as int) - sx == q * wx@);
        assert(corner_sum_y(*mesh, t as int) - sy == q * wy@);
        lemma_cross_scaled(q, ux@, uy@, wx@, wy@);
        assert(q * q > 0) by (nonlinear_arith)
            requires
                q > 0,
        ;
        lemma_sgn_scaled(q * q, det@);
    }
    det.sign()
}

/// Whether a corner of triangle `s` lies to the left of the line from `a` to
/// `b`.
pub open spec fn is_left_of(mesh: RegionNavMesh, s: int, a: Vertex, b: Vertex) -> bool {
    orient(a, b, mesh.corner_at(s, 0)) > 0 || orient(a, b, mesh.corner_at(s, 1)) > 0 || orient(
        a,
        b,
        mesh.corner_at(s, 2),
    ) > 0
}

fn has_left_of(mesh: &RegionNavMesh, s: usize, a: Vertex, b: Vertex) -> (r: bool)
    requires
        mesh.wf(),
        s < mesh.triangles@.len(),
    ensures
        r == is_left_of(*mesh, s as int, a, b),
{
    let t = mesh.triangles[s];
    proof {
        assert(mesh.triangles@[s as int]@[0] < mesh.vertices@.len());
        assert(mesh.triangles@[s as int]@[1] < mesh.vertices@.len());
        assert(mesh.triangles@[s as int]@[2] < mesh.vertices@.len());
    }
    orient2d(a, b, mesh.vertices[t[0] as usize].position) > 0 || orient2d(
        a,
        b,
        mesh.vertices[t[1] as usize].position,
    ) > 0 || orient2d(a, b, mesh.vertices[t[2] as usize].position) > 0
}

/// The edge between two triangles as (left, right) of the way through it, out
/// of the first. Where the first is flat, the way between their centroids
/// decides.
pub open spec fn doorway(mesh: RegionNavMesh, s: int, t: int) -> Option<(Vertex, Vertex)> {
    match shared_pair(mesh, s, t) {
        None => None,
        Some((i, j)) => {
            let (a, b) = (mesh.vertices@[i as int].position, mesh.vertices@[j as int].position);
            if is_left_of(mesh, s, b, a) {
                Some((a, b))
            } else if is_left_of(mesh, s, a, b) {
                Some((b, a))
            } else if walk_side(mesh, s, t, a) < 0 {
                Some((a, b))
            } else {
                Some((b, a))
            }
        },
    }
}

/// The doorways between the first `n` triangles of a channel, after the start.
pub open spec fn doorways(mesh: RegionNavMesh, channel: Seq<usize>, src: Vertex, n: nat) -> Seq<
    (Vertex, Vertex),
>
    decreases n,
{
    if n <= 1 {
        seq![(src, src)]
    } else {
        let before = doorways(mesh, channel, src, (n - 1) as nat);
        match doorway(mesh, channel[n - 2] as int, channel[n - 1] as int) {
            None => before,
            Some(d) => before.push(d),
        }
    }
}

proof fn lemma_shared_in(a: Seq<u32>, b: Seq<u32>, n: nat)
    requires
        n <= a.len(),
    ensures
        forall|k: int|
            0 <= k < shared_corners(a, b, n).len() ==> a.contains(
                #[trigger] shared_corners(a, b, n)[k],
            ),
    decreases n,
{
    if n > 0 {
        lemma_shared_in(a, b, (n - 1) as nat);
        let before = shared_corners(a, b, (n - 1) as nat);
        let all = shared_corners(a, b, n);
        assert forall|k: int| 0 <= k < all.len() implies a.contains(#[trigger] all[k]) by {
            if k < before.len() {
                assert(all[k] == before[k]);
            } else {
                assert(a[n - 1] == all[k]);
            }
        }
    }
}

fn find_doorway(mesh: &RegionNavMesh, s: usize, t: usize) -> (r: Option<(Vertex, Vertex)>)
    requires
        mesh.wf(),
        s < mesh.triangles@.len(),
        t < mesh.triangles@.len(),
    ensures
        r == doorway(*mesh, s as int, t as int),
{
    let (i, j) = match shared_vertex_pair(mesh, s, t) {
        None => return None,
        Some(x) => x,
    };
    proof {
        let a = mesh.triangles@[s as int]@;
        let list = shared_corners(a, mesh.triangles@[t as int]@, 3);
        lemma_shared_in(a, mesh.triangles@[t as int]@, 3);
        assert(a.contains(list[0]) && a.contains(list[1]));
        let (x, y) = (a.index_of(list[0]), a.index_of(list[1]));
        assert(mesh.triangles@[s as int]@[x] < mesh.vertices@.len());
        assert(mesh.triangles@[s as int]@[y] < mesh.vertices@.len());
    }
    let a = mesh.vertices[i as usize].position;
    let b = mesh.vertices[j as usize].position;
    if has_left_of(mesh, s, b, a) {
        Some((a, b))
    } else if has_left_of(mesh, s, a, b) {
        Some((b, a))
    } else if find_walk_side(mesh, s, t, a) < 0 {
        Some((a, b))
    } else {
        Some((b, a))
    }
}

/// The doorways of a channel between the points where the way begins and
/// ends, each as (left, right).
pub fn channel_to_portals(
    mesh: &RegionNavMesh,
    channel: &Vec<usize>,
    src: Vertex,
    dst: Vertex,
) -> (out: Vec<(Vertex, Vertex)>)
    requires
        mesh.wf(),
        forall|i: int| 0 <= i < channel@.len() ==> #[trigger] channel@[i] < mesh.triangles@.len(),
    ensures
        out@ == portals_of(*mesh, channel@, src, dst),
        opens_channel(*mesh, channel@, src, dst, out@),
{
    let mut out: Vec<(Vertex, Vertex)> = Vec::new();
    out.push((src, src));
    assert(out@ =~= seq![(src, src)]);
    let mut i: usize = 1;
    while i < channel.len()
        invariant
            mesh.wf(),
            forall|i: int|
                0 <= i < channel@.len() ==> #[trigger] channel@[i] < mesh.triangles@.len(),
            1 <= i,
            i <= channel@.len() || (channel@.len() == 0 && i == 1),
            out@ == doorways(*mesh, channel@, src, i as nat),
        decreases channel.len() - i,
    {
        if let Some(d) = find_doorway(mesh, channel[i - 1], channel[i]) {
            out.push(d);
        }
        i += 1;
    }
    let ghost inner = out@;
    out.push((dst, dst));
    proof {
        let steps = every_shared_step_is_a_doorway(*mesh, channel@, src, channel@.len());
        assert(out@.drop_last() =~= inner);
    }
    out
}

// --- The string -------------------------------------------------------------

/// Bits of the distance below which coordinates count as equal, a billionth.
pub const CLOSE_BITS: u64 = 0x3e11_2e0b_e826_d695;

/// Whether two points differ by less than a billionth on both axes.
pub open spec fn close(a: Vertex, b: Vertex) -> bool {
    magnitude_of(a.vx() - b.vx()) < value(CLOSE_BITS) && magnitude_of(a.vy() - b.vy()) < value(
        CLOSE_BITS,
    )
}

fn coords_close(a: u64, b: u64) -> (r: bool)
    ensures
        r == (magnitude_of(value(a) - value(b)) < value(CLOSE_BITS)),
{
    let unit: u32 = min_scale(min_scale(2048, Vertex::new(a, b)), Vertex::new(CLOSE_BITS, CLOSE_BITS));
    let gap = big_diff(a, b, unit);
    let most = big_relative(CLOSE_BITS, unit);
    let (over, under) = (most.minus(&gap), most.plus(&gap));
    proof {
        let p = pow2(unit as nat) as int;
        lemma_pow2_pos(unit as nat);
        lemma_relative(CLOSE_BITS, unit as nat);
        let (g, m) = (gap@, most@);
        assert(p * m - p * g == p * (m - g)) by (nonlinear_arith);
        assert(p * m + p * g == p * (m + g)) by (nonlinear_arith);
        lemma_sgn_scaled(p, m - g);
        lemma_sgn_scaled(p, m + g);
    }
    over.sign() > 0 && under.sign() > 0
}

/// Whether two points count as the same.
pub fn approx_eq(a: Vertex, b: Vertex) -> (r: bool)
    ensures
        r == close(a, b),
{
    coords_close(a.x, b.x) && coords_close(a.y, b.y)
}

/// A string being pulled: the corner it was last fixed at, the sides of the
/// cone it can still go through, where each of them came from, the next
/// doorway, and the corners so far.
pub struct Pull {
    pub apex: Vertex,
    pub left: Vertex,
    pub right: Vertex,
    pub apex_at: int,
    pub left_at: int,
    pub right_at: int,
    pub next: int,
    pub out: Seq<Vertex>,
}

/// Fix the string at a corner and start again behind its doorway.
pub open spec fn fixed_at(f: Pull, corner: Vertex, at: int) -> Pull {
    Pull {
        apex: corner,
        left: corner,
        right: corner,
        apex_at: at,
        left_at: at,
        right_at: at,
        next: at + 1,
        out: f.out.push(corner),
    }
}

/// What a doorway does to the right side: it tightens the cone, or crosses the
/// left side, or does nothing.
pub enum Side {
    Kept,
    Tightened,
    Crossed,
}

/// What the next doorway does to the right side of the cone.
pub open spec fn right_side(f: Pull, right: Vertex) -> Side {
    if orient(f.apex, f.right, right) < 0 {
        Side::Kept
    } else if close(f.apex, f.right) || orient(f.apex, f.left, right) < 0 {
        Side::Tightened
    } else {
        Side::Crossed
    }
}

/// What the next doorway does to the left side of the cone.
pub open spec fn left_side(f: Pull, left: Vertex) -> Side {
    if orient(f.apex, f.left, left) > 0 {
        Side::Kept
    } else if close(f.apex, f.left) || orient(f.apex, f.right, left) > 0 {
        Side::Tightened
    } else {
        Side::Crossed
    }
}

/// The string after the next doorway.
pub open spec fn pulled_once(portals: Seq<(Vertex, Vertex)>, f: Pull) -> Pull {
    let (left, right) = portals[f.next];
    match right_side(f, right) {
        Side::Crossed => fixed_at(f, f.left, f.left_at),
        r => {
            let g = if r is Tightened {
                Pull { right, right_at: f.next, ..f }
            } else {
                f
            };
            match left_side(g, left) {
                Side::Crossed => fixed_at(g, g.right, g.right_at),
                Side::Tightened => Pull { left, left_at: g.next, next: g.next + 1, ..g },
                Side::Kept => Pull { next: g.next + 1, ..g },
            }
        },
    }
}

/// The string after all doorways.
pub open spec fn pulled(portals: Seq<(Vertex, Vertex)>, f: Pull) -> Seq<Vertex>
    decreases portals.len() - f.apex_at, portals.len() - f.next,
{
    if f.next < 0 || f.next >= portals.len() {
        f.out
    } else {
        let g = pulled_once(portals, f);
        if g.apex_at > f.apex_at && g.apex_at < portals.len() {
            pulled(portals, g)
        } else if g.apex_at == f.apex_at && f.next < g.next <= portals.len() {
            pulled(portals, g)
        } else {
            g.out
        }
    }
}

/// The corners of the string pulled tight through doorways, from the first
/// one's left end to the last one's.
pub open spec fn string_of(portals: Seq<(Vertex, Vertex)>) -> Seq<Vertex> {
    if portals.len() == 0 {
        Seq::empty()
    } else {
        let start = portals[0].0;
        let out = pulled(
            portals,
            Pull {
                apex: start,
                left: start,
                right: start,
                apex_at: 0,
                left_at: 0,
                right_at: 0,
                next: 1,
                out: seq![start],
            },
        );
        let end = portals.last().0;
        if close(out.last(), end) {
            out
        } else {
            out.push(end)
        }
    }
}

/// What every stage of pulling keeps: the cone was just opened at the apex, or
/// both of its sides come from doorways behind it.
pub open spec fn pull_sound(portals: Seq<(Vertex, Vertex)>, f: Pull) -> bool {
    &&& 0 <= f.apex_at < f.next <= portals.len()
    &&& f.out.len() > 0
    &&& ({
        ||| f.next == f.apex_at + 1 && f.left == f.apex && f.right == f.apex && f.left_at
            == f.apex_at && f.right_at == f.apex_at
        ||| f.apex_at < f.left_at < f.next && f.apex_at < f.right_at < f.next
    })
}

pub(crate) proof fn lemma_close_to_itself(a: Vertex)
    ensures
        close(a, a),
{
    let bits = CLOSE_BITS;
    assert(significand(bits) >= 0x10_0000_0000_0000);
    lemma_pow2_pos(scale(bits));
    let (m, p) = (significand(bits) as int, pow2(scale(bits)) as int);
    assert(m * p > 0) by (nonlinear_arith)
        requires
            m > 0,
            p > 0,
    ;
}

pub(crate) proof fn lemma_open_cone(a: Vertex, b: Vertex)
    ensures
        orient(a, a, b) == 0,
{
    assert((a.vx() - b.vx()) * (a.vy() - b.vy()) - (a.vy() - b.vy()) * (a.vx() - b.vx()) == 0)
        by (nonlinear_arith);
}

pub(crate) proof fn lemma_pull_stays_sound(portals: Seq<(Vertex, Vertex)>, f: Pull)
    requires
        pull_sound(portals, f),
        f.next < portals.len(),
    ensures
        pull_sound(portals, pulled_once(portals, f)),
        pulled_once(portals, f).apex_at > f.apex_at || (pulled_once(portals, f).apex_at == f.apex_at
            && pulled_once(portals, f).next == f.next + 1),
{
    lemma_close_to_itself(f.apex);
    lemma_open_cone(f.apex, portals[f.next].0);
    lemma_open_cone(f.apex, portals[f.next].1);
}

/// Pull a string tight through doorways: its corners, the first of them the
/// left end of the first doorway, the last of them the left end of the last
/// one, or a point that counts as the same.
///
/// Where the doorways are those of a sleeve, the string goes through all of
/// them.
pub fn funnel(portals: &Vec<(Vertex, Vertex)>) -> (out: Vec<Vertex>)
    ensures
        out@ == string_of(portals@),
        is_sleeve(portals@) ==> is_taut(portals@, out@),
{
    proof {
        if is_sleeve(portals@) {
            strings_go_through_doorways(portals@);
        }
    }
    let mut out: Vec<Vertex> = Vec::new();
    if portals.len() == 0 {
        return out;
    }
    let start = portals[0].0;
    out.push(start);
    assert(out@ =~= seq![start]);
    let (mut apex, mut left, mut right) = (start, start, start);
    let (mut apex_at, mut left_at, mut right_at): (usize, usize, usize) = (0, 0, 0);
    let mut next: usize = 1;
    let ghost whole = pulled(
        portals@,
        Pull {
            apex: start,
            left: start,
            right: start,
            apex_at: 0,
            left_at: 0,
            right_at: 0,
            next: 1,
            out: seq![start],
        },
    );
    while next < portals.len()
        invariant
            portals@.len() > 0,
            pull_sound(
                portals@,
                (Pull {
                    apex,
                    left,
                    right,
                    apex_at: apex_at as int,
                    left_at: left_at as int,
                    right_at: right_at as int,
                    next: next as int,
                    out: out@,
                }),
            ),
            whole == pulled(
                portals@,
                (Pull {
                    apex,
                    left,
                    right,
                    apex_at: apex_at as int,
                    left_at: left_at as int,
                    right_at: right_at as int,
                    next: next as int,
                    out: out@,
                }),
            ),
        decreases portals@.len() - apex_at, portals@.len() - next,
    {
        proof {
            lemma_pull_stays_sound(
                portals@,
                Pull {
                    apex,
                    left,
                    right,
                    apex_at: apex_at as int,
                    left_at: left_at as int,
                    right_at: right_at as int,
                    next: next as int,
                    out: out@,
                },
            );
        }
        let (new_left, new_right) = portals[next];
        if orient2d(apex, right, new_right) >= 0 {
            if approx_eq(apex, right) || orient2d(apex, left, new_right) < 0 {
                right = new_right;
                right_at = next;
            } else {
                out.push(left);
                apex = left;
                apex_at = left_at;
                right = apex;
                right_at = apex_at;
                next = apex_at + 1;
                continue;
            }
        }
        if orient2d(apex, left, new_left) <= 0 {
            if approx_eq(apex, left) || orient2d(apex, right, new_left) > 0 {
                left = new_left;
                left_at = next;
            } else {
                out.push(right);
                apex = right;
                apex_at = right_at;
                left = apex;
                left_at = apex_at;
                next = apex_at + 1;
                continue;
            }
        }
        next += 1;
    }
    let end = portals[portals.len() - 1].0;
    if !approx_eq(out[out.len() - 1], end) {
        out.push(end);
    }
    out
}

/// Whether a point is an end of one of the doorways.
pub open spec fn is_post(portals: Seq<(Vertex, Vertex)>, p: Vertex) -> bool {
    exists|i: int|
        0 <= i < portals.len() && ((#[trigger] portals[i]).0 == p || portals[i].1 == p)
}

/// Whether a string begins at a point and turns only at ends of doorways.
pub open spec fn turns_at_posts(
    portals: Seq<(Vertex, Vertex)>,
    start: Vertex,
    out: Seq<Vertex>,
) -> bool {
    &&& out.len() > 0
    &&& out[0] == start
    &&& forall|i: int| 0 <= i < out.len() ==> is_post(portals, #[trigger] out[i])
}

proof fn lemma_pulled_turns(portals: Seq<(Vertex, Vertex)>, start: Vertex, f: Pull)
    requires
        pull_sound(portals, f),
        turns_at_posts(portals, start, f.out),
        is_post(portals, f.left),
        is_post(portals, f.right),
    ensures
        turns_at_posts(portals, start, pulled(portals, f)),
    decreases portals.len() - f.apex_at, portals.len() - f.next,
{
    if f.next < portals.len() {
        lemma_pull_stays_sound(portals, f);
        let g = pulled_once(portals, f);
        let d = portals[f.next];
        assert(is_post(portals, d.0) && is_post(portals, d.1));
        assert(is_post(portals, g.left) && is_post(portals, g.right));
        assert(turns_at_posts(portals, start, g.out)) by {
            assert forall|i: int| 0 <= i < g.out.len() implies is_post(
                portals,
                #[trigger] g.out[i],
            ) by {
                if i < f.out.len() {
                    assert(g.out[i] == f.out[i]);
                }
            }
        }
        lemma_pulled_turns(portals, start, g);
    }
}

/// A pulled string begins at the left end of the first doorway, ends at the
/// left end of the last one (or counts as ending there), and turns nowhere but
/// at ends of doorways.
pub proof fn strings_turn_at_doorways(portals: Seq<(Vertex, Vertex)>)
    requires
        portals.len() > 0,
    ensures
        turns_at_posts(portals, portals[0].0, string_of(portals)),
        close(string_of(portals).last(), portals.last().0),
{
    let start = portals[0].0;
    let f = Pull {
        apex: start,
        left: start,
        right: start,
        apex_at: 0,
        left_at: 0,
        right_at: 0,
        next: 1,
        out: seq![start],
    };
    assert(is_post(portals, start));
    assert(turns_at_posts(portals, start, f.out));
    lemma_pulled_turns(portals, start, f);
    let end = portals.last().0;
    assert(portals[portals.len() - 1].0 == end);
    assert(is_post(portals, end));
    lemma_close_to_itself(end);
    let out = pulled(portals, f);
    assert forall|i: int| 0 <= i < string_of(portals).len() implies is_post(
        portals,
        #[trigger] string_of(portals)[i],
    ) by {
        if i < out.len() {
            assert(string_of(portals)[i] == out[i]);
        }
    }
}

// --- Inside one mesh --------------------------------------------------------

/// Whether triangle `b` is across some edge of triangle `a`.
pub open spec fn next_to(mesh: RegionNavMesh, a: int, b: int) -> bool {
    &&& 0 <= a < mesh.triangles@.len()
    &&& exists|e: int|
        0 <= e < 3 && #[trigger] is_neighbor(mesh.triangles@, a, e, Some(b as usize))
}

/// Whether triangles lead from `s` to `t`, each next to the one before.
pub open spec fn leads(mesh: RegionNavMesh, channel: Seq<usize>, s: int, t: int) -> bool {
    &&& channel.len() > 0
    &&& channel[0] == s
    &&& channel.last() == t
    &&& forall|i: int|
        0 <= i < channel.len() - 1 ==> next_to(
            mesh,
            #[trigger] channel[i] as int,
            channel[i + 1] as int,
        )
}

/// Whether `t` is the first triangle that covers a point.
pub open spec fn first_cover(mesh: RegionNavMesh, p: Vertex, t: int) -> bool {
    &&& 0 <= t < mesh.triangles@.len()
    &&& covers(mesh, t, p)
    &&& forall|i: int| 0 <= i < t ==> !(#[trigger] covers(mesh, i, p))
}

/// Whether no triangle covers a point.
pub open spec fn off_mesh(mesh: RegionNavMesh, p: Vertex) -> bool {
    forall|i: int| 0 <= i < mesh.triangles@.len() ==> !(#[trigger] covers(mesh, i, p))
}

/// The doorways of a channel from `src` to `dst`, with these points.
pub open spec fn portals_of(
    mesh: RegionNavMesh,
    channel: Seq<usize>,
    src: Vertex,
    dst: Vertex,
) -> Seq<(Vertex, Vertex)> {
    doorways(mesh, channel, src, channel.len()).push((dst, dst))
}

/// The string from `src` to `dst` through a channel.
pub open spec fn string_through(
    mesh: RegionNavMesh,
    channel: Seq<usize>,
    src: Vertex,
    dst: Vertex,
) -> Seq<Vertex> {
    string_of(portals_of(mesh, channel, src, dst))
}

/// Whether `adj` holds the neighbor across each edge of each triangle.
pub open spec fn is_adjacency(mesh: RegionNavMesh, adj: Seq<[Option<usize>; 3]>) -> bool {
    &&& adj.len() == mesh.triangles@.len()
    &&& forall|i: int, e: int|
        0 <= i < adj.len() && 0 <= e < 3 ==> is_neighbor(
            mesh.triangles@,
            i,
            e,
            #[trigger] adj[i]@[e],
        )
}

/// Whether a search steered by `price` finds a channel from `s` to `t`.
pub open spec fn searched<F: Fn(u64, usize, u32, usize, u32) -> (u64, u64)>(
    mesh: RegionNavMesh,
    price: F,
    s: int,
    t: int,
    channel: Seq<usize>,
) -> bool {
    exists|adj: Seq<[Option<usize>; 3]>|
        is_adjacency(mesh, adj) && #[trigger] channel_found(adj, price, s, t, channel)
}

/// Whether a search steered by `price` finds no channel from `s` to `t`: where
/// no step is beyond price, there is none.
pub open spec fn given_up<F: Fn(u64, usize, u32, usize, u32) -> (u64, u64)>(
    mesh: RegionNavMesh,
    price: F,
    s: int,
    t: int,
) -> bool {
    &&& exists|adj: Seq<[Option<usize>; 3]>|
        is_adjacency(mesh, adj) && #[trigger] channel_missed(adj, price, s, t)
    &&& affordable(price) ==> forall|c: Seq<usize>| !(#[trigger] leads(mesh, c, s, t))
}

/// Whether a string runs through the channel that a search steered by `price`
/// finds between the first triangles that cover two points. In a mesh laid out
/// in the plane it goes through all doorways of the channel.
pub open spec fn refined_by<F: Fn(u64, usize, u32, usize, u32) -> (u64, u64)>(
    mesh: RegionNavMesh,
    price: F,
    src: Vertex,
    dst: Vertex,
    out: Seq<Vertex>,
) -> bool {
    exists|s: int, t: int, c: Seq<usize>|
        #![trigger leads(mesh, c, s, t)]
        first_cover(mesh, src, s) && first_cover(mesh, dst, t) && leads(mesh, c, s, t) && searched(
            mesh,
            price,
            s,
            t,
            c,
        ) && c.no_duplicates() && out == string_through(mesh, c, src, dst) && (is_laid_out(mesh)
            && are_distinct(portals_of(mesh, c, src, dst)) ==> is_taut(
            portals_of(mesh, c, src, dst),
            out,
        ))
}

/// Whether no string joins two points: one is off the mesh, or no channel is
/// found from the first triangle that covers the one to that of the other.
pub open spec fn parted<F: Fn(u64, usize, u32, usize, u32) -> (u64, u64)>(
    mesh: RegionNavMesh,
    price: F,
    src: Vertex,
    dst: Vertex,
) -> bool {
    ||| off_mesh(mesh, src)
    ||| off_mesh(mesh, dst)
    ||| exists|s: int, t: int|
        #![trigger first_cover(mesh, src, s), first_cover(mesh, dst, t)]
        first_cover(mesh, src, s) && first_cover(mesh, dst, t) && given_up(mesh, price, s, t)
}

proof fn lemma_next_to(mesh: RegionNavMesh, adj: Seq<[Option<usize>; 3]>, a: int, b: int)
    requires
        adj.len() == mesh.triangles@.len(),
        forall|i: int, e: int|
            0 <= i < adj.len() && 0 <= e < 3 ==> is_neighbor(
                mesh.triangles@,
                i,
                e,
                #[trigger] adj[i]@[e],
            ),
    ensures
        next_to(mesh, a, b) == neighboring(adj, a, b),
{
    if neighboring(adj, a, b) {
        let e = choose|e: int| 0 <= e < 3 && (#[trigger] adj[a]@[e]) == Some(b as usize);
        assert(is_neighbor(mesh.triangles@, a, e, adj[a]@[e]));
    }
    if next_to(mesh, a, b) {
        let e = choose|e: int|
            0 <= e < 3 && #[trigger] is_neighbor(mesh.triangles@, a, e, Some(b as usize));
        let found = adj[a]@[e];
        assert(is_neighbor(mesh.triangles@, a, e, found));
        match found {
            None => {
                assert(mesh.triangles@[b as usize as int] == mesh.triangles@[b as usize as int]);
                assert(false);
            },
            Some(j) => {
                if j < b as usize {
                    assert(mesh.triangles@[j as int] == mesh.triangles@[j as int]);
                    assert(false);
                } else if j > b as usize {
                    assert(mesh.triangles@[b as usize as int] == mesh.triangles@[b as usize as int]);
                    assert(false);
                }
            },
        }
    }
}

proof fn lemma_first_doorway(mesh: RegionNavMesh, channel: Seq<usize>, src: Vertex, n: nat)
    ensures
        doorways(mesh, channel, src, n).len() > 0,
        doorways(mesh, channel, src, n)[0] == (src, src),
    decreases n,
{
    if n > 1 {
        lemma_first_doorway(mesh, channel, src, (n - 1) as nat);
    }
}

/// The tight string between two points of a mesh, through the channel that a
/// search steered by `price` finds between the first triangles that cover
/// them. There is none where a point is off the mesh or no channel leads from
/// the one triangle to the other within reach of the prices.
pub fn funnel_in_region<F: Fn(u64, usize, u32, usize, u32) -> (u64, u64)>(
    mesh: &RegionNavMesh,
    src: Vertex,
    dst: Vertex,
    price: F,
) -> (r: Option<Vec<Vertex>>)
    requires
        mesh.wf(),
        forall|g: u64, a: usize, t: u32, b: usize, u: u32| #[trigger]
            price.requires((g, a, t, b, u)),
    ensures
        match r {
            None => parted(*mesh, price, src, dst),
            Some(out) => {
                &&& refined_by(*mesh, price, src, dst, out@)
                &&& out@.len() > 0
                &&& out@[0] == src
                &&& close(out@.last(), dst)
            },
        },
{
    let s: usize = match find_triangle_at_xy(mesh, src) {
        None => return None,
        Some(x) => x,
    };
    let t: usize = match find_triangle_at_xy(mesh, dst) {
        None => return None,
        Some(x) => x,
    };
    assert(first_cover(*mesh, src, s as int) && first_cover(*mesh, dst, t as int));
    let adj = triangle_adjacency(mesh);
    proof {
        assert forall|i: int, e: int| 0 <= i < adj@.len() && 0 <= e < 3 implies ((
        #[trigger] adj@[i]@[e]) matches Some(n) ==> n < adj@.len()) by {
            assert(is_neighbor(mesh.triangles@, i, e, adj@[i]@[e]));
        }
    }
    let channel = match find_triangle_channel(&adj, s, t, price) {
        None => {
            proof {
                assert(is_adjacency(*mesh, adj@));
                assert forall|c: Seq<usize>| affordable(price) implies !(#[trigger] leads(
                    *mesh,
                    c,
                    s as int,
                    t as int,
                )) by {
                    if leads(*mesh, c, s as int, t as int) {
                        assert forall|i: int| 0 <= i < c.len() - 1 implies neighboring(
                            adj@,
                            #[trigger] c[i] as int,
                            c[i + 1] as int,
                        ) by {
                            lemma_next_to(*mesh, adj@, c[i] as int, c[i + 1] as int);
                        }
                        assert(is_channel(adj@, c, s as int, t as int));
                    }
                }
                assert(given_up(*mesh, price, s as int, t as int));
            }
            return None;
        },
        Some(c) => c,
    };
    proof {
        assert forall|i: int| 0 <= i < channel@.len() - 1 implies next_to(
            *mesh,
            #[trigger] channel@[i] as int,
            channel@[i + 1] as int,
        ) by {
            lemma_next_to(*mesh, adj@, channel@[i] as int, channel@[i + 1] as int);
        }
        assert(leads(*mesh, channel@, s as int, t as int));
        assert(is_adjacency(*mesh, adj@));
        assert(searched(*mesh, price, s as int, t as int, channel@));
        assert forall|i: int| 0 <= i < channel@.len() implies #[trigger] channel@[i]
            < mesh.triangles@.len() by {
            if i < channel@.len() - 1 {
                assert(next_to(*mesh, channel@[i] as int, channel@[i + 1] as int));
            }
        }
    }
    let portals = channel_to_portals(mesh, &channel, src, dst);
    proof {
        lemma_first_doorway(*mesh, channel@, src, channel@.len());
        strings_turn_at_doorways(portals@);
        if is_laid_out(*mesh) && are_distinct(portals@) {
            strings_go_through_channels(*mesh, channel@, src, dst);
        }
    }
    Some(funnel(&portals))
}

/// Whether a path stays in one region and goes straight.
pub open spec fn is_straight(path: Path) -> bool {
    path.regions@.len() == 1 && path.waypoints@.len() == 2
}

/// The mesh of the region that a straight path stays in.
pub open spec fn mesh_under(path: Path, meshes: AllRegionNavMeshes) -> Option<RegionNavMesh> {
    let i = path.regions@[0].0 as int;
    if i < meshes.meshes@.len() {
        meshes.meshes@[i]
    } else {
        None
    }
}

/// Refine a straight path: the tight string between its ends through the mesh
/// of its region. There is none for any other path, or where the region has no
/// mesh or its mesh no string of two points or more; the path then stays as it
/// is.
pub fn refine_with_funnel<F: Fn(u64, usize, u32, usize, u32) -> (u64, u64)>(
    path: &Path,
    meshes: &AllRegionNavMeshes,
    src: Vertex,
    dst: Vertex,
    price: F,
) -> (r: Option<Vec<Vertex>>)
    requires
        forall|i: int|
            0 <= i < meshes.meshes@.len() ==> ((#[trigger] meshes.meshes@[i]) matches Some(m)
                ==> m.wf()),
        forall|g: u64, a: usize, t: u32, b: usize, u: u32| #[trigger]
            price.requires((g, a, t, b, u)),
    ensures
        match r {
            None => {
                ||| !is_straight(*path)
                ||| mesh_under(*path, *meshes) is None
                ||| mesh_under(*path, *meshes) matches Some(m) && (parted(m, price, src, dst)
                    || exists|out: Seq<Vertex>| #[trigger]
                    refined_by(m, price, src, dst, out) && out.len() < 2)
            },
            Some(out) => {
                &&& is_straight(*path)
                &&& mesh_under(*path, *meshes) matches Some(m) && refined_by(m, price, src, dst, out@)
                &&& out@.len() >= 2
                &&& out@[0] == src
                &&& close(out@.last(), dst)
            },
        },
{
    if path.regions.len() != 1 || path.waypoints.len() != 2 {
        return None;
    }
    let i: usize = path.regions[0].index();
    if i >= meshes.meshes.len() {
        return None;
    }
    match &meshes.meshes[i] {
        None => None,
        Some(mesh) => {
            assert(meshes.meshes@[i as int] == Some(*mesh));
            match funnel_in_region(mesh, src, dst, price) {
                None => None,
                Some(out) => {
                    if out.len() >= 2 {
                        Some(out)
                    } else {
                        None
                    }
                },
            }
        },
    }
}

// --- Doorways of a channel --------------------------------------------------

/// Whether a vertex is a corner of triangle `t`.
pub open spec fn has_corner(mesh: RegionNavMesh, t: int, v: u32) -> bool {
    exists|e: int| 0 <= e < 3 && #[trigger] mesh.triangles@[t]@[e] == v
}

/// Whether triangle `t` has all corners of triangle `s` but corner `e`.
pub open spec fn meets_but_for(mesh: RegionNavMesh, s: int, t: int, e: int) -> bool {
    &&& 0 <= e < 3
    &&& forall|f: int|
        0 <= f < 3 ==> has_corner(mesh, t, #[trigger] mesh.triangles@[s]@[f]) == (f != e)
}

/// Whether `d` is the edge of triangle `s` across from corner `e`, with that
/// corner not to the right of the way from its right end to its left end.
pub open spec fn opens_across(mesh: RegionNavMesh, s: int, e: int, d: (Vertex, Vertex)) -> bool {
    let (a, b, c) = (
        mesh.corner_at(s, e),
        mesh.corner_at(s, (e + 1) % 3),
        mesh.corner_at(s, (e + 2) % 3),
    );
    &&& d == (b, c) || d == (c, b)
    &&& orient(d.1, d.0, a) >= 0
}

/// Whether triangle `i` of a channel shares an edge with the next.
pub open spec fn is_shared_step(mesh: RegionNavMesh, channel: Seq<usize>, i: int) -> bool {
    exists|e: int| #[trigger]
        meets_but_for(mesh, channel[i] as int, channel[i + 1] as int, e)
}

/// Whether `d` is the edge that triangle `i` of a channel shares with the next.
pub open spec fn is_step_doorway(
    mesh: RegionNavMesh,
    channel: Seq<usize>,
    i: int,
    d: (Vertex, Vertex),
) -> bool {
    exists|e: int| #[trigger]
        meets_but_for(mesh, channel[i] as int, channel[i + 1] as int, e) && opens_across(
            mesh,
            channel[i] as int,
            e,
            d,
        )
}

/// Whether `out` lists the doorways between the first `n` triangles of a
/// channel after the start: doorway `i + 1` leaves triangle `steps[i]`, they
/// come in the channel's order, and none is left out.
pub open spec fn lists_doorways(
    mesh: RegionNavMesh,
    channel: Seq<usize>,
    src: Vertex,
    n: int,
    out: Seq<(Vertex, Vertex)>,
    steps: Seq<int>,
) -> bool {
    &&& out.len() == steps.len() + 1
    &&& out[0] == (src, src)
    &&& forall|i: int|
        0 <= i < steps.len() ==> 0 <= #[trigger] steps[i] < n - 1 && is_step_doorway(
            mesh,
            channel,
            steps[i],
            out[i + 1],
        )
    &&& forall|i: int, j: int| 0 <= i < j < steps.len() ==> steps[i] < steps[j]
    &&& forall|i: int|
        0 <= i < n - 1 && #[trigger] is_shared_step(mesh, channel, i) ==> steps.contains(i)
}

/// Whether `out` is the doorways of a channel between `src` and `dst`.
pub open spec fn opens_channel(
    mesh: RegionNavMesh,
    channel: Seq<usize>,
    src: Vertex,
    dst: Vertex,
    out: Seq<(Vertex, Vertex)>,
) -> bool {
    &&& out.len() >= 2
    &&& out.last() == (dst, dst)
    &&& exists|steps: Seq<int>| #[trigger]
        lists_doorways(mesh, channel, src, channel.len() as int, out.drop_last(), steps)
}

proof fn lemma_no_area(a: Vertex, b: Vertex)
    ensures
        orient(a, b, a) == 0,
        orient(a, b, b) == 0,
{
    let (x, y) = (b.vx() - a.vx(), b.vy() - a.vy());
    let (u, v) = (a.vx() - b.vx(), a.vy() - b.vy());
    assert(0 * y - 0 * x == 0 && u * 0 - v * 0 == 0) by (nonlinear_arith);
}

proof fn lemma_doorway_opens(mesh: RegionNavMesh, s: int, t: int)
    ensures
        match doorway(mesh, s, t) {
            None => forall|e: int| !(#[trigger] meets_but_for(mesh, s, t, e)),
            Some(d) => exists|e: int| #[trigger]
                meets_but_for(mesh, s, t, e) && opens_across(mesh, s, e, d),
        },
{
    let (a, b) = (mesh.triangles@[s]@, mesh.triangles@[t]@);
    reveal_with_fuel(shared_corners, 4);
    let list = shared_corners(a, b, 3);
    assert forall|f: int| 0 <= f < 3 implies has_corner(mesh, t, #[trigger] a[f]) == (b[0] == a[f]
        || b[1] == a[f] || b[2] == a[f]) by {
        if b[0] == a[f] || b[1] == a[f] || b[2] == a[f] {
            let e = if b[0] == a[f] {
                0int
            } else if b[1] == a[f] {
                1
            } else {
                2
            };
            assert(mesh.triangles@[t]@[e] == a[f]);
        }
    }
    let (h0, h1, h2) = (
        has_corner(mesh, t, a[0]),
        has_corner(mesh, t, a[1]),
        has_corner(mesh, t, a[2]),
    );
    assert forall|e: int| #[trigger] meets_but_for(mesh, s, t, e) implies list.len() == 2 by {
        assert(has_corner(mesh, t, mesh.triangles@[s]@[0]) == (0 != e));
        assert(has_corner(mesh, t, mesh.triangles@[s]@[1]) == (1 != e));
        assert(has_corner(mesh, t, mesh.triangles@[s]@[2]) == (2 != e));
    }
    if list.len() == 2 {
        let e = if !h0 {
            0int
        } else if !h1 {
            1
        } else {
            2
        };
        assert(meets_but_for(mesh, s, t, e));
        let (p, q) = (
            mesh.vertices@[list[0] as int].position,
            mesh.vertices@[list[1] as int].position,
        );
        let third = mesh.corner_at(s, e);
        lemma_no_area(p, q);
        lemma_no_area(q, p);
        crate::plane::areas_turn(p, q, third);
        let d = doorway(mesh, s, t)->0;
        assert(opens_across(mesh, s, e, d));
    }
}

/// The doorways of a channel are the edges that its triangles share with those
/// after them, each seen from the first: wherever two in a row share an edge,
/// there is one.
pub proof fn every_shared_step_is_a_doorway(
    mesh: RegionNavMesh,
    channel: Seq<usize>,
    src: Vertex,
    n: nat,
) -> (steps: Seq<int>)
    requires
        n <= channel.len(),
    ensures
        lists_doorways(mesh, channel, src, n as int, doorways(mesh, channel, src, n), steps),
    decreases n,
{
    if n <= 1 {
        Seq::empty()
    } else {
        let before = every_shared_step_is_a_doorway(mesh, channel, src, (n - 1) as nat);
        let i = n - 2;
        lemma_doorway_opens(mesh, channel[i] as int, channel[i + 1] as int);
        match doorway(mesh, channel[i] as int, channel[i + 1] as int) {
            None => {
                assert(!is_shared_step(mesh, channel, i));
                before
            },
            Some(d) => {
                assert(is_step_doorway(mesh, channel, i, d));
                let steps = before.push(i);
                assert(steps[before.len() as int] == i);
                assert forall|j: int| 0 <= j < n - 1 && #[trigger] is_shared_step(
                    mesh,
                    channel,
                    j,
                ) implies steps.contains(j) by {
                    if j < i {
                        assert(before.contains(j));
                        assert(steps[before.index_of(j)] == j);
                    }
                }
                steps
            },
        }
    }
}

} // verus!
