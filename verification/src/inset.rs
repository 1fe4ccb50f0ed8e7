//! Building a carved triangulation from perimeter and hole rings.
//!
//! The rings are normalized first ([`plan_inset`]). What comes back from
//! pushing their edges inward and resolving the crossings, as vertices and
//! segments, is triangulated and culled by winding ([`finish_inset`]).

use crate::bigint::BigInt;
use crate::coord::{coord_less, exponent_of, finite, scale, value};
use crate::cull::{ascending, carve_by_winding, culled, drop_interior_constraints, dropped};
use crate::divconq::{delaunay, is_outcome, DivConqOptions};
use crate::mesh::{
    no_sub, no_tri, no_vertex, CdtMesh, EncodedTri, MeshView, Osub, Otri, VertexId, VertexSlot,
    VertexType,
};
use crate::predicates::{
    big_cross, big_diff, big_relative, cross, lemma_cross_scaled, lemma_relative, lemma_sgn_scaled,
    min_scale, orient_det, relative, sgn, Vertex,
};
use crate::pslg::{Pslg, PslgSegment};
use crate::segment::{
    form_skeleton, is_same_place, is_skeleton, same_place, MeshFault, SegmentInsertError,
};
use crate::winding::{all_edges, SoupContour};
use vstd::arithmetic::power2::{lemma_pow2_pos, pow2};
use vstd::prelude::*;

verus! {

/// What a ring bounds.
#[derive(Copy, Clone, Debug, PartialEq, Eq, Structural)]
pub enum RingKind {
    Perimeter,
    Hole,
}

/// A ring of points, closed from the last back to the first, in either
/// direction; its kind, and the marker its segments carry.
#[derive(Clone, Debug)]
pub struct InsetRing {
    pub points: Vec<Vertex>,
    pub kind: RingKind,
    pub marker: i32,
}

/// Why the crossings of a set of contours could not be resolved.
#[derive(Copy, Clone, Debug, PartialEq, Eq, Structural)]
pub enum PlanarizeError {
    /// Fewer than three vertices are left.
    Degenerate,
    /// The crossings did not settle.
    NotConverged,
}

/// Failure of an inset build.
#[derive(Copy, Clone, Debug, PartialEq, Eq, Structural)]
pub enum InsetError {
    /// The inset, given by its bits, is not finite and at least zero.
    InvalidInset { bits: u64 },
    /// The snap cell, given by its bits, is not a positive normal number.
    InvalidSnapCell { bits: u64 },
    /// A ring has a coordinate that is not finite.
    NonFiniteVertex,
    /// The crossings could not be resolved.
    Planarize { error: PlanarizeError },
    /// The segments still cross.
    Segment { error: SegmentInsertError },
    /// The triangulation could not be built.
    Mesh { fault: MeshFault },
}

// --- Normalizing rings ------------------------------------------------------

/// The points of a ring without those at the same place as the one before.
pub open spec fn without_repeats(s: Seq<Vertex>) -> Seq<Vertex>
    decreases s.len(),
{
    if s.len() == 0 {
        s
    } else {
        let d = without_repeats(s.drop_last());
        if d.len() > 0 && same_place(d.last(), s.last()) {
            d
        } else {
            d.push(s.last())
        }
    }
}

/// A ring without trailing points at the place of the first.
pub open spec fn unclosed(s: Seq<Vertex>) -> Seq<Vertex>
    decreases s.len(),
{
    if s.len() > 1 && same_place(s.first(), s.last()) {
        unclosed(s.drop_last())
    } else {
        s
    }
}

/// The index after `i` on a ring of `n` points.
pub open spec fn ring_next(i: int, n: int) -> int {
    if i + 1 == n {
        0
    } else {
        i + 1
    }
}

/// Twice the signed area that the edges from `lo` up to `hi` sweep about the
/// origin.
pub open spec fn swept_area(s: Seq<Vertex>, lo: int, hi: int) -> int
    decreases hi - lo,
{
    if hi <= lo {
        0
    } else {
        let (a, b) = (s[hi - 1], s[ring_next(hi - 1, s.len() as int)]);
        swept_area(s, lo, hi - 1) + cross(a.vx(), a.vy(), b.vx(), b.vy())
    }
}

/// Twice the signed area of a ring, positive where it runs counter-clockwise.
pub open spec fn ring_area(s: Seq<Vertex>) -> int {
    swept_area(s, 0, s.len() as int)
}

/// A ring in its natural direction, perimeters counter-clockwise and holes
/// clockwise; nothing where it has fewer than three points or no area.
pub open spec fn normalized(s: Seq<Vertex>, kind: RingKind) -> Option<Seq<Vertex>> {
    let d = unclosed(without_repeats(s));
    if d.len() < 3 || ring_area(d) == 0 {
        None
    } else if (kind == RingKind::Perimeter) == (ring_area(d) > 0) {
        Some(d)
    } else {
        Some(d.reverse())
    }
}

spec fn swept_scaled(s: Seq<Vertex>, unit: nat, lo: int, hi: int) -> int
    decreases hi - lo,
{
    if hi <= lo {
        0
    } else {
        let (a, b) = (s[hi - 1], s[ring_next(hi - 1, s.len() as int)]);
        swept_scaled(s, unit, lo, hi - 1) + cross(
            relative(a.x, unit),
            relative(a.y, unit),
            relative(b.x, unit),
            relative(b.y, unit),
        )
    }
}

proof fn lemma_swept_splits(s: Seq<Vertex>, unit: nat, lo: int, mid: int, hi: int)
    requires
        lo <= mid <= hi,
    ensures
        swept_scaled(s, unit, lo, hi) == swept_scaled(s, unit, lo, mid) + swept_scaled(
            s,
            unit,
            mid,
            hi,
        ),
    decreases hi - mid,
{
    if mid < hi {
        lemma_swept_splits(s, unit, lo, mid, hi - 1);
    }
}

proof fn lemma_swept_unit(s: Seq<Vertex>, unit: nat, lo: int, hi: int)
    requires
        0 <= lo <= hi <= s.len(),
        forall|i: int|
            0 <= i < s.len() ==> unit <= scale((#[trigger] s[i]).x) && unit <= scale(s[i].y),
    ensures
        swept_area(s, lo, hi) == (pow2(unit) * pow2(unit)) * swept_scaled(s, unit, lo, hi),
    decreases hi - lo,
{
    let p = pow2(unit) as int;
    if lo < hi {
        lemma_swept_unit(s, unit, lo, hi - 1);
        let (a, b) = (s[hi - 1], s[ring_next(hi - 1, s.len() as int)]);
        lemma_relative(a.x, unit);
        lemma_relative(a.y, unit);
        lemma_relative(b.x, unit);
        lemma_relative(b.y, unit);
        let (ax, ay, bx, by) = (
            relative(a.x, unit),
            relative(a.y, unit),
            relative(b.x, unit),
            relative(b.y, unit),
        );
        lemma_cross_scaled(p, ax, ay, bx, by);
        let (u, w) = (swept_scaled(s, unit, lo, hi - 1), cross(ax, ay, bx, by));
        assert((p * p) * u + (p * p) * w == (p * p) * (u + w)) by (nonlinear_arith);
    } else {
        assert((p * p) * 0 == 0) by (nonlinear_arith);
    }
}

/// The sum over the edges from `lo` up to `hi`, taken by halves.
fn sweep(s: &Vec<Vertex>, unit: u32, lo: usize, hi: usize, depth: u32) -> (r: BigInt)
    requires
        lo < hi <= s@.len(),
        depth <= 64,
        hi - lo <= pow2(depth as nat),
        forall|i: int|
            0 <= i < s@.len() ==> unit <= scale((#[trigger] s@[i]).x) && unit <= scale(s@[i].y),
    ensures
        r@ == swept_scaled(s@, unit as nat, lo as int, hi as int),
        r.size() <= 204 + depth,
    decreases depth,
{
    if hi - lo == 1 {
        let a = s[lo];
        let b = if hi == s.len() {
            s[0]
        } else {
            s[hi]
        };
        let ax = big_relative(a.x, unit);
        let ay = big_relative(a.y, unit);
        let bx = big_relative(b.x, unit);
        let by = big_relative(b.y, unit);
        assert(swept_scaled(s@, unit as nat, lo as int, lo as int) == 0);
        return big_cross(&ax, &ay, &bx, &by);
    }
    proof {
        if depth == 0 {
            vstd::arithmetic::power2::lemma2_to64();
        } else {
            vstd::arithmetic::power2::lemma_pow2_unfold(depth as nat);
        }
    }
    let mid: usize = lo + (hi - lo) / 2;
    let left = sweep(s, unit, lo, mid, depth - 1);
    let right = sweep(s, unit, mid, hi, depth - 1);
    proof {
        lemma_swept_splits(s@, unit as nat, lo as int, mid as int, hi as int);
    }
    left.plus(&right)
}

/// The sign of a ring's area.
fn ring_turn(s: &Vec<Vertex>) -> (r: i32)
    requires
        s@.len() > 0,
    ensures
        r == sgn(ring_area(s@)),
{
    let mut unit: u32 = 2048;
    let mut i: usize = 0;
    while i < s.len()
        invariant
            i <= s@.len(),
            unit <= 2048,
            forall|k: int|
                0 <= k < i ==> unit <= scale((#[trigger] s@[k]).x) && unit <= scale(s@[k].y),
        decreases s.len() - i,
    {
        unit = min_scale(unit, s[i]);
        i += 1;
    }
    proof {
        vstd::arithmetic::power2::lemma2_to64();
        vstd::arithmetic::power2::lemma2_to64_rest();
    }
    let total = sweep(s, unit, 0, s.len(), 64);
    proof {
        let p = pow2(unit as nat) as int;
        lemma_pow2_pos(unit as nat);
        lemma_swept_unit(s@, unit as nat, 0, s@.len() as int);
        assert(p * p > 0) by (nonlinear_arith)
            requires
                p > 0,
        ;
        lemma_sgn_scaled(p * p, total@);
    }
    total.sign()
}

/// Bring a ring into its natural direction, or report it degenerate.
pub fn normalize_ring(ring: &InsetRing) -> (r: Option<Vec<Vertex>>)
    ensures
        match normalized(ring.points@, ring.kind) {
            Some(s) => r matches Some(v) && v@ == s,
            None => r is None,
        },
{
    let mut pts: Vec<Vertex> = Vec::new();
    let mut i: usize = 0;
    while i < ring.points.len()
        invariant
            i <= ring.points@.len(),
            pts@ == without_repeats(ring.points@.take(i as int)),
        decreases ring.points.len() - i,
    {
        let p = ring.points[i];
        let n: usize = pts.len();
        proof {
            assert(ring.points@.take(i + 1).drop_last() =~= ring.points@.take(i as int));
        }
        if n == 0 || !is_same_place(pts[n - 1], p) {
            pts.push(p);
        }
        i += 1;
    }
    proof {
        assert(ring.points@.take(i as int) =~= ring.points@);
    }
    while pts.len() > 1 && is_same_place(pts[0], pts[pts.len() - 1])
        invariant
            unclosed(pts@) == unclosed(without_repeats(ring.points@)),
        decreases pts.len(),
    {
        let ghost before = pts@;
        let _ = pts.pop();
        proof {
            assert(pts@ =~= before.drop_last());
        }
    }
    if pts.len() < 3 {
        return None;
    }
    let turn: i32 = ring_turn(&pts);
    if turn == 0 {
        return None;
    }
    let forward = match ring.kind {
        RingKind::Perimeter => turn > 0,
        RingKind::Hole => turn < 0,
    };
    if forward {
        return Some(pts);
    }
    let mut out: Vec<Vertex> = Vec::new();
    let n: usize = pts.len();
    let mut k: usize = 0;
    while k < n
        invariant
            k <= n,
            n == pts@.len(),
            out@.len() == k,
            forall|j: int| 0 <= j < k ==> out@[j] == pts@[n - 1 - j],
        decreases n - k,
    {
        out.push(pts[n - 1 - k]);
        k += 1;
    }
    proof {
        assert(out@ =~= pts@.reverse());
    }
    Some(out)
}

proof fn lemma_area_splits(s: Seq<Vertex>, lo: int, mid: int, hi: int)
    requires
        lo <= mid <= hi,
    ensures
        swept_area(s, lo, hi) == swept_area(s, lo, mid) + swept_area(s, mid, hi),
    decreases hi - mid,
{
    if mid < hi {
        lemma_area_splits(s, lo, mid, hi - 1);
    }
}

proof fn lemma_edge_back(a: Vertex, b: Vertex)
    ensures
        cross(b.vx(), b.vy(), a.vx(), a.vy()) == -cross(a.vx(), a.vy(), b.vx(), b.vy()),
{
    let (ax, ay, bx, by) = (a.vx(), a.vy(), b.vx(), b.vy());
    assert(bx * ay - by * ax == -(ax * by - ay * bx)) by (nonlinear_arith);
}

proof fn lemma_area_back(s: Seq<Vertex>, k: int)
    requires
        0 <= k < s.len(),
    ensures
        swept_area(s.reverse(), 0, k) == -swept_area(s, s.len() - 1 - k, s.len() - 1),
    decreases k,
{
    let n = s.len() as int;
    if k > 0 {
        lemma_area_back(s, k - 1);
        lemma_area_splits(s, n - 1 - k, n - k, n - 1);
        assert(swept_area(s, n - 1 - k, n - 1 - k) == 0);
        lemma_edge_back(s[n - 1 - k], s[n - k]);
    }
}

/// A ring taken backwards has the opposite area.
pub proof fn area_turns_with_the_ring(s: Seq<Vertex>)
    ensures
        ring_area(s.reverse()) == -ring_area(s),
{
    let n = s.len() as int;
    if n > 0 {
        lemma_area_back(s, n - 1);
        lemma_edge_back(s[n - 1], s[0]);
    }
}

/// A normalized ring has at least three points and runs in the direction of
/// its kind: perimeters counter-clockwise, holes clockwise.
pub proof fn normalized_rings_run_their_way(s: Seq<Vertex>, kind: RingKind)
    requires
        normalized(s, kind) is Some,
    ensures
        normalized(s, kind).unwrap().len() >= 3,
        kind == RingKind::Perimeter ==> ring_area(normalized(s, kind).unwrap()) > 0,
        kind == RingKind::Hole ==> ring_area(normalized(s, kind).unwrap()) < 0,
{
    area_turns_with_the_ring(unclosed(without_repeats(s)));
}

// --- Planning ---------------------------------------------------------------

/// Whether every coordinate of a ring is finite.
pub open spec fn all_finite(s: Seq<Vertex>) -> bool {
    forall|i: int| 0 <= i < s.len() ==> finite((#[trigger] s[i]).x) && finite(s[i].y)
}

/// Whether a ring is at most `2 * inset` wide or at most `2 * inset` high.
pub open spec fn narrow(s: Seq<Vertex>, inset: u64) -> bool {
    ||| forall|i: int, j: int|
        0 <= i < s.len() && 0 <= j < s.len() ==> (#[trigger] s[i]).vx() - (#[trigger] s[j]).vx()
            <= 2 * value(inset)
    ||| forall|i: int, j: int|
        0 <= i < s.len() && 0 <= j < s.len() ==> (#[trigger] s[i]).vy() - (#[trigger] s[j]).vy()
            <= 2 * value(inset)
}

/// A ring to be pushed inward, in its natural direction.
#[derive(Clone, Debug)]
pub struct PlannedRing {
    pub points: Vec<Vertex>,
    pub kind: RingKind,
    pub marker: i32,
}

/// The rings to build from, and the indices of those dropped as degenerate.
#[derive(Clone, Debug)]
pub struct InsetPlan {
    pub rings: Vec<PlannedRing>,
    pub skipped: Vec<(usize, RingKind)>,
}

/// Whether a perimeter is certain to vanish when it is pushed inward.
pub open spec fn eroded_away(s: Seq<Vertex>, kind: RingKind, inset: u64) -> bool {
    kind == RingKind::Perimeter && value(inset) > 0 && narrow(s, inset)
}

/// The first `n` rings that stay, as index and points.
pub open spec fn kept_rings(rings: Seq<InsetRing>, inset: u64, n: nat) -> Seq<(int, Seq<Vertex>)>
    decreases n,
{
    if n == 0 {
        Seq::empty()
    } else {
        let before = kept_rings(rings, inset, (n - 1) as nat);
        let ring = rings[n - 1];
        match normalized(ring.points@, ring.kind) {
            None => before,
            Some(s) => if eroded_away(s, ring.kind, inset) {
                before
            } else {
                before.push((n - 1, s))
            },
        }
    }
}

/// The degenerate ones among the first `n` rings.
pub open spec fn skipped_rings(rings: Seq<InsetRing>, n: nat) -> Seq<(usize, RingKind)>
    decreases n,
{
    if n == 0 {
        Seq::empty()
    } else {
        let before = skipped_rings(rings, (n - 1) as nat);
        let ring = rings[n - 1];
        if normalized(ring.points@, ring.kind) is None {
            before.push(((n - 1) as usize, ring.kind))
        } else {
            before
        }
    }
}

/// Whether the planned rings are the kept ones, with their kinds and markers.
pub open spec fn planned(out: Seq<PlannedRing>, rings: Seq<InsetRing>, kept: Seq<(int, Seq<Vertex>)>) -> bool {
    &&& out.len() == kept.len()
    &&& forall|k: int|
        0 <= k < kept.len() ==> {
            &&& (#[trigger] out[k]).points@ == kept[k].1
            &&& out[k].kind == rings[kept[k].0].kind
            &&& out[k].marker == rings[kept[k].0].marker
        }
}

fn is_finite_ring(s: &Vec<Vertex>) -> (r: bool)
    ensures
        r == all_finite(s@),
{
    let mut i: usize = 0;
    while i < s.len()
        invariant
            i <= s@.len(),
            forall|k: int| 0 <= k < i ==> finite((#[trigger] s@[k]).x) && finite(s@[k].y),
        decreases s.len() - i,
    {
        if exponent_of(s[i].x) == 0x7ff || exponent_of(s[i].y) == 0x7ff {
            assert(!finite(s@[i as int].x) || !finite(s@[i as int].y));
            return false;
        }
        i += 1;
    }
    true
}

/// Whether `high - low` is at most `2 * inset`.
fn spans_at_most(high: u64, low: u64, inset: u64) -> (r: bool)
    ensures
        r == (value(high) - value(low) <= 2 * value(inset)),
{
    let unit: u32 = min_scale(
        min_scale(2048, Vertex::new(high, low)),
        Vertex::new(inset, inset),
    );
    let span = big_diff(high, low, unit);
    let half = big_relative(inset, unit);
    let rest = span.minus(&half).minus(&half);
    proof {
        let p = pow2(unit as nat) as int;
        lemma_pow2_pos(unit as nat);
        lemma_relative(inset, unit as nat);
        let (u, h) = (span@, half@);
        assert(value(high) - value(low) == p * u);
        assert(value(inset) == p * h);
        assert(p * u - 2 * (p * h) == p * (u - h - h)) by (nonlinear_arith);
        lemma_sgn_scaled(p, u - h - h);
    }
    rest.sign() <= 0
}

fn is_narrow(s: &Vec<Vertex>, inset: u64) -> (r: bool)
    requires
        s@.len() > 0,
    ensures
        r == narrow(s@, inset),
{
    let (mut left, mut right) = (s[0].x, s[0].x);
    let (mut low, mut high) = (s[0].y, s[0].y);
    let ghost (mut gl, mut gr, mut gb, mut gt) = (0int, 0int, 0int, 0int);
    let mut i: usize = 1;
    while i < s.len()
        invariant
            1 <= i <= s@.len(),
            0 <= gl < s@.len() && s@[gl].x == left,
            0 <= gr < s@.len() && s@[gr].x == right,
            0 <= gb < s@.len() && s@[gb].y == low,
            0 <= gt < s@.len() && s@[gt].y == high,
            forall|k: int|
                0 <= k < i ==> value(left) <= (#[trigger] s@[k]).vx() <= value(right) && value(low)
                    <= s@[k].vy() <= value(high),
        decreases s.len() - i,
    {
        let p = s[i];
        if coord_less(p.x, left) {
            left = p.x;
            proof {
                gl = i as int;
            }
        }
        if coord_less(right, p.x) {
            right = p.x;
            proof {
                gr = i as int;
            }
        }
        if coord_less(p.y, low) {
            low = p.y;
            proof {
                gb = i as int;
            }
        }
        if coord_less(high, p.y) {
            high = p.y;
            proof {
                gt = i as int;
            }
        }
        i += 1;
    }
    let r = spans_at_most(right, left, inset) || spans_at_most(high, low, inset);
    proof {
        assert(s@[gr].vx() == value(right) && s@[gl].vx() == value(left));
        assert(s@[gt].vy() == value(high) && s@[gb].vy() == value(low));
        let (dx, dy) = (value(right) - value(left), value(high) - value(low));
        if dx <= 2 * value(inset) {
            assert(narrow(s@, inset));
        }
        if dy <= 2 * value(inset) {
            assert(narrow(s@, inset));
        }
    }
    r
}

// --- What stays -------------------------------------------------------------

/// Twice the area of a ring of three points is that of their triangle, and a
/// point more adds the triangle that it makes with its neighbors.
pub proof fn areas_add_up_along_rings(s: Seq<Vertex>)
    requires
        s.len() >= 3,
    ensures
        ring_area(s) == ring_area(s.drop_last()) + orient_det(s[s.len() - 2], s.last(), s[0]),
        s.len() == 3 ==> ring_area(s) == orient_det(s[0], s[1], s[2]),
{
    let n = s.len() as int;
    let d = s.drop_last();
    lemma_path_prefix(s, n - 2);
    lemma_ring_path(s);
    lemma_ring_path(d);
    let (a, b, c) = (s[n - 2], s[n - 1], s[0]);
    lemma_three_crosses(a, b, c);
    lemma_edge_back(a, c);
    if n == 3 {
        assert(ring_area(d) == 0) by {
            lemma_few_points(d);
        }
        crate::predicates::orientation_turns(s[0], s[1], s[2]);
    }
}

proof fn lemma_three_crosses(a: Vertex, b: Vertex, c: Vertex)
    ensures
        orient_det(a, b, c) == cross(a.vx(), a.vy(), b.vx(), b.vy()) + cross(
            b.vx(),
            b.vy(),
            c.vx(),
            c.vy(),
        ) + cross(c.vx(), c.vy(), a.vx(), a.vy()),
{
    let (ax, ay, bx, by, cx, cy) = (a.vx(), a.vy(), b.vx(), b.vy(), c.vx(), c.vy());
    assert((ax - cx) * (by - cy) - (ay - cy) * (bx - cx) == (ax * by - ay * bx) + (bx * cy - by
        * cx) + (cx * ay - cy * ax)) by (nonlinear_arith);
}

proof fn lemma_ring_path(s: Seq<Vertex>)
    requires
        s.len() > 0,
    ensures
        ring_area(s) == swept_area(s, 0, s.len() - 1) + cross(
            s.last().vx(),
            s.last().vy(),
            s[0].vx(),
            s[0].vy(),
        ),
{
}

/// The edges before the last point do not depend on it.
proof fn lemma_path_prefix(s: Seq<Vertex>, k: int)
    requires
        0 <= k <= s.len() - 2,
    ensures
        swept_area(s.drop_last(), 0, k) == swept_area(s, 0, k),
    decreases k,
{
    if k > 0 {
        lemma_path_prefix(s, k - 1);
    }
}

proof fn lemma_same_cross(a: Vertex, b: Vertex, c: Vertex)
    requires
        same_place(a, b),
    ensures
        cross(a.vx(), a.vy(), b.vx(), b.vy()) == 0,
        cross(a.vx(), a.vy(), c.vx(), c.vy()) == cross(b.vx(), b.vy(), c.vx(), c.vy()),
        cross(c.vx(), c.vy(), a.vx(), a.vy()) == cross(c.vx(), c.vy(), b.vx(), b.vy()),
{
    let (x, y) = (a.vx(), a.vy());
    assert(x * y - y * x == 0) by (nonlinear_arith);
}

proof fn lemma_few_points(s: Seq<Vertex>)
    requires
        s.len() < 3,
    ensures
        ring_area(s) == 0,
{
    reveal_with_fuel(swept_area, 4);
    if s.len() == 1 {
        lemma_same_cross(s[0], s[0], s[0]);
    } else if s.len() == 2 {
        lemma_edge_back(s[0], s[1]);
    }
}

/// Whether the points of `d` are those of `s` without repeats: `d[k]` stands for
/// the points from `at[k]` up to the next.
pub open spec fn stands_for(s: Seq<Vertex>, d: Seq<Vertex>, at: Seq<int>) -> bool {
    &&& at.len() == d.len()
    &&& d.len() > 0 <==> s.len() > 0
    &&& d.len() > 0 ==> at[0] == 0
    &&& forall|j: int, k: int| 0 <= j < k < at.len() ==> #[trigger] at[j] < #[trigger] at[k]
    &&& forall|k: int| 0 <= k < at.len() ==> 0 <= #[trigger] at[k] < s.len() && s[at[k]] == d[k]
    &&& forall|j: int| 0 <= j < s.len() ==> #[trigger] has_stand_in(s, d, at, j)
    &&& forall|k: int| 0 < k < d.len() ==> #[trigger] moves_on(d, k)
}

/// Whether point `j` of `s` is at the place of the last point of `d` before it.
pub open spec fn has_stand_in(s: Seq<Vertex>, d: Seq<Vertex>, at: Seq<int>, j: int) -> bool {
    exists|k: int| #[trigger] is_stand_in(s, d, at, j, k)
}

/// Whether point `k` of `d` stands for point `j` of `s`.
pub open spec fn is_stand_in(
    s: Seq<Vertex>,
    d: Seq<Vertex>,
    at: Seq<int>,
    j: int,
    k: int,
) -> bool {
    0 <= k < at.len() && at[k] <= j && (k + 1 < at.len() ==> j < at[k + 1]) && same_place(
        s[j],
        d[k],
    )
}

/// Whether a point is at another place than the one before.
pub open spec fn moves_on(d: Seq<Vertex>, k: int) -> bool {
    !same_place(d[k - 1], d[k])
}

/// Whether `p` is a ring without repeats: the points of `s`, each place once
/// until it is left, a last return to the first place left out.
pub open spec fn is_tidied(s: Seq<Vertex>, p: Seq<Vertex>) -> bool {
    exists|d: Seq<Vertex>, at: Seq<int>| #[trigger]
        stands_for(s, d, at) && (p == d && !same_place(p[0], p.last()) || (d.len() > 1 && same_place(
            d[0],
            d.last(),
        ) && p == d.drop_last()))
}

proof fn lemma_same_path(s: Seq<Vertex>)
    requires
        s.len() > 0,
    ensures
        without_repeats(s).len() > 0,
        same_place(s.last(), without_repeats(s).last()),
        s[0] == without_repeats(s)[0],
        swept_area(s, 0, s.len() - 1) == swept_area(
            without_repeats(s),
            0,
            without_repeats(s).len() - 1,
        ),
    decreases s.len(),
{
    let b = s.drop_last();
    let d0 = without_repeats(b);
    let d = without_repeats(s);
    let n = s.len() as int;
    if n > 1 {
        lemma_same_path(b);
        lemma_path_prefix(s, n - 2);
        let last = cross(s[n - 2].vx(), s[n - 2].vy(), s[n - 1].vx(), s[n - 1].vy());
        assert(swept_area(s, 0, n - 1) == swept_area(s, 0, n - 2) + last);
        if same_place(d0.last(), s.last()) {
            lemma_same_cross(s[n - 2], s[n - 1], s[0]);
        } else {
            let m = d.len() as int;
            assert(d.drop_last() =~= d0);
            lemma_path_prefix(d, m - 2);
            lemma_same_cross(s[n - 2], d0.last(), s[n - 1]);
            assert(d[m - 2] == d0.last() && d[m - 1] == s[n - 1]);
            assert(swept_area(d, 0, m - 1) == swept_area(d, 0, m - 2) + cross(
                d[m - 2].vx(),
                d[m - 2].vy(),
                d[m - 1].vx(),
                d[m - 1].vy(),
            ));
        }
    } else {
        assert(b.len() == 0);
        assert(d =~= seq![s[0]]);
    }
}

proof fn lemma_stands_for(s: Seq<Vertex>) -> (at: Seq<int>)
    ensures
        stands_for(s, without_repeats(s), at),
    decreases s.len(),
{
    if s.len() == 0 {
        Seq::empty()
    } else {
        lemma_same_path(s);
        let b = s.drop_last();
        let before = lemma_stands_for(b);
        let d0 = without_repeats(b);
        let d = without_repeats(s);
        let n = s.len() as int;
        if d0.len() > 0 && same_place(d0.last(), s.last()) {
            lemma_stand_repeated(s, d, before);
            before
        } else {
            lemma_stand_added(s, d0, before);
            assert(d == d0.push(s.last()));
            before.push(n - 1)
        }
    }
}

proof fn lemma_stand_repeated(s: Seq<Vertex>, d: Seq<Vertex>, at: Seq<int>)
    requires
        s.len() > 0,
        stands_for(s.drop_last(), d, at),
        d.len() > 0,
        same_place(d.last(), s.last()),
    ensures
        stands_for(s, d, at),
{
    let b = s.drop_last();
    let n = s.len() as int;
    assert forall|j: int| 0 <= j < n implies #[trigger] has_stand_in(s, d, at, j) by {
        if j < n - 1 {
            assert(has_stand_in(b, d, at, j));
            let k = choose|k: int| #[trigger] is_stand_in(b, d, at, j, k);
            assert(is_stand_in(s, d, at, j, k));
        } else {
            let k = at.len() - 1;
            assert(0 <= at[k] < b.len());
            assert(is_stand_in(s, d, at, j, k));
        }
    }
    assert forall|k: int| 0 <= k < at.len() implies 0 <= #[trigger] at[k] < s.len() && s[at[k]]
        == d[k] by {
        assert(b[at[k]] == d[k]);
    }
}

proof fn lemma_stand_added(s: Seq<Vertex>, d0: Seq<Vertex>, before: Seq<int>)
    requires
        s.len() > 0,
        stands_for(s.drop_last(), d0, before),
        d0.len() == 0 || !same_place(d0.last(), s.last()),
    ensures
        stands_for(s, d0.push(s.last()), before.push(s.len() - 1)),
{
    let b = s.drop_last();
    let n = s.len() as int;
    let (d, at) = (d0.push(s.last()), before.push(n - 1));
    assert forall|j: int| 0 <= j < n implies #[trigger] has_stand_in(s, d, at, j) by {
        if j < n - 1 {
            assert(has_stand_in(b, d0, before, j));
            let k = choose|k: int| #[trigger] is_stand_in(b, d0, before, j, k);
            assert(is_stand_in(s, d, at, j, k));
        } else {
            assert(is_stand_in(s, d, at, j, at.len() - 1));
        }
    }
    assert forall|k: int| 0 <= k < at.len() implies 0 <= #[trigger] at[k] < s.len() && s[at[k]]
        == d[k] by {
        if k < before.len() {
            assert(at[k] == before[k]);
            assert(0 <= before[k] < b.len() && b[before[k]] == d0[k]);
        }
    }
    assert forall|j: int, k: int| 0 <= j < k < at.len() implies #[trigger] at[j]
        < #[trigger] at[k] by {
        assert(at[j] == before[j]);
        assert(0 <= before[j] < b.len());
        if k < before.len() {
            assert(at[k] == before[k]);
        }
    }
    assert forall|k: int| 0 < k < d.len() implies #[trigger] moves_on(d, k) by {
        if k < d0.len() {
            assert(moves_on(d0, k));
        }
    }
    if d0.len() > 0 {
        assert(at[0] == before[0]);
    }
}

/// A ring is tidied without a change of its area; nothing is left where it has
/// none.
pub proof fn tidying_keeps_the_area(s: Seq<Vertex>)
    ensures
        ring_area(unclosed(without_repeats(s))) == ring_area(s),
        s.len() > 0 && unclosed(without_repeats(s)).len() > 1 ==> is_tidied(
            s,
            unclosed(without_repeats(s)),
        ),
{
    if s.len() > 0 {
        let at = lemma_stands_for(s);
        lemma_same_path(s);
        let d = without_repeats(s);
        lemma_ring_path(s);
        lemma_ring_path(d);
        lemma_same_cross(s.last(), d.last(), s[0]);
        lemma_same_cross(s[0], d[0], d.last());
        let n = d.len() as int;
        if n > 1 && same_place(d.first(), d.last()) {
            let p = d.drop_last();
            lemma_path_prefix(d, n - 2);
            lemma_ring_path(p);
            lemma_same_cross(d.last(), d[0], d[n - 2]);
            assert(moves_on(d, n - 1));
            assert(unclosed(p) == p);
        }
    }
}

/// A ring is degenerate exactly where it has no area.
pub proof fn rings_without_area_are_degenerate(s: Seq<Vertex>, kind: RingKind)
    ensures
        normalized(s, kind) is None <==> ring_area(s) == 0,
        normalized(s, kind) matches Some(p) ==> p.len() >= 3 && (is_tidied(s, p) || is_tidied(
            s,
            p.reverse(),
        )),
        normalized(s, kind) matches Some(p) ==> match kind {
            RingKind::Perimeter => ring_area(p) > 0,
            RingKind::Hole => ring_area(p) < 0,
        },
{
    tidying_keeps_the_area(s);
    let d = unclosed(without_repeats(s));
    if d.len() < 3 {
        lemma_few_points(d);
    }
    if normalized(s, kind) is Some {
        normalized_rings_run_their_way(s, kind);
        assert(d.reverse().reverse() =~= d);
        if s.len() == 0 {
            assert(d.len() == 0);
        }
    }
}

/// Whether a ring is more than twice `inset` wide and more than twice `inset`
/// high.
pub open spec fn is_roomy(s: Seq<Vertex>, inset: u64) -> bool {
    &&& exists|i: int, j: int|
        0 <= i < s.len() && 0 <= j < s.len() && (#[trigger] s[i]).vx() - (#[trigger] s[j]).vx() > 2
            * value(inset)
    &&& exists|i: int, j: int|
        0 <= i < s.len() && 0 <= j < s.len() && (#[trigger] s[i]).vy() - (#[trigger] s[j]).vy() > 2
            * value(inset)
}

/// Whether a ring is built from: it has an area, and it is a hole, or is not
/// pushed at all, or has room left when it is.
pub open spec fn is_to_stay(ring: InsetRing, inset: u64) -> bool {
    &&& ring_area(ring.points@) != 0
    &&& match ring.kind {
        RingKind::Hole => true,
        RingKind::Perimeter => value(inset) <= 0 || is_roomy(ring.points@, inset),
    }
}

/// Whether a planned ring is ring `i` in its natural direction.
pub open spec fn is_planned_from(ring: InsetRing, out: PlannedRing) -> bool {
    &&& out.kind == ring.kind
    &&& out.marker == ring.marker
    &&& out.points@.len() >= 3
    &&& is_tidied(ring.points@, out.points@) || is_tidied(ring.points@, out.points@.reverse())
    &&& match ring.kind {
        RingKind::Perimeter => ring_area(out.points@) > 0,
        RingKind::Hole => ring_area(out.points@) < 0,
    }
}

/// Whether a plan consists of the rings that stay, in their order: `from` says
/// which.
pub open spec fn is_plan(
    rings: Seq<InsetRing>,
    inset: u64,
    out: Seq<PlannedRing>,
    from: Seq<int>,
) -> bool {
    &&& from.len() == out.len()
    &&& forall|j: int, k: int| 0 <= j < k < from.len() ==> #[trigger] from[j] < #[trigger] from[k]
    &&& forall|k: int|
        0 <= k < from.len() ==> 0 <= #[trigger] from[k] < rings.len() && is_planned_from(
            rings[from[k]],
            out[k],
        )
    &&& forall|i: int|
        0 <= i < rings.len() ==> (#[trigger] from.contains(i) <==> is_to_stay(rings[i], inset))
}

/// Whether the rings without area are listed, in their order.
pub open spec fn lists_degenerate(rings: Seq<InsetRing>, skipped: Seq<(usize, RingKind)>) -> bool {
    &&& forall|j: int, k: int|
        0 <= j < k < skipped.len() ==> (#[trigger] skipped[j]).0 < (#[trigger] skipped[k]).0
    &&& forall|k: int|
        0 <= k < skipped.len() ==> (#[trigger] skipped[k]).0 < rings.len() && skipped[k].1
            == rings[skipped[k].0 as int].kind
    &&& forall|i: int|
        0 <= i < rings.len() ==> (is_skipped(skipped, i) <==> ring_area(
            (#[trigger] rings[i]).points@,
        ) == 0)
}

/// Whether ring `i` is listed.
pub open spec fn is_skipped(skipped: Seq<(usize, RingKind)>, i: int) -> bool {
    exists|k: int| 0 <= k < skipped.len() && (#[trigger] skipped[k]).0 == i
}

proof fn lemma_place_kept(s: Seq<Vertex>, p: Seq<Vertex>, j: int) -> (k: int)
    requires
        is_tidied(s, p),
        0 <= j < s.len(),
    ensures
        0 <= k < p.len(),
        same_place(s[j], p[k]),
{
    let (d, at) = choose|d: Seq<Vertex>, at: Seq<int>| #[trigger]
        stands_for(s, d, at) && (p == d && !same_place(p[0], p.last()) || (d.len() > 1 && same_place(
            d[0],
            d.last(),
        ) && p == d.drop_last()));
    assert(has_stand_in(s, d, at, j));
    let k = choose|k: int| #[trigger] is_stand_in(s, d, at, j, k);
    if k < p.len() {
        k
    } else {
        0
    }
}

proof fn lemma_place_given(s: Seq<Vertex>, p: Seq<Vertex>, k: int) -> (j: int)
    requires
        is_tidied(s, p),
        0 <= k < p.len(),
    ensures
        0 <= j < s.len(),
        s[j] == p[k],
{
    let (d, at) = choose|d: Seq<Vertex>, at: Seq<int>| #[trigger]
        stands_for(s, d, at) && (p == d && !same_place(p[0], p.last()) || (d.len() > 1 && same_place(
            d[0],
            d.last(),
        ) && p == d.drop_last()));
    assert(0 <= at[k] < s.len() && s[at[k]] == d[k]);
    at[k]
}

/// A tidied ring is as wide and as high as the ring that it comes of.
proof fn lemma_roomy(s: Seq<Vertex>, p: Seq<Vertex>, inset: u64)
    requires
        is_tidied(s, p) || is_tidied(s, p.reverse()),
    ensures
        is_roomy(s, inset) == !narrow(p, inset),
{
    let q = if is_tidied(s, p) {
        p
    } else {
        p.reverse()
    };
    let flip = |k: int| if is_tidied(s, p) {
        k
    } else {
        p.len() - 1 - k
    };
    if is_roomy(s, inset) {
        let (i, j) = choose|i: int, j: int|
            0 <= i < s.len() && 0 <= j < s.len() && (#[trigger] s[i]).vx() - (#[trigger] s[j]).vx()
                > 2 * value(inset);
        let (a, b) = (lemma_place_kept(s, q, i), lemma_place_kept(s, q, j));
        assert(p[flip(a)] == q[a] && p[flip(b)] == q[b]);
        assert(p[flip(a)].vx() - p[flip(b)].vx() > 2 * value(inset));
        let (i, j) = choose|i: int, j: int|
            0 <= i < s.len() && 0 <= j < s.len() && (#[trigger] s[i]).vy() - (#[trigger] s[j]).vy()
                > 2 * value(inset);
        let (a, b) = (lemma_place_kept(s, q, i), lemma_place_kept(s, q, j));
        assert(p[flip(a)] == q[a] && p[flip(b)] == q[b]);
        assert(p[flip(a)].vy() - p[flip(b)].vy() > 2 * value(inset));
    }
    if !narrow(p, inset) {
        let (i, j) = choose|i: int, j: int|
            0 <= i < p.len() && 0 <= j < p.len() && (#[trigger] p[i]).vx() - (#[trigger] p[j]).vx()
                > 2 * value(inset);
        assert(q[flip(i)] == p[i] && q[flip(j)] == p[j]);
        let (a, b) = (lemma_place_given(s, q, flip(i)), lemma_place_given(s, q, flip(j)));
        assert(s[a].vx() - s[b].vx() > 2 * value(inset));
        let (i, j) = choose|i: int, j: int|
            0 <= i < p.len() && 0 <= j < p.len() && (#[trigger] p[i]).vy() - (#[trigger] p[j]).vy()
                > 2 * value(inset);
        assert(q[flip(i)] == p[i] && q[flip(j)] == p[j]);
        let (a, b) = (lemma_place_given(s, q, flip(i)), lemma_place_given(s, q, flip(j)));
        assert(s[a].vy() - s[b].vy() > 2 * value(inset));
    }
}

proof fn lemma_stays(ring: InsetRing, inset: u64)
    ensures
        is_to_stay(ring, inset) <==> (normalized(ring.points@, ring.kind) matches Some(s)
            && !eroded_away(s, ring.kind, inset)),
{
    rings_without_area_are_degenerate(ring.points@, ring.kind);
    if let Some(p) = normalized(ring.points@, ring.kind) {
        lemma_roomy(ring.points@, p, inset);
    }
}

/// The places of the kept rings.
proof fn lemma_kept_places(rings: Seq<InsetRing>, inset: u64, n: nat)
    requires
        n <= rings.len(),
    ensures
        ({
            let kept = kept_rings(rings, inset, n);
            &&& forall|k: int|
                0 <= k < kept.len() ==> 0 <= (#[trigger] kept[k]).0 < n && normalized(
                    rings[kept[k].0].points@,
                    rings[kept[k].0].kind,
                ) == Some(kept[k].1)
            &&& forall|j: int, k: int|
                0 <= j < k < kept.len() ==> (#[trigger] kept[j]).0 < (#[trigger] kept[k]).0
            &&& forall|i: int|
                0 <= i < n ==> (is_kept(kept, i) <==> is_to_stay(#[trigger] rings[i], inset))
        }),
    decreases n,
{
    if n > 0 {
        lemma_kept_places(rings, inset, (n - 1) as nat);
        let before = kept_rings(rings, inset, (n - 1) as nat);
        let kept = kept_rings(rings, inset, n);
        lemma_stays(rings[n - 1], inset);
        assert forall|i: int| 0 <= i < n implies (is_kept(kept, i) <==> is_to_stay(
            #[trigger] rings[i],
            inset,
        )) by {
            if is_kept(before, i) {
                let k = choose|k: int| 0 <= k < before.len() && (#[trigger] before[k]).0 == i;
                assert(kept[k] == before[k]);
                assert(kept[k].0 == i);
            }
            if is_kept(kept, i) {
                let k = choose|k: int| 0 <= k < kept.len() && (#[trigger] kept[k]).0 == i;
                if k < before.len() {
                    assert(before[k] == kept[k]);
                    assert(before[k].0 == i);
                }
            }
            if i == n - 1 && is_to_stay(rings[i], inset) {
                assert(kept[kept.len() - 1].0 == i);
            }
        }
    }
}

spec fn is_kept(kept: Seq<(int, Seq<Vertex>)>, i: int) -> bool {
    exists|k: int| 0 <= k < kept.len() && (#[trigger] kept[k]).0 == i
}

/// A plan has every ring with an area, in its natural direction and in order, but
/// for the perimeters that are at most twice the inset wide or high. Holes stay,
/// whatever the inset.
pub proof fn only_perimeters_are_eroded(
    rings: Seq<InsetRing>,
    inset: u64,
    out: Seq<PlannedRing>,
) -> (from: Seq<int>)
    requires
        planned(out, rings, kept_rings(rings, inset, rings.len())),
    ensures
        is_plan(rings, inset, out, from),
{
    let kept = kept_rings(rings, inset, rings.len());
    lemma_kept_places(rings, inset, rings.len());
    let from = Seq::new(kept.len(), |k: int| kept[k].0);
    assert forall|k: int| 0 <= k < from.len() implies 0 <= #[trigger] from[k] < rings.len()
        && is_planned_from(rings[from[k]], out[k]) by {
        let ring = rings[kept[k].0];
        assert(out[k].points@ == kept[k].1);
        rings_without_area_are_degenerate(ring.points@, ring.kind);
    }
    assert forall|i: int| 0 <= i < rings.len() implies (#[trigger] from.contains(i) <==> is_to_stay(
        rings[i],
        inset,
    )) by {
        if from.contains(i) {
            let k = choose|k: int| 0 <= k < from.len() && from[k] == i;
            assert(kept[k].0 == i);
        }
        if is_kept(kept, i) {
            let k = choose|k: int| 0 <= k < kept.len() && (#[trigger] kept[k]).0 == i;
            assert(from[k] == i);
        }
    }
    from
}

proof fn lemma_skipped_places(rings: Seq<InsetRing>, n: nat)
    requires
        n <= rings.len() <= usize::MAX,
    ensures
        ({
            let skipped = skipped_rings(rings, n);
            &&& forall|j: int, k: int|
                0 <= j < k < skipped.len() ==> (#[trigger] skipped[j]).0 < (#[trigger] skipped[k]).0
            &&& forall|k: int|
                0 <= k < skipped.len() ==> (#[trigger] skipped[k]).0 < n && skipped[k].1
                    == rings[skipped[k].0 as int].kind
            &&& forall|i: int|
                0 <= i < n ==> (is_skipped(skipped, i) <==> ring_area(
                    (#[trigger] rings[i]).points@,
                ) == 0)
        }),
    decreases n,
{
    if n > 0 {
        lemma_skipped_places(rings, (n - 1) as nat);
        let before = skipped_rings(rings, (n - 1) as nat);
        let skipped = skipped_rings(rings, n);
        let ring = rings[n - 1];
        rings_without_area_are_degenerate(ring.points@, ring.kind);
        assert forall|i: int| 0 <= i < n implies (is_skipped(skipped, i) <==> ring_area(
            (#[trigger] rings[i]).points@,
        ) == 0) by {
            if is_skipped(before, i) {
                let k = choose|k: int| 0 <= k < before.len() && (#[trigger] before[k]).0 == i;
                assert(skipped[k] == before[k]);
                assert(skipped[k].0 == i);
            }
            if is_skipped(skipped, i) {
                let k = choose|k: int| 0 <= k < skipped.len() && (#[trigger] skipped[k]).0 == i;
                if k < before.len() {
                    assert(before[k] == skipped[k]);
                    assert(before[k].0 == i);
                }
            }
            if i == n - 1 && ring_area(ring.points@) == 0 {
                assert(skipped[skipped.len() - 1].0 == i);
            }
        }
    }
}

/// The rings listed as degenerate are those without area.
pub proof fn degenerate_rings_are_listed(rings: Seq<InsetRing>)
    requires
        rings.len() <= usize::MAX,
    ensures
        lists_degenerate(rings, skipped_rings(rings, rings.len())),
{
    lemma_skipped_places(rings, rings.len());
}

// --- Plans ------------------------------------------------------------------

fn make_plan(rings: &Vec<InsetRing>, inset: u64) -> (r: Result<InsetPlan, InsetError>)
    ensures
        !(finite(inset) && value(inset) >= 0) ==> r == Err::<InsetPlan, InsetError>(
            InsetError::InvalidInset { bits: inset },
        ),
        finite(inset) && value(inset) >= 0 ==> {
            let sound = forall|i: int|
                0 <= i < rings@.len() ==> all_finite((#[trigger] rings@[i]).points@);
            &&& !sound ==> r == Err::<InsetPlan, InsetError>(InsetError::NonFiniteVertex)
            &&& sound ==> (r matches Ok(plan) && planned(
                plan.rings@,
                rings@,
                kept_rings(rings@, inset, rings@.len()),
            ) && plan.skipped@ == skipped_rings(rings@, rings@.len()))
        },
{
    proof {
        lemma_zero_value();
    }
    if exponent_of(inset) == 0x7ff || coord_less(inset, 0) {
        return Err(InsetError::InvalidInset { bits: inset });
    }
    let mut i: usize = 0;
    while i < rings.len()
        invariant
            i <= rings@.len(),
            finite(inset) && value(inset) >= 0,
            forall|k: int| 0 <= k < i ==> all_finite((#[trigger] rings@[k]).points@),
        decreases rings.len() - i,
    {
        if !is_finite_ring(&rings[i].points) {
            assert(!all_finite(rings@[i as int].points@));
            return Err(InsetError::NonFiniteVertex);
        }
        i += 1;
    }
    let mut out: Vec<PlannedRing> = Vec::new();
    let mut skipped: Vec<(usize, RingKind)> = Vec::new();
    let pushed = coord_less(0, inset);
    let mut k: usize = 0;
    while k < rings.len()
        invariant
            k <= rings@.len(),
            pushed == (value(inset) > 0),
            planned(out@, rings@, kept_rings(rings@, inset, k as nat)),
            skipped@ == skipped_rings(rings@, k as nat),
        decreases rings.len() - k,
    {
        let ring = &rings[k];
        match normalize_ring(ring) {
            None => {
                skipped.push((k, ring.kind));
            },
            Some(points) => {
                let perimeter = match ring.kind {
                    RingKind::Perimeter => true,
                    RingKind::Hole => false,
                };
                if !(perimeter && pushed && is_narrow(&points, inset)) {
                    out.push(PlannedRing { points, kind: ring.kind, marker: ring.marker });
                }
            },
        }
        k += 1;
    }
    Ok(InsetPlan { rings: out, skipped })
}

/// Normalize the rings of a scene that is to be pushed inward by `inset`, a
/// number given by its bits.
///
/// Degenerate rings are dropped and listed. Perimeters that are certain to
/// vanish are dropped without mention.
pub fn plan_inset(rings: &Vec<InsetRing>, inset: u64) -> (r: Result<InsetPlan, InsetError>)
    ensures
        !(finite(inset) && value(inset) >= 0) ==> r == Err::<InsetPlan, InsetError>(
            InsetError::InvalidInset { bits: inset },
        ),
        finite(inset) && value(inset) >= 0 ==> {
            let sound = forall|i: int|
                0 <= i < rings@.len() ==> all_finite((#[trigger] rings@[i]).points@);
            &&& !sound ==> r == Err::<InsetPlan, InsetError>(InsetError::NonFiniteVertex)
            &&& sound ==> (r matches Ok(plan) && planned(
                plan.rings@,
                rings@,
                kept_rings(rings@, inset, rings@.len()),
            ) && plan.skipped@ == skipped_rings(rings@, rings@.len()))
        },
        r matches Ok(plan) ==> exists|from: Seq<int>| #[trigger]
            is_plan(rings@, inset, plan.rings@, from),
        r matches Ok(plan) ==> lists_degenerate(rings@, plan.skipped@),
{
    let r = make_plan(rings, inset);
    proof {
        if r is Ok {
            let out = r->Ok_0.rings@;
            let from = only_perimeters_are_eroded(rings@, inset, out);
            assert(is_plan(rings@, inset, out, from));
            assert(rings@.len() <= usize::MAX) by {
                assert(rings.len() <= usize::MAX);
            }
            degenerate_rings_are_listed(rings@);
        }
    }
    r
}

proof fn lemma_zero_value()
    ensures
        value(0) == 0,
{
    assert(crate::coord::significand(0) == 0);
    assert(0 * pow2(scale(0)) == 0) by (nonlinear_arith);
}

impl InsetPlan {
    /// Whether a perimeter is left. Without one nothing is walkable.
    pub fn walkable(&self) -> (r: bool)
        ensures
            r == exists|i: int|
                0 <= i < self.rings@.len() && (#[trigger] self.rings@[i]).kind
                    == RingKind::Perimeter,
    {
        let mut i: usize = 0;
        while i < self.rings.len()
            invariant
                i <= self.rings@.len(),
                forall|k: int|
                    0 <= k < i ==> (#[trigger] self.rings@[k]).kind != RingKind::Perimeter,
            decreases self.rings.len() - i,
        {
            if let RingKind::Perimeter = self.rings[i].kind {
                assert(self.rings@[i as int].kind == RingKind::Perimeter);
                return true;
            }
            i += 1;
        }
        false
    }
}

/// Whether a number given by its bits is positive, finite and normal.
pub open spec fn positive_normal(bits: u64) -> bool {
    value(bits) > 0 && 0 < crate::coord::exponent_field(bits) < 0x7ff
}

/// Accept a snap cell, or say that it is no positive normal number.
pub fn check_snap_cell(bits: u64) -> (r: Result<u64, InsetError>)
    ensures
        positive_normal(bits) ==> r == Ok::<u64, InsetError>(bits),
        !positive_normal(bits) ==> r == Err::<u64, InsetError>(
            InsetError::InvalidSnapCell { bits },
        ),
{
    proof {
        lemma_zero_value();
    }
    let e: u64 = exponent_of(bits);
    if coord_less(0, bits) && 0 < e && e < 0x7ff {
        Ok(bits)
    } else {
        Err(InsetError::InvalidSnapCell { bits })
    }
}

// --- Building ---------------------------------------------------------------

/// A carved triangulation, the contours it was culled by, and the degenerate
/// rings dropped on the way.
#[derive(Debug)]
pub struct InsetBuild {
    pub mesh: CdtMesh,
    pub soup: Vec<SoupContour>,
    pub skipped_rings: Vec<(usize, RingKind)>,
}

/// Whether a mesh holds no triangle and no subsegment, and the given points
/// as unmarked vertices.
pub open spec fn blank_with(m: MeshView, points: Seq<Vertex>) -> bool {
    &&& m.wf()
    &&& m.tri_count == 1
    &&& m.sub_count == 1
    &&& m.hull_size == 0
    &&& m.free_tris.len() == 0
    &&& m.free_subs.len() == 0
    &&& m.tflags == seq![0u8]
    &&& m.sflags == seq![0u8]
    &&& m.smark == seq![0i32]
    &&& forall|o: Otri| #[trigger]
        m.has(o) ==> m.nbr[o] == no_tri() && m.corner[o] == no_vertex() && m.tsub[o] == no_sub()
    &&& forall|s: Osub| #[trigger]
        m.has_sub(s) ==> m.stri[s] == no_tri() && m.snext[s] == no_sub() && m.svert[s]
            == no_vertex() && m.segvert[s] == no_vertex()
    &&& m.vertices =~= points.map_values(
        |p: Vertex|
            VertexSlot {
                position: p,
                marker: 0,
                vtype: VertexType::Input,
                triangle: EncodedTri(0),
            },
    )
}

/// Whether `list` holds each marker of the contours once, in order.
pub open spec fn lists_markers(list: Seq<i32>, soup: Seq<SoupContour>) -> bool {
    &&& ascending(list)
    &&& forall|k: int| 0 <= k < soup.len() ==> list.contains((#[trigger] soup[k]).marker)
    &&& forall|x: i32| #[trigger]
        list.contains(x) ==> exists|k: int|
            0 <= k < soup.len() && (#[trigger] soup[k]).marker == x
}

/// What comes of a triangulated mesh with the segments inserted, the outcome
/// being `r2`: the triangles outside the contours removed, the contours' own
/// segments dropped where both sides stay.
pub open spec fn culled_build(
    m2: MeshView,
    r2: Result<(), SegmentInsertError>,
    soup: Seq<SoupContour>,
    markers: Seq<i32>,
) -> Result<MeshView, InsetError> {
    match r2 {
        Err(error) => Err(InsetError::Segment { error }),
        Ok(_) => {
            let (m3, r3) = culled(m2, all_edges(soup));
            match r3 {
                Err(fault) => Err(InsetError::Mesh { fault }),
                Ok(_) => Ok(dropped(m3, markers, m3, 1, m3.sub_count).0),
            }
        },
    }
}

/// Whether `r` is what a build may give: `m0` is the mesh of the vertices,
/// `m1` its triangulation with outcome `r1`.
pub open spec fn is_inset_build(
    vertices: Seq<Vertex>,
    segments: Seq<PslgSegment>,
    soup: Seq<SoupContour>,
    r: Result<InsetBuild, InsetError>,
    m0: MeshView,
    m1: MeshView,
    r1: Result<u32, MeshFault>,
    markers: Seq<i32>,
) -> bool {
    &&& blank_with(m0, vertices)
    &&& exists|kept: Seq<VertexId>, ids: Seq<VertexId>| #[trigger]
        is_outcome(m0, m1, r1, kept, ids, true)
    &&& lists_markers(markers, soup)
    &&& match r1 {
        Err(fault) => r == Err::<InsetBuild, InsetError>(InsetError::Mesh { fault }),
        Ok(_) => exists|m2: MeshView, r2: Result<(), SegmentInsertError>| #[trigger]
            is_skeleton(m1, m2, r2, segments, None) && match culled_build(m2, r2, soup, markers) {
                Err(e) => r == Err::<InsetBuild, InsetError>(e),
                Ok(m) => r matches Ok(b) && b.mesh@ == m && b.soup@ == soup,
            },
    }
}

fn collect_markers(soup: &Vec<SoupContour>) -> (list: Vec<i32>)
    ensures
        lists_markers(list@, soup@),
{
    let mut list: Vec<i32> = Vec::new();
    let mut k: usize = 0;
    while k < soup.len()
        invariant
            k <= soup@.len(),
            ascending(list@),
            forall|j: int| 0 <= j < k ==> list@.contains((#[trigger] soup@[j]).marker),
            forall|i: int|
                0 <= i < list@.len() ==> exists|j: int|
                    0 <= j < soup@.len() && (#[trigger] soup@[j]).marker == #[trigger] list@[i],
        decreases soup.len() - k,
    {
        let marker: i32 = soup[k].marker;
        let mut at: usize = 0;
        while at < list.len() && list[at] < marker
            invariant
                at <= list@.len(),
                forall|i: int| 0 <= i < at ==> list@[i] < marker,
            decreases list.len() - at,
        {
            at += 1;
        }
        if at == list.len() || list[at] != marker {
            let ghost before = list@;
            list.insert(at, marker);
            proof {
                assert(list@[at as int] == marker);
                assert forall|j: int| 0 <= j < k implies list@.contains(
                    (#[trigger] soup@[j]).marker,
                ) by {
                    assert(before.contains(soup@[j].marker));
                    let i = choose|i: int| 0 <= i < before.len() && before[i] == soup@[j].marker;
                    if i < at {
                        assert(list@[i] == before[i]);
                    } else {
                        assert(list@[i + 1] == before[i]);
                    }
                }
                assert forall|i: int| 0 <= i < list@.len() implies exists|j: int|
                    0 <= j < soup@.len() && (#[trigger] soup@[j]).marker == #[trigger] list@[i] by {
                    if i < at {
                        assert(list@[i] == before[i]);
                    } else if i > at {
                        assert(list@[i] == before[i - 1]);
                    } else {
                        assert(soup@[k as int].marker == list@[i]);
                    }
                }
            }
        } else {
            assert(list@[at as int] == soup@[k as int].marker);
        }
        k += 1;
    }
    list
}

/// Triangulate the vertices and segments that the contours of `soup` came to,
/// and keep what the contours wind round.
pub fn finish_inset(
    vertices: &Vec<Vertex>,
    segments: Vec<PslgSegment>,
    soup: Vec<SoupContour>,
    skipped_rings: Vec<(usize, RingKind)>,
) -> (r: Result<InsetBuild, InsetError>)
    requires
        vertices@.len() <= u32::MAX,
        all_edges(soup@).len() <= i32::MAX,
    ensures
        vertices@.len() < 3 ==> r == Err::<InsetBuild, InsetError>(
            InsetError::Planarize { error: PlanarizeError::Degenerate },
        ),
        vertices@.len() >= 3 ==> exists|
            m0: MeshView,
            m1: MeshView,
            r1: Result<u32, MeshFault>,
            markers: Seq<i32>,
        | #[trigger]
            is_inset_build(vertices@, segments@, soup@, r, m0, m1, r1, markers),
        r matches Ok(b) ==> b.skipped_rings@ == skipped_rings@ && b.mesh@.wf(),
{
    if vertices.len() < 3 {
        return Err(InsetError::Planarize { error: PlanarizeError::Degenerate });
    }
    let markers = collect_markers(&soup);
    let mut mesh = CdtMesh::new();
    let mut i: usize = 0;
    while i < vertices.len()
        invariant
            i <= vertices@.len() <= u32::MAX,
            blank_with(mesh@, vertices@.take(i as int)),
        decreases vertices.len() - i,
    {
        let ghost before = mesh@;
        let _ = mesh.push_vertex(VertexSlot::new(vertices[i], 0));
        proof {
            assert(vertices@.take(i + 1) =~= vertices@.take(i as int).push(vertices@[i as int]));
            assert forall|o: Otri| #[trigger] mesh@.has(o) implies before.has(o) by {}
            assert forall|s: Osub| #[trigger] mesh@.has_sub(s) implies before.has_sub(s) by {}
        }
        i += 1;
    }
    let ghost m0 = mesh@;
    proof {
        assert(vertices@.take(i as int) =~= vertices@);
    }
    let built = delaunay(&mut mesh, DivConqOptions::default());
    let ghost m1 = mesh@;
    let ghost segs = segments@;
    if let Err(fault) = built {
        let r = Err(InsetError::Mesh { fault });
        assert(is_inset_build(vertices@, segs, soup@, r, m0, m1, built, markers@));
        return r;
    }
    let pslg = Pslg { vertices: Vec::new(), segments, holes: Vec::new() };
    let formed = form_skeleton(&mut mesh, &pslg, None);
    let ghost m2 = mesh@;
    assert(is_skeleton(m1, m2, formed, segs, None));
    if let Err(error) = formed {
        let r = Err(InsetError::Segment { error });
        assert(is_inset_build(vertices@, segs, soup@, r, m0, m1, built, markers@));
        return r;
    }
    if let Err(fault) = carve_by_winding(&mut mesh, &soup) {
        let r = Err(InsetError::Mesh { fault });
        assert(is_inset_build(vertices@, segs, soup@, r, m0, m1, built, markers@));
        return r;
    }
    let _ = drop_interior_constraints(&mut mesh, &markers);
    let r = Ok(InsetBuild { mesh, soup, skipped_rings });
    assert(is_inset_build(vertices@, segs, soup@, r, m0, m1, built, markers@));
    r
}

} // verus!
