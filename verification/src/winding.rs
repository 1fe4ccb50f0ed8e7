//! Winding numbers of closed contours, counted directly and through an index
//! of the edges by height.
//!
//! The point asked about is the exact centroid of three vertices; a plain
//! point is the centroid of itself taken three times.

use crate::bigint::BigInt;
use crate::coord::{
    coord_equal, coord_is_number, coord_key, coord_less, is_number, key, key_orders_values, scale,
    value,
};
use crate::holes::{cell, cell_of, lemma_cell_monotone};
use crate::plane::areas_add;
use crate::predicates::{
    big_diff, cross, lemma_cross_scaled, lemma_sgn_scaled, min_scale, orient, orient2d, orient_det,
    sgn, Vertex,
};
use vstd::arithmetic::power2::{lemma_pow2_pos, pow2};
use vstd::prelude::*;

verus! {

/// A closed contour and the marker that its edges carry.
#[derive(Clone, Debug, PartialEq)]
pub struct SoupContour {
    pub points: Vec<Vertex>,
    pub marker: i32,
}

/// A directed edge of a contour.
pub type Edge = (Vertex, Vertex);

/// The edges of one ring, in order, the closing edge last.
pub open spec fn ring_edges(points: Seq<Vertex>) -> Seq<Edge> {
    Seq::new(
        points.len(),
        |i: int| (points[i], points[if i + 1 == points.len() { 0 } else { i + 1 }]),
    )
}

/// The edges of the first `n` contours, in order.
pub open spec fn soup_edges(contours: Seq<SoupContour>, n: nat) -> Seq<Edge>
    decreases n,
{
    if n == 0 {
        Seq::empty()
    } else {
        soup_edges(contours, (n - 1) as nat) + ring_edges(contours[n - 1].points@)
    }
}

/// The edges of all contours.
pub open spec fn all_edges(contours: Seq<SoupContour>) -> Seq<Edge> {
    soup_edges(contours, contours.len())
}

/// Whether both coordinates of a vertex are numbers.
pub open spec fn is_place(v: Vertex) -> bool {
    is_number(v.x) && is_number(v.y)
}

/// Whether both coordinates of a vertex are numbers.
pub fn has_place(v: Vertex) -> (r: bool)
    ensures
        r == is_place(v),
{
    coord_is_number(v.x) && coord_is_number(v.y)
}

/// What the edge from `a` to `b` adds to the winding number about the point
/// `(sx / k, sy / k)`: one for an upward edge with the point strictly to its
/// left, minus one for a downward edge with the point strictly to its right.
/// An edge reaches from its lower end, counted in, to its upper end, left out.
/// An edge with an end that is no place adds nothing.
pub open spec fn crossing(a: Vertex, b: Vertex, k: int, sx: int, sy: int) -> int {
    let side = cross(k * a.vx() - sx, k * a.vy() - sy, k * b.vx() - sx, k * b.vy() - sy);
    if !is_place(a) || !is_place(b) {
        0
    } else if k * a.vy() <= sy {
        if k * b.vy() > sy && side > 0 {
            1
        } else {
            0
        }
    } else if k * b.vy() <= sy && side < 0 {
        -1
    } else {
        0
    }
}

/// The winding number of a list of edges about `(sx / k, sy / k)`.
pub open spec fn winding_about(edges: Seq<Edge>, k: int, sx: int, sy: int) -> int
    decreases edges.len(),
{
    if edges.len() == 0 {
        0
    } else {
        winding_about(edges.drop_last(), k, sx, sy) + crossing(
            edges.last().0,
            edges.last().1,
            k,
            sx,
            sy,
        )
    }
}

/// The winding number of a list of edges about the point `p`: none about what
/// is no place.
pub open spec fn winding_at(edges: Seq<Edge>, p: Vertex) -> int {
    if is_place(p) {
        winding_about(edges, 1, p.vx(), p.vy())
    } else {
        0
    }
}

/// The winding number of the contours about the point `p`.
pub open spec fn winding(contours: Seq<SoupContour>, p: Vertex) -> int {
    winding_at(all_edges(contours), p)
}

/// The winding number of a list of edges about the centroid of `a`, `b`, `c`.
pub open spec fn centroid_winding(edges: Seq<Edge>, a: Vertex, b: Vertex, c: Vertex) -> int {
    winding_about(edges, 3, a.vx() + b.vx() + c.vx(), a.vy() + b.vy() + c.vy())
}

proof fn lemma_winding_push(edges: Seq<Edge>, e: Edge, k: int, sx: int, sy: int)
    ensures
        winding_about(edges.push(e), k, sx, sy) == winding_about(edges, k, sx, sy) + crossing(
            e.0,
            e.1,
            k,
            sx,
            sy,
        ),
{
    assert(edges.push(e).drop_last() =~= edges);
}

proof fn lemma_winding_bound(edges: Seq<Edge>, k: int, sx: int, sy: int)
    ensures
        -edges.len() <= winding_about(edges, k, sx, sy) <= edges.len(),
    decreases edges.len(),
{
    if edges.len() > 0 {
        lemma_winding_bound(edges.drop_last(), k, sx, sy);
    }
}

proof fn lemma_soup_prefix(contours: Seq<SoupContour>, n: nat)
    requires
        n <= contours.len(),
    ensures
        soup_edges(contours, n).len() <= all_edges(contours).len(),
    decreases contours.len() - n,
{
    if n < contours.len() {
        lemma_soup_prefix(contours, n + 1);
    }
}

/// A point is the centroid of itself taken three times.
pub proof fn centroid_of_one_point(edges: Seq<Edge>, p: Vertex)
    ensures
        centroid_winding(edges, p, p, p) == winding_about(edges, 1, p.vx(), p.vy()),
    decreases edges.len(),
{
    if edges.len() > 0 {
        centroid_of_one_point(edges.drop_last(), p);
        let (a, b) = edges.last();
        let (ux, uy) = (a.vx() - p.vx(), a.vy() - p.vy());
        let (wx, wy) = (b.vx() - p.vx(), b.vy() - p.vy());
        lemma_cross_scaled(3, ux, uy, wx, wy);
        lemma_sgn_scaled(9, cross(ux, uy, wx, wy));
        assert(3 * ux == 3 * a.vx() - (p.vx() + p.vx() + p.vx()));
        assert(3 * uy == 3 * a.vy() - (p.vy() + p.vy() + p.vy()));
        assert(3 * wx == 3 * b.vx() - (p.vx() + p.vx() + p.vx()));
        assert(3 * wy == 3 * b.vy() - (p.vy() + p.vy() + p.vy()));
    }
}

/// One edge's share of the winding number about `p`.
fn edge_share(a: Vertex, b: Vertex, p: Vertex) -> (r: i32)
    ensures
        r == crossing(a, b, 1, p.vx(), p.vy()),
{
    if !has_place(a) || !has_place(b) {
        0
    } else if !coord_less(p.y, a.y) {
        if coord_less(p.y, b.y) && orient2d(a, b, p) > 0 {
            1
        } else {
            0
        }
    } else if !coord_less(p.y, b.y) && orient2d(a, b, p) < 0 {
        -1
    } else {
        0
    }
}

/// Signed winding number of `p` with respect to `contours`. A ray through a
/// vertex is never counted twice.
pub fn winding_number(p: Vertex, contours: &Vec<SoupContour>) -> (wn: i32)
    requires
        all_edges(contours@).len() <= i32::MAX,
    ensures
        wn == winding(contours@, p),
{
    if !has_place(p) {
        return 0;
    }
    let mut wn: i32 = 0;
    let mut ci: usize = 0;
    while ci < contours.len()
        invariant
            ci <= contours@.len(),
            all_edges(contours@).len() <= i32::MAX,
            wn == winding_about(soup_edges(contours@, ci as nat), 1, p.vx(), p.vy()),
        decreases contours@.len() - ci,
    {
        let ghost base = soup_edges(contours@, ci as nat);
        let ghost ring = ring_edges(contours@[ci as int].points@);
        proof {
            lemma_soup_prefix(contours@, (ci + 1) as nat);
            assert(base + ring.take(0) =~= base);
        }
        let n: usize = contours[ci].points.len();
        let mut i: usize = 0;
        while i < n
            invariant
                i <= n,
                ci < contours@.len(),
                n == contours@[ci as int].points@.len(),
                ring == ring_edges(contours@[ci as int].points@),
                (base + ring).len() <= i32::MAX,
                wn == winding_about(base + ring.take(i as int), 1, p.vx(), p.vy()),
            decreases n - i,
        {
            let a = contours[ci].points[i];
            let b = contours[ci].points[if i + 1 == n {
                0
            } else {
                i + 1
            }];
            proof {
                let so_far = base + ring.take(i as int);
                assert(base + ring.take(i + 1) =~= so_far.push((a, b)));
                lemma_winding_push(so_far, (a, b), 1, p.vx(), p.vy());
                lemma_winding_bound(so_far, 1, p.vx(), p.vy());
            }
            wn += edge_share(a, b, p);
            i += 1;
        }
        proof {
            assert(ring.take(n as int) =~= ring);
        }
        ci += 1;
    }
    wn
}

// --- Centroids --------------------------------------------------------------

/// `3 * y - (a + b + c)` in units of the coarsest common power of two.
fn triple_minus_sum(y: u64, a: u64, b: u64, c: u64, unit: u32) -> (r: BigInt)
    requires
        unit <= scale(y),
        unit <= scale(a),
        unit <= scale(b),
        unit <= scale(c),
    ensures
        3 * value(y) - (value(a) + value(b) + value(c)) == pow2(unit as nat) * r@,
        r.size() < 104,
{
    let da = big_diff(y, a, unit);
    let db = big_diff(y, b, unit);
    let dc = big_diff(y, c, unit);
    let ab = da.plus(&db);
    let r = ab.plus(&dc);
    proof {
        let p = pow2(unit as nat) as int;
        let (s, t, u) = (da@, db@, dc@);
        assert(p * s + p * t + p * u == p * (s + t + u)) by (nonlinear_arith);
    }
    r
}

fn min_scale4(a: u64, b: u64, c: u64, d: u64) -> (r: u32)
    ensures
        r <= scale(a),
        r <= scale(b),
        r <= scale(c),
        r <= scale(d),
{
    let p = Vertex { x: a, y: b };
    let q = Vertex { x: c, y: d };
    min_scale(min_scale(2048, p), q)
}

/// Sign of `3 * y - (a + b + c)`.
fn against_mean(y: u64, a: u64, b: u64, c: u64) -> (r: i32)
    ensures
        r == sgn(3 * value(y) - (value(a) + value(b) + value(c))),
{
    let unit: u32 = min_scale4(y, a, b, c);
    let d = triple_minus_sum(y, a, b, c, unit);
    proof {
        lemma_pow2_pos(unit as nat);
        lemma_sgn_scaled(pow2(unit as nat) as int, d@);
    }
    d.sign()
}

/// The bit pattern with a given key.
fn bits_of_key(k: i64) -> (r: u64)
    requires
        k > i64::MIN,
    ensures
        key(r) == k,
{
    if k < 0 {
        0x8000_0000_0000_0000 + (-k) as u64
    } else {
        k as u64
    }
}

/// The key of the greatest coordinate that is no greater than the mean of
/// three.
fn mean_floor(a: u64, b: u64, c: u64) -> (g: i64)
    ensures
        forall|y: u64|
            #![trigger key(y)]
            3 * value(y) <= value(a) + value(b) + value(c) <==> key(y) <= g,
        g > i64::MIN,
{
    let (ka, kb, kc) = (coord_key(a), coord_key(b), coord_key(c));
    let mut lo: i64 = if ka < kb {
        ka
    } else {
        kb
    };
    if kc < lo {
        lo = kc;
    }
    let mut hi: i64 = if ka > kb {
        ka
    } else {
        kb
    };
    if kc > hi {
        hi = kc;
    }
    let low_bits: u64 = bits_of_key(lo);
    let high_bits: u64 = bits_of_key(hi);
    let ghost sum = value(a) + value(b) + value(c);
    proof {
        key_orders_values(low_bits, a);
        key_orders_values(low_bits, b);
        key_orders_values(low_bits, c);
        key_orders_values(high_bits, a);
        key_orders_values(high_bits, b);
        key_orders_values(high_bits, c);
    }
    if against_mean(high_bits, a, b, c) <= 0 {
        proof {
            assert forall|y: u64|
                #![trigger key(y)]
                3 * value(y) <= sum <==> key(y) <= hi by {
                key_orders_values(y, high_bits);
            }
        }
        return hi;
    }
    let ghost mut lo_bits = low_bits;
    let ghost mut hi_bits = high_bits;
    while hi - 1 > lo
        invariant
            i64::MIN < lo < hi,
            hi >= 0 ==> lo >= -0x7fff_ffff_ffff_ffff,
            key(lo_bits) == lo,
            key(hi_bits) == hi,
            3 * value(lo_bits) <= sum,
            3 * value(hi_bits) > sum,
            sum == value(a) + value(b) + value(c),
        decreases hi - lo,
    {
        let mid: i64 = ((lo as i128 + hi as i128) / 2) as i64;
        let mid_fixed: i64 = if mid <= lo {
            lo + 1
        } else if mid >= hi {
            hi - 1
        } else {
            mid
        };
        let bits: u64 = bits_of_key(mid_fixed);
        if against_mean(bits, a, b, c) <= 0 {
            lo = mid_fixed;
            proof {
                lo_bits = bits;
            }
        } else {
            hi = mid_fixed;
            proof {
                hi_bits = bits;
            }
        }
    }
    proof {
        assert forall|y: u64|
            #![trigger key(y)]
            3 * value(y) <= sum <==> key(y) <= lo by {
            key_orders_values(y, lo_bits);
            key_orders_values(y, hi_bits);
        }
    }
    lo
}

/// Sign of the side of the edge `p -> q` on which the centroid of `a`, `b`,
/// `c` lies.
fn centroid_side(p: Vertex, q: Vertex, a: Vertex, b: Vertex, c: Vertex) -> (r: i32)
    ensures
        ({
            let (sx, sy) = (a.vx() + b.vx() + c.vx(), a.vy() + b.vy() + c.vy());
            r == sgn(
                cross(
                    3 * p.vx() - sx,
                    3 * p.vy() - sy,
                    3 * q.vx() - sx,
                    3 * q.vy() - sy,
                ),
            )
        }),
{
    let unit: u32 = min_scale(
        min_scale(min_scale(min_scale(min_scale(2048, p), q), a), b),
        c,
    );
    let ux = triple_minus_sum(p.x, a.x, b.x, c.x, unit);
    let uy = triple_minus_sum(p.y, a.y, b.y, c.y, unit);
    let wx = triple_minus_sum(q.x, a.x, b.x, c.x, unit);
    let wy = triple_minus_sum(q.y, a.y, b.y, c.y, unit);
    let s = ux.times(&wy);
    let t = uy.times(&wx);
    let det = s.minus(&t);
    proof {
        let k = pow2(unit as nat) as int;
        lemma_pow2_pos(unit as nat);
        lemma_cross_scaled(k, ux@, uy@, wx@, wy@);
        assert(k * k > 0) by (nonlinear_arith)
            requires
                k > 0,
        ;
        lemma_sgn_scaled(k * k, det@);
    }
    det.sign()
}

// --- The index --------------------------------------------------------------

/// Number of index entries above which the index is made coarser.
pub const ITEM_BUDGET: u64 = 0x80_0000;

/// Key of the lower end of an edge.
pub open spec fn low_key(e: Edge) -> int {
    if key(e.0.y) <= key(e.1.y) {
        key(e.0.y)
    } else {
        key(e.1.y)
    }
}

/// Key of the upper end of an edge.
pub open spec fn high_key(e: Edge) -> int {
    if key(e.0.y) <= key(e.1.y) {
        key(e.1.y)
    } else {
        key(e.0.y)
    }
}

/// Whether an edge reaches into bucket `b` of `nb` buckets over `y0..=y1`.
pub open spec fn in_bucket(e: Edge, b: int, y0: int, y1: int, nb: int) -> bool {
    cell(low_key(e), y0, y1, nb) <= b <= cell(high_key(e), y0, y1, nb)
}

/// The numbers, ascending, of the first `n` edges that reach into bucket `b`.
pub open spec fn bucket_list(edges: Seq<Edge>, n: nat, b: int, y0: int, y1: int, nb: int) -> Seq<
    usize,
>
    decreases n,
{
    if n == 0 {
        Seq::empty()
    } else {
        let before = bucket_list(edges, (n - 1) as nat, b, y0, y1, nb);
        if in_bucket(edges[n - 1], b, y0, y1, nb) {
            before.push((n - 1) as usize)
        } else {
            before
        }
    }
}

/// Edges of a contour soup sorted by height into buckets: bucket `b` is
/// `items[starts[b]..starts[b + 1]]`.
pub struct WindingIndex {
    edges: Vec<Edge>,
    y0: i64,
    y1: i64,
    nb: usize,
    starts: Vec<usize>,
    items: Vec<usize>,
}

/// The edges that can be crossed at all: those that are not horizontal.
pub open spec fn sloped(edges: Seq<Edge>) -> Seq<Edge>
    decreases edges.len(),
{
    if edges.len() == 0 {
        Seq::empty()
    } else {
        let before = sloped(edges.drop_last());
        if edges.last().0.vy() == edges.last().1.vy() {
            before
        } else {
            before.push(edges.last())
        }
    }
}

proof fn lemma_sloped_winding(edges: Seq<Edge>, k: int, sx: int, sy: int)
    requires
        k > 0,
    ensures
        winding_about(sloped(edges), k, sx, sy) == winding_about(edges, k, sx, sy),
        sloped(edges).len() <= edges.len(),
    decreases edges.len(),
{
    if edges.len() > 0 {
        lemma_sloped_winding(edges.drop_last(), k, sx, sy);
        let e = edges.last();
        if e.0.vy() != e.1.vy() {
            lemma_winding_push(sloped(edges.drop_last()), e, k, sx, sy);
        }
    }
}

proof fn lemma_sloped_push(edges: Seq<Edge>, e: Edge)
    ensures
        sloped(edges.push(e)) == if e.0.vy() == e.1.vy() {
            sloped(edges)
        } else {
            sloped(edges).push(e)
        },
{
    assert(edges.push(e).drop_last() =~= edges);
}

/// The winding number of the edges named by a list of numbers.
spec fn listed_winding(edges: Seq<Edge>, list: Seq<usize>, k: int, sx: int, sy: int) -> int
    decreases list.len(),
{
    if list.len() == 0 {
        0
    } else {
        let e = edges[list.last() as int];
        listed_winding(edges, list.drop_last(), k, sx, sy) + crossing(e.0, e.1, k, sx, sy)
    }
}

proof fn lemma_bucket_list_bound(
    edges: Seq<Edge>,
    n: nat,
    b: int,
    y0: int,
    y1: int,
    nb: int,
)
    requires
        n <= edges.len() <= usize::MAX,
    ensures
        bucket_list(edges, n, b, y0, y1, nb).len() <= n,
        forall|i: int|
            0 <= i < bucket_list(edges, n, b, y0, y1, nb).len() ==> (#[trigger] bucket_list(
                edges,
                n,
                b,
                y0,
                y1,
                nb,
            )[i]) < n,
    decreases n,
{
    if n > 0 {
        lemma_bucket_list_bound(edges, (n - 1) as nat, b, y0, y1, nb);
    }
}

/// Whether bucket `b` is where height `sy / 3` falls: every edge that reaches
/// from below or at that height to above it reaches into `b`.
spec fn covers(edges: Seq<Edge>, b: int, sy: int, y0: int, y1: int, nb: int) -> bool {
    forall|i: int|
        0 <= i < edges.len() && !in_bucket(#[trigger] edges[i], b, y0, y1, nb) ==> ({
            let e = edges[i];
            (3 * e.0.vy() <= sy && 3 * e.1.vy() <= sy) || (3 * e.0.vy() > sy && 3 * e.1.vy() > sy)
        })
}

proof fn lemma_bucket_winding(
    edges: Seq<Edge>,
    n: nat,
    b: int,
    sx: int,
    sy: int,
    y0: int,
    y1: int,
    nb: int,
)
    requires
        n <= edges.len() <= usize::MAX,
        covers(edges, b, sy, y0, y1, nb),
    ensures
        listed_winding(edges, bucket_list(edges, n, b, y0, y1, nb), 3, sx, sy) == winding_about(
            edges.take(n as int),
            3,
            sx,
            sy,
        ),
    decreases n,
{
    if n > 0 {
        lemma_bucket_winding(edges, (n - 1) as nat, b, sx, sy, y0, y1, nb);
        let before = bucket_list(edges, (n - 1) as nat, b, y0, y1, nb);
        assert(edges.take(n as int).drop_last() =~= edges.take(n - 1));
        assert(edges.take(n as int).last() == edges[n - 1]);
        if in_bucket(edges[n - 1], b, y0, y1, nb) {
            assert(before.push((n - 1) as usize).drop_last() =~= before);
        }
    }
}

impl WindingIndex {
    /// The edges held, horizontal ones left out.
    pub closed spec fn edges(&self) -> Seq<Edge> {
        self.edges@
    }

    /// Number of index entries.
    pub closed spec fn item_total(&self) -> nat {
        self.items@.len()
    }

    /// Every bucket lists exactly the edges that reach into it.
    pub closed spec fn wf(&self) -> bool {
        &&& self.edges@.len() <= i32::MAX
        &&& self.y0 <= self.y1
        &&& 1 <= self.nb <= 0x8000
        &&& self.starts@.len() == self.nb + 1
        &&& forall|b: int|
            0 <= b < self.nb ==> self.starts@[b] <= #[trigger] self.starts@[b + 1]
                <= self.items@.len()
        &&& forall|b: int|
            0 <= b < self.nb ==> #[trigger] self.items@.subrange(
                self.starts@[b] as int,
                self.starts@[b + 1] as int,
            ) == bucket_list(
                self.edges@,
                self.edges@.len(),
                b,
                self.y0 as int,
                self.y1 as int,
                self.nb as int,
            )
    }

    /// Index the edges of `contours`.
    pub fn build(contours: &Vec<SoupContour>) -> (r: WindingIndex)
        requires
            all_edges(contours@).len() <= i32::MAX,
        ensures
            r.wf(),
            r.edges() == sloped(all_edges(contours@)),
            r.item_total() <= ITEM_BUDGET + r.edges().len(),
    {
        Self::build_inner(contours, None)
    }

    /// Number of index entries, as an executable number.
    pub fn item_count(&self) -> (r: usize)
        ensures
            r == self.item_total(),
    {
        self.items.len()
    }

    /// Number of edges held, as an executable number.
    pub fn edge_count(&self) -> (r: usize)
        ensures
            r == self.edges().len(),
    {
        self.edges.len()
    }

    /// Index the edges of `contours` into `nb_override` buckets, or as many as
    /// suit their number, made fewer where the entries would pass the budget or
    /// the buckets the most that an index has. The number of buckets changes
    /// no winding number.
    pub fn build_inner(contours: &Vec<SoupContour>, nb_override: Option<usize>) -> (r: WindingIndex)
        requires
            all_edges(contours@).len() <= i32::MAX,
            nb_override matches Some(n) ==> 1 <= n,
        ensures
            r.wf(),
            r.edges() == sloped(all_edges(contours@)),
            r.item_total() <= ITEM_BUDGET + r.edges().len(),
    {
        let edges = collect_sloped(contours);
        let n: usize = edges.len();
        proof {
            lemma_sloped_winding(all_edges(contours@), 1, 0, 0);
        }
        let mut y0: i64 = 0;
        let mut y1: i64 = 0;
        if n > 0 {
            y0 = coord_key(edges[0].0.y);
            y1 = y0;
        }
        let mut i: usize = 0;
        while i < n
            invariant
                i <= n,
                n == edges@.len(),
                y0 <= y1,
            decreases n - i,
        {
            let (lo, hi) = edge_span(&edges, i);
            if lo < y0 {
                y0 = lo;
            }
            if hi > y1 {
                y1 = hi;
            }
            i += 1;
        }
        let mut nb: usize = match nb_override {
            Some(k) => if k > 0x8000 {
                0x8000
            } else {
                k
            },
            None => {
                let k: usize = n / 16;
                if k < 1 {
                    1
                } else if k > 4096 {
                    4096
                } else {
                    k
                }
            },
        };
        let mut total: u64 = price(&edges, y0, y1, nb);
        if nb > 1 && total > ITEM_BUDGET {
            assert(nb * ITEM_BUDGET <= 0x8000 * 0x80_0000) by (nonlinear_arith)
                requires
                    nb <= 0x8000,
                    ITEM_BUDGET == 0x80_0000,
            ;
            let scaled: u64 = (nb as u64 * ITEM_BUDGET) / total;
            proof {
                vstd::arithmetic::div_mod::lemma_div_is_ordered_by_denominator(
                    (nb * ITEM_BUDGET) as int,
                    ITEM_BUDGET as int,
                    total as int,
                );
                vstd::arithmetic::div_mod::lemma_div_by_multiple(nb as int, ITEM_BUDGET as int);
            }
            nb = if scaled < 1 {
                1
            } else {
                scaled as usize
            };
            total = price(&edges, y0, y1, nb);
        }
        while nb > 1 && total > ITEM_BUDGET + n as u64
            invariant
                1 <= nb <= 0x8000,
                n == edges@.len(),
                n <= i32::MAX,
                y0 <= y1,
                total == bucket_total(edges@, n as nat, y0 as int, y1 as int, nb as int, nb as nat),
            decreases nb,
        {
            nb = nb / 2;
            total = price(&edges, y0, y1, nb);
        }
        proof {
            if nb == 1 {
                lemma_bucket_list_bound(edges@, n as nat, 0, y0 as int, y1 as int, 1);
                assert(bucket_total(edges@, n as nat, y0 as int, y1 as int, 1, 0) == 0);
            }
        }
        let (starts, items) = bucket_sort(&edges, y0, y1, nb, total as usize);
        WindingIndex { edges, y0, y1, nb, starts, items }
    }

    /// Winding number of the edges held about the centroid of `a`, `b`, `c`.
    pub fn winding_at_centroid(&self, a: Vertex, b: Vertex, c: Vertex) -> (wn: i32)
        requires
            self.wf(),
        ensures
            wn == centroid_winding(self.edges(), a, b, c),
    {
        let g: i64 = mean_floor(a.y, b.y, c.y);
        let bb: usize = cell_of(g, self.y0, self.y1, self.nb);
        let ghost (sx, sy) = (a.vx() + b.vx() + c.vx(), a.vy() + b.vy() + c.vy());
        let ghost edges = self.edges@;
        let ghost list = bucket_list(
            edges,
            edges.len(),
            bb as int,
            self.y0 as int,
            self.y1 as int,
            self.nb as int,
        );
        assert(self.starts@[bb as int] <= self.starts@[bb + 1]);
        let lo: usize = self.starts[bb];
        let hi: usize = self.starts[bb + 1];
        proof {
            assert(self.items@.subrange(lo as int, hi as int) == list);
            lemma_bucket_list_bound(
                edges,
                edges.len(),
                bb as int,
                self.y0 as int,
                self.y1 as int,
                self.nb as int,
            );
            assert(covers(edges, bb as int, sy, self.y0 as int, self.y1 as int, self.nb as int))
                by {
                assert forall|i: int|
                    0 <= i < edges.len() && !in_bucket(
                        #[trigger] edges[i],
                        bb as int,
                        self.y0 as int,
                        self.y1 as int,
                        self.nb as int,
                    ) implies ({
                    let e = edges[i];
                    (3 * e.0.vy() <= sy && 3 * e.1.vy() <= sy) || (3 * e.0.vy() > sy && 3
                        * e.1.vy() > sy)
                }) by {
                    let e = edges[i];
                    assert(3 * value(e.0.y) <= sy <==> key(e.0.y) <= g);
                    assert(3 * value(e.1.y) <= sy <==> key(e.1.y) <= g);
                    if low_key(e) <= g <= high_key(e) {
                        lemma_cell_monotone(
                            low_key(e),
                            g as int,
                            self.y0 as int,
                            self.y1 as int,
                            self.nb as int,
                        );
                        lemma_cell_monotone(
                            g as int,
                            high_key(e),
                            self.y0 as int,
                            self.y1 as int,
                            self.nb as int,
                        );
                    }
                }
            }
            lemma_bucket_winding(
                edges,
                edges.len(),
                bb as int,
                sx,
                sy,
                self.y0 as int,
                self.y1 as int,
                self.nb as int,
            );
            assert(edges.take(edges.len() as int) =~= edges);
            assert(list.take(0) =~= Seq::<usize>::empty());
        }
        let mut wn: i32 = 0;
        let mut j: usize = lo;
        while j < hi
            invariant
                self.wf(),
                lo <= j <= hi,
                hi <= self.items@.len(),
                edges == self.edges@,
                list == self.items@.subrange(lo as int, hi as int),
                list.len() <= edges.len(),
                edges.len() <= i32::MAX,
                forall|i: int| 0 <= i < list.len() ==> (#[trigger] list[i]) < edges.len(),
                forall|y: u64| #![trigger key(y)] 3 * value(y) <= sy <==> key(y) <= g,
                (sx, sy) == (a.vx() + b.vx() + c.vx(), a.vy() + b.vy() + c.vy()),
                wn == listed_winding(edges, list.take(j - lo), 3, sx, sy),
                -(j - lo) <= wn <= j - lo,
            decreases hi - j,
        {
            let i: usize = self.items[j];
            proof {
                assert(list[j - lo] == i);
                assert(list.take(j - lo + 1).drop_last() =~= list.take(j - lo));
                assert(list.take(j - lo + 1).last() == i);
            }
            let (p, q) = self.edges[i];
            let (kp, kq) = (coord_key(p.y), coord_key(q.y));
            assert(3 * value(p.y) <= sy <==> key(p.y) <= g);
            assert(3 * value(q.y) <= sy <==> key(q.y) <= g);
            if !has_place(p) || !has_place(q) {
            } else if kp <= g {
                if kq > g {
                    if centroid_side(p, q, a, b, c) > 0 {
                        wn += 1;
                    }
                }
            } else if kq <= g {
                if centroid_side(p, q, a, b, c) < 0 {
                    wn -= 1;
                }
            }
            j += 1;
        }
        proof {
            assert(list.take(hi - lo) =~= list);
        }
        wn
    }

    /// Signed winding number of `p`, the same as counted edge by edge.
    pub fn winding(&self, p: Vertex) -> (wn: i32)
        requires
            self.wf(),
        ensures
            wn == winding_at(self.edges(), p),
    {
        if !has_place(p) {
            return 0;
        }
        proof {
            centroid_of_one_point(self.edges@, p);
        }
        self.winding_at_centroid(p, p, p)
    }
}

/// The index counts what the contours themselves give, for every point.
pub proof fn index_agrees_with_count(contours: Seq<SoupContour>, p: Vertex)
    ensures
        winding_at(sloped(all_edges(contours)), p) == winding(contours, p),
{
    lemma_sloped_winding(all_edges(contours), 1, p.vx(), p.vy());
}

/// The index counts what the contours themselves give, for every centroid.
pub proof fn index_agrees_at_centroids(edges: Seq<Edge>, a: Vertex, b: Vertex, c: Vertex)
    ensures
        centroid_winding(sloped(edges), a, b, c) == centroid_winding(edges, a, b, c),
{
    lemma_sloped_winding(
        edges,
        3,
        a.vx() + b.vx() + c.vx(),
        a.vy() + b.vy() + c.vy(),
    );
}

fn collect_sloped(contours: &Vec<SoupContour>) -> (edges: Vec<Edge>)
    requires
        all_edges(contours@).len() <= i32::MAX,
    ensures
        edges@ == sloped(all_edges(contours@)),
{
    let mut edges: Vec<Edge> = Vec::new();
    let mut ci: usize = 0;
    while ci < contours.len()
        invariant
            ci <= contours@.len(),
            edges@ == sloped(soup_edges(contours@, ci as nat)),
        decreases contours@.len() - ci,
    {
        let ghost base = soup_edges(contours@, ci as nat);
        let ghost ring = ring_edges(contours@[ci as int].points@);
        let n: usize = contours[ci].points.len();
        let mut i: usize = 0;
        proof {
            assert(base + ring.take(0) =~= base);
        }
        while i < n
            invariant
                i <= n,
                ci < contours@.len(),
                n == contours@[ci as int].points@.len(),
                ring == ring_edges(contours@[ci as int].points@),
                edges@ == sloped(base + ring.take(i as int)),
            decreases n - i,
        {
            let a = contours[ci].points[i];
            let b = contours[ci].points[if i + 1 == n {
                0
            } else {
                i + 1
            }];
            proof {
                let so_far = base + ring.take(i as int);
                assert(base + ring.take(i + 1) =~= so_far.push((a, b)));
                lemma_sloped_push(so_far, (a, b));
            }
            if !coord_equal(a.y, b.y) {
                edges.push((a, b));
            }
            i += 1;
        }
        proof {
            assert(ring.take(n as int) =~= ring);
        }
        ci += 1;
    }
    edges
}

fn edge_span(edges: &Vec<Edge>, i: usize) -> (r: (i64, i64))
    requires
        i < edges@.len(),
    ensures
        r.0 == low_key(edges@[i as int]),
        r.1 == high_key(edges@[i as int]),
        r.0 <= r.1,
{
    let (ka, kb) = (coord_key(edges[i].0.y), coord_key(edges[i].1.y));
    if ka <= kb {
        (ka, kb)
    } else {
        (kb, ka)
    }
}

/// Entries of the first `n` edges in the first `b` buckets.
spec fn bucket_total(edges: Seq<Edge>, n: nat, y0: int, y1: int, nb: int, b: nat) -> nat
    decreases b,
{
    if b == 0 {
        0
    } else {
        bucket_total(edges, n, y0, y1, nb, (b - 1) as nat) + bucket_list(
            edges,
            n,
            b - 1,
            y0,
            y1,
            nb,
        ).len()
    }
}

/// How many of the first `b` buckets lie in `lo..=hi`.
spec fn overlap(lo: int, hi: int, b: int) -> int {
    if b <= lo {
        0
    } else if b > hi {
        hi - lo + 1
    } else {
        b - lo
    }
}

proof fn lemma_total_step(edges: Seq<Edge>, n: nat, y0: int, y1: int, nb: int, b: nat)
    requires
        n < edges.len(),
        cell(low_key(edges[n as int]), y0, y1, nb) >= 0,
        cell(low_key(edges[n as int]), y0, y1, nb) <= cell(
            high_key(edges[n as int]),
            y0,
            y1,
            nb,
        ),
    ensures
        bucket_total(edges, n + 1, y0, y1, nb, b) == bucket_total(edges, n, y0, y1, nb, b)
            + overlap(
            cell(low_key(edges[n as int]), y0, y1, nb),
            cell(high_key(edges[n as int]), y0, y1, nb),
            b as int,
        ),
    decreases b,
{
    if b > 0 {
        lemma_total_step(edges, n, y0, y1, nb, (b - 1) as nat);
    }
}

proof fn lemma_total_monotone(
    edges: Seq<Edge>,
    n: nat,
    y0: int,
    y1: int,
    nb: int,
    b: nat,
    c: nat,
)
    requires
        b <= c,
    ensures
        bucket_total(edges, n, y0, y1, nb, b) <= bucket_total(edges, n, y0, y1, nb, c),
    decreases c - b,
{
    if b < c {
        lemma_total_monotone(edges, n, y0, y1, nb, b, (c - 1) as nat);
    }
}

proof fn lemma_total_zero(edges: Seq<Edge>, y0: int, y1: int, nb: int, b: nat)
    ensures
        bucket_total(edges, 0, y0, y1, nb, b) == 0,
    decreases b,
{
    if b > 0 {
        lemma_total_zero(edges, y0, y1, nb, (b - 1) as nat);
    }
}

proof fn lemma_list_grows(
    edges: Seq<Edge>,
    i: nat,
    n: nat,
    b: int,
    y0: int,
    y1: int,
    nb: int,
)
    requires
        i < n,
        in_bucket(edges[i as int], b, y0, y1, nb),
    ensures
        bucket_list(edges, i, b, y0, y1, nb).len() < bucket_list(edges, n, b, y0, y1, nb).len(),
    decreases n,
{
    if i < n - 1 {
        lemma_list_grows(edges, i, (n - 1) as nat, b, y0, y1, nb);
    }
}

/// Number of entries that `nb` buckets would hold.
fn price(edges: &Vec<Edge>, y0: i64, y1: i64, nb: usize) -> (total: u64)
    requires
        edges@.len() <= i32::MAX,
        y0 <= y1,
        1 <= nb <= 0x8000,
    ensures
        total == bucket_total(
            edges@,
            edges@.len(),
            y0 as int,
            y1 as int,
            nb as int,
            nb as nat,
        ),
{
    let n: usize = edges.len();
    let mut total: u64 = 0;
    let mut i: usize = 0;
    proof {
        lemma_total_zero(edges@, y0 as int, y1 as int, nb as int, nb as nat);
    }
    while i < n
        invariant
            i <= n,
            n == edges@.len(),
            n <= i32::MAX,
            y0 <= y1,
            1 <= nb <= 0x8000,
            total <= i * 0x8000,
            total == bucket_total(
                edges@,
                i as nat,
                y0 as int,
                y1 as int,
                nb as int,
                nb as nat,
            ),
        decreases n - i,
    {
        let (klo, khi) = edge_span(edges, i);
        let lo: usize = cell_of(klo, y0, y1, nb);
        let hi: usize = cell_of(khi, y0, y1, nb);
        proof {
            lemma_cell_monotone(klo as int, khi as int, y0 as int, y1 as int, nb as int);
            lemma_total_step(
                edges@,
                i as nat,
                y0 as int,
                y1 as int,
                nb as int,
                nb as nat,
            );
        }
        total = total + (hi - lo) as u64 + 1;
        i += 1;
    }
    total
}

fn bucket_counts(edges: &Vec<Edge>, y0: i64, y1: i64, nb: usize) -> (counts: Vec<usize>)
    requires
        edges@.len() <= i32::MAX,
        y0 <= y1,
        1 <= nb <= 0x8000,
    ensures
        counts@.len() == nb,
        forall|b: int|
            0 <= b < nb ==> #[trigger] counts@[b] == bucket_list(
                edges@,
                edges@.len(),
                b,
                y0 as int,
                y1 as int,
                nb as int,
            ).len(),
{
    let n: usize = edges.len();
    let mut counts: Vec<usize> = vec![0usize; nb];
    let mut i: usize = 0;
    while i < n
        invariant
            i <= n,
            n == edges@.len(),
            n <= i32::MAX,
            y0 <= y1,
            1 <= nb <= 0x8000,
            counts@.len() == nb,
            forall|b: int|
                0 <= b < nb ==> #[trigger] counts@[b] == bucket_list(
                    edges@,
                    i as nat,
                    b,
                    y0 as int,
                    y1 as int,
                    nb as int,
                ).len(),
        decreases n - i,
    {
        let (klo, khi) = edge_span(edges, i);
        let lo: usize = cell_of(klo, y0, y1, nb);
        let hi: usize = cell_of(khi, y0, y1, nb);
        proof {
            lemma_cell_monotone(klo as int, khi as int, y0 as int, y1 as int, nb as int);
        }
        let mut b: usize = lo;
        while b <= hi
            invariant
                lo <= b <= hi + 1,
                hi < nb,
                i < n,
                n == edges@.len(),
                n <= i32::MAX,
                nb <= 0x8000,
                lo == cell(low_key(edges@[i as int]), y0 as int, y1 as int, nb as int),
                hi == cell(high_key(edges@[i as int]), y0 as int, y1 as int, nb as int),
                counts@.len() == nb,
                forall|c: int|
                    0 <= c < nb ==> #[trigger] counts@[c] == bucket_list(
                        edges@,
                        if c < b {
                            (i + 1) as nat
                        } else {
                            i as nat
                        },
                        c,
                        y0 as int,
                        y1 as int,
                        nb as int,
                    ).len(),
            decreases hi + 1 - b,
        {
            proof {
                lemma_bucket_list_bound(
                    edges@,
                    i as nat,
                    b as int,
                    y0 as int,
                    y1 as int,
                    nb as int,
                );
            }
            counts.set(b, counts[b] + 1);
            b += 1;
        }
        i += 1;
    }
    counts
}

/// Counting sort of the edges into `nb` buckets.
fn bucket_sort(edges: &Vec<Edge>, y0: i64, y1: i64, nb: usize, total: usize) -> (r: (
    Vec<usize>,
    Vec<usize>,
))
    requires
        edges@.len() <= i32::MAX,
        y0 <= y1,
        1 <= nb <= 0x8000,
        total == bucket_total(
            edges@,
            edges@.len(),
            y0 as int,
            y1 as int,
            nb as int,
            nb as nat,
        ),
    ensures
        r.0@.len() == nb + 1,
        r.1@.len() == total,
        forall|b: int| 0 <= b < nb ==> r.0@[b] <= #[trigger] r.0@[b + 1] <= total,
        forall|b: int|
            0 <= b < nb ==> #[trigger] r.1@.subrange(r.0@[b] as int, r.0@[b + 1] as int)
                == bucket_list(
                edges@,
                edges@.len(),
                b,
                y0 as int,
                y1 as int,
                nb as int,
            ),
{
    let n: usize = edges.len();
    let ghost es = edges@;
    let ghost (gy0, gy1, gnb) = (y0 as int, y1 as int, nb as int);
    let counts = bucket_counts(edges, y0, y1, nb);
    let mut starts: Vec<usize> = Vec::new();
    starts.push(0);
    let mut b: usize = 0;
    while b < nb
        invariant
            b <= nb,
            counts@.len() == nb,
            n == es.len(),
            starts@.len() == b + 1,
            total == bucket_total(es, n as nat, gy0, gy1, gnb, nb as nat),
            forall|c: int|
                0 <= c < nb ==> #[trigger] counts@[c] == bucket_list(
                    es,
                    n as nat,
                    c,
                    gy0,
                    gy1,
                    gnb,
                ).len(),
            forall|c: int|
                0 <= c <= b ==> #[trigger] starts@[c] == bucket_total(
                    es,
                    n as nat,
                    gy0,
                    gy1,
                    gnb,
                    c as nat,
                ),
        decreases nb - b,
    {
        proof {
            lemma_total_monotone(es, n as nat, gy0, gy1, gnb, (b + 1) as nat, nb as nat);
        }
        starts.push(starts[b] + counts[b]);
        b += 1;
    }
    let mut items: Vec<usize> = vec![0usize; total];
    let mut cursor: Vec<usize> = Vec::new();
    let mut b: usize = 0;
    while b < nb
        invariant
            b <= nb,
            starts@.len() == nb + 1,
            cursor@.len() == b,
            forall|c: int| 0 <= c < b ==> #[trigger] cursor@[c] == starts@[c],
        decreases nb - b,
    {
        cursor.push(starts[b]);
        b += 1;
    }
    let mut i: usize = 0;
    while i < n
        invariant
            i <= n,
            n == edges@.len(),
            n <= i32::MAX,
            es == edges@,
            (gy0, gy1, gnb) == (y0 as int, y1 as int, nb as int),
            y0 <= y1,
            1 <= nb <= 0x8000,
            starts@.len() == nb + 1,
            cursor@.len() == nb,
            items@.len() == total,
            total == bucket_total(es, n as nat, gy0, gy1, gnb, nb as nat),
            forall|c: int|
                0 <= c <= nb ==> #[trigger] starts@[c] == bucket_total(
                    es,
                    n as nat,
                    gy0,
                    gy1,
                    gnb,
                    c as nat,
                ),
            forall|c: int|
                0 <= c < nb ==> #[trigger] cursor@[c] == starts@[c] + bucket_list(
                    es,
                    i as nat,
                    c,
                    gy0,
                    gy1,
                    gnb,
                ).len(),
            forall|c: int, j: int|
                0 <= c < nb && 0 <= j < bucket_list(es, i as nat, c, gy0, gy1, gnb).len()
                    ==> items@[starts@[c] + j] == #[trigger] bucket_list(
                    es,
                    i as nat,
                    c,
                    gy0,
                    gy1,
                    gnb,
                )[j],
        decreases n - i,
    {
        let (klo, khi) = edge_span(edges, i);
        let lo: usize = cell_of(klo, y0, y1, nb);
        let hi: usize = cell_of(khi, y0, y1, nb);
        proof {
            lemma_cell_monotone(klo as int, khi as int, gy0, gy1, gnb);
            assert forall|c: int| 0 <= c < nb implies #[trigger] bucket_list(
                es,
                filled(i as nat, c, lo as int),
                c,
                gy0,
                gy1,
                gnb,
            ) == bucket_list(es, i as nat, c, gy0, gy1, gnb) by {}
        }
        let mut b: usize = lo;
        while b <= hi
            invariant
                lo <= b <= hi + 1,
                hi < nb,
                i < n,
                n == es.len(),
                n <= i32::MAX,
                nb <= 0x8000,
                gnb == nb,
                lo == cell(low_key(es[i as int]), gy0, gy1, gnb),
                hi == cell(high_key(es[i as int]), gy0, gy1, gnb),
                starts@.len() == nb + 1,
                cursor@.len() == nb,
                items@.len() == total,
                total == bucket_total(es, n as nat, gy0, gy1, gnb, nb as nat),
                forall|c: int|
                    0 <= c <= nb ==> #[trigger] starts@[c] == bucket_total(
                        es,
                        n as nat,
                        gy0,
                        gy1,
                        gnb,
                        c as nat,
                    ),
                forall|c: int|
                    0 <= c < nb ==> #[trigger] cursor@[c] == starts@[c] + bucket_list(
                        es,
                        filled(i as nat, c, b as int),
                        c,
                        gy0,
                        gy1,
                        gnb,
                    ).len(),
                forall|c: int, j: int|
                    0 <= c < nb && 0 <= j < bucket_list(
                        es,
                        filled(i as nat, c, b as int),
                        c,
                        gy0,
                        gy1,
                        gnb,
                    ).len() ==> items@[starts@[c] + j] == #[trigger] bucket_list(
                        es,
                        filled(i as nat, c, b as int),
                        c,
                        gy0,
                        gy1,
                        gnb,
                    )[j],
            decreases hi + 1 - b,
        {
            let ghost before = items@;
            let ghost old_list = bucket_list(es, i as nat, b as int, gy0, gy1, gnb);
            proof {
                lemma_list_grows(es, i as nat, n as nat, b as int, gy0, gy1, gnb);
                lemma_total_monotone(es, n as nat, gy0, gy1, gnb, (b + 1) as nat, nb as nat);
                assert(starts@[b + 1] == starts@[b as int] + bucket_list(
                    es,
                    n as nat,
                    b as int,
                    gy0,
                    gy1,
                    gnb,
                ).len());
                assert(filled(i as nat, b as int, b as int) == i as nat);
            }
            let at: usize = cursor[b];
            items.set(at, i);
            cursor.set(b, at + 1);
            proof {
                assert forall|c: int, j: int|
                    0 <= c < nb && 0 <= j < bucket_list(
                        es,
                        filled(i as nat, c, b + 1),
                        c,
                        gy0,
                        gy1,
                        gnb,
                    ).len() implies items@[starts@[c] + j] == #[trigger] bucket_list(
                    es,
                    filled(i as nat, c, b + 1),
                    c,
                    gy0,
                    gy1,
                    gnb,
                )[j] by {
                    if c == b {
                        assert(filled(i as nat, c, b + 1) == (i + 1) as nat);
                        assert(bucket_list(es, (i + 1) as nat, c, gy0, gy1, gnb)
                            == old_list.push(i));
                        if j < old_list.len() {
                            assert(bucket_list(
                                es,
                                filled(i as nat, c, b as int),
                                c,
                                gy0,
                                gy1,
                                gnb,
                            )[j] == old_list[j]);
                            assert(before[starts@[c] + j] == old_list[j]);
                        }
                    } else {
                        let list = bucket_list(
                            es,
                            filled(i as nat, c, b as int),
                            c,
                            gy0,
                            gy1,
                            gnb,
                        );
                        assert(filled(i as nat, c, b + 1) == filled(i as nat, c, b as int));
                        assert(before[starts@[c] + j] == list[j]);
                        lemma_list_monotone(
                            es,
                            filled(i as nat, c, b as int),
                            n as nat,
                            c,
                            gy0,
                            gy1,
                            gnb,
                        );
                        assert(starts@[c + 1] == starts@[c] + bucket_list(
                            es,
                            n as nat,
                            c,
                            gy0,
                            gy1,
                            gnb,
                        ).len());
                        if c < b {
                            lemma_total_monotone(
                                es,
                                n as nat,
                                gy0,
                                gy1,
                                gnb,
                                (c + 1) as nat,
                                b as nat,
                            );
                            assert(starts@[c + 1] <= starts@[b as int]);
                        } else {
                            lemma_total_monotone(
                                es,
                                n as nat,
                                gy0,
                                gy1,
                                gnb,
                                (b + 1) as nat,
                                c as nat,
                            );
                            assert(starts@[b + 1] <= starts@[c]);
                        }
                        lemma_total_monotone(
                            es,
                            n as nat,
                            gy0,
                            gy1,
                            gnb,
                            (c + 1) as nat,
                            nb as nat,
                        );
                        assert(starts@[c] + j != at);
                    }
                }
            }
            b += 1;
        }
        proof {
            assert forall|c: int| 0 <= c < nb implies bucket_list(
                es,
                filled(i as nat, c, b as int),
                c,
                gy0,
                gy1,
                gnb,
            ) == #[trigger] bucket_list(es, (i + 1) as nat, c, gy0, gy1, gnb) by {}
        }
        let ghost taken = i as nat;
        i += 1;
        proof {
            assert(taken + 1 == i as nat);
            assert forall|c: int, j: int|
                0 <= c < nb && 0 <= j < bucket_list(
                    es,
                    i as nat,
                    c,
                    gy0,
                    gy1,
                    gnb,
                ).len() implies items@[starts@[c] + j] == #[trigger] bucket_list(
                es,
                i as nat,
                c,
                gy0,
                gy1,
                gnb,
            )[j] by {
                let list = bucket_list(es, filled(taken, c, b as int), c, gy0, gy1, gnb);
                assert(list == bucket_list(es, i as nat, c, gy0, gy1, gnb));
                assert(items@[starts@[c] + j] == list[j]);
            }
        }
    }
    proof {
        assert forall|c: int| 0 <= c < nb implies starts@[c] <= #[trigger] starts@[c + 1] <= total
            && items@.subrange(starts@[c] as int, starts@[c + 1] as int) == bucket_list(
            es,
            n as nat,
            c,
            gy0,
            gy1,
            gnb,
        ) by {
            lemma_total_monotone(es, n as nat, gy0, gy1, gnb, (c + 1) as nat, nb as nat);
            let list = bucket_list(es, n as nat, c, gy0, gy1, gnb);
            let part = items@.subrange(starts@[c] as int, starts@[c + 1] as int);
            assert(part.len() == list.len());
            assert forall|j: int| 0 <= j < list.len() implies part[j] == list[j] by {
                assert(items@[starts@[c] + j] == list[j]);
            }
            assert(part =~= list);
        }
        assert forall|c: int| 0 <= c < nb implies #[trigger] items@.subrange(
            starts@[c] as int,
            starts@[c + 1] as int,
        ) == bucket_list(es, n as nat, c, gy0, gy1, gnb) by {
            assert(starts@[c] <= starts@[c + 1]);
        }
    }
    (starts, items)
}

/// How many edges bucket `c` has taken while edge `i` is being filed and the
/// buckets before `b` are done.
spec fn filled(i: nat, c: int, b: int) -> nat {
    if c < b {
        i + 1
    } else {
        i
    }
}

proof fn lemma_list_monotone(
    edges: Seq<Edge>,
    i: nat,
    n: nat,
    b: int,
    y0: int,
    y1: int,
    nb: int,
)
    requires
        i <= n,
    ensures
        bucket_list(edges, i, b, y0, y1, nb).len() <= bucket_list(edges, n, b, y0, y1, nb).len(),
    decreases n,
{
    if i < n {
        lemma_list_monotone(edges, i, (n - 1) as nat, b, y0, y1, nb);
    }
}

// --- How winding numbers add up ---------------------------------------------

proof fn lemma_winding_adds(a: Seq<Edge>, b: Seq<Edge>, k: int, sx: int, sy: int)
    ensures
        winding_about(a + b, k, sx, sy) == winding_about(a, k, sx, sy) + winding_about(
            b,
            k,
            sx,
            sy,
        ),
    decreases b.len(),
{
    if b.len() == 0 {
        assert(a + b =~= a);
    } else {
        assert((a + b).drop_last() =~= a + b.drop_last());
        lemma_winding_adds(a, b.drop_last(), k, sx, sy);
    }
}

proof fn lemma_soup_edges_add(a: Seq<SoupContour>, b: Seq<SoupContour>, n: nat)
    requires
        n <= b.len(),
    ensures
        soup_edges(a + b, a.len() + n) == all_edges(a) + soup_edges(b, n),
    decreases n,
{
    if n == 0 {
        lemma_soup_edges_take(a, b, a.len());
        assert(all_edges(a) + soup_edges(b, 0) =~= all_edges(a));
    } else {
        lemma_soup_edges_add(a, b, (n - 1) as nat);
        assert((a + b)[a.len() + n - 1] == b[n - 1]);
        assert(all_edges(a) + (soup_edges(b, (n - 1) as nat) + ring_edges(b[n - 1].points@)) =~= (
        all_edges(a) + soup_edges(b, (n - 1) as nat)) + ring_edges(b[n - 1].points@));
    }
}

proof fn lemma_soup_edges_take(a: Seq<SoupContour>, b: Seq<SoupContour>, n: nat)
    requires
        n <= a.len(),
    ensures
        soup_edges(a + b, n) == soup_edges(a, n),
    decreases n,
{
    if n > 0 {
        lemma_soup_edges_take(a, b, (n - 1) as nat);
        assert((a + b)[n - 1] == a[n - 1]);
    }
}

/// The winding number of two lists of contours together is the sum of theirs.
pub proof fn windings_add_up(a: Seq<SoupContour>, b: Seq<SoupContour>, p: Vertex)
    ensures
        winding(a + b, p) == winding(a, p) + winding(b, p),
{
    lemma_soup_edges_add(a, b, b.len());
    lemma_winding_adds(all_edges(a), all_edges(b), 1, p.vx(), p.vy());
}

/// An edge taken backwards counts the opposite.
proof fn lemma_crossing_back(a: Vertex, b: Vertex, k: int, sx: int, sy: int)
    ensures
        crossing(b, a, k, sx, sy) == -crossing(a, b, k, sx, sy),
{
    let (ux, uy) = (k * a.vx() - sx, k * a.vy() - sy);
    let (wx, wy) = (k * b.vx() - sx, k * b.vy() - sy);
    assert(wx * uy - wy * ux == -(ux * wy - uy * wx)) by (nonlinear_arith);
}

proof fn lemma_winding_first(edges: Seq<Edge>, k: int, sx: int, sy: int)
    requires
        edges.len() > 0,
    ensures
        winding_about(edges, k, sx, sy) == crossing(edges[0].0, edges[0].1, k, sx, sy)
            + winding_about(edges.drop_first(), k, sx, sy),
{
    let first = seq![edges[0]];
    assert(edges =~= first + edges.drop_first());
    lemma_winding_adds(first, edges.drop_first(), k, sx, sy);
    assert(first.drop_last() =~= Seq::<Edge>::empty());
    assert(winding_about(first.drop_last(), k, sx, sy) == 0);
}

/// The edges of a list backwards, each taken backwards.
pub open spec fn all_back(edges: Seq<Edge>) -> Seq<Edge> {
    Seq::new(edges.len(), |i: int| (edges[edges.len() - 1 - i].1, edges[edges.len() - 1 - i].0))
}

proof fn lemma_winding_back(edges: Seq<Edge>, k: int, sx: int, sy: int)
    ensures
        winding_about(all_back(edges), k, sx, sy) == -winding_about(edges, k, sx, sy),
    decreases edges.len(),
{
    if edges.len() > 0 {
        let back = all_back(edges);
        lemma_winding_first(back, k, sx, sy);
        assert(back.drop_first() =~= all_back(edges.drop_last()));
        lemma_winding_back(edges.drop_last(), k, sx, sy);
        lemma_crossing_back(edges.last().0, edges.last().1, k, sx, sy);
    }
}

/// The points of a ring backwards.
pub open spec fn backwards(points: Seq<Vertex>) -> Seq<Vertex> {
    Seq::new(points.len(), |i: int| points[points.len() - 1 - i])
}

/// A contour taken backwards has the opposite winding number about every
/// point.
pub proof fn winding_turns_with_the_contour(points: Seq<Vertex>, p: Vertex)
    ensures
        winding_at(ring_edges(backwards(points)), p) == -winding_at(ring_edges(points), p),
{
    let n = points.len() as int;
    let (x, y) = (p.vx(), p.vy());
    if n > 0 {
        let edges = ring_edges(points);
        let back = ring_edges(backwards(points));
        // All but the closing edge, which stays last.
        let closing = seq![edges.last()];
        let rest = edges.drop_last();
        assert(back =~= all_back(rest) + all_back(closing));
        lemma_winding_adds(all_back(rest), all_back(closing), 1, x, y);
        lemma_winding_back(rest, 1, x, y);
        lemma_winding_back(closing, 1, x, y);
        assert(edges =~= rest + closing);
        lemma_winding_adds(rest, closing, 1, x, y);
    } else {
        assert(ring_edges(backwards(points)) =~= ring_edges(points));
        assert(ring_edges(points).len() == 0);
    }
}

/// The points of a ring from the one at `s` on.
pub open spec fn started_at(points: Seq<Vertex>, s: int) -> Seq<Vertex> {
    points.skip(s) + points.take(s)
}

/// Where a contour starts makes no difference to its winding number.
pub proof fn winding_ignores_the_start(points: Seq<Vertex>, s: int, p: Vertex)
    requires
        0 <= s < points.len(),
    ensures
        winding_at(ring_edges(started_at(points, s)), p) == winding_at(ring_edges(points), p),
{
    let edges = ring_edges(points);
    let (a, b) = (edges.take(s), edges.skip(s));
    let n = points.len() as int;
    let moved = started_at(points, s);
    assert(ring_edges(moved) =~= b + a) by {
        assert forall|i: int| 0 <= i < n implies ring_edges(moved)[i] == (b + a)[i] by {
            let j = if i + s < n {
                i + s
            } else {
                i + s - n
            };
            assert(moved[i] == points[j]);
            assert((b + a)[i] == edges[j]);
        }
    }
    assert(edges =~= a + b);
    lemma_winding_adds(a, b, 1, p.vx(), p.vy());
    lemma_winding_adds(b, a, 1, p.vx(), p.vy());
}

// --- Windings from triangles ------------------------------------------------

/// The points of a ring up to the one at `i`.
pub open spec fn front_part(points: Seq<Vertex>, i: int) -> Seq<Vertex> {
    points.take(i + 1)
}

/// The first point of a ring and those from the one at `i` on.
pub open spec fn back_part(points: Seq<Vertex>, i: int) -> Seq<Vertex> {
    seq![points[0]] + points.skip(i)
}

/// A ring that is cut in two from its first point to another winds about a
/// point as its two parts do together.
pub proof fn windings_split_along_chords(points: Seq<Vertex>, i: int, p: Vertex)
    requires
        0 < i < points.len(),
    ensures
        winding_at(ring_edges(points), p) == winding_at(ring_edges(front_part(points, i)), p)
            + winding_at(ring_edges(back_part(points, i)), p),
{
    let n = points.len() as int;
    let (x, y) = (p.vx(), p.vy());
    let edges = ring_edges(points);
    let (front, back) = (ring_edges(front_part(points, i)), ring_edges(back_part(points, i)));
    let (a, b) = (points[0], points[i]);
    assert(edges =~= edges.take(i) + edges.skip(i));
    assert(front =~= edges.take(i) + seq![(b, a)]);
    assert(back =~= seq![(a, b)] + edges.skip(i)) by {
        let part = back_part(points, i);
        assert forall|k: int| 0 <= k < back.len() implies back[k] == (seq![(a, b)] + edges.skip(i))[k] by {
            if k > 0 {
                assert(part[k] == points[k - 1 + i]);
                if k + 1 < part.len() {
                    assert(part[k + 1] == points[k + i]);
                }
            } else {
                assert(part[1] == points[i]);
            }
        }
    }
    lemma_winding_adds(edges.take(i), edges.skip(i), 1, x, y);
    lemma_winding_adds(edges.take(i), seq![(b, a)], 1, x, y);
    lemma_winding_adds(seq![(a, b)], edges.skip(i), 1, x, y);
    lemma_winding_first(seq![(b, a)], 1, x, y);
    lemma_winding_first(seq![(a, b)], 1, x, y);
    assert(seq![(b, a)].drop_first() =~= Seq::<Edge>::empty());
    assert(seq![(a, b)].drop_first() =~= Seq::<Edge>::empty());
    lemma_crossing_back(a, b, 1, x, y);
}

/// What an edge adds, from the heights of its ends and the side of the point.
spec fn share_of(from: int, to: int, side: int) -> int {
    if from <= 0 {
        if to > 0 && side > 0 {
            1
        } else {
            0
        }
    } else if to <= 0 && side < 0 {
        -1
    } else {
        0
    }
}

pub(crate) proof fn lemma_product_sign(x: int, y: int)
    ensures
        x > 0 && y > 0 ==> x * y > 0,
        x > 0 && y < 0 ==> x * y < 0,
        x < 0 && y > 0 ==> x * y < 0,
        x < 0 && y < 0 ==> x * y > 0,
        x == 0 || y == 0 ==> x * y == 0,
{
    assert(x > 0 && y > 0 ==> x * y > 0) by (nonlinear_arith);
    assert(x > 0 && y < 0 ==> x * y < 0) by (nonlinear_arith);
    assert(x < 0 && y > 0 ==> x * y < 0) by (nonlinear_arith);
    assert(x < 0 && y < 0 ==> x * y > 0) by (nonlinear_arith);
    assert(x == 0 || y == 0 ==> x * y == 0) by (nonlinear_arith);
}

/// Three heights and the sides of the edges between them that balance.
proof fn lemma_shares(ay: int, by: int, cy: int, ab: int, bc: int, ca: int)
    requires
        ay * bc + by * ca + cy * ab == 0,
        ab + bc + ca > 0,
        !(ay == 0 && by == 0 && cy == 0),
    ensures
        ab > 0 && bc > 0 && ca > 0 ==> share_of(ay, by, ab) + share_of(by, cy, bc) + share_of(
            cy,
            ay,
            ca,
        ) == 1,
        ab < 0 || bc < 0 || ca < 0 ==> share_of(ay, by, ab) + share_of(by, cy, bc) + share_of(
            cy,
            ay,
            ca,
        ) == 0,
{
    lemma_product_sign(ay, bc);
    lemma_product_sign(by, ca);
    lemma_product_sign(cy, ab);
}

/// A counter-clockwise triangle winds once round every point inside it and not
/// at all round a point outside.
pub proof fn triangles_wind_once(a: Vertex, b: Vertex, c: Vertex, p: Vertex)
    requires
        is_place(a) && is_place(b) && is_place(c) && is_place(p),
        orient(a, b, c) > 0,
    ensures
        orient(a, b, p) > 0 && orient(b, c, p) > 0 && orient(c, a, p) > 0 ==> winding_at(
            ring_edges(seq![a, b, c]),
            p,
        ) == 1,
        orient(a, b, p) < 0 || orient(b, c, p) < 0 || orient(c, a, p) < 0 ==> winding_at(
            ring_edges(seq![a, b, c]),
            p,
        ) == 0,
{
    let (x, y) = (p.vx(), p.vy());
    let edges = ring_edges(seq![a, b, c]);
    assert(edges =~= seq![(a, b), (b, c), (c, a)]);
    let two = edges.drop_last();
    let one = two.drop_last();
    assert(one.drop_last() =~= Seq::<Edge>::empty());
    assert(winding_about(one.drop_last(), 1, x, y) == 0);
    assert(winding_about(one, 1, x, y) == crossing(a, b, 1, x, y));
    assert(winding_about(two, 1, x, y) == crossing(a, b, 1, x, y) + crossing(b, c, 1, x, y));
    let (ax, ay) = (a.vx() - x, a.vy() - y);
    let (bx, by) = (b.vx() - x, b.vy() - y);
    let (cx, cy) = (c.vx() - x, c.vy() - y);
    let (ab, bc, ca) = (cross(ax, ay, bx, by), cross(bx, by, cx, cy), cross(cx, cy, ax, ay));
    assert(ab == orient_det(a, b, p) && bc == orient_det(b, c, p) && ca == orient_det(c, a, p));
    areas_add(a, b, c, p);
    lemma_balance_of_heights(ax, ay, bx, by, cx, cy);
    if ay == 0 && by == 0 && cy == 0 {
        assert(ax * 0 - 0 * bx == 0 && bx * 0 - 0 * cx == 0 && cx * 0 - 0 * ax == 0)
            by (nonlinear_arith);
    }
    lemma_shares(ay, by, cy, ab, bc, ca);
}

proof fn lemma_balance_of_heights(ax: int, ay: int, bx: int, by: int, cx: int, cy: int)
    ensures
        ay * cross(bx, by, cx, cy) + by * cross(cx, cy, ax, ay) + cy * cross(ax, ay, bx, by) == 0,
{
    assert(ay * (bx * cy - by * cx) + by * (cx * ay - cy * ax) + cy * (ax * by - ay * bx) == 0)
        by (nonlinear_arith);
}

} // verus!
