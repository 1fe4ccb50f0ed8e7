//! Shared boundaries between regions.
//!
//! Along a ring, consecutive edges with the same region across form one
//! portal. Each portal is reported once, from the region with the lower id.

use crate::contour::{
    all_close, closes_on_grid, contours_of, matching, one_apart, ring_sets, rings_close,
    ContourVertex, RegionContours, Rings,
};
use crate::distance::single_storey;
use crate::walkability::CompactHeightfield;
use crate::watershed::{ids_below, labels, RegionMap};
use crate::output::{no_region, RegionId};
use vstd::prelude::*;

verus! {

/// A point at the corner of cells (`col`, `row`); the height counts in half
/// cells.
#[derive(Copy, Clone, Debug, PartialEq, Eq, Structural)]
pub struct SeamPoint {
    pub col: u32,
    pub row: u32,
    pub height2: u64,
}

/// One stretch of boundary between the regions `a` and `b`.
#[derive(Clone, Debug)]
pub struct Portal {
    pub a: RegionId,
    pub b: RegionId,
    /// The points along the seam, at least two.
    pub edge: Vec<SeamPoint>,
    /// The largest height difference between neighboring points, in half
    /// cells.
    pub max_step2: u64,
}

/// A portal as mathematics.
pub struct Seam {
    pub a: RegionId,
    pub b: RegionId,
    pub edge: Seq<SeamPoint>,
    pub max_step2: u64,
}

impl View for Portal {
    type V = Seam;

    open spec fn view(&self) -> Seam {
        Seam { a: self.a, b: self.b, edge: self.edge@, max_step2: self.max_step2 }
    }
}

/// Lists of portals as mathematics.
pub open spec fn seams(portals: Seq<Portal>) -> Seq<Seam> {
    Seq::new(portals.len(), |i: int| portals[i]@)
}

/// The place of a contour vertex.
pub open spec fn point_of(v: ContourVertex) -> SeamPoint {
    SeamPoint { col: v.col, row: v.row, height2: v.height2 }
}

/// The difference of two heights.
pub open spec fn height_gap(a: u64, b: u64) -> u64 {
    if a < b {
        (b - a) as u64
    } else {
        (a - b) as u64
    }
}

/// The largest height difference between neighbors among the first `n`
/// points.
pub open spec fn largest_step(points: Seq<SeamPoint>, n: nat) -> u64
    decreases n,
{
    if n <= 1 {
        0
    } else {
        let before = largest_step(points, (n - 1) as nat);
        let step = height_gap(points[n - 2].height2, points[n - 1].height2);
        if step > before {
            step
        } else {
            before
        }
    }
}

/// The index `j` places after `start` on a ring of `n` vertices.
pub open spec fn turned(start: int, j: int, n: int) -> int {
    if start + j < n {
        start + j
    } else {
        start + j - n
    }
}

/// The vertex `j` places after `start` on a ring.
pub open spec fn vertex_at(ring: Seq<ContourVertex>, start: int, j: int) -> ContourVertex {
    ring[turned(start, j, ring.len() as int)]
}

/// The points of a ring from `i` to `j` places after `start`, both ends
/// counted.
pub open spec fn stretch(ring: Seq<ContourVertex>, start: int, i: int, j: int) -> Seq<SeamPoint> {
    Seq::new((j - i + 1) as nat, |k: int| point_of(vertex_at(ring, start, i + k)))
}

/// The first place from `i` on without a region across its edge.
pub open spec fn first_open(ring: Seq<ContourVertex>, i: nat) -> Option<int>
    decreases ring.len() - i,
{
    if i >= ring.len() {
        None
    } else if ring[i as int].across_region == no_region() {
        Some(i as int)
    } else {
        first_open(ring, i + 1)
    }
}

/// Whether the edge at place `i` of a ring has another region across than the
/// edge before it.
pub open spec fn changes(ring: Seq<ContourVertex>, i: int) -> bool {
    let before = if i == 0 {
        ring.last()
    } else {
        ring[i - 1]
    };
    ring[i].across_region != before.across_region
}

/// The first place from `i` on where the region across changes.
pub open spec fn first_change(ring: Seq<ContourVertex>, i: nat) -> Option<int>
    decreases ring.len() - i,
{
    if i >= ring.len() {
        None
    } else if changes(ring, i as int) {
        Some(i as int)
    } else {
        first_change(ring, i + 1)
    }
}

/// The place where the portals of a ring are counted from: the first edge
/// without a region across, or else the first where the region changes. None
/// where one region lies across all edges.
pub open spec fn first_start(ring: Seq<ContourVertex>) -> Option<int> {
    match first_open(ring, 0) {
        Some(start) => Some(start),
        None => first_change(ring, 0),
    }
}

/// The first place from `j` on, counted from `start`, whose edge does not have
/// `id` across.
pub open spec fn run_end(ring: Seq<ContourVertex>, start: int, id: RegionId, j: nat) -> nat
    decreases ring.len() - j,
{
    if j >= ring.len() || vertex_at(ring, start, j as int).across_region != id {
        j
    } else {
        run_end(ring, start, id, j + 1)
    }
}

/// The portal from region `a` to `b` along the given points.
pub open spec fn seam(a: RegionId, b: RegionId, points: Seq<SeamPoint>) -> Seam {
    Seam { a, b, edge: points, max_step2: largest_step(points, points.len()) }
}

/// The portals of a ring from the `i`-th place after `start` on.
pub open spec fn runs_from(
    ring: Seq<ContourVertex>,
    region: RegionId,
    start: int,
    i: nat,
) -> Seq<Seam>
    decreases ring.len() - i,
    via runs_shrink
{
    if i >= ring.len() {
        Seq::empty()
    } else {
        let id = vertex_at(ring, start, i as int).across_region;
        if id == no_region() {
            runs_from(ring, region, start, i + 1)
        } else {
            let end = run_end(ring, start, id, i + 1);
            let rest = runs_from(ring, region, start, end);
            if region.0 < id.0 {
                seq![seam(region, id, stretch(ring, start, i as int, end as int))] + rest
            } else {
                rest
            }
        }
    }
}

#[via_fn]
proof fn runs_shrink(ring: Seq<ContourVertex>, region: RegionId, start: int, i: nat) {
    let id = vertex_at(ring, start, i as int).across_region;
    lemma_run_end(ring, start, id, i + 1);
}

proof fn lemma_run_end(ring: Seq<ContourVertex>, start: int, id: RegionId, j: nat)
    ensures
        run_end(ring, start, id, j) >= j,
        j <= ring.len() ==> run_end(ring, start, id, j) <= ring.len(),
        forall|k: int|
            j <= k < run_end(ring, start, id, j) ==> (#[trigger] vertex_at(
                ring,
                start,
                k,
            )).across_region == id,
    decreases ring.len() - j,
{
    if j < ring.len() && vertex_at(ring, start, j as int).across_region == id {
        lemma_run_end(ring, start, id, j + 1);
    }
}

/// The portals of a ring around `region`: one for each run of edges with the
/// same region across. Where one region lies across every edge, the portal
/// goes all the way round.
pub open spec fn ring_portals(ring: Seq<ContourVertex>, region: RegionId) -> Seq<Seam> {
    if ring.len() == 0 {
        Seq::empty()
    } else {
        match first_start(ring) {
            Some(start) => runs_from(ring, region, start, 0),
            None => {
                let id = ring[0].across_region;
                if region.0 < id.0 {
                    seq![seam(region, id, stretch(ring, 0, 0, ring.len() as int))]
                } else {
                    Seq::empty()
                }
            },
        }
    }
}

/// The portals of the first `n` holes.
pub open spec fn hole_portals(holes: Seq<Seq<ContourVertex>>, region: RegionId, n: nat) -> Seq<Seam>
    decreases n,
{
    if n == 0 {
        Seq::empty()
    } else {
        hole_portals(holes, region, (n - 1) as nat) + ring_portals(holes[n - 1], region)
    }
}

/// The portals of the first `n` regions.
pub open spec fn region_portals(contours: Seq<Rings>, n: nat) -> Seq<Seam>
    decreases n,
{
    if n == 0 {
        Seq::empty()
    } else {
        let id = RegionId((n - 1) as u32);
        let rings = contours[n - 1];
        region_portals(contours, (n - 1) as nat) + ring_portals(rings.outer, id) + hole_portals(
            rings.holes,
            id,
            rings.holes.len(),
        )
    }
}

fn polyline_max_step(points: &Vec<SeamPoint>) -> (step: u64)
    ensures
        step == largest_step(points@, points@.len()),
{
    let mut best: u64 = 0;
    let mut i: usize = 1;
    while i < points.len()
        invariant
            1 <= i,
            i <= points@.len() || (points@.len() == 0 && best == 0),
            best == largest_step(points@, i as nat),
        decreases points.len() - i,
    {
        let (a, b) = (points[i - 1].height2, points[i].height2);
        let step: u64 = if a < b {
            b - a
        } else {
            a - b
        };
        if step > best {
            best = step;
        }
        i += 1;
    }
    best
}

fn turn(start: usize, j: usize, n: usize) -> (i: usize)
    requires
        start < n,
        j <= n,
    ensures
        i == turned(start as int, j as int, n as int),
        i < n,
{
    if j < n - start {
        start + j
    } else {
        j - (n - start)
    }
}

fn copy_stretch(ring: &Vec<ContourVertex>, start: usize, i: usize, j: usize) -> (points: Vec<
    SeamPoint,
>)
    requires
        start < ring@.len(),
        i <= j <= ring@.len(),
    ensures
        points@ == stretch(ring@, start as int, i as int, j as int),
{
    let mut points: Vec<SeamPoint> = Vec::new();
    let mut k: usize = i;
    loop
        invariant
            start < ring@.len(),
            i <= k <= j <= ring@.len(),
            points@.len() == k - i,
            forall|m: int|
                0 <= m < points@.len() ==> #[trigger] points@[m] == point_of(
                    vertex_at(ring@, start as int, i + m),
                ),
        decreases j - k,
    {
        let v = ring[turn(start, k, ring.len())];
        points.push(SeamPoint { col: v.col, row: v.row, height2: v.height2 });
        if k == j {
            assert(points@ =~= stretch(ring@, start as int, i as int, j as int));
            return points;
        }
        k += 1;
    }
}

fn add_portal(out: &mut Vec<Portal>, a: RegionId, b: RegionId, edge: Vec<SeamPoint>)
    ensures
        seams(final(out)@) == if a.0 < b.0 {
            seams(old(out)@).push(seam(a, b, edge@))
        } else {
            seams(old(out)@)
        },
{
    if a.0 < b.0 {
        let ghost before = out@;
        let ghost points = edge@;
        let max_step2: u64 = polyline_max_step(&edge);
        out.push(Portal { a, b, edge, max_step2 });
        assert(seams(out@) =~= seams(before).push(seam(a, b, points)));
    }
}

/// The place where the portals of a ring are counted from, or the number of
/// its vertices.
fn find_start(ring: &Vec<ContourVertex>) -> (start: usize)
    requires
        ring@.len() > 0,
    ensures
        match first_start(ring@) {
            Some(i) => start == i && i < ring@.len(),
            None => start == ring@.len(),
        },
{
    let n: usize = ring.len();
    let mut start: usize = 0;
    while start < n && ring[start].across_region != RegionId::invalid()
        invariant
            n == ring@.len(),
            start <= n,
            first_open(ring@, 0) == first_open(ring@, start as nat),
        decreases n - start,
    {
        start += 1;
    }
    if start < n {
        return start;
    }
    let mut before = ring[n - 1].across_region;
    let mut i: usize = 0;
    while i < n && ring[i].across_region == before
        invariant
            n == ring@.len(),
            i <= n,
            n > 0,
            before == (if i == 0 {
                ring@.last()
            } else {
                ring@[i - 1]
            }).across_region,
            first_change(ring@, 0) == first_change(ring@, i as nat),
        decreases n - i,
    {
        before = ring[i].across_region;
        i += 1;
    }
    i
}

fn extract_portals_from_ring(ring: &Vec<ContourVertex>, region: RegionId, out: &mut Vec<Portal>)
    ensures
        seams(final(out)@) == seams(old(out)@) + ring_portals(ring@, region),
{
    let n: usize = ring.len();
    if n == 0 {
        assert(seams(out@) + Seq::<Seam>::empty() =~= seams(out@));
        return;
    }
    let start: usize = find_start(ring);
    if start == n {
        let id = ring[0].across_region;
        let edge = copy_stretch(ring, 0, 0, n);
        let ghost before = seams(out@);
        add_portal(out, region, id, edge);
        assert(seams(out@) =~= before + ring_portals(ring@, region));
        return;
    }
    let ghost before = seams(out@);
    let mut i: usize = 0;
    while i < n
        invariant
            n == ring@.len(),
            start < n,
            i <= n,
            before == seams(old(out)@),
            seams(out@) + runs_from(ring@, region, start as int, i as nat) == before + runs_from(
                ring@,
                region,
                start as int,
                0,
            ),
        decreases n - i,
    {
        let id = ring[turn(start, i, n)].across_region;
        if id == RegionId::invalid() {
            i += 1;
        } else {
            let mut j: usize = i + 1;
            while j < n && ring[turn(start, j, n)].across_region == id
                invariant
                    n == ring@.len(),
                    start < n,
                    i < j <= n,
                    run_end(ring@, start as int, id, (i + 1) as nat) == run_end(
                        ring@,
                        start as int,
                        id,
                        j as nat,
                    ),
                decreases n - j,
            {
                j += 1;
            }
            let edge = copy_stretch(ring, start, i, j);
            let ghost so_far = seams(out@);
            let ghost rest = runs_from(ring@, region, start as int, j as nat);
            add_portal(out, region, id, edge);
            proof {
                let one = seam(region, id, stretch(ring@, start as int, i as int, j as int));
                assert(so_far + (seq![one] + rest) =~= so_far.push(one) + rest);
            }
            i = j;
        }
    }
    assert(seams(out@) + Seq::<Seam>::empty() =~= seams(out@));
}

/// Every stretch of boundary between two regions, each once.
pub fn extract_portals(contours: &RegionContours) -> (out: Vec<Portal>)
    requires
        contours.contours@.len() <= u32::MAX,
    ensures
        seams(out@) == region_portals(ring_sets(contours.contours@), contours.contours@.len()),
        exists|src: Seq<Source>| #[trigger]
            lists_portals(ring_sets(contours.contours@), seams(out@), src),
{
    let mut out: Vec<Portal> = Vec::new();
    let ghost all = ring_sets(contours.contours@);
    assert(seams(out@) =~= Seq::empty());
    let mut i: usize = 0;
    while i < contours.contours.len()
        invariant
            i <= contours.contours@.len() <= u32::MAX,
            all == ring_sets(contours.contours@),
            seams(out@) == region_portals(all, i as nat),
        decreases contours.contours.len() - i,
    {
        let id = RegionId(i as u32);
        let contour = &contours.contours[i];
        extract_portals_from_ring(&contour.outer, id, &mut out);
        let ghost base = seams(out@);
        let ghost holes = contour@.holes;
        assert(base + Seq::<Seam>::empty() =~= base);
        let mut h: usize = 0;
        while h < contour.holes.len()
            invariant
                h <= contour.holes@.len(),
                holes == contour@.holes,
                seams(out@) == base + hole_portals(holes, id, h as nat),
            decreases contour.holes.len() - h,
        {
            extract_portals_from_ring(&contour.holes[h], id, &mut out);
            h += 1;
            assert(base + hole_portals(holes, id, (h - 1) as nat) + ring_portals(
                holes[h - 1],
                id,
            ) =~= base + hole_portals(holes, id, h as nat));
        }
        i += 1;
    }
    proof {
        let src = every_shared_edge_is_in_a_portal(all);
        assert(lists_portals(all, seams(out@), src));
    }
    out
}

// --- Laws -------------------------------------------------------------------

/// Whether a portal leads from a lower id to a higher one and has at least two
/// points.
pub open spec fn in_order(s: Seam) -> bool {
    s.a.0 < s.b.0 && s.edge.len() >= 2
}

proof fn lemma_runs_in_order(ring: Seq<ContourVertex>, region: RegionId, start: int, i: nat, k: int)
    requires
        0 <= k < runs_from(ring, region, start, i).len(),
    ensures
        in_order(runs_from(ring, region, start, i)[k]),
        runs_from(ring, region, start, i)[k].a == region,
    decreases ring.len() - i,
{
    let id = vertex_at(ring, start, i as int).across_region;
    if id == no_region() {
        lemma_runs_in_order(ring, region, start, i + 1, k);
    } else {
        let end = run_end(ring, start, id, i + 1);
        lemma_run_end(ring, start, id, i + 1);
        if region.0 < id.0 {
            if k > 0 {
                lemma_runs_in_order(ring, region, start, end, k - 1);
            }
        } else {
            lemma_runs_in_order(ring, region, start, end, k);
        }
    }
}

/// Every portal of a ring leads from its region to one with a higher id, along
/// at least two points.
pub proof fn ring_portals_are_in_order(ring: Seq<ContourVertex>, region: RegionId, k: int)
    requires
        0 <= k < ring_portals(ring, region).len(),
    ensures
        in_order(ring_portals(ring, region)[k]),
        ring_portals(ring, region)[k].a == region,
{
    if let Some(start) = first_start(ring) {
        lemma_runs_in_order(ring, region, start, 0, k);
    }
}

proof fn lemma_holes_in_order(holes: Seq<Seq<ContourVertex>>, region: RegionId, n: nat, k: int)
    requires
        0 <= k < hole_portals(holes, region, n).len(),
    ensures
        in_order(hole_portals(holes, region, n)[k]),
    decreases n,
{
    let before = hole_portals(holes, region, (n - 1) as nat);
    if k < before.len() {
        lemma_holes_in_order(holes, region, (n - 1) as nat, k);
    } else {
        ring_portals_are_in_order(holes[n - 1], region, k - before.len());
    }
}

/// Every portal leads from a lower id to a higher one, along at least two
/// points.
pub proof fn portals_are_in_order(contours: Seq<Rings>, n: nat, k: int)
    requires
        0 <= k < region_portals(contours, n).len(),
    ensures
        in_order(region_portals(contours, n)[k]),
    decreases n,
{
    let id = RegionId((n - 1) as u32);
    let rings = contours[n - 1];
    let before = region_portals(contours, (n - 1) as nat);
    let outer = ring_portals(rings.outer, id);
    if k < before.len() {
        portals_are_in_order(contours, (n - 1) as nat, k);
    } else if k < before.len() + outer.len() {
        ring_portals_are_in_order(rings.outer, id, k - before.len());
    } else {
        lemma_holes_in_order(
            rings.holes,
            id,
            rings.holes.len(),
            k - before.len() - outer.len(),
        );
    }
}

// --- Along a seam -----------------------------------------------------------

/// Whether every step along a seam runs along one axis of the grid.
pub open spec fn rectilinear(edge: Seq<SeamPoint>) -> bool {
    forall|i: int|
        0 <= i < edge.len() - 1 ==> (#[trigger] edge[i]).col == edge[i + 1].col || edge[i].row
            == edge[i + 1].row
}

/// The length of the step after point `i` of a rectilinear seam, in cells.
pub open spec fn span(edge: Seq<SeamPoint>, i: int) -> nat {
    let (dc, dr) = (edge[i].col - edge[i + 1].col, edge[i].row - edge[i + 1].row);
    ((if dc < 0 {
        -dc
    } else {
        dc
    }) + (if dr < 0 {
        -dr
    } else {
        dr
    })) as nat
}

/// The length of the first `n` steps of a rectilinear seam.
pub open spec fn paced(edge: Seq<SeamPoint>, n: nat) -> nat
    decreases n,
{
    if n == 0 {
        0
    } else {
        paced(edge, (n - 1) as nat) + span(edge, n - 1)
    }
}

/// The length of a rectilinear seam, in cells.
pub open spec fn seam_length(edge: Seq<SeamPoint>) -> nat {
    if edge.len() == 0 {
        0
    } else {
        paced(edge, (edge.len() - 1) as nat)
    }
}

fn find_span(edge: &Vec<SeamPoint>, i: usize) -> (n: u64)
    requires
        i + 1 < edge@.len() <= 0x7fff_ffff,
    ensures
        n == span(edge@, i as int),
        n <= 2 * u32::MAX,
{
    let (a, b) = (edge[i], edge[i + 1]);
    let dc: u32 = if a.col < b.col {
        b.col - a.col
    } else {
        a.col - b.col
    };
    let dr: u32 = if a.row < b.row {
        b.row - a.row
    } else {
        a.row - b.row
    };
    dc as u64 + dr as u64
}

/// A place along a seam: `num / den` of the way from point `at` to the next.
#[derive(Copy, Clone, Debug, PartialEq, Eq, Structural)]
pub struct SeamPlace {
    pub at: usize,
    pub num: u64,
    pub den: u64,
}

/// Whether `m` is half way along a seam: as far from the
/// beginning as from the end.
pub open spec fn is_half_way(edge: Seq<SeamPoint>, m: SeamPlace) -> bool {
    let (walked, step) = (paced(edge, m.at as nat), span(edge, m.at as int));
    &&& m.at + 1 < edge.len()
    &&& m.den == 2 * step
    &&& 0 < m.num <= m.den
    &&& 2 * walked + m.num == seam_length(edge)
}

/// The end nearer to a place, along the seam: the first of the two where both
/// are as near.
pub open spec fn nearest_end(m: SeamPlace) -> int {
    if 2 * m.num <= m.den {
        m.at as int
    } else {
        m.at + 1
    }
}

proof fn lemma_paced_grows(edge: Seq<SeamPoint>, n: nat, m: nat)
    requires
        n <= m,
    ensures
        paced(edge, n) <= paced(edge, m),
    decreases m,
{
    if n < m {
        lemma_paced_grows(edge, n, (m - 1) as nat);
    }
}

impl Portal {
    /// Whether the seam runs along the grid.
    pub fn is_rectilinear(&self) -> (b: bool)
        ensures
            b == rectilinear(self.edge@),
    {
        let mut i: usize = 1;
        while i < self.edge.len()
            invariant
                1 <= i,
                forall|k: int|
                    0 <= k < i - 1 && k < self.edge@.len() - 1 ==> (#[trigger] self.edge@[k]).col
                        == self.edge@[k + 1].col || self.edge@[k].row == self.edge@[k + 1].row,
            decreases self.edge.len() - i,
        {
            let (a, b) = (self.edge[i - 1], self.edge[i]);
            if a.col != b.col && a.row != b.row {
                assert(self.edge@[i - 1].col != self.edge@[i - 1 + 1].col);
                return false;
            }
            i += 1;
        }
        true
    }

    /// The length of the seam in the plane, in cells.
    pub fn length_xy(&self) -> (n: u64)
        requires
            rectilinear(self.edge@),
            self.edge@.len() <= 0x7fff_ffff,
        ensures
            n == seam_length(self.edge@),
    {
        let mut n: u64 = 0;
        let mut i: usize = 0;
        while i + 1 < self.edge.len()
            invariant
                self.edge@.len() <= 0x7fff_ffff,
                i < self.edge@.len() || (i == 0 && self.edge@.len() == 0),
                n == paced(self.edge@, i as nat),
                n <= i * (2 * u32::MAX),
            decreases self.edge.len() - i,
        {
            n = n + find_span(&self.edge, i);
            i += 1;
        }
        n
    }

    /// The place half way along the seam: none for a seam without points, the
    /// first point for one of no length.
    pub fn midpoint(&self) -> (r: Option<SeamPlace>)
        requires
            rectilinear(self.edge@),
            self.edge@.len() <= 0x7fff_ffff,
        ensures
            match r {
                None => self.edge@.len() == 0,
                Some(m) => {
                    &&& self.edge@.len() > 0
                    &&& if seam_length(self.edge@) == 0 {
                        m.at == 0 && m.num == 0 && m.den == 1
                    } else {
                        is_half_way(self.edge@, m)
                    }
                },
            },
    {
        if self.edge.len() == 0 {
            return None;
        }
        let total: u64 = self.length_xy();
        if total == 0 {
            return Some(SeamPlace { at: 0, num: 0, den: 1 });
        }
        let mut walked: u64 = 0;
        let mut i: usize = 0;
        while i + 1 < self.edge.len()
            invariant
                self.edge@.len() <= 0x7fff_ffff,
                i < self.edge@.len(),
                total == seam_length(self.edge@),
                total <= u64::MAX,
                walked == paced(self.edge@, i as nat),
                2 * walked < total,
            decreases self.edge.len() - i,
        {
            let step: u64 = find_span(&self.edge, i);
            proof {
                lemma_paced_grows(self.edge@, (i + 1) as nat, (self.edge@.len() - 1) as nat);
            }
            // Twice the distance is compared, so nothing is halved.
            if 2 * step >= total - 2 * walked {
                return Some(SeamPlace { at: i, num: total - 2 * walked, den: 2 * step });
            }
            walked = walked + step;
            i += 1;
        }
        Some(SeamPlace { at: 0, num: 0, den: 1 })
    }

    /// The height of the point nearest the place half way along the seam, in
    /// half cells: none for a seam without points, that of the first point for
    /// one of no length.
    pub fn midpoint_height2(&self) -> (h: Option<u64>)
        requires
            rectilinear(self.edge@),
            self.edge@.len() <= 0x7fff_ffff,
        ensures
            h is None <==> self.edge@.len() == 0,
            self.edge@.len() > 0 && seam_length(self.edge@) == 0 ==> h == Some(
                self.edge@[0].height2,
            ),
            forall|m: SeamPlace| #[trigger]
                is_half_way(self.edge@, m) && seam_length(self.edge@) > 0 ==> h == Some(
                    self.edge@[nearest_end(m)].height2,
                ),
    {
        match self.midpoint() {
            None => None,
            Some(m) => {
                proof {
                    assert forall|k: SeamPlace| #[trigger]
                        is_half_way(self.edge@, k) && seam_length(self.edge@) > 0 implies k
                        == m by {
                        half_way_is_one_place(self.edge@, k, m);
                    }
                }
                // `m.num <= m.den`, so the rest of the step is their difference.
                if m.num <= m.den - m.num {
                    Some(self.edge[m.at].height2)
                } else {
                    Some(self.edge[m.at + 1].height2)
                }
            },
        }
    }
}

/// Half way is one place: two places half way along a seam are the same.
pub proof fn half_way_is_one_place(edge: Seq<SeamPoint>, m: SeamPlace, n: SeamPlace)
    requires
        is_half_way(edge, m),
        is_half_way(edge, n),
    ensures
        m == n,
{
    if m.at < n.at {
        lemma_paced_grows(edge, (m.at + 1) as nat, n.at as nat);
    } else if n.at < m.at {
        lemma_paced_grows(edge, (n.at + 1) as nat, m.at as nat);
    }
}

proof fn lemma_stretch_rectilinear(ring: Seq<ContourVertex>, start: int, i: int, j: int)
    requires
        closes_on_grid(ring),
        0 <= start < ring.len(),
        0 <= i <= j <= ring.len(),
    ensures
        rectilinear(stretch(ring, start, i, j)),
{
    let n = ring.len() as int;
    let edge = stretch(ring, start, i, j);
    assert forall|k: int| 0 <= k < edge.len() - 1 implies (#[trigger] edge[k]).col == edge[k
        + 1].col || edge[k].row == edge[k + 1].row by {
        let p = turned(start, i + k, n);
        let q = turned(start, i + k + 1, n);
        assert(edge[k] == point_of(ring[p]) && edge[k + 1] == point_of(ring[q]));
        if p == n - 1 {
            assert(q == 0);
            assert(ring[p] == ring.last());
        } else {
            assert(q == p + 1);
            assert(one_apart(ring[p], ring[p + 1]));
        }
    }
}

proof fn lemma_runs_rectilinear(
    ring: Seq<ContourVertex>,
    region: RegionId,
    start: int,
    i: nat,
    k: int,
)
    requires
        closes_on_grid(ring),
        0 <= start < ring.len(),
        0 <= k < runs_from(ring, region, start, i).len(),
    ensures
        rectilinear(runs_from(ring, region, start, i)[k].edge),
    decreases ring.len() - i,
{
    if i < ring.len() {
        let id = vertex_at(ring, start, i as int).across_region;
        if id == no_region() {
            lemma_runs_rectilinear(ring, region, start, i + 1, k);
        } else {
            let end = run_end(ring, start, id, i + 1);
            lemma_run_end(ring, start, id, i + 1);
            if region.0 < id.0 {
                if k == 0 {
                    lemma_stretch_rectilinear(ring, start, i as int, end as int);
                } else {
                    lemma_runs_rectilinear(ring, region, start, end, k - 1);
                }
            } else {
                lemma_runs_rectilinear(ring, region, start, end, k);
            }
        }
    }
}

proof fn lemma_first_change(ring: Seq<ContourVertex>, i: nat)
    ensures
        first_change(ring, i) matches Some(k) ==> i <= k < ring.len() && changes(ring, k),
        first_change(ring, i) is None ==> forall|k: int|
            i <= k < ring.len() ==> !#[trigger] changes(ring, k),
    decreases ring.len() - i,
{
    if i < ring.len() && !changes(ring, i as int) {
        lemma_first_change(ring, i + 1);
    }
}

proof fn lemma_first_open(ring: Seq<ContourVertex>, i: nat)
    ensures
        first_open(ring, i) matches Some(k) ==> 0 <= k < ring.len() && ring[k].across_region
            == no_region(),
    decreases ring.len() - i,
{
    if i < ring.len() && ring[i as int].across_region != no_region() {
        lemma_first_open(ring, i + 1);
    }
}

/// Every portal of a ring that closes on the grid runs along the grid, so that
/// its length and the place half way along it are whole numbers of half cells.
pub proof fn ring_portals_follow_the_grid(ring: Seq<ContourVertex>, region: RegionId, k: int)
    requires
        closes_on_grid(ring),
        0 <= k < ring_portals(ring, region).len(),
    ensures
        rectilinear(ring_portals(ring, region)[k].edge),
{
    lemma_first_open(ring, 0);
    lemma_first_change(ring, 0);
    match first_start(ring) {
        Some(start) => {
            lemma_runs_rectilinear(ring, region, start, 0, k);
        },
        None => {
            lemma_stretch_rectilinear(ring, 0, 0, ring.len() as int);
        },
    }
}

// --- Runs -------------------------------------------------------------------

/// Whether a portal is a run: the stretch of `ring` from some vertex on, along
/// one or more edges, all with the portal's region across and not going on at
/// either end, or all the way round.
pub open spec fn is_run(ring: Seq<ContourVertex>, s: Seam, from: int, len: int) -> bool {
    let n = ring.len() as int;
    &&& 0 <= from < n
    &&& 1 <= len <= n
    &&& s.edge == stretch(ring, from, 0, len)
    &&& forall|k: int| 0 <= k < len ==> (#[trigger] vertex_at(ring, from, k)).across_region == s.b
    &&& len < n ==> vertex_at(ring, from, len).across_region != s.b && vertex_at(
        ring,
        from,
        n - 1,
    ).across_region != s.b
}

proof fn lemma_run_stops(ring: Seq<ContourVertex>, start: int, id: RegionId, j: nat)
    ensures
        ({
            let end = run_end(ring, start, id, j);
            end < ring.len() ==> vertex_at(ring, start, end as int).across_region != id
        }),
    decreases ring.len() - j,
{
    if j < ring.len() && vertex_at(ring, start, j as int).across_region == id {
        lemma_run_stops(ring, start, id, j + 1);
    }
}

proof fn lemma_runs_are_maximal(
    ring: Seq<ContourVertex>,
    region: RegionId,
    start: int,
    i: nat,
    k: int,
)
    requires
        0 <= start < ring.len(),
        ring[start].across_region == no_region() || changes(ring, start),
        0 <= k < runs_from(ring, region, start, i).len(),
        i < ring.len(),
        i > 0 ==> vertex_at(ring, start, i - 1).across_region != vertex_at(
            ring,
            start,
            i as int,
        ).across_region || vertex_at(ring, start, i as int).across_region == no_region(),
    ensures
        exists|from: int, len: int|
            #[trigger] is_run(ring, runs_from(ring, region, start, i)[k], from, len),
    decreases ring.len() - i,
{
    let n = ring.len() as int;
    let id = vertex_at(ring, start, i as int).across_region;
    assert(runs_from(ring, region, start, n as nat).len() == 0);
    if id == no_region() {
        if i + 1 < n {
            lemma_runs_are_maximal(ring, region, start, i + 1, k);
        }
    } else {
        let end = run_end(ring, start, id, i + 1);
        lemma_run_end(ring, start, id, i + 1);
        lemma_run_stops(ring, start, id, i + 1);
        if region.0 < id.0 && k == 0 {
            let from = turned(start, i as int, n);
            let len = end - i;
            let s = seam(region, id, stretch(ring, start, i as int, end as int));
            assert forall|j: int| 0 <= j <= len implies #[trigger] vertex_at(ring, from, j)
                == vertex_at(ring, start, i + j) by {}
            assert(s.edge =~= stretch(ring, from, 0, len));
            assert forall|j: int| 0 <= j < len implies (#[trigger] vertex_at(
                ring,
                from,
                j,
            )).across_region == s.b by {
                assert(vertex_at(ring, start, i + j).across_region == id);
            }
            if len < n {
                assert(vertex_at(ring, from, n - 1) == if i > 0 {
                    vertex_at(ring, start, i - 1)
                } else if start > 0 {
                    ring[start - 1]
                } else {
                    ring.last()
                });
                if end == n {
                    assert(vertex_at(ring, from, len) == ring[start]);
                    assert(vertex_at(ring, start, n - 1).across_region == id);
                }
            }
            assert(runs_from(ring, region, start, i)[k] == s);
            assert(is_run(ring, s, from, len));
        } else {
            let rest = if region.0 < id.0 {
                k - 1
            } else {
                k
            };
            if end < n {
                assert(vertex_at(ring, start, end - 1).across_region == id);
                lemma_runs_are_maximal(ring, region, start, end, rest);
                assert(runs_from(ring, region, start, i)[k] == runs_from(
                    ring,
                    region,
                    start,
                    end,
                )[rest]);
            }
        }
    }
}

proof fn lemma_unchanged(ring: Seq<ContourVertex>, k: int)
    requires
        0 <= k < ring.len(),
        first_change(ring, 0) is None,
    ensures
        ring[k].across_region == ring[0].across_region,
    decreases k,
{
    if k > 0 {
        lemma_first_change(ring, 0);
        assert(!changes(ring, k));
        lemma_unchanged(ring, k - 1);
    }
}

/// Every portal of a ring is a run of edges with one region across that goes
/// on at neither end, or the whole ring.
pub proof fn ring_portals_are_runs(ring: Seq<ContourVertex>, region: RegionId, k: int)
    requires
        0 <= k < ring_portals(ring, region).len(),
    ensures
        exists|from: int, len: int|
            #[trigger] is_run(ring, ring_portals(ring, region)[k], from, len),
{
    let n = ring.len() as int;
    lemma_first_open(ring, 0);
    lemma_first_change(ring, 0);
    match first_start(ring) {
        Some(start) => {
            lemma_runs_are_maximal(ring, region, start, 0, k);
        },
        None => {
            let s = ring_portals(ring, region)[0];
            assert forall|j: int| 0 <= j < n implies (#[trigger] vertex_at(ring, 0, j)).across_region
                == s.b by {
                lemma_unchanged(ring, j);
            }
            assert(is_run(ring, s, 0, n));
        },
    }
}

proof fn lemma_hole_portals_follow(
    holes: Seq<Seq<ContourVertex>>,
    region: RegionId,
    n: nat,
    k: int,
)
    requires
        n <= holes.len(),
        forall|i: int| 0 <= i < holes.len() ==> closes_on_grid(#[trigger] holes[i]),
        0 <= k < hole_portals(holes, region, n).len(),
    ensures
        rectilinear(hole_portals(holes, region, n)[k].edge),
    decreases n,
{
    let before = hole_portals(holes, region, (n - 1) as nat);
    if k < before.len() {
        lemma_hole_portals_follow(holes, region, (n - 1) as nat, k);
    } else {
        ring_portals_follow_the_grid(holes[n - 1], region, k - before.len());
    }
}

proof fn lemma_region_portals_follow(contours: Seq<Rings>, n: nat, k: int)
    requires
        n <= contours.len(),
        forall|i: int| 0 <= i < contours.len() ==> all_close(#[trigger] contours[i]),
        0 <= k < region_portals(contours, n).len(),
    ensures
        rectilinear(region_portals(contours, n)[k].edge),
    decreases n,
{
    let id = RegionId((n - 1) as u32);
    let rings = contours[n - 1];
    assert(all_close(rings));
    let before = region_portals(contours, (n - 1) as nat);
    let outer = ring_portals(rings.outer, id);
    if k < before.len() {
        lemma_region_portals_follow(contours, (n - 1) as nat, k);
    } else if k < before.len() + outer.len() {
        ring_portals_follow_the_grid(rings.outer, id, k - before.len());
    } else {
        lemma_hole_portals_follow(
            rings.holes,
            id,
            rings.holes.len(),
            k - before.len() - outer.len(),
        );
    }
}

/// Every portal of a field with at most one surface in each column runs along
/// the grid.
pub proof fn portals_follow_the_grid(chf: CompactHeightfield, rm: RegionMap, k: int)
    requires
        matching(chf, rm),
        single_storey(chf),
        ids_below(labels(rm.columns@), rm.region_count as nat),
        0 <= k < region_portals(contours_of(chf, rm), rm.region_count as nat).len(),
    ensures
        rectilinear(region_portals(contours_of(chf, rm), rm.region_count as nat)[k].edge),
{
    let all = contours_of(chf, rm);
    assert forall|i: int| 0 <= i < rm.region_count implies all_close(#[trigger] all[i]) by {
        rings_close(chf, rm, i);
    }
    crate::contour::lemma_contours_count(chf, rm);
    lemma_region_portals_follow(all, rm.region_count as nat, k);
}

// --- All portals ------------------------------------------------------------

/// Where a portal comes from: a run of `len` edges of one ring of a region, from
/// edge `from` on. Ring 0 is the outer one, the others are the holes.
pub struct Source {
    pub region: int,
    pub ring: int,
    pub from: int,
    pub len: int,
}

/// Ring number `j` of a region.
pub open spec fn ring_number(rings: Rings, j: int) -> Seq<ContourVertex> {
    if j == 0 {
        rings.outer
    } else {
        rings.holes[j - 1]
    }
}

/// The place `i` on a ring of `n`, counted on past its end.
pub open spec fn wrapped(i: int, n: int) -> int {
    if i < n {
        i
    } else {
        i - n
    }
}

/// Whether a point of a seam is where a vertex is.
pub open spec fn is_at(p: SeamPoint, v: ContourVertex) -> bool {
    p.col == v.col && p.row == v.row && p.height2 == v.height2
}

/// Whether `step` is the largest height difference between neighboring points.
pub open spec fn is_largest_step(edge: Seq<SeamPoint>, step: u64) -> bool {
    &&& forall|m: int| 0 <= m < edge.len() - 1 ==> #[trigger] rise(edge, m) <= step
    &&& step == 0 || exists|m: int| 0 <= m < edge.len() - 1 && #[trigger] rise(edge, m) == step
}

/// The height difference between a point and the next.
pub open spec fn rise(edge: Seq<SeamPoint>, m: int) -> int {
    let (a, b) = (edge[m].height2 as int, edge[m + 1].height2 as int);
    if a < b {
        b - a
    } else {
        a - b
    }
}

/// Whether a portal from `region` is the run of `len` edges of a ring from edge
/// `from` on: its points are the corners of these edges, its other side lies
/// across all of them, and not across the edges before and after.
pub open spec fn runs_along(
    ring: Seq<ContourVertex>,
    region: RegionId,
    s: Seam,
    from: int,
    len: int,
) -> bool {
    let n = ring.len() as int;
    &&& s.a == region
    &&& region.0 < s.b.0
    &&& s.b != no_region()
    &&& 0 <= from < n
    &&& 1 <= len <= n
    &&& s.edge.len() == len + 1
    &&& forall|m: int| 0 <= m <= len ==> is_at(#[trigger] s.edge[m], ring[wrapped(from + m, n)])
    &&& forall|m: int| 0 <= m < len ==> ring[#[trigger] wrapped(from + m, n)].across_region == s.b
    &&& len < n ==> ring[wrapped(from + len, n)].across_region != s.b
    &&& len < n ==> ring[wrapped(from + n - 1, n)].across_region != s.b
    &&& is_largest_step(s.edge, s.max_step2)
}

/// Whether a run of a ring holds an edge.
pub open spec fn run_holds(from: int, len: int, n: int, e: int) -> bool {
    exists|m: int| 0 <= m < len && #[trigger] wrapped(from + m, n) == e
}

/// Whether an edge of a ring of `region` has a region with a higher id across.
pub open spec fn is_shared_edge(ring: Seq<ContourVertex>, region: RegionId, e: int) -> bool {
    let b = ring[e].across_region;
    0 <= e < ring.len() && b != no_region() && region.0 < b.0
}

/// Whether ring `j` of region `i` exists.
pub open spec fn has_ring(contours: Seq<Rings>, i: int, j: int) -> bool {
    0 <= i < contours.len() && 0 <= j <= contours[i].holes.len()
}

/// Whether the portals are all the runs of all rings, those of `src`: every edge
/// of every ring, holes counted, with a higher region across lies on one portal,
/// and on no second one.
pub open spec fn lists_portals(
    contours: Seq<Rings>,
    out: Seq<Seam>,
    src: Seq<Source>,
) -> bool {
    &&& src.len() == out.len()
    &&& forall|k: int| 0 <= k < out.len() ==> #[trigger] is_source(contours, out[k], src[k])
    &&& forall|j: int, k: int|
        0 <= j < k < src.len() ==> #[trigger] are_apart(contours, src[j], src[k])
    &&& forall|i: int, j: int, e: int|
        has_ring(contours, i, j) && #[trigger] is_shared_edge(
            ring_number(contours[i], j),
            RegionId(i as u32),
            e,
        ) ==> is_listed(contours, src, i, j, e)
}

/// Whether some run holds edge `e` of ring `j` of region `i`.
pub open spec fn is_listed(
    contours: Seq<Rings>,
    src: Seq<Source>,
    i: int,
    j: int,
    e: int,
) -> bool {
    exists|k: int| 0 <= k < src.len() && #[trigger] source_holds(contours, src[k], i, j, e)
}

/// Whether a run holds edge `e` of ring `j` of region `i`.
pub open spec fn source_holds(
    contours: Seq<Rings>,
    s: Source,
    i: int,
    j: int,
    e: int,
) -> bool {
    s.region == i && s.ring == j && run_holds(
        s.from,
        s.len,
        ring_number(contours[i], j).len() as int,
        e,
    )
}

/// Whether a portal is the run that `s` names.
pub open spec fn is_source(contours: Seq<Rings>, out: Seam, s: Source) -> bool {
    &&& has_ring(contours, s.region, s.ring)
    &&& runs_along(
        ring_number(contours[s.region], s.ring),
        RegionId(s.region as u32),
        out,
        s.from,
        s.len,
    )
}

/// Whether two runs have no edge in common.
pub open spec fn are_apart(contours: Seq<Rings>, s: Source, t: Source) -> bool {
    s.region == t.region && s.ring == t.ring ==> forall|e: int| !(#[trigger] source_holds(
        contours,
        s,
        s.region,
        s.ring,
        e,
    ) && source_holds(contours, t, s.region, s.ring, e))
}

proof fn lemma_largest_step(points: Seq<SeamPoint>, n: nat)
    requires
        n <= points.len(),
    ensures
        forall|m: int| 0 <= m < n - 1 ==> #[trigger] rise(points, m) <= largest_step(points, n),
        largest_step(points, n) == 0 || exists|m: int|
            0 <= m < n - 1 && #[trigger] rise(points, m) == largest_step(points, n),
    decreases n,
{
    if n > 1 {
        lemma_largest_step(points, (n - 1) as nat);
        assert(rise(points, n - 2) == height_gap(points[n - 2].height2, points[n - 1].height2));
    }
}

/// Where the runs of a ring lie, counted from `start`: offset and length.
spec fn runs_lie(
    ring: Seq<ContourVertex>,
    region: RegionId,
    start: int,
    i: int,
    list: Seq<Seam>,
    at: Seq<(int, int)>,
) -> bool {
    let n = ring.len() as int;
    &&& at.len() == list.len()
    &&& forall|k: int|
        0 <= k < at.len() ==> i <= (#[trigger] at[k]).0 && 1 <= at[k].1 && at[k].0 + at[k].1 <= n
    &&& forall|k: int|
        0 <= k < at.len() ==> #[trigger] runs_along(
            ring,
            region,
            list[k],
            wrapped(start + at[k].0, n),
            at[k].1,
        )
    &&& forall|j: int, k: int|
        0 <= j < k < at.len() ==> (#[trigger] at[j]).0 + at[j].1 <= (#[trigger] at[k]).0
    &&& forall|o: int|
        i <= o < n && #[trigger] is_shared_edge(ring, region, wrapped(start + o, n))
            ==> is_reached(at, o)
}

/// Whether some run lies over offset `o`.
spec fn is_reached(at: Seq<(int, int)>, o: int) -> bool {
    exists|k: int| 0 <= k < at.len() && (#[trigger] at[k]).0 <= o < at[k].0 + at[k].1
}

#[verifier::spinoff_prover]
#[verifier::rlimit(60)]
proof fn lemma_runs_lie(ring: Seq<ContourVertex>, region: RegionId, start: int, i: nat) -> (at: Seq<
    (int, int),
>)
    requires
        0 <= start < ring.len(),
        ring[start].across_region == no_region() || changes(ring, start),
        i <= ring.len(),
        0 < i < ring.len() ==> vertex_at(ring, start, i - 1).across_region != vertex_at(
            ring,
            start,
            i as int,
        ).across_region || vertex_at(ring, start, i as int).across_region == no_region(),
    ensures
        runs_lie(ring, region, start, i as int, runs_from(ring, region, start, i), at),
    decreases ring.len() - i,
{
    let n = ring.len() as int;
    if i >= n {
        Seq::empty()
    } else {
        let id = vertex_at(ring, start, i as int).across_region;
        let list = runs_from(ring, region, start, i);
        if id == no_region() {
            let at = if i + 1 < n {
                assert(vertex_at(ring, start, i as int).across_region == no_region());
                lemma_runs_lie(ring, region, start, i + 1)
            } else {
                Seq::empty()
            };
            assert(runs_from(ring, region, start, n as nat).len() == 0);
            assert forall|o: int|
                i <= o < n && #[trigger] is_shared_edge(
                    ring,
                    region,
                    wrapped(start + o, n),
                ) implies is_reached(at, o) by {
                if o == i {
                    assert(vertex_at(ring, start, i as int) == ring[wrapped(start + o, n)]);
                }
            }
            at
        } else {
            let end = run_end(ring, start, id, i + 1);
            lemma_run_end(ring, start, id, i + 1);
            lemma_run_stops(ring, start, id, i + 1);
            let rest = runs_from(ring, region, start, end);
            if end < n {
                assert(vertex_at(ring, start, end - 1).across_region == id);
            }
            let more = lemma_runs_lie(ring, region, start, end);
            if region.0 < id.0 {
                let s = seam(region, id, stretch(ring, start, i as int, end as int));
                let from = wrapped(start + i, n);
                let len = end - i;
                let at = seq![(i as int, len)] + more;
                assert(list == seq![s] + rest);
                lemma_run_there(ring, region, start, i as int, end as int, id);
                assert forall|k: int| 0 <= k < at.len() implies #[trigger] runs_along(
                    ring,
                    region,
                    list[k],
                    wrapped(start + at[k].0, n),
                    at[k].1,
                ) by {
                    if k > 0 {
                        assert(at[k] == more[k - 1] && list[k] == rest[k - 1]);
                        assert(runs_along(
                            ring,
                            region,
                            rest[k - 1],
                            wrapped(start + more[k - 1].0, n),
                            more[k - 1].1,
                        ));
                    }
                }
                assert forall|k: int| 0 <= k < at.len() implies i <= (#[trigger] at[k]).0 && 1
                    <= at[k].1 && at[k].0 + at[k].1 <= n by {
                    if k > 0 {
                        assert(at[k] == more[k - 1]);
                    }
                }
                assert forall|j: int, k: int| 0 <= j < k < at.len() implies (#[trigger] at[j]).0
                    + at[j].1 <= (#[trigger] at[k]).0 by {
                    assert(at[k] == more[k - 1]);
                    if j > 0 {
                        assert(at[j] == more[j - 1]);
                    }
                }
                assert forall|o: int|
                    i <= o < n && #[trigger] is_shared_edge(
                        ring,
                        region,
                        wrapped(start + o, n),
                    ) implies is_reached(at, o) by {
                    if o < end {
                        assert(at[0].0 <= o < at[0].0 + at[0].1);
                    } else {
                        assert(is_reached(more, o));
                        let k = choose|k: int|
                            0 <= k < more.len() && (#[trigger] more[k]).0 <= o < more[k].0
                                + more[k].1;
                        assert(at[k + 1] == more[k]);
                    }
                }
                at
            } else {
                assert(list == rest);
                assert forall|o: int|
                    i <= o < n && #[trigger] is_shared_edge(
                        ring,
                        region,
                        wrapped(start + o, n),
                    ) implies is_reached(more, o) by {
                    if o < end {
                        assert(vertex_at(ring, start, o).across_region == id);
                        assert(vertex_at(ring, start, o) == ring[wrapped(start + o, n)]);
                    }
                }
                more
            }
        }
    }
}

/// A run of edges is a portal that runs along them.
#[verifier::spinoff_prover]
proof fn lemma_run_there(
    ring: Seq<ContourVertex>,
    region: RegionId,
    start: int,
    i: int,
    end: int,
    id: RegionId,
)
    requires
        0 <= start < ring.len(),
        0 <= i < end <= ring.len(),
        ring[start].across_region == no_region() || changes(ring, start),
        i > 0 ==> vertex_at(ring, start, i - 1).across_region != id,
        id != no_region(),
        region.0 < id.0,
        forall|k: int| i <= k < end ==> (#[trigger] vertex_at(ring, start, k)).across_region == id,
        end < ring.len() ==> vertex_at(ring, start, end).across_region != id,
    ensures
        runs_along(
            ring,
            region,
            seam(region, id, stretch(ring, start, i, end)),
            wrapped(start + i, ring.len() as int),
            end - i,
        ),
{
    let n = ring.len() as int;
    let s = seam(region, id, stretch(ring, start, i, end));
    let (from, len) = (wrapped(start + i, n), end - i);
    lemma_largest_step(s.edge, s.edge.len());
    assert forall|m: int| 0 <= m <= len implies is_at(
        #[trigger] s.edge[m],
        ring[wrapped(from + m, n)],
    ) by {
        assert(s.edge[m] == point_of(vertex_at(ring, start, i + m)));
    }
    assert forall|m: int| 0 <= m < len implies ring[#[trigger] wrapped(from + m, n)].across_region
        == s.b by {
        assert(vertex_at(ring, start, i + m).across_region == id);
    }
    if len < n {
        let before = ring[wrapped(from + n - 1, n)];
        assert(before == if i > 0 {
            vertex_at(ring, start, i - 1)
        } else if start > 0 {
            ring[start - 1]
        } else {
            ring.last()
        });
        if i == 0 {
            assert(vertex_at(ring, start, 0) == ring[start]);
        }
        if end == n {
            assert(ring[wrapped(from + len, n)] == ring[start]);
            assert(i > 0);
            let last = vertex_at(ring, start, n - 1);
            assert(last.across_region == id);
            assert(last == if start > 0 {
                ring[start - 1]
            } else {
                ring.last()
            });
        } else {
            assert(ring[wrapped(from + len, n)] == vertex_at(ring, start, end));
        }
    }
}

/// The portals of one ring, and the runs that they are.
spec fn ring_lies(
    ring: Seq<ContourVertex>,
    region: RegionId,
    list: Seq<Seam>,
    runs: Seq<(int, int)>,
) -> bool {
    let n = ring.len() as int;
    &&& runs.len() == list.len()
    &&& forall|k: int|
        0 <= k < runs.len() ==> #[trigger] runs_along(
            ring,
            region,
            list[k],
            runs[k].0,
            runs[k].1,
        )
    &&& forall|j: int, k: int, e: int|
        0 <= j < k < runs.len() ==> !(#[trigger] run_holds(runs[j].0, runs[j].1, n, e)
            && #[trigger] run_holds(runs[k].0, runs[k].1, n, e))
    &&& forall|e: int| #[trigger]
        is_shared_edge(ring, region, e) ==> is_in_run(runs, n, e)
}

spec fn is_in_run(runs: Seq<(int, int)>, n: int, e: int) -> bool {
    exists|k: int| 0 <= k < runs.len() && #[trigger] run_holds(runs[k].0, runs[k].1, n, e)
}

#[verifier::spinoff_prover]
#[verifier::rlimit(60)]
proof fn lemma_ring_lies(ring: Seq<ContourVertex>, region: RegionId) -> (runs: Seq<(int, int)>)
    ensures
        ring_lies(ring, region, ring_portals(ring, region), runs),
{
    let n = ring.len() as int;
    let list = ring_portals(ring, region);
    lemma_first_open(ring, 0);
    lemma_first_change(ring, 0);
    if n == 0 {
        Seq::empty()
    } else {
        match first_start(ring) {
            Some(start) => {
                let at = lemma_runs_lie(ring, region, start, 0);
                let runs = Seq::new(
                    at.len(),
                    |k: int| (wrapped(start + at[k].0, n), at[k].1),
                );
                assert forall|k: int| 0 <= k < runs.len() implies #[trigger] runs_along(
                    ring,
                    region,
                    list[k],
                    runs[k].0,
                    runs[k].1,
                ) by {
                    assert(runs_along(ring, region, list[k], wrapped(start + at[k].0, n), at[k].1));
                }
                assert forall|j: int, k: int, e: int| 0 <= j < k < runs.len() implies !(
                #[trigger] run_holds(runs[j].0, runs[j].1, n, e) && #[trigger] run_holds(
                    runs[k].0,
                    runs[k].1,
                    n,
                    e,
                )) by {
                    if run_holds(runs[j].0, runs[j].1, n, e) && run_holds(
                        runs[k].0,
                        runs[k].1,
                        n,
                        e,
                    ) {
                        let a = choose|m: int|
                            0 <= m < runs[j].1 && #[trigger] wrapped(runs[j].0 + m, n) == e;
                        let b = choose|m: int|
                            0 <= m < runs[k].1 && #[trigger] wrapped(runs[k].0 + m, n) == e;
                        assert(at[j].0 + at[j].1 <= at[k].0);
                        assert(at[k].0 + at[k].1 <= n);
                        assert(0 <= at[j].0);
                    }
                }
                assert forall|e: int| #[trigger] is_shared_edge(ring, region, e) implies is_in_run(
                    runs,
                    n,
                    e,
                ) by {
                    let o = if e >= start {
                        e - start
                    } else {
                        e + n - start
                    };
                    assert(wrapped(start + o, n) == e);
                    assert(is_reached(at, o));
                    let k = choose|k: int|
                        0 <= k < at.len() && (#[trigger] at[k]).0 <= o < at[k].0 + at[k].1;
                    assert(wrapped(runs[k].0 + (o - at[k].0), n) == e);
                    assert(run_holds(runs[k].0, runs[k].1, n, e));
                }
                runs
            },
            None => {
                let id = ring[0].across_region;
                assert(id != no_region());
                assert forall|j: int| 0 <= j < n implies (#[trigger] ring[j]).across_region == id by {
                    lemma_unchanged(ring, j);
                }
                if region.0 < id.0 {
                    let runs = seq![(0int, n)];
                    let s = seam(region, id, stretch(ring, 0, 0, n));
                    lemma_largest_step(s.edge, s.edge.len());
                    assert forall|m: int| 0 <= m <= n implies is_at(
                        #[trigger] s.edge[m],
                        ring[wrapped(m, n)],
                    ) by {
                        assert(s.edge[m] == point_of(vertex_at(ring, 0, m)));
                    }
                    assert(runs_along(ring, region, s, 0, n));
                    assert forall|e: int| #[trigger]
                        is_shared_edge(ring, region, e) implies is_in_run(runs, n, e) by {
                        assert(wrapped(runs[0].0 + e, n) == e);
                        assert(run_holds(runs[0].0, runs[0].1, n, e));
                    }
                    runs
                } else {
                    Seq::empty()
                }
            },
        }
    }
}

/// The portals of the first `r` rings of region `i`, after those of the regions
/// before it.
spec fn lists_up_to(
    contours: Seq<Rings>,
    out: Seq<Seam>,
    src: Seq<Source>,
    i: int,
    r: int,
) -> bool {
    &&& src.len() == out.len()
    &&& forall|k: int| 0 <= k < out.len() ==> #[trigger] is_source(contours, out[k], src[k])
    &&& forall|k: int|
        0 <= k < src.len() ==> (#[trigger] src[k]).region < i || (src[k].region == i && src[k].ring
            < r)
    &&& forall|j: int, k: int|
        0 <= j < k < src.len() ==> #[trigger] are_apart(contours, src[j], src[k])
    &&& forall|x: int, y: int, e: int|
        has_ring(contours, x, y) && (x < i || (x == i && y < r)) && #[trigger] is_shared_edge(
            ring_number(contours[x], y),
            RegionId(x as u32),
            e,
        ) ==> is_listed(contours, src, x, y, e)
}

#[verifier::spinoff_prover]
#[verifier::rlimit(60)]
proof fn lemma_next_ring(
    contours: Seq<Rings>,
    out: Seq<Seam>,
    src: Seq<Source>,
    i: int,
    r: int,
) -> (more: Seq<Source>)
    requires
        has_ring(contours, i, r),
        lists_up_to(contours, out, src, i, r),
    ensures
        lists_up_to(
            contours,
            out + ring_portals(ring_number(contours[i], r), RegionId(i as u32)),
            more,
            i,
            r + 1,
        ),
{
    let ring = ring_number(contours[i], r);
    let n = ring.len() as int;
    let region = RegionId(i as u32);
    let list = ring_portals(ring, region);
    let runs = lemma_ring_lies(ring, region);
    let new = Seq::new(
        runs.len(),
        |k: int| Source { region: i, ring: r, from: runs[k].0, len: runs[k].1 },
    );
    let all = src + new;
    let seams = out + list;
    let c = src.len() as int;
    assert forall|k: int| 0 <= k < seams.len() implies #[trigger] is_source(
        contours,
        seams[k],
        all[k],
    ) by {
        if k < c {
            assert(seams[k] == out[k] && all[k] == src[k]);
            assert(is_source(contours, out[k], src[k]));
        } else {
            assert(seams[k] == list[k - c] && all[k] == new[k - c]);
            assert(runs_along(ring, region, list[k - c], runs[k - c].0, runs[k - c].1));
        }
    }
    assert forall|k: int| 0 <= k < all.len() implies (#[trigger] all[k]).region < i || (
    all[k].region == i && all[k].ring < r + 1) by {
        if k < c {
            assert(all[k] == src[k]);
        } else {
            assert(all[k] == new[k - c]);
        }
    }
    assert forall|j: int, k: int| 0 <= j < k < all.len() implies #[trigger] are_apart(
        contours,
        all[j],
        all[k],
    ) by {
        if k < c {
            assert(all[j] == src[j] && all[k] == src[k]);
            assert(are_apart(contours, src[j], src[k]));
        } else {
            assert(all[k] == new[k - c]);
            if j < c {
                assert(all[j] == src[j]);
                assert(src[j].region < i || src[j].ring < r);
            } else {
                assert(all[j] == new[j - c]);
                assert forall|e: int| !(#[trigger] source_holds(contours, all[j], i, r, e)
                    && source_holds(contours, all[k], i, r, e)) by {
                    if source_holds(contours, all[j], i, r, e) && source_holds(
                        contours,
                        all[k],
                        i,
                        r,
                        e,
                    ) {
                        assert(run_holds(runs[j - c].0, runs[j - c].1, n, e));
                        assert(run_holds(runs[k - c].0, runs[k - c].1, n, e));
                    }
                }
            }
        }
    }
    assert forall|x: int, y: int, e: int|
        has_ring(contours, x, y) && (x < i || (x == i && y < r + 1)) && #[trigger] is_shared_edge(
            ring_number(contours[x], y),
            RegionId(x as u32),
            e,
        ) implies is_listed(contours, all, x, y, e) by {
        if x == i && y == r {
            assert(is_in_run(runs, n, e));
            let k = choose|k: int|
                0 <= k < runs.len() && #[trigger] run_holds(runs[k].0, runs[k].1, n, e);
            assert(all[c + k] == new[k]);
            assert(source_holds(contours, all[c + k], x, y, e));
        } else {
            assert(is_listed(contours, src, x, y, e));
            let k = choose|k: int|
                0 <= k < src.len() && #[trigger] source_holds(contours, src[k], x, y, e);
            assert(all[k] == src[k]);
            assert(source_holds(contours, all[k], x, y, e));
        }
    }
    all
}

proof fn lemma_holes_listed(
    contours: Seq<Rings>,
    out: Seq<Seam>,
    src: Seq<Source>,
    i: int,
    h: nat,
) -> (more: Seq<Source>)
    requires
        0 <= i < contours.len(),
        h <= contours[i].holes.len(),
        lists_up_to(contours, out, src, i, 1),
    ensures
        lists_up_to(
            contours,
            out + hole_portals(contours[i].holes, RegionId(i as u32), h),
            more,
            i,
            h as int + 1,
        ),
    decreases h,
{
    let holes = contours[i].holes;
    let region = RegionId(i as u32);
    if h == 0 {
        assert(out + hole_portals(holes, region, 0) =~= out);
        src
    } else {
        let before = lemma_holes_listed(contours, out, src, i, (h - 1) as nat);
        let so_far = out + hole_portals(holes, region, (h - 1) as nat);
        let more = lemma_next_ring(contours, so_far, before, i, h as int);
        assert(ring_number(contours[i], h as int) == holes[h - 1]);
        assert(so_far + ring_portals(holes[h - 1], region) =~= out + hole_portals(
            holes,
            region,
            h,
        ));
        more
    }
}

proof fn lemma_regions_listed(contours: Seq<Rings>, n: nat) -> (src: Seq<Source>)
    requires
        n <= contours.len() <= u32::MAX,
    ensures
        lists_up_to(contours, region_portals(contours, n), src, n as int, 0),
    decreases n,
{
    if n == 0 {
        Seq::empty()
    } else {
        let i = n - 1;
        let region = RegionId(i as u32);
        let rings = contours[i];
        let before = lemma_regions_listed(contours, i as nat);
        let start = region_portals(contours, i as nat);
        let outer = lemma_next_ring(contours, start, before, i, 0);
        let more = lemma_holes_listed(
            contours,
            start + ring_portals(rings.outer, region),
            outer,
            i,
            rings.holes.len(),
        );
        let all = region_portals(contours, n);
        assert(start + ring_portals(rings.outer, region) + hole_portals(
            rings.holes,
            region,
            rings.holes.len(),
        ) =~= all);
        assert forall|x: int, y: int, e: int|
            has_ring(contours, x, y) && (x < n || (x == n && y < 0)) && #[trigger] is_shared_edge(
                ring_number(contours[x], y),
                RegionId(x as u32),
                e,
            ) implies is_listed(contours, more, x, y, e) by {}
        more
    }
}

/// Every edge of every ring, the holes counted, with a region of a higher id
/// across lies on one portal between the two, and on no second one; and every
/// portal is such a run of edges, as long as it can be.
pub proof fn every_shared_edge_is_in_a_portal(contours: Seq<Rings>) -> (src: Seq<Source>)
    requires
        contours.len() <= u32::MAX,
    ensures
        lists_portals(contours, region_portals(contours, contours.len()), src),
{
    let src = lemma_regions_listed(contours, contours.len());
    src
}

} // verus!
