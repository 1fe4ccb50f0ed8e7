//! Boundaries of regions, traced along cell edges in plan view.
//!
//! A contour vertex stands at a corner between cells. Its height counts in
//! half cells, so that the mean of two heights is a whole number. The outer
//! ring of a region runs counter-clockwise, holes run clockwise.

use crate::boundary::{all_bounded, is_walkable_round, rings_hold_every_boundary_edge};
use crate::distance::single_storey;
use crate::output::{no_region, RegionId};
use crate::walkability::{listing, shifted, CompactHeightfield};
use crate::watershed::{cell_in, ids_below, labels, layer_of, shaped, Cell, RegionMap};
use std::collections::HashSet;
use vstd::prelude::*;

verus! {

/// A vertex of a contour, at the corner of cells (`col`, `row`).
#[derive(Copy, Clone, Debug, PartialEq, Eq, Structural)]
pub struct ContourVertex {
    pub col: u32,
    pub row: u32,
    /// Twice the height of the vertex above the grid's floor, in cells.
    pub height2: u64,
    /// The region across the edge from this vertex to the next.
    pub across_region: RegionId,
}

/// The rings around one region.
#[derive(Clone, Debug)]
pub struct RegionContour {
    /// Counter-clockwise outer ring; empty for a region without one.
    pub outer: Vec<ContourVertex>,
    /// Clockwise holes.
    pub holes: Vec<Vec<ContourVertex>>,
}

/// The rings around every region, by region id.
#[derive(Clone, Debug)]
pub struct RegionContours {
    pub region_count: u32,
    pub contours: Vec<RegionContour>,
}

/// The rings around one region, as mathematics.
pub struct Rings {
    pub outer: Seq<ContourVertex>,
    pub holes: Seq<Seq<ContourVertex>>,
}

impl View for RegionContour {
    type V = Rings;

    open spec fn view(&self) -> Rings {
        Rings {
            outer: self.outer@,
            holes: Seq::new(self.holes@.len(), |i: int| self.holes@[i]@),
        }
    }
}

impl RegionContour {
    /// Whether the region has no outer ring.
    pub fn is_empty(&self) -> (b: bool)
        ensures
            b == (self@.outer.len() == 0),
    {
        self.outer.len() == 0
    }
}

// --- Edges ------------------------------------------------------------------

/// The region across the edge of a surface in direction `k`.
pub open spec fn across(chf: CompactHeightfield, rm: RegionMap, cell: Cell, k: int) -> RegionId {
    match chf.neighbor(cell.0, cell.1, cell.2, k) {
        None => no_region(),
        Some(n) => rm.region_of(n.0, n.1, n.2),
    }
}

/// Whether the edge of a surface in direction `k` bounds its region.
pub open spec fn bounds(chf: CompactHeightfield, rm: RegionMap, cell: Cell, k: int) -> bool {
    match chf.neighbor(cell.0, cell.1, cell.2, k) {
        None => true,
        Some(n) => rm.region_of(n.0, n.1, n.2) != rm.region_of(cell.0, cell.1, cell.2),
    }
}

/// The counter-clockwise end of the edge of cell (`c`, `r`) in direction `k`.
pub open spec fn end_corner(c: int, r: int, k: int) -> (int, int) {
    if k == 0 {
        (c + 1, r + 1)
    } else if k == 1 {
        (c, r + 1)
    } else if k == 2 {
        (c, r)
    } else {
        (c + 1, r)
    }
}

/// The counter-clockwise end of an edge: each cell has a corner at its lower
/// left, and edges are walked with the cell on the left.
pub fn edge_end_corner(c: u32, r: u32, k: usize) -> (out: (u32, u32))
    requires
        k < 4,
        c < u32::MAX,
        r < u32::MAX,
    ensures
        (out.0 as int, out.1 as int) == end_corner(c as int, r as int, k as int),
{
    if k == 0 {
        (c + 1, r + 1)
    } else if k == 1 {
        (c, r + 1)
    } else if k == 2 {
        (c, r)
    } else {
        (c + 1, r)
    }
}

/// Twice the height of a boundary edge: the top of the surface, or the mean of
/// the two tops where another region lies across.
pub open spec fn edge_height2(chf: CompactHeightfield, rm: RegionMap, cell: Cell, k: int) -> int {
    let top = layer_of(chf, cell) + 1;
    match chf.neighbor(cell.0, cell.1, cell.2, k) {
        None => 2 * top,
        Some(n) => if across(chf, rm, cell, k) != no_region() {
            top + layer_of(chf, n) + 1
        } else {
            2 * top
        },
    }
}

/// The vertex at the end of a boundary edge, for now with the region across
/// that edge: `labelled` moves each region to the vertex where its edge begins.
pub open spec fn edge_vertex(
    chf: CompactHeightfield,
    rm: RegionMap,
    cell: Cell,
    k: int,
) -> ContourVertex {
    let (col, row) = end_corner(cell.0 as int, cell.1 as int, k);
    ContourVertex {
        col: col as u32,
        row: row as u32,
        height2: edge_height2(chf, rm, cell, k) as u64,
        across_region: across(chf, rm, cell, k),
    }
}

/// A number for each edge of each surface.
pub open spec fn edge_code(cell: Cell, k: int) -> int {
    ((k * 0x1_0000_0000 + cell.2) * 0x1_0000_0000 + cell.1) * 0x1_0000_0000 + cell.0
}

/// Different edges have different numbers.
pub proof fn edge_codes_differ(a: Cell, j: int, b: Cell, k: int)
    requires
        0 <= j,
        0 <= k,
        edge_code(a, j) == edge_code(b, k),
    ensures
        a == b && j == k,
{
}

fn code_of(cell: Cell, k: usize) -> (n: u128)
    requires
        k < 4,
    ensures
        n == edge_code(cell, k as int),
{
    ((k as u128 * 0x1_0000_0000 + cell.2 as u128) * 0x1_0000_0000 + cell.1 as u128)
        * 0x1_0000_0000 + cell.0 as u128
}

/// What a region map needs to be one of a field.
pub open spec fn matching(chf: CompactHeightfield, rm: RegionMap) -> bool {
    &&& chf.wf()
    &&& rm.wf()
    &&& rm.cols == chf.cols
    &&& rm.rows == chf.rows
    &&& shaped(chf, labels(rm.columns@))
}

fn is_boundary_edge(chf: &CompactHeightfield, rm: &RegionMap, cell: Cell, k: usize) -> (b: bool)
    requires
        matching(*chf, *rm),
        k < 4,
    ensures
        b == bounds(*chf, *rm, cell, k as int),
{
    match chf.neighbor_cell(cell.0, cell.1, cell.2, k) {
        None => true,
        Some((nc, nr, ns)) => rm.at(nc, nr, ns) != rm.at(cell.0, cell.1, cell.2),
    }
}

fn neighbor_region(chf: &CompactHeightfield, rm: &RegionMap, cell: Cell, k: usize) -> (id: RegionId)
    requires
        matching(*chf, *rm),
        k < 4,
    ensures
        id == across(*chf, *rm, cell, k as int),
{
    match chf.neighbor_cell(cell.0, cell.1, cell.2, k) {
        None => RegionId::invalid(),
        Some((nc, nr, ns)) => rm.at(nc, nr, ns),
    }
}

fn surface_layer(chf: &CompactHeightfield, cell: Cell) -> (l: u32)
    requires
        chf.wf(),
        cell_in(*chf, cell),
    ensures
        l == layer_of(*chf, cell),
{
    match chf.surface(cell.0, cell.1, cell.2) {
        Some(s) => s.layer,
        None => 0,
    }
}

fn make_vertex(chf: &CompactHeightfield, rm: &RegionMap, cell: Cell, k: usize) -> (v: ContourVertex)
    requires
        matching(*chf, *rm),
        cell_in(*chf, cell),
        k < 4,
    ensures
        v == edge_vertex(*chf, *rm, cell, k as int),
{
    let (col, row) = edge_end_corner(cell.0, cell.1, k);
    let top: u64 = surface_layer(chf, cell) as u64 + 1;
    let id = neighbor_region(chf, rm, cell, k);
    let height2: u64 = match chf.neighbor_cell(cell.0, cell.1, cell.2, k) {
        None => 2 * top,
        Some(n) => if id != RegionId::invalid() {
            top + surface_layer(chf, n) as u64 + 1
        } else {
            2 * top
        },
    };
    ContourVertex { col, row, height2, across_region: id }
}

// --- Walking ----------------------------------------------------------------

/// Where a walk along a boundary stands: on the edge of `cell` in direction
/// `k`, with the vertices and the edges that it has left behind.
pub struct Walk {
    pub cell: Cell,
    pub k: int,
    pub verts: Seq<ContourVertex>,
    pub seen: Set<u128>,
}

/// One step: past a boundary edge, turning left, or over to the neighbor,
/// turning right.
pub open spec fn stepped(chf: CompactHeightfield, rm: RegionMap, w: Walk) -> Walk {
    if bounds(chf, rm, w.cell, w.k) {
        Walk {
            cell: w.cell,
            k: (w.k + 1) % 4,
            verts: w.verts.push(edge_vertex(chf, rm, w.cell, w.k)),
            seen: w.seen.insert(edge_code(w.cell, w.k) as u128),
        }
    } else {
        Walk {
            cell: chf.neighbor(w.cell.0, w.cell.1, w.cell.2, w.k).unwrap(),
            k: (w.k + 3) % 4,
            ..w
        }
    }
}

/// The walk until it is back at its start, at most `steps` steps.
pub open spec fn walked(
    chf: CompactHeightfield,
    rm: RegionMap,
    start: Cell,
    start_k: int,
    w: Walk,
    steps: nat,
) -> Walk
    decreases steps,
{
    if steps == 0 {
        w
    } else {
        let next = stepped(chf, rm, w);
        if next.cell == start && next.k == start_k && next.verts.len() > 0 {
            next
        } else {
            walked(chf, rm, start, start_k, next, (steps - 1) as nat)
        }
    }
}

/// The longest walk that is tried.
pub open spec fn walk_limit(chf: CompactHeightfield) -> nat {
    (chf.cols * chf.rows * 8 + 16) as nat
}

/// A ring whose vertices carry the region across the edge that ends at them,
/// each region moved to the vertex before, where its edge begins.
pub open spec fn labelled(verts: Seq<ContourVertex>) -> Seq<ContourVertex> {
    let n = verts.len() as int;
    Seq::new(
        verts.len(),
        |i: int|
            ContourVertex {
                across_region: if i + 1 < n {
                    verts[i + 1].across_region
                } else {
                    verts[0].across_region
                },
                ..verts[i]
            },
    )
}

/// The contour that starts on the edge of `cell` in direction `k`, and the
/// edges seen with those before.
pub open spec fn contour_from(
    chf: CompactHeightfield,
    rm: RegionMap,
    cell: Cell,
    k: int,
    seen: Set<u128>,
) -> (Seq<ContourVertex>, Set<u128>) {
    let w = walked(
        chf,
        rm,
        cell,
        k,
        Walk { cell, k, verts: Seq::empty(), seen },
        walk_limit(chf),
    );
    (labelled(w.verts), w.seen)
}

/// Whether the corners of a ring are those of a grid's cells.
pub open spec fn on_grid(ring: Seq<ContourVertex>) -> bool {
    forall|i: int|
        0 <= i < ring.len() ==> (#[trigger] ring[i]).col <= i32::MAX && ring[i].row <= i32::MAX
}

/// Move each region from the end of its edge to the beginning.
fn label_edges(verts: &mut Vec<ContourVertex>)
    requires
        on_grid(old(verts)@),
    ensures
        final(verts)@ == labelled(old(verts)@),
        on_grid(final(verts)@),
{
    let n: usize = verts.len();
    if n == 0 {
        assert(verts@ =~= labelled(verts@));
        return;
    }
    let ghost before = verts@;
    let first = verts[0].across_region;
    let mut i: usize = 0;
    while i < n
        invariant
            n == verts@.len(),
            n == before.len(),
            n > 0,
            i <= n,
            first == before[0].across_region,
            on_grid(before),
            forall|j: int| 0 <= j < i ==> #[trigger] verts@[j] == labelled(before)[j],
            forall|j: int| i <= j < n ==> #[trigger] verts@[j] == before[j],
        decreases n - i,
    {
        let mut v = verts[i];
        v.across_region =
        if i + 1 < n {
            verts[i + 1].across_region
        } else {
            first
        };
        verts.set(i, v);
        i += 1;
    }
    assert(verts@ =~= labelled(before));
}

fn walk_contour(
    chf: &CompactHeightfield,
    rm: &RegionMap,
    start: Cell,
    start_k: usize,
    seen: &mut HashSet<u128>,
) -> (verts: Vec<ContourVertex>)
    requires
        matching(*chf, *rm),
        cell_in(*chf, start),
        start_k < 4,
    ensures
        (verts@, final(seen)@) == contour_from(*chf, *rm, start, start_k as int, old(seen)@),
        on_grid(verts@),
{
    broadcast use vstd::std_specs::hash::group_hash_axioms;

    let mut verts: Vec<ContourVertex> = Vec::new();
    let mut cell = start;
    let mut k: usize = start_k;
    let mut left: u64 = chf.cols as u64 * chf.rows as u64 * 8 + 16;
    let ghost whole = contour_from(*chf, *rm, start, start_k as int, seen@);
    while left > 0
        invariant
            matching(*chf, *rm),
            cell_in(*chf, cell),
            k < 4,
            on_grid(verts@),
            whole == contour_from(*chf, *rm, start, start_k as int, old(seen)@),
            ({
                let w = walked(
                    *chf,
                    *rm,
                    start,
                    start_k as int,
                    Walk { cell, k: k as int, verts: verts@, seen: seen@ },
                    left as nat,
                );
                (labelled(w.verts), w.seen) == whole
            }),
        decreases left,
    {
        broadcast use vstd::std_specs::hash::group_hash_axioms;

        if is_boundary_edge(chf, rm, cell, k) {
            let _ = seen.insert(code_of(cell, k));
            verts.push(make_vertex(chf, rm, cell, k));
            k = (k + 1) % 4;
        } else {
            match chf.neighbor_cell(cell.0, cell.1, cell.2, k) {
                None => {
                    assert(false);
                },
                Some(n) => {
                    cell = n;
                },
            }
            k = (k + 3) % 4;
        }
        left -= 1;
        if cell.0 == start.0 && cell.1 == start.1 && cell.2 == start.2 && k == start_k
            && verts.len() > 0 {
            label_edges(&mut verts);
            return verts;
        }
    }
    label_edges(&mut verts);
    verts
}

// --- Areas ------------------------------------------------------------------

/// What the edge from `a` to `b` adds to twice a signed area.
pub open spec fn edge_area2(a: ContourVertex, b: ContourVertex) -> int {
    a.col * b.row - b.col * a.row
}

/// Twice the signed area swept by the first `n` edges of a ring.
pub open spec fn swept2(ring: Seq<ContourVertex>, n: nat) -> int
    decreases n,
{
    if n == 0 {
        0
    } else {
        let next = if n == ring.len() {
            ring[0]
        } else {
            ring[n as int]
        };
        swept2(ring, (n - 1) as nat) + edge_area2(ring[n - 1], next)
    }
}

/// Twice the signed area of a ring, in cells; zero for fewer than three
/// vertices.
pub open spec fn area2(ring: Seq<ContourVertex>) -> int {
    if ring.len() < 3 {
        0
    } else {
        swept2(ring, ring.len())
    }
}

/// Twice the signed area of a ring, in cells.
pub fn signed_area_2d(ring: &Vec<ContourVertex>) -> (a: i128)
    requires
        on_grid(ring@),
    ensures
        a == area2(ring@),
{
    let n: usize = ring.len();
    if n < 3 {
        return 0;
    }
    let mut sum: i128 = 0;
    let mut i: usize = 0;
    while i < n
        invariant
            n == ring@.len(),
            n >= 3,
            i <= n,
            on_grid(ring@),
            sum == swept2(ring@, i as nat),
            -(i as int) * 0x4000_0000_0000_0000 <= sum <= i * 0x4000_0000_0000_0000,
        decreases n - i,
    {
        let v = ring[i];
        let w = if i + 1 == n {
            ring[0]
        } else {
            ring[i + 1]
        };
        proof {
            let (a, b, c, d) = (v.col as int, w.row as int, w.col as int, v.row as int);
            assert(0 <= a * b <= 0x3fff_ffff_ffff_ffff) by (nonlinear_arith)
                requires
                    0 <= a <= 0x7fff_ffff,
                    0 <= b <= 0x7fff_ffff,
            ;
            assert(0 <= c * d <= 0x3fff_ffff_ffff_ffff) by (nonlinear_arith)
                requires
                    0 <= c <= 0x7fff_ffff,
                    0 <= d <= 0x7fff_ffff,
            ;
        }
        sum = sum + ((v.col as i128) * (w.row as i128) - (w.col as i128) * (v.row as i128));
        i += 1;
    }
    sum
}

// --- Gathering --------------------------------------------------------------

/// A ring taken backwards, each edge with the region it had across.
pub open spec fn reversed(ring: Seq<ContourVertex>) -> Seq<ContourVertex> {
    let n = ring.len() as int;
    Seq::new(
        ring.len(),
        |i: int|
            ContourVertex {
                across_region: if i + 1 < n {
                    ring[n - 2 - i].across_region
                } else {
                    ring[n - 1].across_region
                },
                ..ring[n - 1 - i]
            },
    )
}

/// Take a ring backwards, each edge with the region it had across.
pub fn reverse_to_cw(ring: &Vec<ContourVertex>) -> (out: Vec<ContourVertex>)
    requires
        on_grid(ring@),
    ensures
        out@ == reversed(ring@),
        on_grid(out@),
{
    let n: usize = ring.len();
    let mut out: Vec<ContourVertex> = Vec::new();
    let mut i: usize = 0;
    while i < n
        invariant
            n == ring@.len(),
            i <= n,
            on_grid(ring@),
            out@ == reversed(ring@).take(i as int),
        decreases n - i,
    {
        let mut v = ring[n - 1 - i];
        v.across_region =
        if i + 1 < n {
            ring[n - 2 - i].across_region
        } else {
            ring[n - 1].across_region
        };
        out.push(v);
        i += 1;
        assert(reversed(ring@).take(i as int) =~= reversed(ring@).take(i - 1).push(
            reversed(ring@)[i - 1],
        ));
    }
    assert(reversed(ring@).take(n as int) =~= reversed(ring@));
    out
}

/// The rings of a region with one more: a counter-clockwise ring larger than
/// the outer one takes its place, any other counter-clockwise ring is turned
/// round and becomes a hole, and a clockwise one is a hole.
pub open spec fn with_ring(rings: Rings, ring: Seq<ContourVertex>) -> Rings {
    if area2(ring) > 0 {
        if area2(rings.outer) < area2(ring) {
            Rings {
                outer: ring,
                holes: if rings.outer.len() > 0 {
                    rings.holes.push(reversed(rings.outer))
                } else {
                    rings.holes
                },
            }
        } else {
            Rings { holes: rings.holes.push(reversed(ring)), ..rings }
        }
    } else {
        Rings { holes: rings.holes.push(ring), ..rings }
    }
}

/// Rings by region, and the edges seen.
pub type Tracing = (Seq<Rings>, Set<u128>);

/// The tracing after the edges of a surface from direction `k` on: each
/// boundary edge not yet seen starts a ring.
pub open spec fn traced_cell(
    chf: CompactHeightfield,
    rm: RegionMap,
    t: Tracing,
    cell: Cell,
    id: RegionId,
    k: int,
) -> Tracing
    decreases 4 - k,
{
    if k >= 4 {
        t
    } else if t.1.contains(edge_code(cell, k) as u128) || !bounds(chf, rm, cell, k) {
        traced_cell(chf, rm, t, cell, id, k + 1)
    } else {
        let (ring, seen) = contour_from(chf, rm, cell, k, t.1);
        let rings = if ring.len() < 3 {
            t.0
        } else {
            t.0.update(id.0 as int, with_ring(t.0[id.0 as int], ring))
        };
        traced_cell(chf, rm, (rings, seen), cell, id, k + 1)
    }
}

/// The tracing after the first `n` surfaces of a list.
pub open spec fn traced(
    chf: CompactHeightfield,
    rm: RegionMap,
    t: Tracing,
    cells: Seq<(u32, u32, u32, RegionId)>,
    n: nat,
) -> Tracing
    decreases n,
{
    if n == 0 {
        t
    } else {
        let before = traced(chf, rm, t, cells, (n - 1) as nat);
        let (c, r, s, id) = cells[n - 1];
        if id == no_region() {
            before
        } else {
            traced_cell(chf, rm, before, (c, r, s), id, 0)
        }
    }
}

/// The rings around every region of a map.
pub open spec fn contours_of(chf: CompactHeightfield, rm: RegionMap) -> Seq<Rings> {
    let cells = listing(rm.columns@, rm.cols as int, rm.columns@.len());
    let none = Seq::new(
        rm.region_count as nat,
        |i: int| Rings { outer: Seq::empty(), holes: Seq::empty() },
    );
    traced(chf, rm, (none, Set::empty()), cells, cells.len()).0
}

/// Lists of rings as mathematics.
pub open spec fn ring_sets(contours: Seq<RegionContour>) -> Seq<Rings> {
    Seq::new(contours.len(), |i: int| contours[i]@)
}

/// Whether every outer ring is on a grid.
spec fn outers_on_grid(contours: Seq<RegionContour>) -> bool {
    forall|i: int| 0 <= i < contours.len() ==> on_grid((#[trigger] contours[i]).outer@)
}

fn add_ring(contour: &mut RegionContour, ring: Vec<ContourVertex>)
    requires
        on_grid(ring@),
        on_grid(old(contour).outer@),
    ensures
        final(contour)@ == with_ring(old(contour)@, ring@),
        on_grid(final(contour).outer@),
{
    let ghost before = contour@;
    let area: i128 = signed_area_2d(&ring);
    if area > 0 {
        if signed_area_2d(&contour.outer) < area {
            if contour.outer.len() > 0 {
                let turned = reverse_to_cw(&contour.outer);
                contour.holes.push(turned);
            }
            contour.outer = ring;
        } else {
            let turned = reverse_to_cw(&ring);
            contour.holes.push(turned);
        }
    } else {
        contour.holes.push(ring);
    }
    assert(contour@.holes =~= with_ring(before, ring@).holes);
}

fn trace_cell(
    chf: &CompactHeightfield,
    rm: &RegionMap,
    contours: &mut Vec<RegionContour>,
    seen: &mut HashSet<u128>,
    cell: Cell,
    id: RegionId,
)
    requires
        matching(*chf, *rm),
        cell_in(*chf, cell),
        id.0 < old(contours)@.len(),
        outers_on_grid(old(contours)@),
    ensures
        (ring_sets(final(contours)@), final(seen)@) == traced_cell(
            *chf,
            *rm,
            (ring_sets(old(contours)@), old(seen)@),
            cell,
            id,
            0,
        ),
        final(contours)@.len() == old(contours)@.len(),
        outers_on_grid(final(contours)@),
{
    let mut k: usize = 0;
    let ghost whole = traced_cell(*chf, *rm, (ring_sets(contours@), seen@), cell, id, 0);
    while k < 4
        invariant
            matching(*chf, *rm),
            cell_in(*chf, cell),
            k <= 4,
            contours@.len() == old(contours)@.len(),
            id.0 < contours@.len(),
            outers_on_grid(contours@),
            whole == traced_cell(
                *chf,
                *rm,
                (ring_sets(old(contours)@), old(seen)@),
                cell,
                id,
                0,
            ),
            whole == traced_cell(
                *chf,
                *rm,
                (ring_sets(contours@), seen@),
                cell,
                id,
                k as int,
            ),
        decreases 4 - k,
    {
        broadcast use vstd::std_specs::hash::group_hash_axioms;

        if !seen.contains(&code_of(cell, k)) && is_boundary_edge(chf, rm, cell, k) {
            let ring = walk_contour(chf, rm, cell, k, seen);
            if ring.len() >= 3 {
                let ghost before = contours@;
                let ghost r = ring@;
                add_ring(&mut contours[id.index()], ring);
                proof {
                    assert(ring_sets(contours@) =~= ring_sets(before).update(
                        id.0 as int,
                        with_ring(ring_sets(before)[id.0 as int], r),
                    ));
                    assert forall|i: int| 0 <= i < contours@.len() implies on_grid(
                        (#[trigger] contours@[i]).outer@,
                    ) by {
                        if i != id.0 {
                            assert(contours@[i] == before[i]);
                        }
                    }
                }
            }
        }
        k += 1;
    }
}

/// Trace the boundary of every region.
pub fn extract_contours(chf: &CompactHeightfield, rm: &RegionMap) -> (out: RegionContours)
    requires
        matching(*chf, *rm),
        ids_below(labels(rm.columns@), rm.region_count as nat),
    ensures
        out.region_count == rm.region_count,
        ring_sets(out.contours@) == contours_of(*chf, *rm),
        is_walkable_round(*chf) ==> exists|ws: Seq<Seq<Seq<Stand>>>| #[trigger]
            all_bounded(*chf, *rm, ring_sets(out.contours@), ws),
{
    let mut contours: Vec<RegionContour> = Vec::new();
    let mut i: u32 = 0;
    while i < rm.region_count
        invariant
            i <= rm.region_count,
            contours@.len() == i,
            forall|j: int|
                0 <= j < i ==> (#[trigger] contours@[j])@ == (Rings {
                    outer: Seq::empty(),
                    holes: Seq::empty(),
                }) && contours@[j].outer@.len() == 0,
        decreases rm.region_count - i,
    {
        let fresh = RegionContour { outer: Vec::new(), holes: Vec::new() };
        assert(fresh@.holes =~= Seq::empty());
        contours.push(fresh);
        i += 1;
    }
    let mut seen: HashSet<u128> = HashSet::new();
    let cells = rm.iter();
    let ghost start = (ring_sets(contours@), seen@);
    proof {
        assert(ring_sets(contours@) =~= Seq::new(
            rm.region_count as nat,
            |i: int| Rings { outer: Seq::empty(), holes: Seq::empty() },
        ));
        assert(seen@ =~= Set::empty());
    }
    let mut n: usize = 0;
    while n < cells.len()
        invariant
            matching(*chf, *rm),
            ids_below(labels(rm.columns@), rm.region_count as nat),
            n <= cells@.len(),
            cells@ == listing(rm.columns@, rm.cols as int, rm.columns@.len()),
            contours@.len() == rm.region_count,
            outers_on_grid(contours@),
            (ring_sets(contours@), seen@) == traced(*chf, *rm, start, cells@, n as nat),
        decreases cells.len() - n,
    {
        let (c, r, s, id) = cells[n];
        if id != RegionId::invalid() {
            proof {
                lemma_listed(*chf, *rm, rm.columns@.len(), n as int);
            }
            trace_cell(chf, rm, &mut contours, &mut seen, (c, r, s), id);
        }
        n += 1;
    }
    proof {
        if is_walkable_round(*chf) {
            let ws = rings_hold_every_boundary_edge(*chf, *rm);
            assert(all_bounded(*chf, *rm, ring_sets(contours@), ws));
        }
    }
    RegionContours { region_count: rm.region_count, contours }
}

/// The entries of a region map's listing name surfaces of the field.
pub(crate) proof fn lemma_listed(chf: CompactHeightfield, rm: RegionMap, n: nat, j: int)
    requires
        matching(chf, rm),
        n <= rm.columns@.len(),
        0 <= j < listing(rm.columns@, rm.cols as int, n).len(),
    ensures
        ({
            let (c, r, s, id) = listing(rm.columns@, rm.cols as int, n)[j];
            &&& cell_in(chf, (c, r, s))
            &&& id == rm.region_of(c, r, s)
            &&& exists|i: int, t: int|
                0 <= i < rm.columns@.len() && 0 <= t < rm.columns@[i]@.len()
                    && #[trigger] labels(rm.columns@)[i][t] == id
        }),
    decreases n,
{
    let i = n - 1;
    let cols = rm.cols as int;
    let before = listing(rm.columns@, cols, i as nat);
    if j < before.len() {
        lemma_listed(chf, rm, i as nat, j);
    } else {
        crate::walkability::lemma_column_of(cols, rm.rows as int, i);
        let t = j - before.len();
        let (c, r) = ((i % cols) as u32, (i / cols) as u32);
        assert(labels(rm.columns@)[i].len() == chf.columns@[i]@.len());
        assert(chf.surfaces(c, r) == chf.columns@[i]@);
        assert(labels(rm.columns@)[i][t] == rm.columns@[i]@[t]);
    }
}

// --- Laws -------------------------------------------------------------------

proof fn lemma_edge_back(a: ContourVertex, b: ContourVertex)
    ensures
        edge_area2(b, a) == -edge_area2(a, b),
{
    let (ac, ar, bc, br) = (a.col as int, a.row as int, b.col as int, b.row as int);
    assert(bc * ar - ac * br == -(ac * br - bc * ar)) by (nonlinear_arith);
}

proof fn lemma_same_corners(a: ContourVertex, b: ContourVertex, c: ContourVertex, d: ContourVertex)
    requires
        a.col == c.col && a.row == c.row,
        b.col == d.col && b.row == d.row,
    ensures
        edge_area2(a, b) == edge_area2(c, d),
{
}

proof fn lemma_swept_back(ring: Seq<ContourVertex>, k: nat)
    requires
        k < ring.len(),
    ensures
        swept2(reversed(ring), k) == swept2(ring, (ring.len() - 1 - k) as nat) - swept2(
            ring,
            (ring.len() - 1) as nat,
        ),
    decreases k,
{
    let n = ring.len() as int;
    let rev = reversed(ring);
    if k > 0 {
        lemma_swept_back(ring, (k - 1) as nat);
        lemma_same_corners(rev[k - 1], rev[k as int], ring[n - k], ring[n - 1 - k]);
        lemma_edge_back(ring[n - 1 - k], ring[n - k]);
    }
}

/// A ring taken backwards has the opposite area.
pub proof fn area_turns_with_the_contour(ring: Seq<ContourVertex>)
    ensures
        area2(reversed(ring)) == -area2(ring),
{
    let n = ring.len() as int;
    if n >= 3 {
        let rev = reversed(ring);
        lemma_swept_back(ring, (n - 1) as nat);
        lemma_same_corners(rev[n - 1], rev[0], ring[0], ring[n - 1]);
        lemma_edge_back(ring[n - 1], ring[0]);
    }
}

/// Turning a ring round twice gives it back.
pub proof fn turning_twice_gives_the_ring_back(ring: Seq<ContourVertex>)
    ensures
        reversed(reversed(ring)) == ring,
{
    assert(reversed(reversed(ring)) =~= ring);
}

/// Whether the outer ring, where there is one, runs counter-clockwise and no
/// hole does.
pub open spec fn well_turned(rings: Rings) -> bool {
    &&& rings.outer.len() > 0 ==> area2(rings.outer) > 0
    &&& forall|i: int| 0 <= i < rings.holes.len() ==> area2(#[trigger] rings.holes[i]) <= 0
}

proof fn lemma_with_ring_turned(rings: Rings, ring: Seq<ContourVertex>)
    requires
        well_turned(rings),
    ensures
        well_turned(with_ring(rings, ring)),
{
    area_turns_with_the_contour(ring);
    area_turns_with_the_contour(rings.outer);
}

proof fn lemma_cell_turned(
    chf: CompactHeightfield,
    rm: RegionMap,
    t: Tracing,
    cell: Cell,
    id: RegionId,
    k: int,
)
    requires
        forall|i: int| 0 <= i < t.0.len() ==> well_turned(#[trigger] t.0[i]),
        id.0 < t.0.len(),
    ensures
        ({
            let u = traced_cell(chf, rm, t, cell, id, k);
            &&& u.0.len() == t.0.len()
            &&& forall|i: int| 0 <= i < u.0.len() ==> well_turned(#[trigger] u.0[i])
        }),
    decreases 4 - k,
{
    if k >= 4 {
    } else if t.1.contains(edge_code(cell, k) as u128) || !bounds(chf, rm, cell, k) {
        lemma_cell_turned(chf, rm, t, cell, id, k + 1);
    } else {
        let (ring, seen) = contour_from(chf, rm, cell, k, t.1);
        let rings = if ring.len() < 3 {
            t.0
        } else {
            lemma_with_ring_turned(t.0[id.0 as int], ring);
            t.0.update(id.0 as int, with_ring(t.0[id.0 as int], ring))
        };
        lemma_cell_turned(chf, rm, (rings, seen), cell, id, k + 1);
    }
}

proof fn lemma_traced_turned(
    chf: CompactHeightfield,
    rm: RegionMap,
    t: Tracing,
    cells: Seq<(u32, u32, u32, RegionId)>,
    n: nat,
)
    requires
        forall|i: int| 0 <= i < t.0.len() ==> well_turned(#[trigger] t.0[i]),
        n <= cells.len(),
        forall|j: int|
            0 <= j < cells.len() ==> (#[trigger] cells[j]).3 == no_region() || cells[j].3.0
                < t.0.len(),
    ensures
        ({
            let u = traced(chf, rm, t, cells, n);
            &&& u.0.len() == t.0.len()
            &&& forall|i: int| 0 <= i < u.0.len() ==> well_turned(#[trigger] u.0[i])
        }),
    decreases n,
{
    if n > 0 {
        lemma_traced_turned(chf, rm, t, cells, (n - 1) as nat);
        let before = traced(chf, rm, t, cells, (n - 1) as nat);
        let (c, r, s, id) = cells[n - 1];
        if id != no_region() {
            lemma_cell_turned(chf, rm, before, (c, r, s), id, 0);
        }
    }
}

/// The outer ring of every region runs counter-clockwise and no hole does.
pub proof fn rings_run_their_way(chf: CompactHeightfield, rm: RegionMap, id: int)
    requires
        matching(chf, rm),
        ids_below(labels(rm.columns@), rm.region_count as nat),
        0 <= id < rm.region_count,
    ensures
        contours_of(chf, rm).len() == rm.region_count,
        well_turned(contours_of(chf, rm)[id]),
{
    let cells = listing(rm.columns@, rm.cols as int, rm.columns@.len());
    let none = Seq::new(
        rm.region_count as nat,
        |i: int| Rings { outer: Seq::empty(), holes: Seq::empty() },
    );
    assert forall|j: int| 0 <= j < cells.len() implies (#[trigger] cells[j]).3 == no_region()
        || cells[j].3.0 < none.len() by {
        lemma_listed(chf, rm, rm.columns@.len(), j);
    }
    lemma_traced_turned(chf, rm, (none, Set::empty()), cells, cells.len());
}

// --- Steps along the grid ---------------------------------------------------

/// Whether two corners are the ends of one cell edge.
pub open spec fn one_apart(a: ContourVertex, b: ContourVertex) -> bool {
    ||| a.col == b.col && (a.row == b.row + 1 || b.row == a.row + 1)
    ||| a.row == b.row && (a.col == b.col + 1 || b.col == a.col + 1)
}

/// Whether each vertex of a ring is one cell edge from the one before.
pub open spec fn follows_grid(ring: Seq<ContourVertex>) -> bool {
    forall|i: int| 0 <= i < ring.len() - 1 ==> one_apart(#[trigger] ring[i], ring[i + 1])
}

/// Whether each vertex of a ring is one cell edge from the one before, the
/// first from the last.
pub open spec fn closes_on_grid(ring: Seq<ContourVertex>) -> bool {
    &&& follows_grid(ring)
    &&& ring.len() > 0 ==> one_apart(ring.last(), ring[0])
}

/// Whether all rings of a region follow the grid.
pub open spec fn all_follow_grid(rings: Rings) -> bool {
    &&& follows_grid(rings.outer)
    &&& forall|i: int| 0 <= i < rings.holes.len() ==> follows_grid(#[trigger] rings.holes[i])
}

/// Whether a walk stands where its last edge ended.
spec fn stands_at_end(w: Walk) -> bool {
    let (col, row) = end_corner(w.cell.0 as int, w.cell.1 as int, (w.k + 3) % 4);
    w.verts.len() > 0 ==> w.verts.last().col == col && w.verts.last().row == row
}

proof fn lemma_walk_follows(
    chf: CompactHeightfield,
    rm: RegionMap,
    start: Cell,
    start_k: int,
    w: Walk,
    steps: nat,
)
    requires
        matching(chf, rm),
        cell_in(chf, w.cell),
        0 <= w.k < 4,
        follows_grid(w.verts),
        stands_at_end(w),
    ensures
        follows_grid(labelled(walked(chf, rm, start, start_k, w, steps).verts)),
        stands_at_end(walked(chf, rm, start, start_k, w, steps)),
        w.verts.len() > 0 ==> walked(chf, rm, start, start_k, w, steps).verts.len() > 0
            && walked(chf, rm, start, start_k, w, steps).verts[0] == w.verts[0],
    decreases steps,
{
    if steps > 0 {
        let next = stepped(chf, rm, w);
        let (c, r) = (w.cell.0 as int, w.cell.1 as int);
        assert(w.cell.0 < chf.cols && w.cell.1 < chf.rows);
        if bounds(chf, rm, w.cell, w.k) {
            assert forall|i: int| 0 <= i < next.verts.len() - 1 implies one_apart(
                #[trigger] next.verts[i],
                next.verts[i + 1],
            ) by {
                if i < w.verts.len() - 1 {
                    assert(one_apart(w.verts[i], w.verts[i + 1]));
                } else {
                    assert(next.verts[i] == w.verts.last());
                }
            }
            assert((next.k + 3) % 4 == w.k);
        } else {
            let n = chf.neighbor(w.cell.0, w.cell.1, w.cell.2, w.k).unwrap();
            assert(chf.link_fits(
                w.cell.0,
                w.cell.1,
                w.k,
                chf.surfaces(w.cell.0, w.cell.1)[w.cell.2 as int].neighbors[w.k],
            ));
            assert((n.0 as int, n.1 as int) == shifted(c, r, w.k));
            assert(end_corner(n.0 as int, n.1 as int, (next.k + 3) % 4) == end_corner(
                c,
                r,
                (w.k + 3) % 4,
            ));
        }
        lemma_walk_follows(chf, rm, start, start_k, next, (steps - 1) as nat);
    }
}

proof fn lemma_reversed_follows(ring: Seq<ContourVertex>)
    requires
        follows_grid(ring),
    ensures
        follows_grid(reversed(ring)),
{
    let n = ring.len() as int;
    let back = reversed(ring);
    assert forall|i: int| 0 <= i < back.len() - 1 implies one_apart(
        #[trigger] back[i],
        back[i + 1],
    ) by {
        assert(one_apart(ring[n - 2 - i], ring[n - 2 - i + 1]));
    }
}

proof fn lemma_cell_follows(
    chf: CompactHeightfield,
    rm: RegionMap,
    t: Tracing,
    cell: Cell,
    id: RegionId,
    k: int,
)
    requires
        matching(chf, rm),
        cell_in(chf, cell),
        0 <= k,
        forall|i: int| 0 <= i < t.0.len() ==> all_follow_grid(#[trigger] t.0[i]),
        id.0 < t.0.len(),
    ensures
        ({
            let u = traced_cell(chf, rm, t, cell, id, k);
            &&& u.0.len() == t.0.len()
            &&& forall|i: int| 0 <= i < u.0.len() ==> all_follow_grid(#[trigger] u.0[i])
        }),
    decreases 4 - k,
{
    if k >= 4 {
    } else if t.1.contains(edge_code(cell, k) as u128) || !bounds(chf, rm, cell, k) {
        lemma_cell_follows(chf, rm, t, cell, id, k + 1);
    } else {
        let (ring, seen) = contour_from(chf, rm, cell, k, t.1);
        lemma_walk_follows(
            chf,
            rm,
            cell,
            k,
            Walk { cell, k, verts: Seq::empty(), seen: t.1 },
            walk_limit(chf),
        );
        let rings = if ring.len() < 3 {
            t.0
        } else {
            let old_rings = t.0[id.0 as int];
            lemma_reversed_follows(ring);
            lemma_reversed_follows(old_rings.outer);
            assert(all_follow_grid(with_ring(old_rings, ring)));
            t.0.update(id.0 as int, with_ring(old_rings, ring))
        };
        lemma_cell_follows(chf, rm, (rings, seen), cell, id, k + 1);
    }
}

proof fn lemma_traced_follows(
    chf: CompactHeightfield,
    rm: RegionMap,
    t: Tracing,
    cells: Seq<(u32, u32, u32, RegionId)>,
    n: nat,
)
    requires
        matching(chf, rm),
        forall|i: int| 0 <= i < t.0.len() ==> all_follow_grid(#[trigger] t.0[i]),
        n <= cells.len(),
        forall|j: int|
            0 <= j < cells.len() ==> cell_in(
                chf,
                ((#[trigger] cells[j]).0, cells[j].1, cells[j].2),
            ) && (cells[j].3 == no_region() || cells[j].3.0 < t.0.len()),
    ensures
        ({
            let u = traced(chf, rm, t, cells, n);
            &&& u.0.len() == t.0.len()
            &&& forall|i: int| 0 <= i < u.0.len() ==> all_follow_grid(#[trigger] u.0[i])
        }),
    decreases n,
{
    if n > 0 {
        lemma_traced_follows(chf, rm, t, cells, (n - 1) as nat);
        let before = traced(chf, rm, t, cells, (n - 1) as nat);
        let (c, r, s, id) = cells[n - 1];
        if id != no_region() {
            lemma_cell_follows(chf, rm, before, (c, r, s), id, 0);
        }
    }
}

/// The rings of every region go from corner to corner of the grid, one cell
/// edge at a time.
pub proof fn rings_follow_the_grid(chf: CompactHeightfield, rm: RegionMap, id: int)
    requires
        matching(chf, rm),
        ids_below(labels(rm.columns@), rm.region_count as nat),
        0 <= id < rm.region_count,
    ensures
        all_follow_grid(contours_of(chf, rm)[id]),
{
    let cells = listing(rm.columns@, rm.cols as int, rm.columns@.len());
    let none = Seq::new(
        rm.region_count as nat,
        |i: int| Rings { outer: Seq::empty(), holes: Seq::empty() },
    );
    assert forall|j: int| 0 <= j < cells.len() implies cell_in(
        chf,
        ((#[trigger] cells[j]).0, cells[j].1, cells[j].2),
    ) && (cells[j].3 == no_region() || cells[j].3.0 < none.len()) by {
        lemma_listed(chf, rm, rm.columns@.len(), j);
    }
    lemma_traced_follows(chf, rm, (none, Set::empty()), cells, cells.len());
}

// --- Closing ----------------------------------------------------------------

/// The state of a walk: the surface and the direction of its edge.
pub type Stand = (Cell, int);

/// The state after one step.
pub(crate) open spec fn next_stand(chf: CompactHeightfield, rm: RegionMap, a: Stand) -> Stand {
    if bounds(chf, rm, a.0, a.1) {
        (a.0, (a.1 + 1) % 4)
    } else {
        (chf.neighbor(a.0.0, a.0.1, a.0.2, a.1).unwrap(), (a.1 + 3) % 4)
    }
}

/// The state after `n` steps.
pub(crate) open spec fn stand_after(chf: CompactHeightfield, rm: RegionMap, a: Stand, n: nat) -> Stand
    decreases n,
{
    if n == 0 {
        a
    } else {
        next_stand(chf, rm, stand_after(chf, rm, a, (n - 1) as nat))
    }
}

/// Whether a state is on the only surface of its column.
spec fn is_stand(chf: CompactHeightfield, a: Stand) -> bool {
    cell_in(chf, a.0) && a.0.2 == 0 && 0 <= a.1 < 4
}

/// A number for a state, below four times the number of columns.
spec fn stand_number(chf: CompactHeightfield, a: Stand) -> int {
    4 * crate::walkability::column_index(chf.cols as int, a.0.0 as int, a.0.1 as int) + a.1
}

proof fn lemma_next_stand(chf: CompactHeightfield, rm: RegionMap, a: Stand)
    requires
        matching(chf, rm),
        single_storey(chf),
        is_stand(chf, a),
    ensures
        is_stand(chf, next_stand(chf, rm, a)),
{
    if !bounds(chf, rm, a.0, a.1) {
        assert(chf.link_fits(
            a.0.0,
            a.0.1,
            a.1,
            chf.surfaces(a.0.0, a.0.1)[a.0.2 as int].neighbors[a.1],
        ));
        let n = chf.neighbor(a.0.0, a.0.1, a.0.2, a.1).unwrap();
        assert(chf.surfaces(n.0, n.1).len() <= 1);
    }
}

/// Different states have different next ones.
proof fn lemma_steps_apart(chf: CompactHeightfield, rm: RegionMap, a: Stand, b: Stand)
    requires
        matching(chf, rm),
        single_storey(chf),
        is_stand(chf, a),
        is_stand(chf, b),
        next_stand(chf, rm, a) == next_stand(chf, rm, b),
    ensures
        a == b,
{
    lemma_next_stand(chf, rm, a);
    lemma_next_stand(chf, rm, b);
    lemma_link_back(chf, rm, a);
    lemma_link_back(chf, rm, b);
}

/// Where a walk goes over to a neighbor, that neighbor's edge back does not
/// bound the region.
proof fn lemma_link_back(chf: CompactHeightfield, rm: RegionMap, a: Stand)
    requires
        matching(chf, rm),
        single_storey(chf),
        is_stand(chf, a),
    ensures
        ({
            let n = next_stand(chf, rm, a);
            &&& bounds(chf, rm, n.0, (n.1 + 3) % 4) <==> bounds(chf, rm, a.0, a.1)
            &&& !bounds(chf, rm, a.0, a.1) ==> chf.neighbor(
                n.0.0,
                n.0.1,
                n.0.2,
                (n.1 + 3) % 4,
            ) == Some(a.0) && (n.1 + 3) % 4 == (a.1 + 2) % 4
        }),
{
    lemma_next_stand(chf, rm, a);
    if bounds(chf, rm, a.0, a.1) {
        assert((((a.1 + 1) % 4) + 3) % 4 == a.1);
    } else {
        let n = chf.neighbor(a.0.0, a.0.1, a.0.2, a.1).unwrap();
        assert(n.2 == 0);
        assert(chf.neighbor(a.0.0, a.0.1, 0, a.1) == Some((n.0, n.1, 0u32)));
        assert(chf.neighbor(n.0, n.1, 0, (a.1 + 2) % 4) == Some((a.0.0, a.0.1, 0u32)));
        assert((((a.1 + 3) % 4) + 3) % 4 == (a.1 + 2) % 4);
    }
}

proof fn lemma_stand_after(chf: CompactHeightfield, rm: RegionMap, a: Stand, n: nat)
    requires
        matching(chf, rm),
        single_storey(chf),
        is_stand(chf, a),
    ensures
        is_stand(chf, stand_after(chf, rm, a, n)),
    decreases n,
{
    if n > 0 {
        lemma_stand_after(chf, rm, a, (n - 1) as nat);
        lemma_next_stand(chf, rm, stand_after(chf, rm, a, (n - 1) as nat));
    }
}

proof fn lemma_meets_start(chf: CompactHeightfield, rm: RegionMap, a: Stand, i: nat, j: nat)
    requires
        matching(chf, rm),
        single_storey(chf),
        is_stand(chf, a),
        i < j,
        stand_after(chf, rm, a, i) == stand_after(chf, rm, a, j),
    ensures
        stand_after(chf, rm, a, (j - i) as nat) == a,
    decreases i,
{
    if i > 0 {
        lemma_stand_after(chf, rm, a, (i - 1) as nat);
        lemma_stand_after(chf, rm, a, (j - 1) as nat);
        lemma_steps_apart(
            chf,
            rm,
            stand_after(chf, rm, a, (i - 1) as nat),
            stand_after(chf, rm, a, (j - 1) as nat),
        );
        lemma_meets_start(chf, rm, a, (i - 1) as nat, (j - 1) as nat);
    }
}

proof fn lemma_stand_number(chf: CompactHeightfield, a: Stand)
    requires
        chf.wf(),
        is_stand(chf, a),
    ensures
        0 <= stand_number(chf, a) < 4 * chf.columns@.len(),
{
    crate::walkability::lemma_column_bound(
        chf.cols as int,
        chf.rows as int,
        a.0.0 as int,
        a.0.1 as int,
    );
}

proof fn lemma_numbers_apart(chf: CompactHeightfield, a: Stand, b: Stand)
    requires
        chf.wf(),
        is_stand(chf, a),
        is_stand(chf, b),
        stand_number(chf, a) == stand_number(chf, b),
    ensures
        a == b,
{
    crate::walkability::columns_are_apart(
        chf.cols as int,
        a.0.0 as int,
        a.0.1 as int,
        b.0.0 as int,
        b.0.1 as int,
    );
}

/// A walk is back at its start within as many steps as there are states.
proof fn lemma_returns(chf: CompactHeightfield, rm: RegionMap, a: Stand) -> (n: nat)
    requires
        matching(chf, rm),
        single_storey(chf),
        is_stand(chf, a),
    ensures
        0 < n <= 4 * chf.columns@.len(),
        stand_after(chf, rm, a, n) == a,
{
    let total = (4 * chf.columns@.len()) as nat;
    let numbers = Seq::new(
        total + 1,
        |i: int| stand_number(chf, stand_after(chf, rm, a, i as nat)),
    );
    let range = vstd::set_lib::set_int_range(0, total as int);
    assert forall|i: int| 0 <= i < numbers.len() implies range.contains(#[trigger] numbers[i]) by {
        lemma_stand_after(chf, rm, a, i as nat);
        lemma_stand_number(chf, stand_after(chf, rm, a, i as nat));
    }
    if numbers.no_duplicates() {
        numbers.unique_seq_to_set();
        vstd::set_lib::lemma_int_range(0, total as int);
        assert(numbers.to_set().subset_of(range));
        vstd::set_lib::lemma_len_subset(numbers.to_set(), range);
    }
    let (i, j) = choose|i: int, j: int|
        0 <= i < numbers.len() && 0 <= j < numbers.len() && i != j && numbers[i] == numbers[j];
    let (x, y) = if i < j {
        (i, j)
    } else {
        (j, i)
    };
    lemma_stand_after(chf, rm, a, x as nat);
    lemma_stand_after(chf, rm, a, y as nat);
    lemma_numbers_apart(
        chf,
        stand_after(chf, rm, a, x as nat),
        stand_after(chf, rm, a, y as nat),
    );
    lemma_meets_start(chf, rm, a, x as nat, y as nat);
    (y - x) as nat
}

proof fn lemma_walk_ends_at_start(
    chf: CompactHeightfield,
    rm: RegionMap,
    start: Cell,
    start_k: int,
    w: Walk,
    steps: nat,
    done: nat,
    total: nat,
)
    requires
        matching(chf, rm),
        single_storey(chf),
        is_stand(chf, (start, start_k)),
        bounds(chf, rm, start, start_k),
        (w.cell, w.k) == stand_after(chf, rm, (start, start_k), done),
        stand_after(chf, rm, (start, start_k), total) == (start, start_k),
        done < total,
        total - done <= steps,
        done > 0 ==> w.verts.len() > 0,
    ensures
        walked(chf, rm, start, start_k, w, steps).cell == start,
        walked(chf, rm, start, start_k, w, steps).k == start_k,
    decreases steps,
{
    let next = stepped(chf, rm, w);
    assert((next.cell, next.k) == stand_after(chf, rm, (start, start_k), done + 1));
    if !(next.cell == start && next.k == start_k && next.verts.len() > 0) {
        assert(done + 1 < total);
        lemma_walk_ends_at_start(
            chf,
            rm,
            start,
            start_k,
            next,
            (steps - 1) as nat,
            done + 1,
            total,
        );
    }
}

proof fn lemma_contour_closes(
    chf: CompactHeightfield,
    rm: RegionMap,
    cell: Cell,
    k: int,
    seen: Set<u128>,
)
    requires
        matching(chf, rm),
        single_storey(chf),
        cell_in(chf, cell),
        0 <= k < 4,
        bounds(chf, rm, cell, k),
    ensures
        closes_on_grid(contour_from(chf, rm, cell, k, seen).0),
{
    assert(chf.surfaces(cell.0, cell.1).len() <= 1);
    let total = lemma_returns(chf, rm, (cell, k));
    let fresh = Walk { cell, k, verts: Seq::empty(), seen };
    assert(total <= walk_limit(chf));
    lemma_walk_ends_at_start(chf, rm, cell, k, fresh, walk_limit(chf), 0, total);
    lemma_walk_follows(chf, rm, cell, k, fresh, walk_limit(chf));
    let w = walked(chf, rm, cell, k, fresh, walk_limit(chf));
    let one = stepped(chf, rm, fresh);
    assert(one.verts[0] == edge_vertex(chf, rm, cell, k));
    assert(follows_grid(one.verts));
    assert(((k + 1) % 4 + 3) % 4 == k);
    assert(cell.0 < chf.cols && cell.1 < chf.rows);
    assert(stands_at_end(one));
    let left = (walk_limit(chf) - 1) as nat;
    lemma_walk_follows(chf, rm, cell, k, one, left);
    let n = w.verts.len() as int;
    assert(w.verts.len() > 0 && w.verts[0] == one.verts[0]);
    let ring = labelled(w.verts);
    assert(ring.last().col == w.verts.last().col && ring.last().row == w.verts.last().row);
    assert(ring[0].col == w.verts[0].col && ring[0].row == w.verts[0].row);
}

/// Whether all rings of a region close.
pub open spec fn all_close(rings: Rings) -> bool {
    &&& closes_on_grid(rings.outer)
    &&& forall|i: int| 0 <= i < rings.holes.len() ==> closes_on_grid(#[trigger] rings.holes[i])
}

proof fn lemma_reversed_closes(ring: Seq<ContourVertex>)
    requires
        closes_on_grid(ring),
    ensures
        closes_on_grid(reversed(ring)),
{
    lemma_reversed_follows(ring);
}

proof fn lemma_cell_closes(
    chf: CompactHeightfield,
    rm: RegionMap,
    t: Tracing,
    cell: Cell,
    id: RegionId,
    k: int,
)
    requires
        matching(chf, rm),
        single_storey(chf),
        cell_in(chf, cell),
        0 <= k,
        forall|i: int| 0 <= i < t.0.len() ==> all_close(#[trigger] t.0[i]),
        id.0 < t.0.len(),
    ensures
        ({
            let u = traced_cell(chf, rm, t, cell, id, k);
            &&& u.0.len() == t.0.len()
            &&& forall|i: int| 0 <= i < u.0.len() ==> all_close(#[trigger] u.0[i])
        }),
    decreases 4 - k,
{
    if k >= 4 {
    } else if t.1.contains(edge_code(cell, k) as u128) || !bounds(chf, rm, cell, k) {
        lemma_cell_closes(chf, rm, t, cell, id, k + 1);
    } else {
        let (ring, seen) = contour_from(chf, rm, cell, k, t.1);
        lemma_contour_closes(chf, rm, cell, k, t.1);
        let rings = if ring.len() < 3 {
            t.0
        } else {
            let old_rings = t.0[id.0 as int];
            assert(all_close(old_rings));
            lemma_reversed_closes(ring);
            lemma_reversed_closes(old_rings.outer);
            assert(all_close(with_ring(old_rings, ring)));
            t.0.update(id.0 as int, with_ring(old_rings, ring))
        };
        lemma_cell_closes(chf, rm, (rings, seen), cell, id, k + 1);
    }
}

proof fn lemma_traced_closes(
    chf: CompactHeightfield,
    rm: RegionMap,
    t: Tracing,
    cells: Seq<(u32, u32, u32, RegionId)>,
    n: nat,
)
    requires
        matching(chf, rm),
        single_storey(chf),
        forall|i: int| 0 <= i < t.0.len() ==> all_close(#[trigger] t.0[i]),
        n <= cells.len(),
        forall|j: int|
            0 <= j < cells.len() ==> cell_in(
                chf,
                ((#[trigger] cells[j]).0, cells[j].1, cells[j].2),
            ) && (cells[j].3 == no_region() || cells[j].3.0 < t.0.len()),
    ensures
        ({
            let u = traced(chf, rm, t, cells, n);
            &&& u.0.len() == t.0.len()
            &&& forall|i: int| 0 <= i < u.0.len() ==> all_close(#[trigger] u.0[i])
        }),
    decreases n,
{
    if n > 0 {
        lemma_traced_closes(chf, rm, t, cells, (n - 1) as nat);
        let before = traced(chf, rm, t, cells, (n - 1) as nat);
        let (c, r, s, id) = cells[n - 1];
        if id != no_region() {
            lemma_cell_closes(chf, rm, before, (c, r, s), id, 0);
        }
    }
}

pub(crate) proof fn lemma_contours_count(chf: CompactHeightfield, rm: RegionMap)
    requires
        matching(chf, rm),
        ids_below(labels(rm.columns@), rm.region_count as nat),
    ensures
        contours_of(chf, rm).len() == rm.region_count,
{
    let cells = listing(rm.columns@, rm.cols as int, rm.columns@.len());
    let none = Seq::new(
        rm.region_count as nat,
        |i: int| Rings { outer: Seq::empty(), holes: Seq::empty() },
    );
    assert forall|j: int| 0 <= j < cells.len() implies (#[trigger] cells[j]).3 == no_region()
        || cells[j].3.0 < none.len() by {
        lemma_listed(chf, rm, rm.columns@.len(), j);
    }
    lemma_traced_turned(chf, rm, (none, Set::empty()), cells, cells.len());
}

/// Where every column has at most one surface and links lead back, the rings
/// of every region close: each goes along the grid back to where it started.
pub proof fn rings_close(chf: CompactHeightfield, rm: RegionMap, id: int)
    requires
        matching(chf, rm),
        single_storey(chf),
        ids_below(labels(rm.columns@), rm.region_count as nat),
        0 <= id < rm.region_count,
    ensures
        all_close(contours_of(chf, rm)[id]),
{
    let cells = listing(rm.columns@, rm.cols as int, rm.columns@.len());
    let none = Seq::new(
        rm.region_count as nat,
        |i: int| Rings { outer: Seq::empty(), holes: Seq::empty() },
    );
    assert forall|j: int| 0 <= j < cells.len() implies cell_in(
        chf,
        ((#[trigger] cells[j]).0, cells[j].1, cells[j].2),
    ) && (cells[j].3 == no_region() || cells[j].3.0 < none.len()) by {
        lemma_listed(chf, rm, rm.columns@.len(), j);
    }
    lemma_traced_closes(chf, rm, (none, Set::empty()), cells, cells.len());
}

// --- Regions across ---------------------------------------------------------

/// Whether no edge of a ring has the region `id` across.
pub open spec fn faces_away(ring: Seq<ContourVertex>, id: RegionId) -> bool {
    forall|i: int| 0 <= i < ring.len() ==> (#[trigger] ring[i]).across_region != id
}

/// Whether no edge of any ring has the region `id` across.
pub open spec fn all_face_away(rings: Rings, id: RegionId) -> bool {
    &&& faces_away(rings.outer, id)
    &&& forall|i: int| 0 <= i < rings.holes.len() ==> faces_away(#[trigger] rings.holes[i], id)
}

proof fn lemma_walk_faces_away(
    chf: CompactHeightfield,
    rm: RegionMap,
    start: Cell,
    start_k: int,
    w: Walk,
    steps: nat,
    id: RegionId,
)
    requires
        id != no_region(),
        rm.region_of(w.cell.0, w.cell.1, w.cell.2) == id,
        faces_away(w.verts, id),
    ensures
        faces_away(labelled(walked(chf, rm, start, start_k, w, steps).verts), id),
    decreases steps,
{
    if steps > 0 {
        let next = stepped(chf, rm, w);
        assert(faces_away(next.verts, id));
        assert(faces_away(labelled(next.verts), id));
        lemma_walk_faces_away(chf, rm, start, start_k, next, (steps - 1) as nat, id);
    }
}

proof fn lemma_cell_faces_away(
    chf: CompactHeightfield,
    rm: RegionMap,
    t: Tracing,
    cell: Cell,
    id: RegionId,
    k: int,
)
    requires
        id != no_region(),
        rm.region_of(cell.0, cell.1, cell.2) == id,
        id.0 < t.0.len(),
        forall|i: int| 0 <= i < t.0.len() ==> all_face_away(#[trigger] t.0[i], RegionId(i as u32)),
    ensures
        ({
            let u = traced_cell(chf, rm, t, cell, id, k);
            &&& u.0.len() == t.0.len()
            &&& forall|i: int|
                0 <= i < u.0.len() ==> all_face_away(#[trigger] u.0[i], RegionId(i as u32))
        }),
    decreases 4 - k,
{
    if k >= 4 {
    } else if t.1.contains(edge_code(cell, k) as u128) || !bounds(chf, rm, cell, k) {
        lemma_cell_faces_away(chf, rm, t, cell, id, k + 1);
    } else {
        let (ring, seen) = contour_from(chf, rm, cell, k, t.1);
        lemma_walk_faces_away(
            chf,
            rm,
            cell,
            k,
            Walk { cell, k, verts: Seq::empty(), seen: t.1 },
            walk_limit(chf),
            id,
        );
        let rings = if ring.len() < 3 {
            t.0
        } else {
            let old_rings = t.0[id.0 as int];
            assert(all_face_away(old_rings, id));
            assert(faces_away(reversed(ring), id));
            assert(faces_away(reversed(old_rings.outer), id));
            assert(all_face_away(with_ring(old_rings, ring), id));
            t.0.update(id.0 as int, with_ring(old_rings, ring))
        };
        lemma_cell_faces_away(chf, rm, (rings, seen), cell, id, k + 1);
    }
}

proof fn lemma_traced_faces_away(
    chf: CompactHeightfield,
    rm: RegionMap,
    t: Tracing,
    cells: Seq<(u32, u32, u32, RegionId)>,
    n: nat,
)
    requires
        forall|i: int| 0 <= i < t.0.len() ==> all_face_away(#[trigger] t.0[i], RegionId(i as u32)),
        n <= cells.len(),
        forall|j: int|
            0 <= j < cells.len() ==> ((#[trigger] cells[j]).3 == no_region() || cells[j].3.0
                < t.0.len()) && rm.region_of(cells[j].0, cells[j].1, cells[j].2) == cells[j].3,
    ensures
        ({
            let u = traced(chf, rm, t, cells, n);
            &&& u.0.len() == t.0.len()
            &&& forall|i: int|
                0 <= i < u.0.len() ==> all_face_away(#[trigger] u.0[i], RegionId(i as u32))
        }),
    decreases n,
{
    if n > 0 {
        lemma_traced_faces_away(chf, rm, t, cells, (n - 1) as nat);
        let before = traced(chf, rm, t, cells, (n - 1) as nat);
        let (c, r, s, id) = cells[n - 1];
        if id != no_region() {
            lemma_cell_faces_away(chf, rm, before, (c, r, s), id, 0);
        }
    }
}

/// The region across an edge of a ring is never the region that the ring goes
/// round.
pub proof fn rings_face_other_regions(chf: CompactHeightfield, rm: RegionMap, id: int)
    requires
        matching(chf, rm),
        ids_below(labels(rm.columns@), rm.region_count as nat),
        0 <= id < rm.region_count,
    ensures
        all_face_away(contours_of(chf, rm)[id], RegionId(id as u32)),
{
    let cells = listing(rm.columns@, rm.cols as int, rm.columns@.len());
    let none = Seq::new(
        rm.region_count as nat,
        |i: int| Rings { outer: Seq::empty(), holes: Seq::empty() },
    );
    assert forall|j: int| 0 <= j < cells.len() implies ((#[trigger] cells[j]).3 == no_region()
        || cells[j].3.0 < none.len()) && rm.region_of(cells[j].0, cells[j].1, cells[j].2)
        == cells[j].3 by {
        lemma_listed(chf, rm, rm.columns@.len(), j);
    }
    lemma_traced_faces_away(chf, rm, (none, Set::empty()), cells, cells.len());
}

// --- Cells inside a ring ----------------------------------------------------

/// Whether the edge from `a` to `b`, along the grid, is met by the way from the
/// middle of cell (`c`, `r`) to the right.
pub open spec fn is_met(a: ContourVertex, b: ContourVertex, c: int, r: int) -> bool {
    (a.row <= r) != (b.row <= r) && a.col > c
}

/// How many of the first `n` edges of a ring are met from the middle of a cell.
pub open spec fn met_count(ring: Seq<ContourVertex>, c: int, r: int, n: nat) -> nat
    decreases n,
{
    if n == 0 {
        0
    } else {
        let next = if n == ring.len() {
            ring[0]
        } else {
            ring[n as int]
        };
        met_count(ring, c, r, (n - 1) as nat) + if is_met(ring[n - 1], next, c, r) {
            1nat
        } else {
            0
        }
    }
}

/// Whether a ring along the grid holds cell (`c`, `r`): the way from its middle
/// to the right meets an odd number of edges.
pub open spec fn holds_cell(ring: Seq<ContourVertex>, c: int, r: int) -> bool {
    met_count(ring, c, r, ring.len()) % 2 == 1
}

/// Whether cell (`c`, `r`) has a vertex at a corner.
pub open spec fn is_beside(v: ContourVertex, c: int, r: int) -> bool {
    (c == v.col || c == v.col - 1) && (r == v.row || r == v.row - 1)
}

/// Whether cell (`c`, `r`) is inside a ring along the grid, beside one of its
/// vertices.
pub open spec fn is_inner_cell(ring: Seq<ContourVertex>, c: u32, r: u32) -> bool {
    holds_cell(ring, c as int, r as int) && exists|i: int|
        0 <= i < ring.len() && is_beside(#[trigger] ring[i], c as int, r as int)
}

/// Whether a ring along the grid holds a cell.
pub fn does_hold_cell(ring: &Vec<ContourVertex>, c: u32, r: u32) -> (b: bool)
    ensures
        b == holds_cell(ring@, c as int, r as int),
{
    let n: usize = ring.len();
    let mut odd: bool = false;
    let mut i: usize = 0;
    while i < n
        invariant
            n == ring@.len(),
            i <= n,
            odd == (met_count(ring@, c as int, r as int, i as nat) % 2 == 1),
        decreases n - i,
    {
        let a = ring[i];
        let b = if i + 1 == n {
            ring[0]
        } else {
            ring[i + 1]
        };
        if (a.row <= r) != (b.row <= r) && a.col > c {
            odd = !odd;
        }
        i += 1;
    }
    odd
}

/// A cell inside a ring along the grid, beside one of its vertices: none where
/// no such cell is inside.
pub fn find_inner_cell(ring: &Vec<ContourVertex>) -> (cell: Option<(u32, u32)>)
    ensures
        match cell {
            Some((c, r)) => is_inner_cell(ring@, c, r),
            None => forall|c: u32, r: u32| !#[trigger] is_inner_cell(ring@, c, r),
        },
{
    let mut i: usize = 0;
    while i < ring.len()
        invariant
            i <= ring@.len(),
            forall|j: int, c: u32, r: u32|
                0 <= j < i && #[trigger] is_beside(ring@[j], c as int, r as int) ==> !holds_cell(
                    ring@,
                    c as int,
                    r as int,
                ),
        decreases ring.len() - i,
    {
        let v = ring[i];
        if does_hold_cell(ring, v.col, v.row) {
            assert(is_beside(ring@[i as int], v.col as int, v.row as int));
            return Some((v.col, v.row));
        }
        if v.col > 0 && does_hold_cell(ring, v.col - 1, v.row) {
            assert(is_beside(ring@[i as int], v.col - 1, v.row as int));
            return Some((v.col - 1, v.row));
        }
        if v.row > 0 && does_hold_cell(ring, v.col, v.row - 1) {
            assert(is_beside(ring@[i as int], v.col as int, v.row - 1));
            return Some((v.col, v.row - 1));
        }
        if v.col > 0 && v.row > 0 && does_hold_cell(ring, v.col - 1, v.row - 1) {
            assert(is_beside(ring@[i as int], v.col - 1, v.row - 1));
            return Some((v.col - 1, v.row - 1));
        }
        i += 1;
    }
    None
}

// --- Rings cut in two -------------------------------------------------------

/// The vertices of a ring up to the one at `i`.
pub open spec fn front_part(ring: Seq<ContourVertex>, i: int) -> Seq<ContourVertex> {
    ring.take(i + 1)
}

/// The first vertex of a ring and those from the one at `i` on.
pub open spec fn back_part(ring: Seq<ContourVertex>, i: int) -> Seq<ContourVertex> {
    seq![ring[0]] + ring.skip(i)
}

proof fn lemma_front_part(ring: Seq<ContourVertex>, i: int, c: int, r: int, k: nat)
    requires
        0 < i < ring.len(),
        k <= i,
    ensures
        swept2(front_part(ring, i), k) == swept2(ring, k),
        met_count(front_part(ring, i), c, r, k) == met_count(ring, c, r, k),
    decreases k,
{
    if k > 0 {
        lemma_front_part(ring, i, c, r, (k - 1) as nat);
    }
}

proof fn lemma_back_part(ring: Seq<ContourVertex>, i: int, c: int, r: int, k: nat)
    requires
        0 < i < ring.len(),
        k <= ring.len() - i,
    ensures
        swept2(back_part(ring, i), k + 1) + swept2(ring, i as nat) == edge_area2(ring[0], ring[i])
            + swept2(ring, (i + k) as nat),
        met_count(back_part(ring, i), c, r, k + 1) + met_count(ring, c, r, i as nat) == (
        if is_met(ring[0], ring[i], c, r) {
            1int
        } else {
            0
        }) + met_count(ring, c, r, (i + k) as nat),
    decreases k,
{
    let part = back_part(ring, i);
    assert(part[0] == ring[0] && part[1] == ring[i]);
    if k > 0 {
        lemma_back_part(ring, i, c, r, (k - 1) as nat);
        assert(part[k as int] == ring[i + k - 1]);
        if i + k < ring.len() {
            assert(part[(k + 1) as int] == ring[i + k]);
        }
    } else {
        assert(swept2(part, 0) == 0);
        assert(met_count(part, c, r, 0) == 0);
    }
}

/// The area of a ring is that of the two parts into which a way between two of
/// its vertices cuts it.
pub proof fn areas_split_along_chords(ring: Seq<ContourVertex>, i: int)
    requires
        2 <= i <= ring.len() - 2,
    ensures
        area2(ring) == area2(front_part(ring, i)) + area2(back_part(ring, i)),
{
    let (front, back) = (front_part(ring, i), back_part(ring, i));
    lemma_front_part(ring, i, 0, 0, i as nat);
    lemma_back_part(ring, i, 0, 0, (ring.len() - i) as nat);
    assert(front[i] == ring[i] && front[0] == ring[0]);
    assert(front.len() == i + 1 && back.len() == ring.len() - i + 1);
    assert(swept2(front, (i + 1) as nat) == swept2(front, i as nat) + edge_area2(ring[i], ring[0]));
    lemma_edge_back(ring[0], ring[i]);
}

/// The area of a triangle, counter-clockwise counted positive.
pub proof fn areas_of_triangles(a: ContourVertex, b: ContourVertex, c: ContourVertex)
    ensures
        area2(seq![a, b, c]) == (b.col - a.col) * (c.row - a.row) - (b.row - a.row) * (c.col - a.col),
{
    let ring = seq![a, b, c];
    reveal_with_fuel(swept2, 4);
    let (ax, ay, bx, by, cx, cy) = (
        a.col as int,
        a.row as int,
        b.col as int,
        b.row as int,
        c.col as int,
        c.row as int,
    );
    assert((ax * by - bx * ay) + (bx * cy - cx * by) + (cx * ay - ax * cy) == (bx - ax) * (cy - ay)
        - (by - ay) * (cx - ax)) by (nonlinear_arith);
}

/// A ring that is cut in two along the grid holds the cells that one of the two
/// parts holds and the other does not.
pub proof fn held_cells_split_along_chords(ring: Seq<ContourVertex>, i: int, c: int, r: int)
    requires
        0 < i < ring.len(),
        ring[0].col == ring[i].col || ring[0].row == ring[i].row,
    ensures
        holds_cell(ring, c, r) == (holds_cell(front_part(ring, i), c, r) != holds_cell(
            back_part(ring, i),
            c,
            r,
        )),
{
    let (front, back) = (front_part(ring, i), back_part(ring, i));
    lemma_front_part(ring, i, c, r, i as nat);
    lemma_back_part(ring, i, c, r, (ring.len() - i) as nat);
    assert(front[i] == ring[i] && front[0] == ring[0]);
    assert(front.len() == i + 1 && back.len() == ring.len() - i + 1);
    assert(is_met(ring[i], ring[0], c, r) == is_met(ring[0], ring[i], c, r));
    let last = if is_met(ring[i], ring[0], c, r) {
        1nat
    } else {
        0nat
    };
    assert(met_count(front, c, r, (i + 1) as nat) == met_count(front, c, r, i as nat) + last);
}

/// A rectangle holds the cells between its sides, and no others.
pub proof fn rectangles_hold_their_cells(ring: Seq<ContourVertex>, c: int, r: int)
    requires
        ring.len() == 4,
        ring[0].row == ring[1].row,
        ring[1].col == ring[2].col,
        ring[2].row == ring[3].row,
        ring[3].col == ring[0].col,
        ring[0].col <= ring[2].col,
        ring[0].row <= ring[2].row,
    ensures
        holds_cell(ring, c, r) == (ring[0].col <= c < ring[2].col && ring[0].row <= r < ring[2].row),
{
    reveal_with_fuel(met_count, 5);
}

} // verus!
