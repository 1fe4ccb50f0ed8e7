//! The rings of a region hold every edge that bounds it.

use crate::contour::{
    area2, area_turns_with_the_contour, bounds, contour_from, contours_of, edge_code,
    edge_codes_differ, edge_vertex, labelled, lemma_listed, matching, next_stand, reversed,
    stand_after, stepped, traced, traced_cell, walk_limit, walked, with_ring, ContourVertex, Rings,
    Stand, Tracing, Walk,
};
use crate::distance::single_storey;
use crate::output::{no_region, RegionId};
use crate::walkability::{column_index, listing, shifted, CompactHeightfield};
use crate::watershed::{cell_in, ids_below, labels, layer_of, RegionMap};
use vstd::prelude::*;

verus! {

// --- Edges that bound a region ----------------------------------------------

/// Whether the edge of a surface in one of the four directions bounds its region:
/// nothing is linked across it, or a surface of another region.
pub open spec fn parts(chf: CompactHeightfield, rm: RegionMap, e: Stand) -> bool {
    let cell = e.0;
    &&& chf.has(cell.0, cell.1, cell.2)
    &&& 0 <= e.1 < 4
    &&& match chf.neighbor(cell.0, cell.1, cell.2, e.1) {
        None => true,
        Some(n) => rm.region_of(n.0, n.1, n.2) != rm.region_of(cell.0, cell.1, cell.2),
    }
}

/// The corner at which the edge of a cell begins, with the cell on its left.
pub open spec fn from_corner(e: Stand) -> (int, int) {
    let (c, r) = (e.0.0 as int, e.0.1 as int);
    if e.1 == 0 {
        (c + 1, r)
    } else if e.1 == 1 {
        (c + 1, r + 1)
    } else if e.1 == 2 {
        (c, r + 1)
    } else {
        (c, r)
    }
}

/// The corner at which the edge of a cell ends, with the cell on its left.
pub open spec fn to_corner(e: Stand) -> (int, int) {
    let (c, r) = (e.0.0 as int, e.0.1 as int);
    if e.1 == 0 {
        (c + 1, r + 1)
    } else if e.1 == 1 {
        (c, r + 1)
    } else if e.1 == 2 {
        (c, r)
    } else {
        (c + 1, r)
    }
}

/// The region beyond an edge.
pub open spec fn beyond(chf: CompactHeightfield, rm: RegionMap, e: Stand) -> RegionId {
    match chf.neighbor(e.0.0, e.0.1, e.0.2, e.1) {
        None => no_region(),
        Some(n) => rm.region_of(n.0, n.1, n.2),
    }
}

/// Twice the height of an edge: the top of its surface, or half way between that
/// and the top of the surface across where that has a region.
pub open spec fn edge_top2(chf: CompactHeightfield, rm: RegionMap, e: Stand) -> int {
    let top = chf.surfaces(e.0.0, e.0.1)[e.0.2 as int].layer + 1;
    match chf.neighbor(e.0.0, e.0.1, e.0.2, e.1) {
        None => 2 * top,
        Some(n) => if rm.region_of(n.0, n.1, n.2) == no_region() {
            2 * top
        } else {
            top + chf.surfaces(n.0, n.1)[n.2 as int].layer + 1
        },
    }
}

/// Whether a vertex stands at a corner.
pub open spec fn stands_at(v: ContourVertex, corner: (int, int)) -> bool {
    v.col == corner.0 && v.row == corner.1
}

/// The vertex after vertex `i` of a ring.
pub open spec fn next_vertex(ring: Seq<ContourVertex>, i: int) -> ContourVertex {
    if i + 1 == ring.len() {
        ring[0]
    } else {
        ring[i + 1]
    }
}

/// Whether the edge of a ring from vertex `i` on is `e`, with the region on its
/// left.
pub open spec fn is_along(
    chf: CompactHeightfield,
    rm: RegionMap,
    ring: Seq<ContourVertex>,
    i: int,
    e: Stand,
) -> bool {
    &&& stands_at(ring[i], from_corner(e))
    &&& stands_at(next_vertex(ring, i), to_corner(e))
    &&& ring[i].across_region == beyond(chf, rm, e)
    &&& next_vertex(ring, i).height2 == edge_top2(chf, rm, e)
}

/// Whether the edge of a ring from vertex `i` on is `e`, with the region on its
/// right.
pub open spec fn is_against(
    chf: CompactHeightfield,
    rm: RegionMap,
    ring: Seq<ContourVertex>,
    i: int,
    e: Stand,
) -> bool {
    &&& stands_at(ring[i], to_corner(e))
    &&& stands_at(next_vertex(ring, i), from_corner(e))
    &&& ring[i].across_region == beyond(chf, rm, e)
    &&& ring[i].height2 == edge_top2(chf, rm, e)
}

/// Whether the edges of a ring are those of a list, with the region on their left.
pub open spec fn runs_with(
    chf: CompactHeightfield,
    rm: RegionMap,
    ring: Seq<ContourVertex>,
    edges: Seq<Stand>,
) -> bool {
    ring.len() == edges.len() && forall|i: int|
        0 <= i < edges.len() ==> is_along(chf, rm, ring, i, #[trigger] edges[i])
}

/// Whether the edges of a ring are those of a list, with the region on their
/// right.
pub open spec fn runs_against(
    chf: CompactHeightfield,
    rm: RegionMap,
    ring: Seq<ContourVertex>,
    edges: Seq<Stand>,
) -> bool {
    ring.len() == edges.len() && forall|i: int|
        0 <= i < edges.len() ==> is_against(chf, rm, ring, i, #[trigger] edges[i])
}

/// The edge reached from the surface of an edge after its next one by going over
/// `n` links, each time to the next edge about the corner where the edge ends.
pub open spec fn pivot(chf: CompactHeightfield, e: Stand, n: nat) -> Stand
    decreases n,
{
    if n == 0 {
        (e.0, (e.1 + 1) % 4)
    } else {
        let d = pivot(chf, e, (n - 1) as nat);
        (chf.neighbor(d.0.0, d.0.1, d.0.2, d.1).unwrap(), (d.1 + 3) % 4)
    }
}

/// Whether links within a region lead from the surface of an edge about the end of
/// the edge to the surface of `d`.
pub open spec fn goes_round(chf: CompactHeightfield, rm: RegionMap, e: Stand, d: Stand) -> bool {
    exists|n: nat| #[trigger]
        pivot(chf, e, n) == d && forall|m: nat|
            m < n ==> !parts(chf, rm, #[trigger] pivot(chf, e, m))
}

/// Whether an edge is a slit: surfaces of one region lie on both of its sides,
/// not linked across it but about both of its ends.
pub open spec fn is_slit(chf: CompactHeightfield, rm: RegionMap, e: Stand) -> bool {
    exists|d: Stand| #[trigger]
        goes_round(chf, rm, e, d) && goes_round(chf, rm, d, e) && parts(chf, rm, d)
}

/// Whether an edge is on one of the rings that run along `w`.
pub open spec fn is_on(w: Seq<Seq<Stand>>, e: Stand) -> bool {
    exists|j: int, i: int| #[trigger] is_nth(w, j, i, e)
}

/// Whether edge `i` of ring `j` is `e`.
pub open spec fn is_nth(w: Seq<Seq<Stand>>, j: int, i: int, e: Stand) -> bool {
    0 <= j < w.len() && 0 <= i < w[j].len() && w[j][i] == e
}

/// Whether the rings of region `id` run along edges that bound it: `w[0]` those of
/// the outer ring, the others those of the holes, none of them twice. The outer
/// ring is counter-clockwise, and no other ring with the region inside is larger;
/// such a ring is turned round. All others have the region outside.
pub open spec fn rings_follow(
    chf: CompactHeightfield,
    rm: RegionMap,
    id: int,
    rings: Rings,
    w: Seq<Seq<Stand>>,
) -> bool {
    &&& w.len() == rings.holes.len() + 1
    &&& runs_with(chf, rm, rings.outer, w[0])
    &&& rings.outer.len() > 0 ==> area2(rings.outer) > 0
    &&& forall|j: int|
        1 <= j < w.len() ==> #[trigger] hole_follows(chf, rm, rings, w, j)
    &&& forall|j: int, i: int, e: Stand| #[trigger]
        is_nth(w, j, i, e) ==> parts(chf, rm, e) && rm.region_of(e.0.0, e.0.1, e.0.2).0 == id
    &&& forall|j: int, i: int, k: int, l: int, e: Stand| #[trigger]
        is_nth(w, j, i, e) && #[trigger] is_nth(w, k, l, e) ==> j == k && i == l
}

/// Whether hole `j - 1` runs along its edges, or is a ring turned round that is
/// no larger than the outer one.
pub open spec fn hole_follows(
    chf: CompactHeightfield,
    rm: RegionMap,
    rings: Rings,
    w: Seq<Seq<Stand>>,
    j: int,
) -> bool {
    let hole = rings.holes[j - 1];
    ||| runs_with(chf, rm, hole, w[j]) && area2(hole) <= 0
    ||| runs_against(chf, rm, hole, w[j]) && area2(hole) < 0 && -area2(hole) <= area2(rings.outer)
}

/// Whether the rings of region `id` hold every edge that bounds it, but for slits.
pub open spec fn rings_bound(
    chf: CompactHeightfield,
    rm: RegionMap,
    id: int,
    rings: Rings,
    w: Seq<Seq<Stand>>,
) -> bool {
    &&& rings_follow(chf, rm, id, rings, w)
    &&& forall|e: Stand| #[trigger]
        parts(chf, rm, e) && rm.region_of(e.0.0, e.0.1, e.0.2).0 == id ==> is_on(w, e) || is_slit(
            chf,
            rm,
            e,
        )
}

/// Whether the rings of all regions bound them.
pub open spec fn all_bounded(
    chf: CompactHeightfield,
    rm: RegionMap,
    all: Seq<Rings>,
    ws: Seq<Seq<Seq<Stand>>>,
) -> bool {
    &&& ws.len() == all.len()
    &&& forall|id: int| 0 <= id < all.len() ==> #[trigger] rings_bound(chf, rm, id, all[id], ws[id])
}

// --- Fields -----------------------------------------------------------------

/// Whether every link leads back.
pub open spec fn links_back(chf: CompactHeightfield) -> bool {
    forall|c: u32, r: u32, s: u32, k: int, n: (u32, u32, u32)|
        0 <= k < 4 && #[trigger] chf.neighbor(c, r, s, k) == Some(n) ==> #[trigger] chf.neighbor(
            n.0,
            n.1,
            n.2,
            (k + 2) % 4,
        ) == Some((c, r, s))
}

/// How many surfaces the first `n` columns have.
pub open spec fn surfaces_in(chf: CompactHeightfield, n: nat) -> nat
    decreases n,
{
    if n == 0 {
        0
    } else {
        surfaces_in(chf, (n - 1) as nat) + chf.columns@[n - 1]@.len()
    }
}

/// Whether a field can be walked round: every link leads back, and no walk along
/// its edges is longer than the longest that is tried.
pub open spec fn is_walkable_round(chf: CompactHeightfield) -> bool {
    links_back(chf) && 4 * surfaces_in(chf, chf.columns@.len()) <= chf.cols * chf.rows * 8 + 16
}

/// A field with at most one surface in each column can be walked round.
pub proof fn single_storeys_are_walkable_round(chf: CompactHeightfield)
    requires
        chf.wf(),
        single_storey(chf),
    ensures
        is_walkable_round(chf),
{
    assert forall|c: u32, r: u32, s: u32, k: int, n: (u32, u32, u32)|
        0 <= k < 4 && #[trigger] chf.neighbor(c, r, s, k) == Some(n) implies #[trigger] chf.neighbor(
        n.0,
        n.1,
        n.2,
        (k + 2) % 4,
    ) == Some((c, r, s)) by {
        assert(chf.surfaces(c, r).len() <= 1);
        assert(chf.link_fits(c, r, k, chf.surfaces(c, r)[s as int].neighbors[k]));
        assert(chf.surfaces(n.0, n.1).len() <= 1);
        assert(s == 0 && n.2 == 0);
        assert(chf.neighbor(c, r, 0, k) == Some((n.0, n.1, 0u32)));
    }
    lemma_few_surfaces(chf, chf.columns@.len());
}

proof fn lemma_few_surfaces(chf: CompactHeightfield, n: nat)
    requires
        chf.wf(),
        single_storey(chf),
        n <= chf.columns@.len(),
    ensures
        surfaces_in(chf, n) <= n,
    decreases n,
{
    if n > 0 {
        lemma_few_surfaces(chf, (n - 1) as nat);
        let i = n - 1;
        crate::walkability::lemma_column_of(chf.cols as int, chf.rows as int, i);
        let (c, r) = ((i % chf.cols as int) as u32, (i / chf.cols as int) as u32);
        assert(chf.surfaces(c, r) == chf.columns@[i]@);
        assert(chf.surfaces(c, r).len() <= 1);
    }
}

/// Whether a state is on a surface.
spec fn is_stand(chf: CompactHeightfield, a: Stand) -> bool {
    cell_in(chf, a.0) && 0 <= a.1 < 4
}

/// A number for a state.
spec fn stand_number(chf: CompactHeightfield, a: Stand) -> int {
    4 * (surfaces_in(
        chf,
        column_index(chf.cols as int, a.0.0 as int, a.0.1 as int) as nat,
    ) + a.0.2) + a.1
}

proof fn lemma_surfaces_grow(chf: CompactHeightfield, m: nat, n: nat)
    requires
        m <= n,
    ensures
        surfaces_in(chf, m) <= surfaces_in(chf, n),
        m < n ==> surfaces_in(chf, m) + chf.columns@[m as int]@.len() <= surfaces_in(chf, n),
    decreases n,
{
    if m < n {
        lemma_surfaces_grow(chf, m, (n - 1) as nat);
    }
}

proof fn lemma_stand_number(chf: CompactHeightfield, a: Stand)
    requires
        chf.wf(),
        is_stand(chf, a),
    ensures
        0 <= stand_number(chf, a) < 4 * surfaces_in(chf, chf.columns@.len()),
{
    let at = column_index(chf.cols as int, a.0.0 as int, a.0.1 as int);
    crate::walkability::lemma_column_bound(
        chf.cols as int,
        chf.rows as int,
        a.0.0 as int,
        a.0.1 as int,
    );
    lemma_surfaces_grow(chf, at as nat, chf.columns@.len());
    assert(chf.surfaces(a.0.0, a.0.1) == chf.columns@[at]@);
}

proof fn lemma_numbers_apart(chf: CompactHeightfield, a: Stand, b: Stand)
    requires
        chf.wf(),
        is_stand(chf, a),
        is_stand(chf, b),
        stand_number(chf, a) == stand_number(chf, b),
    ensures
        a == b,
{
    let cols = chf.cols as int;
    let (i, j) = (
        column_index(cols, a.0.0 as int, a.0.1 as int),
        column_index(cols, b.0.0 as int, b.0.1 as int),
    );
    crate::walkability::lemma_column_bound(cols, chf.rows as int, a.0.0 as int, a.0.1 as int);
    crate::walkability::lemma_column_bound(cols, chf.rows as int, b.0.0 as int, b.0.1 as int);
    assert(chf.surfaces(a.0.0, a.0.1) == chf.columns@[i]@);
    assert(chf.surfaces(b.0.0, b.0.1) == chf.columns@[j]@);
    if i < j {
        lemma_surfaces_grow(chf, i as nat, j as nat);
    } else if j < i {
        lemma_surfaces_grow(chf, j as nat, i as nat);
    }
    crate::walkability::columns_are_apart(
        cols,
        a.0.0 as int,
        a.0.1 as int,
        b.0.0 as int,
        b.0.1 as int,
    );
}

proof fn lemma_next_stand(chf: CompactHeightfield, rm: RegionMap, a: Stand)
    requires
        matching(chf, rm),
        is_stand(chf, a),
    ensures
        is_stand(chf, next_stand(chf, rm, a)),
{
    if !bounds(chf, rm, a.0, a.1) {
        assert(chf.link_fits(
            a.0.0,
            a.0.1,
            a.1,
            chf.surfaces(a.0.0, a.0.1)[a.0.2 as int].neighbors[a.1],
        ));
    }
}

/// Where a walk goes over to a neighbor, that neighbor's edge back does not
/// bound the region.
proof fn lemma_link_back(chf: CompactHeightfield, rm: RegionMap, a: Stand)
    requires
        matching(chf, rm),
        links_back(chf),
        is_stand(chf, a),
    ensures
        ({
            let n = next_stand(chf, rm, a);
            &&& bounds(chf, rm, n.0, (n.1 + 3) % 4) <==> bounds(chf, rm, a.0, a.1)
            &&& !bounds(chf, rm, a.0, a.1) ==> chf.neighbor(
                n.0.0,
                n.0.1,
                n.0.2,
                (n.1 + 3) % 4,
            ) == Some(a.0) && (n.1 + 3) % 4 == (a.1 + 2) % 4
        }),
{
    lemma_next_stand(chf, rm, a);
    if bounds(chf, rm, a.0, a.1) {
        assert((((a.1 + 1) % 4) + 3) % 4 == a.1);
    } else {
        let n = chf.neighbor(a.0.0, a.0.1, a.0.2, a.1).unwrap();
        assert(chf.neighbor(n.0, n.1, n.2, (a.1 + 2) % 4) == Some((a.0.0, a.0.1, a.0.2)));
        assert((((a.1 + 3) % 4) + 3) % 4 == (a.1 + 2) % 4);
    }
}

/// Different states have different next ones.
proof fn lemma_steps_apart(chf: CompactHeightfield, rm: RegionMap, a: Stand, b: Stand)
    requires
        matching(chf, rm),
        links_back(chf),
        is_stand(chf, a),
        is_stand(chf, b),
        next_stand(chf, rm, a) == next_stand(chf, rm, b),
    ensures
        a == b,
{
    lemma_next_stand(chf, rm, a);
    lemma_next_stand(chf, rm, b);
    lemma_link_back(chf, rm, a);
    lemma_link_back(chf, rm, b);
}

proof fn lemma_stand_after(chf: CompactHeightfield, rm: RegionMap, a: Stand, n: nat)
    requires
        matching(chf, rm),
        is_stand(chf, a),
    ensures
        is_stand(chf, stand_after(chf, rm, a, n)),
    decreases n,
{
    if n > 0 {
        lemma_stand_after(chf, rm, a, (n - 1) as nat);
        lemma_next_stand(chf, rm, stand_after(chf, rm, a, (n - 1) as nat));
    }
}

proof fn lemma_meets_start(chf: CompactHeightfield, rm: RegionMap, a: Stand, i: nat, j: nat)
    requires
        matching(chf, rm),
        links_back(chf),
        is_stand(chf, a),
        i < j,
        stand_after(chf, rm, a, i) == stand_after(chf, rm, a, j),
    ensures
        stand_after(chf, rm, a, (j - i) as nat) == a,
    decreases i,
{
    if i > 0 {
        lemma_stand_after(chf, rm, a, (i - 1) as nat);
        lemma_stand_after(chf, rm, a, (j - 1) as nat);
        lemma_steps_apart(
            chf,
            rm,
            stand_after(chf, rm, a, (i - 1) as nat),
            stand_after(chf, rm, a, (j - 1) as nat),
        );
        lemma_meets_start(chf, rm, a, (i - 1) as nat, (j - 1) as nat);
    }
}

/// A walk is back at its start within as many steps as there are states.
proof fn lemma_returns(chf: CompactHeightfield, rm: RegionMap, a: Stand) -> (n: nat)
    requires
        matching(chf, rm),
        links_back(chf),
        is_stand(chf, a),
    ensures
        0 < n <= 4 * surfaces_in(chf, chf.columns@.len()),
        stand_after(chf, rm, a, n) == a,
{
    let total = (4 * surfaces_in(chf, chf.columns@.len())) as nat;
    let numbers = Seq::new(
        total + 1,
        |i: int| stand_number(chf, stand_after(chf, rm, a, i as nat)),
    );
    let range = vstd::set_lib::set_int_range(0, total as int);
    assert forall|i: int| 0 <= i < numbers.len() implies range.contains(#[trigger] numbers[i]) by {
        lemma_stand_after(chf, rm, a, i as nat);
        lemma_stand_number(chf, stand_after(chf, rm, a, i as nat));
    }
    if numbers.no_duplicates() {
        numbers.unique_seq_to_set();
        vstd::set_lib::lemma_int_range(0, total as int);
        assert(numbers.to_set().subset_of(range));
        vstd::set_lib::lemma_len_subset(numbers.to_set(), range);
    }
    let (i, j) = choose|i: int, j: int|
        0 <= i < numbers.len() && 0 <= j < numbers.len() && i != j && numbers[i] == numbers[j];
    let (x, y) = if i < j {
        (i, j)
    } else {
        (j, i)
    };
    lemma_stand_after(chf, rm, a, x as nat);
    lemma_stand_after(chf, rm, a, y as nat);
    lemma_numbers_apart(
        chf,
        stand_after(chf, rm, a, x as nat),
        stand_after(chf, rm, a, y as nat),
    );
    lemma_meets_start(chf, rm, a, x as nat, y as nat);
    (y - x) as nat
}

// --- Walks ------------------------------------------------------------------

proof fn lemma_parts(chf: CompactHeightfield, rm: RegionMap, e: Stand)
    requires
        matching(chf, rm),
        links_back(chf),
    ensures
        parts(chf, rm, e) ==> is_stand(chf, e) && bounds(chf, rm, e.0, e.1),
        is_stand(chf, e) && bounds(chf, rm, e.0, e.1) ==> parts(chf, rm, e),
{
}

proof fn lemma_after_sum(chf: CompactHeightfield, rm: RegionMap, a: Stand, i: nat, j: nat)
    ensures
        stand_after(chf, rm, stand_after(chf, rm, a, i), j) == stand_after(chf, rm, a, i + j),
    decreases j,
{
    if j > 0 {
        lemma_after_sum(chf, rm, a, i, (j - 1) as nat);
    }
}

/// Whether a walk is back at its start after `p` steps and not before.
spec fn is_period(chf: CompactHeightfield, rm: RegionMap, a: Stand, p: nat) -> bool {
    &&& 0 < p <= 4 * surfaces_in(chf, chf.columns@.len())
    &&& stand_after(chf, rm, a, p) == a
    &&& forall|m: nat| 0 < m < p ==> #[trigger] stand_after(chf, rm, a, m) != a
}

proof fn lemma_least(chf: CompactHeightfield, rm: RegionMap, a: Stand, n: nat) -> (p: nat)
    requires
        0 < n <= 4 * surfaces_in(chf, chf.columns@.len()),
        stand_after(chf, rm, a, n) == a,
    ensures
        is_period(chf, rm, a, p),
    decreases n,
{
    if exists|m: nat| 0 < m < n && #[trigger] stand_after(chf, rm, a, m) == a {
        let m = choose|m: nat| 0 < m < n && #[trigger] stand_after(chf, rm, a, m) == a;
        lemma_least(chf, rm, a, m)
    } else {
        n
    }
}

proof fn lemma_distinct(chf: CompactHeightfield, rm: RegionMap, a: Stand, p: nat, i: nat, j: nat)
    requires
        matching(chf, rm),
        links_back(chf),
        is_stand(chf, a),
        is_period(chf, rm, a, p),
        i < j < p,
    ensures
        stand_after(chf, rm, a, i) != stand_after(chf, rm, a, j),
{
    if stand_after(chf, rm, a, i) == stand_after(chf, rm, a, j) {
        lemma_meets_start(chf, rm, a, i, j);
        assert(stand_after(chf, rm, a, (j - i) as nat) == a);
    }
}

/// Every state that a walk comes to, it comes to before it is back.
proof fn lemma_within(chf: CompactHeightfield, rm: RegionMap, a: Stand, p: nat, n: nat) -> (m: nat)
    requires
        is_period(chf, rm, a, p),
    ensures
        m < p,
        stand_after(chf, rm, a, m) == stand_after(chf, rm, a, n),
    decreases n,
{
    if n < p {
        n
    } else {
        lemma_after_sum(chf, rm, a, p, (n - p) as nat);
        lemma_within(chf, rm, a, p, (n - p) as nat)
    }
}

/// The edges that bound the region among the first `n` states of a walk.
spec fn edges_in(chf: CompactHeightfield, rm: RegionMap, a: Stand, n: nat) -> Seq<Stand>
    decreases n,
{
    if n == 0 {
        Seq::empty()
    } else {
        let e = stand_after(chf, rm, a, (n - 1) as nat);
        let before = edges_in(chf, rm, a, (n - 1) as nat);
        if bounds(chf, rm, e.0, e.1) {
            before.push(e)
        } else {
            before
        }
    }
}

/// The number of an edge.
spec fn code(e: Stand) -> u128 {
    edge_code(e.0, e.1) as u128
}

proof fn lemma_codes(e: Stand, d: Stand)
    requires
        0 <= e.1 < 4,
        0 <= d.1 < 4,
        code(e) == code(d),
    ensures
        e == d,
{
    assert(0 <= edge_code(e.0, e.1) <= u128::MAX);
    assert(0 <= edge_code(d.0, d.1) <= u128::MAX);
    edge_codes_differ(e.0, e.1, d.0, d.1);
}

/// The edges seen after those of a walk.
spec fn codes_in(
    chf: CompactHeightfield,
    rm: RegionMap,
    seen: Set<u128>,
    a: Stand,
    n: nat,
) -> Set<u128>
    decreases n,
{
    if n == 0 {
        seen
    } else {
        let e = stand_after(chf, rm, a, (n - 1) as nat);
        let before = codes_in(chf, rm, seen, a, (n - 1) as nat);
        if bounds(chf, rm, e.0, e.1) {
            before.insert(code(e))
        } else {
            before
        }
    }
}

/// What the first `n` states of a walk come to.
proof fn lemma_edges_in(
    chf: CompactHeightfield,
    rm: RegionMap,
    seen: Set<u128>,
    a: Stand,
    n: nat,
)
    requires
        matching(chf, rm),
        links_back(chf),
        is_stand(chf, a),
    ensures
        ({
            let edges = edges_in(chf, rm, a, n);
            let all = codes_in(chf, rm, seen, a, n);
            &&& forall|i: int|
                0 <= i < edges.len() ==> parts(chf, rm, #[trigger] edges[i]) && is_state(
                    chf,
                    rm,
                    a,
                    n,
                    edges[i],
                )
            &&& forall|e: Stand| #[trigger]
                is_state(chf, rm, a, n, e) && parts(chf, rm, e) ==> edges.contains(e)
            &&& forall|x: u128| #[trigger]
                all.contains(x) <==> seen.contains(x) || exists|i: int|
                    0 <= i < edges.len() && code(#[trigger] edges[i]) == x
        }),
    decreases n,
{
    if n > 0 {
        let m = (n - 1) as nat;
        lemma_edges_in(chf, rm, seen, a, m);
        let e = stand_after(chf, rm, a, m);
        lemma_stand_after(chf, rm, a, m);
        lemma_parts(chf, rm, e);
        let before = edges_in(chf, rm, a, m);
        let edges = edges_in(chf, rm, a, n);
        let all = codes_in(chf, rm, seen, a, n);
        assert forall|i: int| 0 <= i < edges.len() implies parts(chf, rm, #[trigger] edges[i])
            && is_state(chf, rm, a, n, edges[i]) by {
            if i < before.len() {
                assert(edges[i] == before[i]);
                let q = choose|q: nat| q < m && #[trigger] stand_after(chf, rm, a, q) == before[i];
                assert(q < n && stand_after(chf, rm, a, q) == edges[i]);
            } else {
                assert(m < n && stand_after(chf, rm, a, m) == edges[i]);
            }
        }
        assert forall|d: Stand| #[trigger]
            is_state(chf, rm, a, n, d) && parts(chf, rm, d) implies edges.contains(d) by {
            let q = choose|q: nat| q < n && #[trigger] stand_after(chf, rm, a, q) == d;
            if q < m {
                assert(is_state(chf, rm, a, m, d));
                let i = choose|i: int| 0 <= i < before.len() && before[i] == d;
                assert(edges[i] == d);
            } else {
                assert(edges[before.len() as int] == d);
            }
        }
        assert forall|x: u128| #[trigger] all.contains(x) <==> seen.contains(x) || exists|i: int|
            0 <= i < edges.len() && code(#[trigger] edges[i]) == x by {
            let old = codes_in(chf, rm, seen, a, m);
            if all.contains(x) && !seen.contains(x) {
                if old.contains(x) {
                    let i = choose|i: int| 0 <= i < before.len() && code(#[trigger] before[i]) == x;
                    assert(edges[i] == before[i]);
                    assert(code(edges[i]) == x);
                } else {
                    assert(code(edges[before.len() as int]) == x);
                }
            }
            if exists|i: int| 0 <= i < edges.len() && code(#[trigger] edges[i]) == x {
                let i = choose|i: int| 0 <= i < edges.len() && code(#[trigger] edges[i]) == x;
                if i < before.len() {
                    assert(code(before[i]) == x);
                    assert(old.contains(x));
                }
            }
        }
    } else {
        assert(edges_in(chf, rm, a, 0).len() == 0);
    }
}

/// Whether a walk comes to a state within its first `n`.
spec fn is_state(chf: CompactHeightfield, rm: RegionMap, a: Stand, n: nat, e: Stand) -> bool {
    exists|q: nat| q < n && #[trigger] stand_after(chf, rm, a, q) == e
}

/// The vertices at the ends of edges.
spec fn ends_of(chf: CompactHeightfield, rm: RegionMap, edges: Seq<Stand>) -> Seq<ContourVertex> {
    edges.map_values(|e: Stand| edge_vertex(chf, rm, e.0, e.1))
}

/// A walk goes once round.
proof fn lemma_walked(
    chf: CompactHeightfield,
    rm: RegionMap,
    seen: Set<u128>,
    a: Stand,
    w: Walk,
    steps: nat,
    done: nat,
    p: nat,
)
    requires
        is_period(chf, rm, a, p),
        bounds(chf, rm, a.0, a.1),
        done < p,
        p - done <= steps,
        (w.cell, w.k) == stand_after(chf, rm, a, done),
        w.verts == ends_of(chf, rm, edges_in(chf, rm, a, done)),
        w.seen == codes_in(chf, rm, seen, a, done),
    ensures
        walked(chf, rm, a.0, a.1, w, steps).verts == ends_of(chf, rm, edges_in(chf, rm, a, p)),
        walked(chf, rm, a.0, a.1, w, steps).seen == codes_in(chf, rm, seen, a, p),
    decreases steps,
{
    let next = stepped(chf, rm, w);
    let e = stand_after(chf, rm, a, done);
    assert((next.cell, next.k) == stand_after(chf, rm, a, done + 1));
    assert(next.verts =~= ends_of(chf, rm, edges_in(chf, rm, a, done + 1)));
    assert(next.seen == codes_in(chf, rm, seen, a, done + 1));
    if done + 1 == p {
        lemma_some_edge(chf, rm, a, p);
    } else {
        assert(stand_after(chf, rm, a, done + 1) != a);
        lemma_walked(chf, rm, seen, a, next, (steps - 1) as nat, done + 1, p);
    }
}

proof fn lemma_some_edge(chf: CompactHeightfield, rm: RegionMap, a: Stand, n: nat)
    requires
        n > 0,
        bounds(chf, rm, a.0, a.1),
    ensures
        edges_in(chf, rm, a, n).len() > 0,
        edges_in(chf, rm, a, n)[0] == a,
    decreases n,
{
    if n > 1 {
        lemma_some_edge(chf, rm, a, (n - 1) as nat);
    } else {
        assert(stand_after(chf, rm, a, 0) == a);
        assert(edges_in(chf, rm, a, 0).len() == 0);
    }
}

// --- Round a region ---------------------------------------------------------

/// Where a step of a walk leads: along the edge to its end, or over to a
/// neighbor, about the same corner.
proof fn lemma_step_corner(chf: CompactHeightfield, rm: RegionMap, a: Stand)
    requires
        matching(chf, rm),
        links_back(chf),
        is_stand(chf, a),
    ensures
        ({
            let n = next_stand(chf, rm, a);
            &&& bounds(chf, rm, a.0, a.1) ==> from_corner(n) == to_corner(a)
            &&& !bounds(chf, rm, a.0, a.1) ==> from_corner(n) == from_corner(a)
            &&& rm.region_of(n.0.0, n.0.1, n.0.2) == rm.region_of(a.0.0, a.0.1, a.0.2)
        }),
{
    lemma_next_stand(chf, rm, a);
    if !bounds(chf, rm, a.0, a.1) {
        let n = chf.neighbor(a.0.0, a.0.1, a.0.2, a.1).unwrap();
        assert((n.0 as int, n.1 as int) == shifted(a.0.0 as int, a.0.1 as int, a.1));
    }
}

/// The edges of a walk follow each other, and all bound one region.
proof fn lemma_chain(chf: CompactHeightfield, rm: RegionMap, a: Stand, n: nat)
    requires
        matching(chf, rm),
        links_back(chf),
        is_stand(chf, a),
        bounds(chf, rm, a.0, a.1),
    ensures
        ({
            let edges = edges_in(chf, rm, a, n);
            let now = stand_after(chf, rm, a, n);
            &&& n > 0 ==> edges.len() > 0 && to_corner(edges.last()) == from_corner(now)
            &&& forall|i: int| 0 < i < edges.len() ==> #[trigger] joins_on(edges, i)
            &&& rm.region_of(now.0.0, now.0.1, now.0.2) == rm.region_of(a.0.0, a.0.1, a.0.2)
            &&& forall|i: int|
                0 <= i < edges.len() ==> rm.region_of(
                    (#[trigger] edges[i]).0.0,
                    edges[i].0.1,
                    edges[i].0.2,
                ) == rm.region_of(a.0.0, a.0.1, a.0.2)
        }),
    decreases n,
{
    if n > 0 {
        let m = (n - 1) as nat;
        lemma_chain(chf, rm, a, m);
        lemma_stand_after(chf, rm, a, m);
        let e = stand_after(chf, rm, a, m);
        lemma_step_corner(chf, rm, e);
        let before = edges_in(chf, rm, a, m);
        let edges = edges_in(chf, rm, a, n);
        if m == 0 {
            assert(stand_after(chf, rm, a, 0) == a);
            assert(before.len() == 0);
        }
        assert forall|i: int| 0 < i < edges.len() implies #[trigger] joins_on(edges, i) by {
            if i < before.len() {
                assert(joins_on(before, i));
            }
        }
        assert forall|i: int| 0 <= i < edges.len() implies rm.region_of(
            (#[trigger] edges[i]).0.0,
            edges[i].0.1,
            edges[i].0.2,
        ) == rm.region_of(a.0.0, a.0.1, a.0.2) by {
            if i < before.len() {
                assert(edges[i] == before[i]);
            }
        }
    }
}

/// Whether an edge begins where the one before it ends.
spec fn joins_on(edges: Seq<Stand>, i: int) -> bool {
    to_corner(edges[i - 1]) == from_corner(edges[i])
}

/// The edges of a ring, from the second on and the first last.
spec fn turned_on(edges: Seq<Stand>) -> Seq<Stand> {
    Seq::new(
        edges.len(),
        |i: int|
            if i + 1 < edges.len() {
                edges[i + 1]
            } else {
                edges[0]
            },
    )
}

/// A vertex made for an edge.
proof fn lemma_vertex(chf: CompactHeightfield, rm: RegionMap, e: Stand)
    requires
        matching(chf, rm),
        links_back(chf),
        parts(chf, rm, e),
    ensures
        ({
            let v = edge_vertex(chf, rm, e.0, e.1);
            &&& stands_at(v, to_corner(e))
            &&& v.across_region == beyond(chf, rm, e)
            &&& v.height2 == edge_top2(chf, rm, e)
        }),
{
    lemma_parts(chf, rm, e);
    let top = layer_of(chf, e.0);
    if let Some(n) = chf.neighbor(e.0.0, e.0.1, e.0.2, e.1) {
        assert(chf.link_fits(
            e.0.0,
            e.0.1,
            e.1,
            chf.surfaces(e.0.0, e.0.1)[e.0.2 as int].neighbors[e.1],
        ));
    }
}

/// A contour runs along the edges of its walk.
proof fn lemma_ring_runs(chf: CompactHeightfield, rm: RegionMap, a: Stand, p: nat)
    requires
        matching(chf, rm),
        links_back(chf),
        is_stand(chf, a),
        bounds(chf, rm, a.0, a.1),
        is_period(chf, rm, a, p),
    ensures
        runs_with(
            chf,
            rm,
            labelled(ends_of(chf, rm, edges_in(chf, rm, a, p))),
            turned_on(edges_in(chf, rm, a, p)),
        ),
{
    let edges = edges_in(chf, rm, a, p);
    let verts = ends_of(chf, rm, edges);
    let ring = labelled(verts);
    let on = turned_on(edges);
    let n = edges.len() as int;
    lemma_chain(chf, rm, a, p);
    lemma_some_edge(chf, rm, a, p);
    lemma_edges_in(chf, rm, Set::empty(), a, p);
    assert forall|i: int| 0 <= i < on.len() implies is_along(chf, rm, ring, i, #[trigger] on[i]) by {
        let e = on[i];
        let next = if i + 1 < n {
            i + 1
        } else {
            0
        };
        assert(e == edges[next]);
        assert(parts(chf, rm, edges[i]) && parts(chf, rm, edges[next]));
        lemma_vertex(chf, rm, edges[i]);
        lemma_vertex(chf, rm, edges[next]);
        assert(verts[i] == edge_vertex(chf, rm, edges[i].0, edges[i].1));
        assert(verts[next] == edge_vertex(chf, rm, edges[next].0, edges[next].1));
        if i + 1 < n {
            assert(joins_on(edges, i + 1));
        }
        assert(next_vertex(ring, i) == ring[next]);
    }
}

/// The edges of a ring taken backwards.
spec fn turned_back(edges: Seq<Stand>) -> Seq<Stand> {
    let n = edges.len() as int;
    Seq::new(
        edges.len(),
        |i: int|
            if i + 1 < n {
                edges[n - 2 - i]
            } else {
                edges[n - 1]
            },
    )
}

proof fn lemma_back_runs(
    chf: CompactHeightfield,
    rm: RegionMap,
    ring: Seq<ContourVertex>,
    edges: Seq<Stand>,
)
    requires
        runs_with(chf, rm, ring, edges),
    ensures
        runs_against(chf, rm, reversed(ring), turned_back(edges)),
{
    let n = ring.len() as int;
    let back = reversed(ring);
    let on = turned_back(edges);
    assert forall|i: int| 0 <= i < on.len() implies is_against(
        chf,
        rm,
        back,
        i,
        #[trigger] on[i],
    ) by {
        let j = if i + 1 < n {
            n - 2 - i
        } else {
            n - 1
        };
        assert(is_along(chf, rm, ring, j, edges[j]));
    }
}

// --- Slits ------------------------------------------------------------------

/// From an edge to the next.
proof fn lemma_goes_round(chf: CompactHeightfield, rm: RegionMap, a: Stand, q: nat)
    requires
        matching(chf, rm),
        links_back(chf),
        parts(chf, rm, a),
        q > 0,
        forall|m: nat|
            0 < m < q ==> !parts(chf, rm, #[trigger] stand_after(chf, rm, a, m)),
    ensures
        goes_round(chf, rm, a, stand_after(chf, rm, a, q)),
{
    lemma_pivots(chf, rm, a, q);
    let d = stand_after(chf, rm, a, q);
    let n = (q - 1) as nat;
    assert forall|m: nat| m < n implies !parts(chf, rm, #[trigger] pivot(chf, a, m)) by {
        lemma_pivots(chf, rm, a, m + 1);
        assert(!parts(chf, rm, stand_after(chf, rm, a, m + 1)));
    }
    assert(pivot(chf, a, n) == d);
}

proof fn lemma_pivots(chf: CompactHeightfield, rm: RegionMap, a: Stand, q: nat)
    requires
        matching(chf, rm),
        links_back(chf),
        parts(chf, rm, a),
        q > 0,
        forall|m: nat|
            0 < m < q ==> !parts(chf, rm, #[trigger] stand_after(chf, rm, a, m)),
    ensures
        stand_after(chf, rm, a, q) == pivot(chf, a, (q - 1) as nat),
    decreases q,
{
    lemma_parts(chf, rm, a);
    assert(stand_after(chf, rm, a, 0) == a);
    if q > 1 {
        let m = (q - 1) as nat;
        lemma_pivots(chf, rm, a, m);
        let e = stand_after(chf, rm, a, m);
        assert(!parts(chf, rm, e));
        lemma_stand_after(chf, rm, a, m);
        lemma_parts(chf, rm, e);
    }
}

/// A walk along fewer than three edges goes round a slit.
proof fn lemma_short_is_slit(chf: CompactHeightfield, rm: RegionMap, a: Stand, p: nat, e: Stand)
    requires
        matching(chf, rm),
        links_back(chf),
        parts(chf, rm, a),
        is_period(chf, rm, a, p),
        edges_in(chf, rm, a, p).len() < 3,
        edges_in(chf, rm, a, p).contains(e),
    ensures
        is_slit(chf, rm, e),
{
    lemma_parts(chf, rm, a);
    let edges = edges_in(chf, rm, a, p);
    lemma_chain(chf, rm, a, p);
    lemma_some_edge(chf, rm, a, p);
    lemma_edges_in(chf, rm, Set::empty(), a, p);
    assert(to_corner(a) != from_corner(a));
    assert(edges.len() == 2);
    let d = edges[1];
    assert(joins_on(edges, 1));
    assert(parts(chf, rm, d) && is_state(chf, rm, a, p, d));
    let q = choose|q: nat| q < p && #[trigger] stand_after(chf, rm, a, q) == d;
    assert(stand_after(chf, rm, a, 0) == a);
    assert(q > 0);
    assert forall|m: nat| 0 < m < q implies !parts(
        chf,
        rm,
        #[trigger] stand_after(chf, rm, a, m),
    ) by {
        let f = stand_after(chf, rm, a, m);
        lemma_distinct(chf, rm, a, p, 0, m);
        lemma_distinct(chf, rm, a, p, m, q);
        if parts(chf, rm, f) {
            assert(is_state(chf, rm, a, p, f));
            assert(edges.contains(f));
        }
    }
    lemma_goes_round(chf, rm, a, q);
    let rest = (p - q) as nat;
    lemma_after_sum(chf, rm, a, q, rest);
    assert forall|m: nat| 0 < m < rest implies !parts(
        chf,
        rm,
        #[trigger] stand_after(chf, rm, d, m),
    ) by {
        lemma_after_sum(chf, rm, a, q, m);
        let f = stand_after(chf, rm, a, q + m);
        lemma_distinct(chf, rm, a, p, 0, q + m);
        lemma_distinct(chf, rm, a, p, q, q + m);
        if parts(chf, rm, f) {
            assert(is_state(chf, rm, a, p, f));
            assert(edges.contains(f));
        }
    }
    lemma_goes_round(chf, rm, d, rest);
    assert(goes_round(chf, rm, a, d) && goes_round(chf, rm, d, a));
    assert(e == a || e == d);
}

// --- Lists of rings ---------------------------------------------------------

/// Whether no edge comes twice.
spec fn is_once(w: Seq<Seq<Stand>>) -> bool {
    forall|j: int, i: int, k: int, l: int, e: Stand| #[trigger]
        is_nth(w, j, i, e) && #[trigger] is_nth(w, k, l, e) ==> j == k && i == l
}

proof fn lemma_pushed(w: Seq<Seq<Stand>>, edges: Seq<Stand>)
    requires
        is_once(w),
        edges.no_duplicates(),
        forall|e: Stand| #[trigger] edges.contains(e) ==> !is_on(w, e),
    ensures
        is_once(w.push(edges)),
        forall|e: Stand| #[trigger] is_on(w.push(edges), e) <==> is_on(w, e) || edges.contains(e),
        forall|j: int, i: int, e: Stand| #[trigger]
            is_nth(w.push(edges), j, i, e) ==> is_nth(w, j, i, e) || edges.contains(e),
{
    let x = w.push(edges);
    let n = w.len() as int;
    assert forall|j: int, i: int, e: Stand| #[trigger] is_nth(x, j, i, e) implies is_nth(w, j, i, e)
        || edges.contains(e) by {
        if j < n {
            assert(x[j] == w[j]);
        } else {
            assert(edges[i] == e);
        }
    }
    assert forall|j: int, i: int, k: int, l: int, e: Stand| #[trigger]
        is_nth(x, j, i, e) && #[trigger] is_nth(x, k, l, e) implies j == k && i == l by {
        if j < n {
            assert(is_nth(w, j, i, e));
            assert(is_on(w, e));
        } else {
            assert(edges[i] == e);
        }
        if k < n {
            assert(is_nth(w, k, l, e));
            assert(is_on(w, e));
        } else {
            assert(edges[l] == e);
            assert(edges.contains(e));
        }
    }
    assert forall|e: Stand| #[trigger] is_on(x, e) <==> is_on(w, e) || edges.contains(e) by {
        if is_on(w, e) {
            let (j, i) = choose|j: int, i: int| #[trigger] is_nth(w, j, i, e);
            assert(is_nth(x, j, i, e));
        }
        if edges.contains(e) {
            let i = choose|i: int| 0 <= i < edges.len() && edges[i] == e;
            assert(is_nth(x, n, i, e));
        }
        if is_on(x, e) {
            let (j, i) = choose|j: int, i: int| #[trigger] is_nth(x, j, i, e);
            assert(is_nth(w, j, i, e) || edges.contains(e));
        }
    }
}

proof fn lemma_replaced(w: Seq<Seq<Stand>>, edges: Seq<Stand>)
    requires
        w.len() > 0,
        is_once(w),
        edges.no_duplicates(),
        forall|e: Stand| #[trigger] edges.contains(e) ==> !is_on(w, e),
    ensures
        is_once(w.update(0, edges)),
        w[0].no_duplicates(),
        forall|e: Stand| #[trigger]
            is_on(w.update(0, edges), e) <==> edges.contains(e) || (is_on(w, e)
                && !w[0].contains(e)),
        forall|e: Stand| #[trigger] w[0].contains(e) ==> is_on(w, e),
{
    let x = w.update(0, edges);
    assert forall|a: int, b: int| 0 <= a < w[0].len() && 0 <= b < w[0].len() && a != b implies w[0][a]
        != w[0][b] by {
        if w[0][a] == w[0][b] {
            assert(is_nth(w, 0, a, w[0][a]));
            assert(is_nth(w, 0, b, w[0][a]));
        }
    }
    assert forall|e: Stand| #[trigger] w[0].contains(e) implies is_on(w, e) by {
        let i = choose|i: int| 0 <= i < w[0].len() && w[0][i] == e;
        assert(is_nth(w, 0, i, e));
    }
    assert forall|j: int, i: int, k: int, l: int, e: Stand| #[trigger]
        is_nth(x, j, i, e) && #[trigger] is_nth(x, k, l, e) implies j == k && i == l by {
        if j > 0 {
            assert(is_nth(w, j, i, e));
            assert(is_on(w, e));
        } else {
            assert(edges[i] == e);
            assert(edges.contains(e));
        }
        if k > 0 {
            assert(is_nth(w, k, l, e));
            assert(is_on(w, e));
        } else {
            assert(edges[l] == e);
            assert(edges.contains(e));
        }
    }
    assert forall|e: Stand| #[trigger] is_on(x, e) <==> edges.contains(e) || (is_on(w, e)
        && !w[0].contains(e)) by {
        if is_on(x, e) {
            let (j, i) = choose|j: int, i: int| #[trigger] is_nth(x, j, i, e);
            if j == 0 {
                assert(edges[i] == e);
            } else {
                assert(is_nth(w, j, i, e));
                if w[0].contains(e) {
                    let l = choose|l: int| 0 <= l < w[0].len() && w[0][l] == e;
                    assert(is_nth(w, 0, l, e));
                }
            }
        }
        if edges.contains(e) {
            let i = choose|i: int| 0 <= i < edges.len() && edges[i] == e;
            assert(is_nth(x, 0, i, e));
        }
        if is_on(w, e) && !w[0].contains(e) {
            let (j, i) = choose|j: int, i: int| #[trigger] is_nth(w, j, i, e);
            if j == 0 {
                assert(w[0][i] == e);
            }
            assert(is_nth(x, j, i, e));
        }
    }
}

proof fn lemma_turned_back(edges: Seq<Stand>)
    requires
        edges.no_duplicates(),
    ensures
        turned_back(edges).no_duplicates(),
        forall|e: Stand| #[trigger] turned_back(edges).contains(e) <==> edges.contains(e),
{
    let n = edges.len() as int;
    let back = turned_back(edges);
    let at = |i: int|
        if i + 1 < n {
            n - 2 - i
        } else {
            n - 1
        };
    assert forall|e: Stand| #[trigger] back.contains(e) <==> edges.contains(e) by {
        if back.contains(e) {
            let i = choose|i: int| 0 <= i < n && back[i] == e;
            assert(edges[at(i)] == e);
        }
        if edges.contains(e) {
            let i = choose|i: int| 0 <= i < n && edges[i] == e;
            assert(back[at(i)] == e);
        }
    }
    assert forall|i: int, j: int| 0 <= i < n && 0 <= j < n && i != j implies back[i] != back[j] by {
        assert(edges[at(i)] != edges[at(j)]);
    }
}

proof fn lemma_turned_on(edges: Seq<Stand>)
    requires
        edges.no_duplicates(),
    ensures
        turned_on(edges).no_duplicates(),
        forall|e: Stand| #[trigger] turned_on(edges).contains(e) <==> edges.contains(e),
{
    let n = edges.len() as int;
    let on = turned_on(edges);
    let at = |i: int|
        if i + 1 < n {
            i + 1
        } else {
            0
        };
    let from = |i: int|
        if i > 0 {
            i - 1
        } else {
            n - 1
        };
    assert forall|e: Stand| #[trigger] on.contains(e) <==> edges.contains(e) by {
        if on.contains(e) {
            let i = choose|i: int| 0 <= i < n && on[i] == e;
            assert(edges[at(i)] == e);
        }
        if edges.contains(e) {
            let i = choose|i: int| 0 <= i < n && edges[i] == e;
            assert(on[from(i)] == e);
        }
    }
    assert forall|i: int, j: int| 0 <= i < n && 0 <= j < n && i != j implies on[i] != on[j] by {
        assert(edges[at(i)] != edges[at(j)]);
    }
}

/// A ring more.
#[verifier::spinoff_prover]
#[verifier::rlimit(60)]
proof fn lemma_with_ring(
    chf: CompactHeightfield,
    rm: RegionMap,
    id: int,
    rings: Rings,
    w: Seq<Seq<Stand>>,
    ring: Seq<ContourVertex>,
    edges: Seq<Stand>,
) -> (x: Seq<Seq<Stand>>)
    requires
        rings_follow(chf, rm, id, rings, w),
        runs_with(chf, rm, ring, edges),
        ring.len() >= 3,
        edges.no_duplicates(),
        forall|e: Stand| #[trigger]
            edges.contains(e) ==> parts(chf, rm, e) && rm.region_of(e.0.0, e.0.1, e.0.2).0 == id
                && !is_on(w, e),
    ensures
        rings_follow(chf, rm, id, with_ring(rings, ring), x),
        forall|e: Stand| #[trigger] is_on(x, e) <==> is_on(w, e) || edges.contains(e),
{
    let all = with_ring(rings, ring);
    assert(is_once(w));
    assert forall|e: Stand| #[trigger] is_on(w, e) implies parts(chf, rm, e) && rm.region_of(
        e.0.0,
        e.0.1,
        e.0.2,
    ).0 == id by {
        let (j, i) = choose|j: int, i: int| #[trigger] is_nth(w, j, i, e);
        assert(is_nth(w, j, i, e));
    }
    let x = if area2(ring) > 0 && area2(rings.outer) < area2(ring) {
        lemma_replaced(w, edges);
        let y = w.update(0, edges);
        if rings.outer.len() > 0 {
            lemma_turned_back(w[0]);
            lemma_back_runs(chf, rm, rings.outer, w[0]);
            area_turns_with_the_contour(rings.outer);
            let back = turned_back(w[0]);
            assert forall|e: Stand| #[trigger] back.contains(e) implies !is_on(y, e) by {
                assert(w[0].contains(e));
                assert(is_on(w, e));
            }
            lemma_pushed(y, back);
            assert forall|e: Stand| #[trigger] is_on(y.push(back), e) <==> is_on(w, e)
                || edges.contains(e) by {
                assert(back.contains(e) <==> w[0].contains(e));
            }
            y.push(back)
        } else {
            assert(w[0].len() == 0);
            assert forall|e: Stand| #[trigger] is_on(y, e) <==> is_on(w, e) || edges.contains(
                e,
            ) by {
                assert(!w[0].contains(e));
            }
            y
        }
    } else if area2(ring) > 0 {
        lemma_turned_back(edges);
        lemma_back_runs(chf, rm, ring, edges);
        area_turns_with_the_contour(ring);
        let back = turned_back(edges);
        assert forall|e: Stand| #[trigger] back.contains(e) implies !is_on(w, e) by {
            assert(edges.contains(e));
        }
        lemma_pushed(w, back);
        w.push(back)
    } else {
        lemma_pushed(w, edges);
        w.push(edges)
    };
    assert forall|j: int| 1 <= j < x.len() implies #[trigger] hole_follows(chf, rm, all, x, j) by {
        if j < w.len() {
            assert(x[j] == w[j]);
            assert(hole_follows(chf, rm, rings, w, j));
            assert(all.holes[j - 1] == rings.holes[j - 1]);
        }
    }
    assert forall|j: int, i: int, e: Stand| #[trigger] is_nth(x, j, i, e) implies parts(chf, rm, e)
        && rm.region_of(e.0.0, e.0.1, e.0.2).0 == id by {
        assert(is_on(x, e));
    }
    assert(is_once(x));
    x
}

// --- All rings --------------------------------------------------------------

/// What tracing keeps: the rings so far run along edges that have been seen; what
/// has been seen is on a ring or a slit; and with an edge all those of its walk
/// have been seen.
spec fn is_tracing(
    chf: CompactHeightfield,
    rm: RegionMap,
    t: Tracing,
    ws: Seq<Seq<Seq<Stand>>>,
) -> bool {
    &&& ws.len() == t.0.len()
    &&& forall|id: int| 0 <= id < t.0.len() ==> #[trigger] rings_follow(chf, rm, id, t.0[id], ws[id])
    &&& forall|id: int, e: Stand|
        0 <= id < t.0.len() && #[trigger] is_on(ws[id], e) ==> t.1.contains(code(e))
    &&& forall|e: Stand| #[trigger] parts(chf, rm, e) && t.1.contains(code(e)) ==> is_placed(
        chf,
        rm,
        ws,
        e,
    )
    &&& forall|e: Stand, n: nat|
        parts(chf, rm, e) && t.1.contains(code(e)) && parts(
            chf,
            rm,
            #[trigger] stand_after(chf, rm, e, n),
        ) ==> t.1.contains(code(stand_after(chf, rm, e, n)))
}

/// Whether an edge is on a ring of its region, or a slit.
spec fn is_placed(
    chf: CompactHeightfield,
    rm: RegionMap,
    ws: Seq<Seq<Seq<Stand>>>,
    e: Stand,
) -> bool {
    let id = rm.region_of(e.0.0, e.0.1, e.0.2).0 as int;
    id < ws.len() ==> is_on(ws[id], e) || is_slit(chf, rm, e)
}

/// One walk more.
#[verifier::spinoff_prover]
#[verifier::rlimit(60)]
proof fn lemma_walk_traced(
    chf: CompactHeightfield,
    rm: RegionMap,
    t: Tracing,
    ws: Seq<Seq<Seq<Stand>>>,
    a: Stand,
    id: RegionId,
) -> (xs: Seq<Seq<Seq<Stand>>>)
    requires
        matching(chf, rm),
        links_back(chf),
        is_walkable_round(chf),
        is_tracing(chf, rm, t, ws),
        parts(chf, rm, a),
        !t.1.contains(code(a)),
        rm.region_of(a.0.0, a.0.1, a.0.2) == id,
        id.0 < t.0.len(),
    ensures
        ({
            let (ring, seen) = contour_from(chf, rm, a.0, a.1, t.1);
            let rings = if ring.len() < 3 {
                t.0
            } else {
                t.0.update(id.0 as int, with_ring(t.0[id.0 as int], ring))
            };
            &&& is_tracing(chf, rm, (rings, seen), xs)
            &&& seen.contains(code(a))
            &&& forall|x: u128| #[trigger] t.1.contains(x) ==> seen.contains(x)
        }),
{
    lemma_parts(chf, rm, a);
    let total = lemma_returns(chf, rm, a);
    let p = lemma_least(chf, rm, a, total);
    let fresh = Walk { cell: a.0, k: a.1, verts: Seq::empty(), seen: t.1 };
    assert(p <= walk_limit(chf));
    assert(stand_after(chf, rm, a, 0) == a);
    assert(ends_of(chf, rm, edges_in(chf, rm, a, 0)) =~= Seq::<ContourVertex>::empty());
    lemma_walked(chf, rm, t.1, a, fresh, walk_limit(chf), 0, p);
    let (ring, seen) = contour_from(chf, rm, a.0, a.1, t.1);
    let edges = edges_in(chf, rm, a, p);
    let on = turned_on(edges);
    lemma_edges_in(chf, rm, t.1, a, p);
    lemma_ring_runs(chf, rm, a, p);
    lemma_chain(chf, rm, a, p);
    lemma_some_edge(chf, rm, a, p);
    assert(code(edges[0]) == code(a));
    lemma_edges_distinct(chf, rm, a, p, p);
    lemma_turned_on(edges);
    let k = id.0 as int;
    // None has been seen.
    assert forall|e: Stand| #[trigger] edges.contains(e) implies parts(chf, rm, e) && !t.1.contains(
        code(e),
    ) && rm.region_of(e.0.0, e.0.1, e.0.2) == id by {
        let i = choose|i: int| 0 <= i < edges.len() && edges[i] == e;
        assert(parts(chf, rm, edges[i]) && is_state(chf, rm, a, p, edges[i]));
        let q = choose|q: nat| q < p && #[trigger] stand_after(chf, rm, a, q) == e;
        lemma_after_sum(chf, rm, a, q, (p - q) as nat);
        assert(stand_after(chf, rm, e, (p - q) as nat) == a);
    }
    let short = ring.len() < 3;
    let xs = if short {
        ws
    } else {
        assert forall|e: Stand| #[trigger] on.contains(e) implies parts(chf, rm, e)
            && rm.region_of(e.0.0, e.0.1, e.0.2).0 == k && !is_on(ws[k], e) by {
            assert(edges.contains(e));
        }
        let y = lemma_with_ring(chf, rm, k, t.0[k], ws[k], ring, on);
        ws.update(k, y)
    };
    let rings = if short {
        t.0
    } else {
        t.0.update(k, with_ring(t.0[k], ring))
    };
    assert forall|e: Stand, i: int| 0 <= i < ws.len() && #[trigger] is_on(ws[i], e) implies is_on(
        xs[i],
        e,
    ) by {}
    assert forall|i: int| 0 <= i < rings.len() implies #[trigger] rings_follow(
        chf,
        rm,
        i,
        rings[i],
        xs[i],
    ) by {
        if i != k {
            assert(rings_follow(chf, rm, i, t.0[i], ws[i]));
        }
    }
    assert forall|i: int, e: Stand| 0 <= i < rings.len() && #[trigger] is_on(xs[i], e) implies seen.contains(
        code(e),
    ) by {
        if is_on(ws[i], e) {
            assert(t.1.contains(code(e)));
        } else {
            assert(on.contains(e));
            let j = choose|j: int| 0 <= j < edges.len() && edges[j] == e;
            assert(code(edges[j]) == code(e));
        }
    }
    assert forall|e: Stand| #[trigger] parts(chf, rm, e) && seen.contains(code(e)) implies is_placed(
        chf,
        rm,
        xs,
        e,
    ) by {
        if t.1.contains(code(e)) {
            assert(is_placed(chf, rm, ws, e));
        } else {
            let j = choose|j: int| 0 <= j < edges.len() && code(#[trigger] edges[j]) == code(e);
            assert(parts(chf, rm, edges[j]));
            lemma_codes(e, edges[j]);
            assert(edges.contains(e));
            if short {
                lemma_short_is_slit(chf, rm, a, p, e);
            } else {
                assert(on.contains(e));
            }
        }
    }
    assert forall|e: Stand, n: nat|
        parts(chf, rm, e) && seen.contains(code(e)) && parts(
            chf,
            rm,
            #[trigger] stand_after(chf, rm, e, n),
        ) implies seen.contains(code(stand_after(chf, rm, e, n))) by {
        if t.1.contains(code(e)) {
            assert(t.1.contains(code(stand_after(chf, rm, e, n))));
        } else {
            let j = choose|j: int| 0 <= j < edges.len() && code(#[trigger] edges[j]) == code(e);
            assert(parts(chf, rm, edges[j]) && is_state(chf, rm, a, p, edges[j]));
            lemma_codes(e, edges[j]);
            let q = choose|q: nat| q < p && #[trigger] stand_after(chf, rm, a, q) == e;
            lemma_after_sum(chf, rm, a, q, n);
            let m = lemma_within(chf, rm, a, p, q + n);
            let f = stand_after(chf, rm, e, n);
            assert(m < p && stand_after(chf, rm, a, m) == f);
            assert(is_state(chf, rm, a, p, f));
            assert(edges.contains(f));
            let l = choose|l: int| 0 <= l < edges.len() && edges[l] == f;
            assert(code(edges[l]) == code(f));
        }
    }
    xs
}

proof fn lemma_edges_distinct(chf: CompactHeightfield, rm: RegionMap, a: Stand, p: nat, n: nat)
    requires
        matching(chf, rm),
        links_back(chf),
        is_stand(chf, a),
        is_period(chf, rm, a, p),
        n <= p,
    ensures
        edges_in(chf, rm, a, n).no_duplicates(),
    decreases n,
{
    if n > 0 {
        let m = (n - 1) as nat;
        lemma_edges_distinct(chf, rm, a, p, m);
        lemma_edges_in(chf, rm, Set::empty(), a, m);
        let before = edges_in(chf, rm, a, m);
        let edges = edges_in(chf, rm, a, n);
        let e = stand_after(chf, rm, a, m);
        assert forall|i: int| 0 <= i < before.len() implies before[i] != e by {
            assert(is_state(chf, rm, a, m, before[i]));
            let q = choose|q: nat| q < m && #[trigger] stand_after(chf, rm, a, q) == before[i];
            lemma_distinct(chf, rm, a, p, q, m);
        }
        assert forall|i: int, j: int|
            0 <= i < edges.len() && 0 <= j < edges.len() && i != j implies edges[i] != edges[j] by {
            if i < before.len() {
                assert(edges[i] == before[i]);
            }
            if j < before.len() {
                assert(edges[j] == before[j]);
            }
        }
    }
}

/// The edges of one surface.
proof fn lemma_cell_traced(
    chf: CompactHeightfield,
    rm: RegionMap,
    t: Tracing,
    ws: Seq<Seq<Seq<Stand>>>,
    cell: (u32, u32, u32),
    id: RegionId,
    k: int,
) -> (xs: Seq<Seq<Seq<Stand>>>)
    requires
        matching(chf, rm),
        links_back(chf),
        is_walkable_round(chf),
        is_tracing(chf, rm, t, ws),
        cell_in(chf, cell),
        rm.region_of(cell.0, cell.1, cell.2) == id,
        id.0 < t.0.len(),
        0 <= k <= 4,
    ensures
        is_tracing(chf, rm, traced_cell(chf, rm, t, cell, id, k), xs),
        traced_cell(chf, rm, t, cell, id, k).0.len() == t.0.len(),
        forall|x: u128| #[trigger]
            t.1.contains(x) ==> traced_cell(chf, rm, t, cell, id, k).1.contains(x),
        forall|j: int|
            k <= j < 4 && #[trigger] parts(chf, rm, (cell, j)) ==> traced_cell(
                chf,
                rm,
                t,
                cell,
                id,
                k,
            ).1.contains(code((cell, j))),
    decreases 4 - k,
{
    if k >= 4 {
        ws
    } else {
        let e = (cell, k);
        lemma_parts(chf, rm, e);
        assert(code(e) == edge_code(cell, k) as u128);
        if t.1.contains(code(e)) || !bounds(chf, rm, cell, k) {
            lemma_cell_traced(chf, rm, t, ws, cell, id, k + 1)
        } else {
            let ys = lemma_walk_traced(chf, rm, t, ws, e, id);
            let (ring, seen) = contour_from(chf, rm, cell, k, t.1);
            let rings = if ring.len() < 3 {
                t.0
            } else {
                t.0.update(id.0 as int, with_ring(t.0[id.0 as int], ring))
            };
            lemma_cell_traced(chf, rm, (rings, seen), ys, cell, id, k + 1)
        }
    }
}

/// The first `n` surfaces of a list.
proof fn lemma_cells_traced(
    chf: CompactHeightfield,
    rm: RegionMap,
    t: Tracing,
    ws: Seq<Seq<Seq<Stand>>>,
    cells: Seq<(u32, u32, u32, RegionId)>,
    n: nat,
) -> (xs: Seq<Seq<Seq<Stand>>>)
    requires
        matching(chf, rm),
        links_back(chf),
        is_walkable_round(chf),
        is_tracing(chf, rm, t, ws),
        n <= cells.len(),
        forall|j: int| 0 <= j < cells.len() ==> #[trigger] is_listed_cell(chf, rm, t, cells[j]),
    ensures
        is_tracing(chf, rm, traced(chf, rm, t, cells, n), xs),
        traced(chf, rm, t, cells, n).0.len() == t.0.len(),
        forall|j: int, k: int|
            0 <= j < n && cells[j].3 != no_region() && #[trigger] parts(
                chf,
                rm,
                (cell_of(cells[j]), k),
            ) ==> traced(chf, rm, t, cells, n).1.contains(code((cell_of(cells[j]), k))),
    decreases n,
{
    if n == 0 {
        ws
    } else {
        let m = (n - 1) as nat;
        let ys = lemma_cells_traced(chf, rm, t, ws, cells, m);
        let before = traced(chf, rm, t, cells, m);
        assert(is_listed_cell(chf, rm, t, cells[n - 1]));
        let (c, r, s, id) = cells[n - 1];
        if id == no_region() {
            ys
        } else {
            lemma_cell_traced(chf, rm, before, ys, (c, r, s), id, 0)
        }
    }
}

/// The surface of an entry of a listing.
spec fn cell_of(x: (u32, u32, u32, RegionId)) -> (u32, u32, u32) {
    (x.0, x.1, x.2)
}

/// Whether an entry of a listing is a surface with its region.
spec fn is_listed_cell(
    chf: CompactHeightfield,
    rm: RegionMap,
    t: Tracing,
    x: (u32, u32, u32, RegionId),
) -> bool {
    &&& cell_in(chf, cell_of(x))
    &&& rm.region_of(x.0, x.1, x.2) == x.3
    &&& x.3 == no_region() || x.3.0 < t.0.len()
}

/// Every surface is in the listing.
proof fn lemma_all_listed(
    chf: CompactHeightfield,
    rm: RegionMap,
    n: nat,
    c: u32,
    r: u32,
    s: u32,
) -> (j: int)
    requires
        matching(chf, rm),
        cell_in(chf, (c, r, s)),
        column_index(rm.cols as int, c as int, r as int) < n <= rm.columns@.len(),
    ensures
        0 <= j < listing(rm.columns@, rm.cols as int, n).len(),
        cell_of(listing(rm.columns@, rm.cols as int, n)[j]) == (c, r, s),
    decreases n,
{
    let cols = rm.cols as int;
    let i = n - 1;
    let at = column_index(cols, c as int, r as int);
    let before = listing(rm.columns@, cols, i as nat);
    let all = listing(rm.columns@, cols, n);
    if at < i {
        let j = lemma_all_listed(chf, rm, i as nat, c, r, s);
        assert(all[j] == before[j]);
        j
    } else {
        crate::walkability::lemma_column_bound(cols, rm.rows as int, c as int, r as int);
        crate::walkability::lemma_column_of(cols, rm.rows as int, at);
        crate::walkability::columns_are_apart(cols, c as int, r as int, at % cols, at / cols);
        assert(chf.surfaces(c, r) == chf.columns@[at]@);
        assert(labels(rm.columns@)[at].len() == chf.columns@[at]@.len());
        assert(labels(rm.columns@)[at] == rm.columns@[at]@);
        let j = before.len() + s;
        assert(cell_of(all[j]) == (c, r, s));
        j
    }
}

/// Every edge that bounds a region is on one of the rings of that region, and on
/// no second one, unless it is a slit; and every edge of a ring is one that bounds
/// its region. For fields that can be walked round.
pub proof fn rings_hold_every_boundary_edge(chf: CompactHeightfield, rm: RegionMap) -> (ws: Seq<
    Seq<Seq<Stand>>,
>)
    requires
        matching(chf, rm),
        is_walkable_round(chf),
        ids_below(labels(rm.columns@), rm.region_count as nat),
    ensures
        all_bounded(chf, rm, contours_of(chf, rm), ws),
{
    let cells = listing(rm.columns@, rm.cols as int, rm.columns@.len());
    let none = Seq::new(
        rm.region_count as nat,
        |i: int| Rings { outer: Seq::empty(), holes: Seq::empty() },
    );
    let blank: Seq<Seq<Stand>> = seq![Seq::empty()];
    let start = Seq::new(rm.region_count as nat, |i: int| blank);
    let t: Tracing = (none, Set::empty());
    assert forall|i: int| 0 <= i < none.len() implies #[trigger] rings_follow(
        chf,
        rm,
        i,
        none[i],
        start[i],
    ) by {
        assert(start[i] == blank);
    }
    assert forall|i: int, e: Stand| 0 <= i < none.len() && #[trigger] is_on(start[i], e) implies t.1.contains(
        code(e),
    ) by {
        let (j, k) = choose|j: int, k: int| #[trigger] is_nth(start[i], j, k, e);
        assert(start[i] == blank);
    }
    assert(is_tracing(chf, rm, t, start));
    assert forall|j: int| 0 <= j < cells.len() implies #[trigger] is_listed_cell(
        chf,
        rm,
        t,
        cells[j],
    ) by {
        lemma_listed(chf, rm, rm.columns@.len(), j);
    }
    let ws = lemma_cells_traced(chf, rm, t, start, cells, cells.len());
    let all = contours_of(chf, rm);
    let end = traced(chf, rm, t, cells, cells.len());
    assert(all == end.0);
    assert forall|id: int| 0 <= id < all.len() implies #[trigger] rings_bound(
        chf,
        rm,
        id,
        all[id],
        ws[id],
    ) by {
        assert(rings_follow(chf, rm, id, end.0[id], ws[id]));
        assert forall|e: Stand| #[trigger]
            parts(chf, rm, e) && rm.region_of(e.0.0, e.0.1, e.0.2).0 == id implies is_on(
            ws[id],
            e,
        ) || is_slit(chf, rm, e) by {
            crate::walkability::lemma_column_bound(
                rm.cols as int,
                rm.rows as int,
                e.0.0 as int,
                e.0.1 as int,
            );
            let j = lemma_all_listed(chf, rm, rm.columns@.len(), e.0.0, e.0.1, e.0.2);
            assert(is_listed_cell(chf, rm, t, cells[j]));
            assert(cell_of(cells[j]) == e.0);
            assert(parts(chf, rm, (cell_of(cells[j]), e.1)));
            assert(end.1.contains(code(e)));
            assert(is_placed(chf, rm, ws, e));
        }
    }
    ws
}

} // verus!
