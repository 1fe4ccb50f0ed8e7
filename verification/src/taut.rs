//! A pulled string goes through its doorways: every stretch passes between the
//! ends of each doorway on its way.

use crate::channel::{covers, edge_number, has_edge, is_neighbor, tri_edge};
use crate::funnel::{
    close, doorway, doorways, is_post, leads, left_side, lemma_close_to_itself, lemma_open_cone,
    lemma_pull_stays_sound, next_to, portals_of, pull_sound, pulled, pulled_once, right_side,
    shared_corners, shared_pair, string_of, string_through, Pull, Side,
};
use crate::navmesh::RegionNavMesh;
use crate::plane::{areas_add, areas_turn, wedge, wedges_mix, wedges_turn};
use crate::predicates::{orient, orient_det, orientation_turns, Vertex};
use crate::segment::same_place;
use vstd::prelude::*;

verus! {

// --- Sleeves ----------------------------------------------------------------

/// Whether a doorway follows another across a triangle on its far side: one
/// end stays, the other moves beyond.
pub open spec fn follows(d: (Vertex, Vertex), e: (Vertex, Vertex)) -> bool {
    ||| e.1 == d.1 && orient(d.1, d.0, e.0) < 0
    ||| e.0 == d.0 && orient(d.1, d.0, e.1) < 0
}

/// Whether the doorway in place `i` is followed by the next.
pub open spec fn is_followed(portals: Seq<(Vertex, Vertex)>, i: int) -> bool {
    follows(portals[i], portals[i + 1])
}

/// Whether points that count as the same are the same.
pub open spec fn are_distinct(portals: Seq<(Vertex, Vertex)>) -> bool {
    forall|p: Vertex, q: Vertex|
        is_post(portals, p) && is_post(portals, q) && #[trigger] close(p, q) ==> same_place(p, q)
}

/// Whether doorways lead, each across a triangle from the one before, from a
/// point to a point: the first and the last are these points, not behind and
/// not ahead of the doorways next to them.
pub open spec fn is_sleeve(portals: Seq<(Vertex, Vertex)>) -> bool {
    let n = portals.len();
    &&& n >= 2
    &&& portals[0].0 == portals[0].1
    &&& portals[n - 1].0 == portals[n - 1].1
    &&& n > 2 ==> orient(portals[1].1, portals[1].0, portals[0].0) >= 0 && orient(
        portals[n - 2].1,
        portals[n - 2].0,
        portals[n - 1].0,
    ) <= 0
    &&& forall|i: int| 1 <= i < n - 1 ==> !same_place((#[trigger] portals[i]).0, portals[i].1)
    &&& forall|i: int| 1 <= i < n - 2 ==> #[trigger] is_followed(portals, i)
    &&& are_distinct(portals)
}

/// Whether the line from `a` to `b` has the left end of a doorway on its left
/// and the right end on its right, or on it.
pub open spec fn passes(a: Vertex, b: Vertex, d: (Vertex, Vertex)) -> bool {
    orient(a, b, d.0) >= 0 && orient(a, b, d.1) <= 0
}

/// Whether stretch `k` of a string passes doorway `i`.
pub open spec fn stretch_passes(
    portals: Seq<(Vertex, Vertex)>,
    out: Seq<Vertex>,
    k: int,
    i: int,
) -> bool {
    passes(out[k], out[k + 1], portals[i])
}

/// Whether the corners of a string are ends of the doorways in the places
/// `at`, and each stretch passes all doorways between those of its ends.
pub open spec fn threads(
    portals: Seq<(Vertex, Vertex)>,
    out: Seq<Vertex>,
    at: Seq<int>,
) -> bool {
    &&& at.len() == out.len()
    &&& forall|k: int|
        0 <= k < at.len() ==> 0 <= #[trigger] at[k] < portals.len() && (portals[at[k]].0 == out[k]
            || portals[at[k]].1 == out[k])
    &&& forall|k: int, i: int|
        0 <= k < at.len() - 1 && at[k] < i < at[k + 1] ==> #[trigger] stretch_passes(
            portals,
            out,
            k,
            i,
        )
    &&& forall|j: int, k: int| 0 <= j < k < at.len() ==> #[trigger] at[j] < #[trigger] at[k]
}

/// Whether a string goes from the first doorway to the last, through all those
/// between.
pub open spec fn is_taut(portals: Seq<(Vertex, Vertex)>, out: Seq<Vertex>) -> bool {
    exists|at: Seq<int>| #[trigger]
        threads(portals, out, at) && at.len() > 0 && at[0] == 0 && (at.last() == portals.len() - 1
            || at.last() == portals.len() - 2 && same_place(out.last(), portals.last().0))
}

// --- Around the apex --------------------------------------------------------

/// Whether both sides of the cone at `a` pass a doorway.
spec fn clears(a: Vertex, left: Vertex, right: Vertex, d: (Vertex, Vertex)) -> bool {
    &&& wedge(a, left, d.0) >= 0
    &&& wedge(a, left, d.1) <= 0
    &&& wedge(a, right, d.0) >= 0
    &&& wedge(a, right, d.1) <= 0
}

/// The side of a line from `r` to `l` on which `x` lies, from areas at `a`.
proof fn lemma_beyond(a: Vertex, r: Vertex, l: Vertex, x: Vertex)
    ensures
        orient_det(r, l, x) == wedge(a, r, l) + wedge(a, l, x) + wedge(a, x, r),
        orient(r, l, x) < 0 <==> orient_det(r, l, x) < 0,
        orient(r, l, x) > 0 <==> orient_det(r, l, x) > 0,
{
    reveal(wedge);
    areas_add(r, l, x, a);
    areas_turn(a, r, l);
    areas_turn(a, l, x);
    areas_turn(a, x, r);
}

proof fn lemma_signed(d: int, p: int, x: int, q: int, y: int, z: int)
    requires
        d > 0,
        p >= 0,
        q >= 0,
        d * z == p * x + q * y,
    ensures
        x >= 0 && y >= 0 ==> z >= 0,
        x <= 0 && y <= 0 ==> z <= 0,
{
    if x >= 0 && y >= 0 {
        assert(z >= 0) by (nonlinear_arith)
            requires
                d > 0,
                p >= 0,
                q >= 0,
                d * z == p * x + q * y,
                x >= 0,
                y >= 0,
        ;
    }
    if x <= 0 && y <= 0 {
        assert(z <= 0) by (nonlinear_arith)
            requires
                d > 0,
                p >= 0,
                q >= 0,
                d * z == p * x + q * y,
                x <= 0,
                y <= 0,
        ;
    }
}

/// A point in the cone passes what both of its sides pass.
proof fn lemma_between(a: Vertex, left: Vertex, right: Vertex, x: Vertex, d: (Vertex, Vertex))
    requires
        wedge(a, right, left) > 0,
        clears(a, left, right, d),
        wedge(a, right, x) >= 0,
        wedge(a, left, x) <= 0,
    ensures
        wedge(a, x, d.0) >= 0,
        wedge(a, x, d.1) <= 0,
{
    wedges_turn(a, x, left);
    wedges_mix(a, right, left, x, d.0);
    wedges_mix(a, right, left, x, d.1);
    let (k, p, q) = (wedge(a, right, left), wedge(a, x, left), wedge(a, right, x));
    lemma_signed(k, p, wedge(a, right, d.0), q, wedge(a, left, d.0), wedge(a, x, d.0));
    lemma_signed(k, p, wedge(a, right, d.1), q, wedge(a, left, d.1), wedge(a, x, d.1));
}

/// Nothing beyond a doorway lies behind the cone.
proof fn lemma_not_behind(a: Vertex, left: Vertex, right: Vertex, d: (Vertex, Vertex), x: Vertex)
    requires
        wedge(a, right, left) > 0,
        clears(a, left, right, d),
        wedge(a, d.1, d.0) >= 0,
        !same_place(d.0, d.1),
        orient(d.1, d.0, x) <= 0,
        wedge(a, right, x) < 0,
    ensures
        wedge(a, left, x) <= 0,
{
    if wedge(a, left, x) > 0 {
        lemma_behind(a, left, right, d, x);
        lemma_at_apex(a, left, right, d.0);
        lemma_at_apex(a, left, right, d.1);
    }
}

proof fn lemma_behind(a: Vertex, left: Vertex, right: Vertex, d: (Vertex, Vertex), x: Vertex)
    requires
        wedge(a, right, left) > 0,
        clears(a, left, right, d),
        wedge(a, d.1, d.0) >= 0,
        orient(d.1, d.0, x) <= 0,
        wedge(a, right, x) < 0,
        wedge(a, left, x) > 0,
    ensures
        wedge(a, left, d.0) == 0,
        wedge(a, right, d.0) == 0,
        wedge(a, left, d.1) == 0,
        wedge(a, right, d.1) == 0,
{
    let (l, r) = (d.0, d.1);
    lemma_beyond(a, r, l, x);
    wedges_mix(a, right, left, l, x);
    wedges_mix(a, right, left, x, r);
    wedges_turn(a, l, left);
    wedges_turn(a, x, left);
    let k = wedge(a, right, left);
    let (l1, l2) = (wedge(a, l, left), wedge(a, right, l));
    let (x1, x2) = (wedge(a, x, left), wedge(a, right, x));
    let (r2, r1) = (wedge(a, right, r), wedge(a, left, r));
    let (lx, xr) = (wedge(a, l, x), wedge(a, x, r));
    assert(k * lx == l1 * x2 + l2 * wedge(a, left, x));
    assert(k * xr == x1 * r2 + x2 * r1);
    assert(l1 * x2 >= 0) by (nonlinear_arith)
        requires
            l1 <= 0,
            x2 < 0,
    ;
    let y = wedge(a, left, x);
    assert(l2 * y >= 0) by (nonlinear_arith)
        requires
            l2 >= 0,
            y > 0,
    ;
    assert(x1 * r2 >= 0) by (nonlinear_arith)
        requires
            x1 < 0,
            r2 <= 0,
    ;
    assert(x2 * r1 >= 0) by (nonlinear_arith)
        requires
            x2 < 0,
            r1 <= 0,
    ;
    assert(lx >= 0 && xr >= 0) by (nonlinear_arith)
        requires
            k > 0,
            k * lx >= 0,
            k * xr >= 0,
    ;
    assert(lx == 0 && xr == 0);
    assert(k * 0 == 0);
    assert(l1 == 0) by (nonlinear_arith)
        requires
            l1 * x2 == 0,
            x2 < 0,
    ;
    assert(l2 == 0) by (nonlinear_arith)
        requires
            l2 * y == 0,
            y > 0,
    ;
    assert(r2 == 0) by (nonlinear_arith)
        requires
            x1 * r2 == 0,
            x1 < 0,
    ;
    assert(r1 == 0) by (nonlinear_arith)
        requires
            x2 * r1 == 0,
            x2 < 0,
    ;
}

/// A point on both lines of an open cone is its apex.
proof fn lemma_at_apex(a: Vertex, left: Vertex, right: Vertex, p: Vertex)
    requires
        wedge(a, right, left) != 0,
        wedge(a, left, p) == 0,
        wedge(a, right, p) == 0,
    ensures
        same_place(a, p),
{
    reveal(wedge);
    let (lx, ly) = (left.vx() - a.vx(), left.vy() - a.vy());
    let (rx, ry) = (right.vx() - a.vx(), right.vy() - a.vy());
    let (px, py) = (p.vx() - a.vx(), p.vy() - a.vy());
    areas_turn(a, left, p);
    areas_turn(a, right, p);
    areas_turn(a, right, left);
    assert(wedge(a, left, p) == orient_det(left, p, a));
    assert(lx * py - ly * px == 0);
    assert(rx * py - ry * px == 0);
    let k = rx * ly - ry * lx;
    assert(k != 0);
    assert(k * px == 0) by (nonlinear_arith)
        requires
            lx * py - ly * px == 0,
            rx * py - ry * px == 0,
            k == rx * ly - ry * lx,
    ;
    assert(k * py == 0) by (nonlinear_arith)
        requires
            lx * py - ly * px == 0,
            rx * py - ry * px == 0,
            k == rx * ly - ry * lx,
    ;
    assert(px == 0) by (nonlinear_arith)
        requires
            k != 0,
            k * px == 0,
    ;
    assert(py == 0) by (nonlinear_arith)
        requires
            k != 0,
            k * py == 0,
    ;
}

/// Past a doorway seen from its near side, the next one is too where its left
/// end opens the cone.
proof fn lemma_opens_left(a: Vertex, left: Vertex, right: Vertex, d: (Vertex, Vertex), x: Vertex)
    requires
        wedge(a, right, left) > 0,
        clears(a, left, right, d),
        wedge(a, d.1, d.0) >= 0,
        !same_place(d.0, d.1),
        orient(d.1, d.0, x) < 0,
        wedge(a, left, x) > 0,
    ensures
        wedge(a, right, x) >= 0,
        wedge(a, d.1, x) >= 0,
{
    let (l, r) = (d.0, d.1);
    if wedge(a, right, x) < 0 {
        lemma_not_behind(a, left, right, d, x);
    }
    if wedge(a, r, x) < 0 {
        lemma_beyond(a, r, l, x);
        wedges_turn(a, l, x);
        wedges_turn(a, x, r);
        wedges_turn(a, x, left);
        wedges_turn(a, r, left);
        wedges_turn(a, l, left);
        let (u, w, z) = (wedge(a, r, l), wedge(a, r, x), wedge(a, x, l));
        assert(z > u - w);
        // In terms of r and l.
        wedges_mix(a, r, l, x, left);
        let (x1, r1, l1) = (wedge(a, x, left), wedge(a, r, left), wedge(a, l, left));
        assert(u * x1 == z * r1 + w * l1);
        assert(z * r1 >= 0) by (nonlinear_arith)
            requires
                z > 0,
                r1 >= 0,
        ;
        assert(w * l1 >= 0) by (nonlinear_arith)
            requires
                w < 0,
                l1 <= 0,
        ;
        assert(u * x1 <= 0) by (nonlinear_arith)
            requires
                u >= 0,
                x1 < 0,
        ;
        assert(u == 0) by (nonlinear_arith)
            requires
                u * x1 == 0,
                x1 < 0,
        ;
        assert(r1 == 0) by (nonlinear_arith)
            requires
                z * r1 == 0,
                z > 0,
        ;
        assert(l1 == 0) by (nonlinear_arith)
            requires
                w * l1 == 0,
                w < 0,
        ;
        wedges_mix(a, r, l, x, right);
        wedges_turn(a, x, right);
        wedges_turn(a, r, right);
        wedges_turn(a, l, right);
        let (x2, r2, l2) = (wedge(a, x, right), wedge(a, r, right), wedge(a, l, right));
        assert(u * x2 == z * r2 + w * l2);
        assert(0 * x2 == 0);
        assert(z * r2 >= 0) by (nonlinear_arith)
            requires
                z > 0,
                r2 >= 0,
        ;
        assert(w * l2 >= 0) by (nonlinear_arith)
            requires
                w < 0,
                l2 <= 0,
        ;
        assert(r2 == 0) by (nonlinear_arith)
            requires
                z * r2 == 0,
                z > 0,
        ;
        assert(l2 == 0) by (nonlinear_arith)
            requires
                w * l2 == 0,
                w < 0,
        ;
        lemma_at_apex(a, left, right, l);
        lemma_at_apex(a, left, right, r);
    }
}

/// The same on the right.
proof fn lemma_opens_right(a: Vertex, left: Vertex, right: Vertex, d: (Vertex, Vertex), x: Vertex)
    requires
        wedge(a, right, left) > 0,
        clears(a, left, right, d),
        wedge(a, d.1, d.0) >= 0,
        !same_place(d.0, d.1),
        orient(d.1, d.0, x) < 0,
        wedge(a, right, x) < 0,
    ensures
        wedge(a, left, x) <= 0,
        wedge(a, x, d.0) >= 0,
{
    let (l, r) = (d.0, d.1);
    if wedge(a, left, x) > 0 {
        lemma_not_behind(a, left, right, d, x);
    }
    if wedge(a, x, l) < 0 {
        lemma_beyond(a, r, l, x);
        wedges_turn(a, l, x);
        wedges_turn(a, x, r);
        let (u, z, w) = (wedge(a, r, l), wedge(a, x, l), wedge(a, r, x));
        // orient = u + l x x + x x r = u - z - w
        assert(w > u - z);
        wedges_mix(a, r, l, x, right);
        wedges_turn(a, x, right);
        wedges_turn(a, r, right);
        wedges_turn(a, l, right);
        let (x2, r2, l2) = (wedge(a, x, right), wedge(a, r, right), wedge(a, l, right));
        assert(u * x2 == z * r2 + w * l2);
        assert(z * r2 <= 0) by (nonlinear_arith)
            requires
                z < 0,
                r2 >= 0,
        ;
        assert(w * l2 <= 0) by (nonlinear_arith)
            requires
                w > 0,
                l2 <= 0,
        ;
        assert(u * x2 >= 0) by (nonlinear_arith)
            requires
                u >= 0,
                x2 > 0,
        ;
        assert(u == 0) by (nonlinear_arith)
            requires
                u * x2 == 0,
                x2 > 0,
        ;
        assert(r2 == 0) by (nonlinear_arith)
            requires
                z * r2 == 0,
                z < 0,
        ;
        assert(l2 == 0) by (nonlinear_arith)
            requires
                w * l2 == 0,
                w > 0,
        ;
        wedges_mix(a, r, l, x, left);
        wedges_turn(a, r, left);
        wedges_turn(a, l, left);
        let (x1, r1, l1) = (wedge(a, x, left), wedge(a, r, left), wedge(a, l, left));
        assert(u * x1 == z * r1 + w * l1);
        assert(0 * x1 == 0);
        assert(z * r1 <= 0) by (nonlinear_arith)
            requires
                z < 0,
                r1 >= 0,
        ;
        assert(w * l1 <= 0) by (nonlinear_arith)
            requires
                w > 0,
                l1 <= 0,
        ;
        assert(r1 == 0) by (nonlinear_arith)
            requires
                z * r1 == 0,
                z < 0,
        ;
        assert(l1 == 0) by (nonlinear_arith)
            requires
                w * l1 == 0,
                w > 0,
        ;
        lemma_at_apex(a, left, right, l);
        lemma_at_apex(a, left, right, r);
    }
}

// --- Pulling ----------------------------------------------------------------

/// Whether the cone has just been opened at an end of a doorway.
spec fn is_opened(portals: Seq<(Vertex, Vertex)>, f: Pull) -> bool {
    &&& 0 <= f.apex_at < portals.len()
    &&& f.next == f.apex_at + 1
    &&& f.left == f.apex && f.right == f.apex
    &&& f.left_at == f.apex_at && f.right_at == f.apex_at
    &&& portals[f.apex_at].0 == f.apex || portals[f.apex_at].1 == f.apex
}

/// Whether the cone has its sides from the first doorway after the apex.
spec fn is_first(portals: Seq<(Vertex, Vertex)>, f: Pull) -> bool {
    let i = f.apex_at + 1;
    &&& 0 <= f.apex_at < portals.len() - 1
    &&& f.next == i + 1
    &&& f.left == portals[i].0 && f.right == portals[i].1
    &&& f.left_at == i && f.right_at == i
    &&& portals[f.apex_at].0 == f.apex || portals[f.apex_at].1 == f.apex
    &&& wedge(f.apex, f.right, f.left) >= 0
}

/// Whether the sides of an open cone pass all doorways so far.
spec fn all_clear(
    portals: Seq<(Vertex, Vertex)>,
    a: Vertex,
    left: Vertex,
    right: Vertex,
    from: int,
    to: int,
) -> bool {
    forall|j: int| from < j < to ==> clears(a, left, right, #[trigger] portals[j])
}

/// Whether the cone is open and its sides pass all doorways so far.
spec fn is_wide(portals: Seq<(Vertex, Vertex)>, f: Pull) -> bool {
    &&& 0 <= f.apex_at < f.next - 1
    &&& f.next < portals.len()
    &&& f.apex_at < f.left_at < f.next && f.apex_at < f.right_at < f.next
    &&& f.left == portals[f.left_at].0 && f.right == portals[f.right_at].1
    &&& portals[f.apex_at].0 == f.apex || portals[f.apex_at].1 == f.apex
    &&& wedge(f.apex, f.right, f.left) > 0
    &&& all_clear(portals, f.apex, f.left, f.right, f.apex_at, f.next)
    &&& wedge(f.apex, portals[f.next - 1].1, portals[f.next - 1].0) >= 0
}

spec fn is_good(portals: Seq<(Vertex, Vertex)>, f: Pull) -> bool {
    is_opened(portals, f) || is_first(portals, f) || is_wide(portals, f)
}

/// Whether a stage of pulling comes after another: the apex stays, or the
/// string is fixed further on, past all doorways between.
spec fn goes_on(portals: Seq<(Vertex, Vertex)>, f: Pull, g: Pull) -> bool {
    ||| g.apex == f.apex && g.apex_at == f.apex_at && g.out == f.out
    ||| {
        &&& f.apex_at < g.apex_at
        &&& is_opened(portals, g)
        &&& g.out == f.out.push(g.apex)
        &&& forall|j: int|
            f.apex_at < j < g.apex_at ==> passes(f.apex, g.apex, #[trigger] portals[j])
    }
}

proof fn lemma_same(a: Vertex, p: Vertex, q: Vertex)
    requires
        same_place(a, p),
    ensures
        close(a, p),
        wedge(a, p, q) == 0,
        wedge(a, q, p) == 0,
        orient(a, p, q) == 0,
{
    reveal(wedge);
    lemma_close_to_itself(a);
    wedges_turn(a, a, q);
    assert(orient_det(a, p, q) == orient_det(a, a, q));
    assert(orient_det(a, q, p) == orient_det(a, q, a));
    wedges_turn(a, q, a);
}

proof fn lemma_far(portals: Seq<(Vertex, Vertex)>, a: Vertex, p: Vertex)
    requires
        are_distinct(portals),
        is_post(portals, a),
        is_post(portals, p),
        !same_place(a, p),
    ensures
        !close(a, p),
{
}

proof fn lemma_ends(portals: Seq<(Vertex, Vertex)>, i: int)
    requires
        0 <= i < portals.len(),
    ensures
        is_post(portals, portals[i].0),
        is_post(portals, portals[i].1),
{
}

proof fn lemma_passes(
    portals: Seq<(Vertex, Vertex)>,
    a: Vertex,
    left: Vertex,
    right: Vertex,
    from: int,
    to: int,
)
    requires
        all_clear(portals, a, left, right, from, to),
    ensures
        forall|j: int| from < j < to ==> passes(a, left, #[trigger] portals[j]),
        forall|j: int| from < j < to ==> passes(a, right, #[trigger] portals[j]),
{
    assert forall|j: int| from < j < to implies passes(a, left, #[trigger] portals[j]) && passes(
        a,
        right,
        portals[j],
    ) by {
        assert(clears(a, left, right, portals[j]));
        wedges_turn(a, left, portals[j].0);
        wedges_turn(a, left, portals[j].1);
        wedges_turn(a, right, portals[j].0);
        wedges_turn(a, right, portals[j].1);
    }
}

proof fn lemma_step_opened(portals: Seq<(Vertex, Vertex)>, f: Pull)
    requires
        is_sleeve(portals),
        is_opened(portals, f),
        f.next < portals.len(),
    ensures
        is_first(portals, pulled_once(portals, f)),
        goes_on(portals, f, pulled_once(portals, f)),
{
    let n = portals.len();
    let (a, i) = (f.apex, f.next);
    let (l, r) = portals[i];
    lemma_close_to_itself(a);
    lemma_open_cone(a, l);
    lemma_open_cone(a, r);
    wedges_turn(a, r, l);
    if i < n - 1 {
        if i == 1 {
            reveal(wedge);
            areas_turn(r, l, a);
            lemma_beyond(a, r, l, a);
        } else {
            let d = portals[i - 1];
            assert(is_followed(portals, i - 1));
            lemma_beyond(a, d.1, d.0, l);
            lemma_beyond(a, d.1, d.0, r);
            wedges_turn(a, d.1, l);
            wedges_turn(a, d.0, r);
            wedges_turn(a, d.1, r);
            wedges_turn(a, d.0, l);
            wedges_turn(a, d.0, d.1);
            areas_turn(a, a, l);
            areas_turn(a, a, r);
        }
    }
}

/// Narrowing the cone on its right.
proof fn lemma_narrow_right(
    portals: Seq<(Vertex, Vertex)>,
    a: Vertex,
    left: Vertex,
    right: Vertex,
    from: int,
    to: int,
    x: Vertex,
)
    requires
        wedge(a, right, left) > 0,
        all_clear(portals, a, left, right, from, to),
        wedge(a, right, x) >= 0,
        wedge(a, left, x) < 0,
    ensures
        wedge(a, x, left) > 0,
        all_clear(portals, a, left, x, from, to),
{
    wedges_turn(a, left, x);
    assert forall|j: int| from < j < to implies clears(a, left, x, #[trigger] portals[j]) by {
        lemma_between(a, left, right, x, portals[j]);
    }
}

/// Narrowing the cone on its left.
proof fn lemma_narrow_left(
    portals: Seq<(Vertex, Vertex)>,
    a: Vertex,
    left: Vertex,
    right: Vertex,
    from: int,
    to: int,
    x: Vertex,
)
    requires
        wedge(a, right, left) > 0,
        all_clear(portals, a, left, right, from, to),
        wedge(a, right, x) > 0,
        wedge(a, left, x) <= 0,
    ensures
        all_clear(portals, a, x, right, from, to),
{
    assert forall|j: int| from < j < to implies clears(a, x, right, #[trigger] portals[j]) by {
        lemma_between(a, left, right, x, portals[j]);
    }
}

/// What is known of the sides of an open cone: neither is at the apex.
proof fn lemma_wide_sides(portals: Seq<(Vertex, Vertex)>, f: Pull)
    requires
        is_sleeve(portals),
        is_wide(portals, f),
    ensures
        !close(f.apex, f.left),
        !close(f.apex, f.right),
{
    lemma_ends(portals, f.apex_at);
    lemma_ends(portals, f.left_at);
    lemma_ends(portals, f.right_at);
    if same_place(f.apex, f.left) {
        lemma_same(f.apex, f.left, f.right);
    }
    if same_place(f.apex, f.right) {
        lemma_same(f.apex, f.right, f.left);
    }
}

/// The next doorway has the same right end.
#[verifier::spinoff_prover]
#[verifier::rlimit(60)]
proof fn lemma_step_left(portals: Seq<(Vertex, Vertex)>, f: Pull)
    requires
        is_sleeve(portals),
        is_wide(portals, f),
        f.next < portals.len() - 1,
        portals[f.next].1 == portals[f.next - 1].1,
        orient(portals[f.next - 1].1, portals[f.next - 1].0, portals[f.next].0) < 0,
    ensures
        is_good(portals, pulled_once(portals, f)),
        goes_on(portals, f, pulled_once(portals, f)),
{
    let (a, i) = (f.apex, f.next);
    let (l, r) = portals[i];
    let d = portals[i - 1];
    lemma_wide_sides(portals, f);
    lemma_passes(portals, a, f.left, f.right, f.apex_at, i);
    wedges_turn(a, f.right, r);
    wedges_turn(a, f.left, r);
    wedges_turn(a, f.left, l);
    wedges_turn(a, r, r);
    assert(clears(a, f.left, f.right, d));
    let g = match right_side(f, r) {
        Side::Tightened => {
            lemma_narrow_right(portals, a, f.left, f.right, f.apex_at, i, r);
            Pull { right: r, right_at: i, ..f }
        },
        _ => f,
    };
    if !(right_side(f, r) is Crossed) {
        assert(wedge(a, g.right, g.left) > 0);
        assert(all_clear(portals, a, g.left, g.right, f.apex_at, i));
        lemma_passes(portals, a, g.left, g.right, f.apex_at, i);
        wedges_turn(a, g.right, l);
        wedges_turn(a, l, l);
        wedges_turn(a, l, r);
        assert(clears(a, g.left, g.right, d));
        let h = pulled_once(portals, f);
        match left_side(g, l) {
            Side::Crossed => {
                assert(is_opened(portals, h));
            },
            Side::Tightened => {
                lemma_narrow_left(portals, a, g.left, g.right, f.apex_at, i, l);
                assert(clears(a, l, g.right, d));
                assert(clears(a, l, g.right, portals[i]));
                assert(is_wide(portals, h));
            },
            Side::Kept => {
                lemma_opens_left(a, g.left, g.right, d, l);
                assert(clears(a, g.left, g.right, portals[i]));
                assert(is_wide(portals, h));
            },
        }
    }
}

/// The next doorway has the same left end.
#[verifier::spinoff_prover]
#[verifier::rlimit(60)]
proof fn lemma_step_right(portals: Seq<(Vertex, Vertex)>, f: Pull)
    requires
        is_sleeve(portals),
        is_wide(portals, f),
        f.next < portals.len() - 1,
        portals[f.next].0 == portals[f.next - 1].0,
        orient(portals[f.next - 1].1, portals[f.next - 1].0, portals[f.next].1) < 0,
    ensures
        is_good(portals, pulled_once(portals, f)),
        goes_on(portals, f, pulled_once(portals, f)),
{
    let (a, i) = (f.apex, f.next);
    let (l, r) = portals[i];
    let d = portals[i - 1];
    lemma_wide_sides(portals, f);
    lemma_passes(portals, a, f.left, f.right, f.apex_at, i);
    wedges_turn(a, f.right, r);
    wedges_turn(a, f.left, r);
    wedges_turn(a, f.left, l);
    wedges_turn(a, r, r);
    wedges_turn(a, r, l);
    assert(clears(a, f.left, f.right, d));
    let g = match right_side(f, r) {
        Side::Tightened => {
            lemma_narrow_right(portals, a, f.left, f.right, f.apex_at, i, r);
            Pull { right: r, right_at: i, ..f }
        },
        Side::Kept => {
            lemma_opens_right(a, f.left, f.right, d, r);
            f
        },
        Side::Crossed => f,
    };
    if !(right_side(f, r) is Crossed) {
        assert(clears(a, g.left, g.right, d));
        assert(clears(a, g.left, g.right, portals[i]));
        assert(wedge(a, g.right, g.left) > 0);
        assert(all_clear(portals, a, g.left, g.right, f.apex_at, i + 1));
        lemma_passes(portals, a, g.left, g.right, f.apex_at, i + 1);
        wedges_turn(a, g.right, l);
        let h = pulled_once(portals, f);
        match left_side(g, l) {
            Side::Crossed => {
                assert(is_opened(portals, h));
            },
            Side::Tightened => {
                lemma_narrow_left(portals, a, g.left, g.right, f.apex_at, i + 1, l);
                assert(is_wide(portals, h));
            },
            Side::Kept => {
                assert(is_wide(portals, h));
            },
        }
    }
}

/// The next doorway is the last.
#[verifier::spinoff_prover]
#[verifier::rlimit(60)]
proof fn lemma_step_last(portals: Seq<(Vertex, Vertex)>, f: Pull)
    requires
        is_sleeve(portals),
        is_wide(portals, f),
        f.next == portals.len() - 1,
    ensures
        is_opened(portals, pulled_once(portals, f)),
        goes_on(portals, f, pulled_once(portals, f)),
{
    let (a, i) = (f.apex, f.next);
    let (x, y) = portals[i];
    assert(x == y);
    let d = portals[i - 1];
    lemma_wide_sides(portals, f);
    lemma_passes(portals, a, f.left, f.right, f.apex_at, i);
    wedges_turn(a, f.right, x);
    wedges_turn(a, f.left, x);
    wedges_turn(a, x, x);
    assert(clears(a, f.left, f.right, d));
    match right_side(f, x) {
        Side::Tightened => {
            lemma_narrow_right(portals, a, f.left, f.right, f.apex_at, i, x);
            lemma_passes(portals, a, f.left, x, f.apex_at, i);
        },
        Side::Kept => {
            lemma_not_behind(a, f.left, f.right, d, x);
        },
        Side::Crossed => {},
    }
}

/// A doorway after the first whose ends the apex sees in one line.
#[verifier::spinoff_prover]
#[verifier::rlimit(60)]
proof fn lemma_step_flat(portals: Seq<(Vertex, Vertex)>, f: Pull)
    requires
        is_sleeve(portals),
        is_first(portals, f),
        f.next < portals.len(),
        wedge(f.apex, f.right, f.left) == 0,
    ensures
        is_good(portals, pulled_once(portals, f)),
        goes_on(portals, f, pulled_once(portals, f)),
{
    let n = portals.len();
    let (a, i) = (f.apex, f.next);
    let (l, r) = portals[i];
    let d = portals[i - 1];
    lemma_ends(portals, f.apex_at);
    lemma_ends(portals, i - 1);
    lemma_ends(portals, i);
    lemma_beyond(a, d.1, d.0, l);
    lemma_beyond(a, d.1, d.0, r);
    wedges_turn(a, f.left, f.right);
    wedges_turn(a, f.right, r);
    wedges_turn(a, f.left, r);
    wedges_turn(a, f.right, l);
    wedges_turn(a, f.left, l);
    wedges_turn(a, f.left, f.left);
    wedges_turn(a, f.right, f.right);
    wedges_turn(a, r, l);
    wedges_turn(a, r, r);
    wedges_turn(a, l, l);
    if i < n - 1 {
        assert(is_followed(portals, i - 1));
    }
    if same_place(a, f.left) {
        lemma_same(a, f.left, r);
        lemma_same(a, f.left, l);
    }
    if same_place(a, f.right) {
        lemma_same(a, f.right, r);
        lemma_same(a, f.right, l);
    }
    assert(close(a, f.left) == same_place(a, f.left));
    assert(close(a, f.right) == same_place(a, f.right));
    if same_place(a, f.left) && same_place(a, f.right) {
        assert(same_place(d.0, d.1));
    }
    let h = pulled_once(portals, f);
    if right_side(f, r) is Crossed {
        assert(is_opened(portals, h));
    } else {
        let g = if right_side(f, r) is Tightened {
            Pull { right: r, right_at: i, ..f }
        } else {
            f
        };
        match left_side(g, l) {
            Side::Crossed => {
                assert(is_opened(portals, h));
                assert forall|j: int| f.apex_at < j < h.apex_at implies passes(
                    a,
                    h.apex,
                    #[trigger] portals[j],
                ) by {
                    assert(j == i - 1);
                    wedges_turn(a, r, d.0);
                    wedges_turn(a, r, d.1);
                }
            },
            _ => {
                assert(i < n - 1);
                wedges_turn(a, r, d.0);
                wedges_turn(a, r, d.1);
                assert(h.left == l && h.right == r);
                assert(clears(a, h.left, h.right, d));
                assert(clears(a, h.left, h.right, portals[i]));
                assert(is_wide(portals, h));
            },
        }
    }
}

proof fn lemma_step(portals: Seq<(Vertex, Vertex)>, f: Pull)
    requires
        is_sleeve(portals),
        is_good(portals, f),
        f.next < portals.len(),
    ensures
        is_good(portals, pulled_once(portals, f)),
        goes_on(portals, f, pulled_once(portals, f)),
{
    if is_opened(portals, f) {
        lemma_step_opened(portals, f);
    } else if is_first(portals, f) && wedge(f.apex, f.right, f.left) == 0 {
        lemma_step_flat(portals, f);
    } else {
        if is_first(portals, f) {
            wedges_turn(f.apex, f.right, f.left);
            wedges_turn(f.apex, f.right, f.right);
            wedges_turn(f.apex, f.left, f.left);
            assert(clears(f.apex, f.left, f.right, portals[f.next - 1]));
            assert(is_wide(portals, f));
        }
        if f.next == portals.len() - 1 {
            lemma_step_last(portals, f);
        } else {
            assert(is_followed(portals, f.next - 1));
            let (d, e) = (portals[f.next - 1], portals[f.next]);
            if e.1 == d.1 && orient(d.1, d.0, e.0) < 0 {
                lemma_step_left(portals, f);
            } else {
                lemma_step_right(portals, f);
            }
        }
    }
}

proof fn lemma_threads_on(
    portals: Seq<(Vertex, Vertex)>,
    out: Seq<Vertex>,
    at: Seq<int>,
    p: Vertex,
    i: int,
)
    requires
        threads(portals, out, at),
        at.len() > 0,
        at.last() < i < portals.len(),
        portals[i].0 == p || portals[i].1 == p,
        forall|j: int| at.last() < j < i ==> passes(out.last(), p, #[trigger] portals[j]),
    ensures
        threads(portals, out.push(p), at.push(i)),
{
    let (out1, at1) = (out.push(p), at.push(i));
    assert forall|k: int, j: int| 0 <= k < at1.len() - 1 && at1[k] < j < at1[k + 1] implies
        #[trigger] stretch_passes(portals, out1, k, j) by {
        if k < at.len() - 1 {
            assert(stretch_passes(portals, out, k, j));
        } else {
            assert(passes(out.last(), p, portals[j]));
        }
    }
}

proof fn lemma_pulled_threads(portals: Seq<(Vertex, Vertex)>, f: Pull, at: Seq<int>) -> (w: Seq<int>)
    requires
        is_sleeve(portals),
        pull_sound(portals, f),
        is_good(portals, f),
        threads(portals, f.out, at),
        at.len() > 0,
        at[0] == 0,
        at.last() == f.apex_at,
        f.out.last() == f.apex,
    ensures
        threads(portals, pulled(portals, f), w),
        w.len() > 0,
        w[0] == 0,
        w.last() == portals.len() - 1 || w.last() == portals.len() - 2,
    decreases portals.len() - f.apex_at, portals.len() - f.next,
{
    if f.next >= portals.len() {
        at
    } else {
        let g = pulled_once(portals, f);
        lemma_pull_stays_sound(portals, f);
        lemma_step(portals, f);
        if g.apex_at == f.apex_at {
            lemma_pulled_threads(portals, g, at)
        } else {
            lemma_threads_on(portals, f.out, at, g.apex, g.apex_at);
            lemma_pulled_threads(portals, g, at.push(g.apex_at))
        }
    }
}

/// A string pulled through a sleeve goes from the first doorway to the last,
/// turns at ends of doorways, in their order, and passes all doorways between
/// those where it turns.
pub proof fn strings_go_through_doorways(portals: Seq<(Vertex, Vertex)>)
    requires
        is_sleeve(portals),
    ensures
        is_taut(portals, string_of(portals)),
{
    let n = portals.len();
    let start = portals[0].0;
    let f = Pull {
        apex: start,
        left: start,
        right: start,
        apex_at: 0,
        left_at: 0,
        right_at: 0,
        next: 1,
        out: seq![start],
    };
    assert(threads(portals, f.out, seq![0int]));
    let at = lemma_pulled_threads(portals, f, seq![0int]);
    let out = pulled(portals, f);
    let end = portals.last().0;
    lemma_ends(portals, n - 1);
    lemma_ends(portals, at.last());
    assert(at[at.len() - 1] == at.last());
    if close(out.last(), end) {
        assert(same_place(out.last(), end));
        assert(threads(portals, string_of(portals), at));
    } else {
        lemma_close_to_itself(end);
        lemma_threads_on(portals, out, at, end, n - 1);
        assert(threads(portals, string_of(portals), at.push(n - 1)));
    }
}

// --- Channels ---------------------------------------------------------------

/// The corner of a triangle after corner `e`.
pub open spec fn turn(e: int) -> int {
    if e == 2 {
        0
    } else {
        e + 1
    }
}

/// Whether a triangle is counter-clockwise.
pub open spec fn is_ccw(mesh: RegionNavMesh, t: int) -> bool {
    orient(mesh.corner_at(t, 0), mesh.corner_at(t, 1), mesh.corner_at(t, 2)) > 0
}

/// Whether edge `e` of a triangle leads from `x` to `y`.
pub open spec fn has_way(t: [u32; 3], e: int, x: u32, y: u32) -> bool {
    t@[e] == x && t@[turn(e)] == y
}

/// Whether the triangles of a mesh are laid out in the plane side by side: all
/// counter-clockwise, and no two on the same side of an edge.
pub open spec fn is_laid_out(mesh: RegionNavMesh) -> bool {
    &&& forall|t: int| 0 <= t < mesh.triangles@.len() ==> #[trigger] is_ccw(mesh, t)
    &&& forall|s: int, t: int, e: int, f: int, x: u32, y: u32|
        0 <= s < mesh.triangles@.len() && 0 <= t < mesh.triangles@.len() && s != t && 0 <= e < 3
            && 0 <= f < 3 && #[trigger] has_way(mesh.triangles@[s], e, x, y) ==> !(
        #[trigger] has_way(mesh.triangles@[t], f, x, y))
}

proof fn lemma_edge_ends(a: u32, b: u32, x: u32, y: u32)
    requires
        edge_number(a, b) == edge_number(x, y),
    ensures
        (a == x && b == y) || (a == y && b == x),
{
}

/// Whether edge `e` of triangle `s` is edge `f` of triangle `t`, the other way
/// round.
spec fn is_seam(mesh: RegionNavMesh, s: int, t: int, e: int, f: int) -> bool {
    let (p, q) = (mesh.triangles@[s], mesh.triangles@[t]);
    &&& 0 <= s < mesh.triangles@.len() && 0 <= t < mesh.triangles@.len() && s != t
    &&& 0 <= e < 3 && 0 <= f < 3
    &&& p@[e] == q@[turn(f)]
    &&& p@[turn(e)] == q@[f]
}

proof fn lemma_seam(mesh: RegionNavMesh, s: int, t: int) -> (r: (int, int))
    requires
        is_laid_out(mesh),
        0 <= t <= usize::MAX,
        next_to(mesh, s, t),
    ensures
        is_seam(mesh, s, t, r.0, r.1),
{
    let e = choose|e: int|
        0 <= e < 3 && #[trigger] is_neighbor(mesh.triangles@, s, e, Some(t as usize));
    let (p, q) = (mesh.triangles@[s], mesh.triangles@[t]);
    let k = tri_edge(p, e);
    assert(has_edge(q, k));
    let f = if tri_edge(q, 0) == k {
        0int
    } else if tri_edge(q, 1) == k {
        1
    } else {
        2
    };
    lemma_edge_ends(p@[e], p@[turn(e)], q@[f], q@[turn(f)]);
    assert(has_way(p, e, p@[e], p@[turn(e)]));
    assert(!has_way(q, f, p@[e], p@[turn(e)]));
    (e, f)
}

/// Any corner may come first.
proof fn lemma_ccw_from(mesh: RegionNavMesh, t: int, e: int)
    requires
        is_ccw(mesh, t),
        0 <= e < 3,
    ensures
        orient(mesh.corner_at(t, e), mesh.corner_at(t, turn(e)), mesh.corner_at(t, turn(turn(e))))
            > 0,
        mesh.triangles@[t]@[e] != mesh.triangles@[t]@[turn(e)],
        mesh.triangles@[t]@[e] != mesh.triangles@[t]@[turn(turn(e))],
        !same_place(mesh.corner_at(t, e), mesh.corner_at(t, turn(e))),
{
    let (a, b, d) = (mesh.corner_at(t, 0), mesh.corner_at(t, 1), mesh.corner_at(t, 2));
    orientation_turns(a, b, d);
    orientation_turns(b, d, a);
    let (x, y, z) = (
        mesh.corner_at(t, e),
        mesh.corner_at(t, turn(e)),
        mesh.corner_at(t, turn(turn(e))),
    );
    if same_place(x, y) {
        lemma_same(x, y, z);
    }
    if same_place(x, z) {
        lemma_same(x, z, y);
        orientation_turns(x, y, z);
        orientation_turns(x, z, y);
        orientation_turns(y, x, z);
    }
}

/// The doorway between two triangles is their seam.
proof fn lemma_doorway(mesh: RegionNavMesh, s: int, t: int, e: int, f: int)
    requires
        is_laid_out(mesh),
        is_seam(mesh, s, t, e, f),
    ensures
        doorway(mesh, s, t) == Some((mesh.corner_at(s, turn(e)), mesh.corner_at(s, e))),
{
    let (p, q) = (mesh.triangles@[s], mesh.triangles@[t]);
    assert(is_ccw(mesh, s) && is_ccw(mesh, t));
    lemma_ccw_from(mesh, s, e);
    lemma_ccw_from(mesh, s, turn(e));
    lemma_ccw_from(mesh, t, f);
    lemma_ccw_from(mesh, t, turn(f));
    let (x, y, z) = (
        mesh.corner_at(s, e),
        mesh.corner_at(s, turn(e)),
        mesh.corner_at(s, turn(turn(e))),
    );
    let w = mesh.corner_at(t, turn(turn(f)));
    orientation_turns(x, y, z);
    orientation_turns(x, y, w);
    orientation_turns(x, y, x);
    wedges_turn(y, x, y);
    wedges_turn(x, y, x);
    wedges_turn(y, x, x);
    wedges_turn(x, y, y);
    assert(p@[turn(turn(e))] != q@[turn(turn(f))]);
    reveal_with_fuel(shared_corners, 4);
    let list = shared_corners(p@, q@, 3);
    if e == 2 {
        assert(list =~= seq![p@[0], p@[2]]);
    } else {
        assert(list =~= seq![p@[e], p@[e + 1]]);
    }
    assert(shared_pair(mesh, s, t) == Some((list[0], list[1])));
}

proof fn lemma_doorways(mesh: RegionNavMesh, channel: Seq<usize>, src: Vertex, n: nat)
    requires
        1 <= n <= channel.len(),
        forall|i: int|
            1 <= i < n ==> doorway(mesh, channel[i - 1] as int, #[trigger] channel[i] as int)
                is Some,
    ensures
        doorways(mesh, channel, src, n).len() == n,
        doorways(mesh, channel, src, n)[0] == (src, src),
        forall|i: int|
            1 <= i < n ==> Some(#[trigger] doorways(mesh, channel, src, n)[i]) == doorway(
                mesh,
                channel[i - 1] as int,
                channel[i] as int,
            ),
    decreases n,
{
    if n > 1 {
        lemma_doorways(mesh, channel, src, (n - 1) as nat);
        assert(doorway(mesh, channel[n - 2] as int, channel[n - 1] as int) is Some);
    }
}

/// A point in a counter-clockwise triangle is on the left of its edges.
proof fn lemma_covered(mesh: RegionNavMesh, t: int, p: Vertex, e: int)
    requires
        is_ccw(mesh, t),
        covers(mesh, t, p),
        0 <= e < 3,
    ensures
        orient(mesh.corner_at(t, e), mesh.corner_at(t, turn(e)), p) >= 0,
{
    let (a, b, d) = (mesh.corner_at(t, 0), mesh.corner_at(t, 1), mesh.corner_at(t, 2));
    areas_add(a, b, d, p);
    areas_turn(a, b, p);
    areas_turn(b, d, p);
    areas_turn(d, a, p);
}

/// Doorways follow each other through a channel.
proof fn lemma_follows(mesh: RegionNavMesh, s: int, t: int, u: int)
    requires
        is_laid_out(mesh),
        0 <= t <= usize::MAX,
        0 <= u <= usize::MAX,
        next_to(mesh, s, t),
        next_to(mesh, t, u),
        s != u,
    ensures
        doorway(mesh, s, t) matches Some(d) && doorway(mesh, t, u) matches Some(g) && follows(d, g),
{
    let (e, f) = lemma_seam(mesh, s, t);
    let (g, h) = lemma_seam(mesh, t, u);
    lemma_doorway(mesh, s, t, e, f);
    lemma_doorway(mesh, t, u, g, h);
    if g == f {
        let (p, q) = (mesh.triangles@[s], mesh.triangles@[u]);
        assert(has_way(p, e, p@[e], p@[turn(e)]));
        assert(has_way(q, h, p@[e], p@[turn(e)]));
    }
    assert(is_ccw(mesh, t));
    lemma_ccw_from(mesh, t, f);
    let (x, y, w) = (
        mesh.corner_at(t, f),
        mesh.corner_at(t, turn(f)),
        mesh.corner_at(t, turn(turn(f))),
    );
    orientation_turns(x, y, w);
}

/// A string through a channel of triangles that are laid out side by side goes
/// through all doorways of the channel.
pub proof fn strings_go_through_channels(
    mesh: RegionNavMesh,
    channel: Seq<usize>,
    src: Vertex,
    dst: Vertex,
)
    requires
        is_laid_out(mesh),
        channel.len() > 0,
        leads(mesh, channel, channel[0] as int, channel.last() as int),
        channel.no_duplicates(),
        channel[0] < mesh.triangles@.len(),
        covers(mesh, channel[0] as int, src),
        covers(mesh, channel.last() as int, dst),
        are_distinct(portals_of(mesh, channel, src, dst)),
    ensures
        is_sleeve(portals_of(mesh, channel, src, dst)),
        is_taut(portals_of(mesh, channel, src, dst), string_through(mesh, channel, src, dst)),
{
    let n = channel.len();
    let portals = portals_of(mesh, channel, src, dst);
    assert forall|i: int| 1 <= i < n implies doorway(
        mesh,
        channel[i - 1] as int,
        #[trigger] channel[i] as int,
    ) is Some by {
        assert(next_to(mesh, channel[i - 1] as int, channel[i - 1 + 1] as int));
        let (e, f) = lemma_seam(mesh, channel[i - 1] as int, channel[i] as int);
        lemma_doorway(mesh, channel[i - 1] as int, channel[i] as int, e, f);
    }
    lemma_doorways(mesh, channel, src, n);
    assert forall|i: int| 1 <= i < n implies !same_place((#[trigger] portals[i]).0, portals[i].1) by {
        let (s, t) = (channel[i - 1] as int, channel[i] as int);
        assert(next_to(mesh, channel[i - 1] as int, channel[i - 1 + 1] as int));
        let (e, f) = lemma_seam(mesh, s, t);
        lemma_doorway(mesh, s, t, e, f);
        assert(is_ccw(mesh, s));
        lemma_ccw_from(mesh, s, e);
    }
    assert forall|i: int| 1 <= i < n - 1 implies #[trigger] is_followed(portals, i) by {
        assert(next_to(mesh, channel[i - 1] as int, channel[i - 1 + 1] as int));
        assert(next_to(mesh, channel[i] as int, channel[i + 1] as int));
        assert(channel[i - 1] != channel[i + 1]);
        lemma_follows(mesh, channel[i - 1] as int, channel[i] as int, channel[i + 1] as int);
    }
    if n > 1 {
        assert(next_to(mesh, channel[0] as int, channel[1] as int));
        let (s, t) = (channel[0] as int, channel[1] as int);
        let (e, f) = lemma_seam(mesh, s, t);
        lemma_doorway(mesh, s, t, e, f);
        assert(is_ccw(mesh, s));
        lemma_covered(mesh, s, src, e);
        assert(next_to(mesh, channel[n - 2] as int, channel[n - 2 + 1] as int));
        let (s, t) = (channel[n - 2] as int, channel[n - 1] as int);
        let (e, f) = lemma_seam(mesh, s, t);
        lemma_doorway(mesh, s, t, e, f);
        assert(is_ccw(mesh, t));
        lemma_covered(mesh, t, dst, f);
        orientation_turns(mesh.corner_at(t, f), mesh.corner_at(t, turn(f)), dst);
    }
    strings_go_through_doorways(portals);
}

} // verus!
