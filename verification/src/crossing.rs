//! Pulling a string through a corridor that crosses seams.
//!
//! The doorways of a corridor are laid out in one plane, unfolded at seams
//! where the corridor doubles back. One string is pulled through all of them,
//! its corners are traced back to the doorways, and a point is put in wherever
//! it crosses a seam between corners.

use crate::funnel::{
    funnel, is_post, string_of, strings_turn_at_doorways, turns_at_posts,
};
use crate::predicates::{orient, orient2d, Vertex};
use crate::segment::{is_same_place, same_place};
use crate::world::World;
use crate::taut::{is_sleeve, is_taut};
use vstd::prelude::*;

verus! {

// --- Reading a corridor -----------------------------------------------------

/// Whether a corridor folds back at the hinge from `a` to `b`: the points of
/// the triangles on its two sides lie strictly on the same side of it.
pub fn folds_back(a: Vertex, b: Vertex, exit: Vertex, enter: Vertex) -> (r: bool)
    ensures
        r == (orient(a, b, exit) != 0 && orient(a, b, exit) == orient(a, b, enter)),
{
    let out: i32 = orient2d(a, b, exit);
    let into: i32 = orient2d(a, b, enter);
    out != 0 && out == into
}

/// The ends of an edge between two triangles as (left, right) of the way from
/// one point to another.
pub fn left_and_right(from: Vertex, to: Vertex, a: Vertex, b: Vertex) -> (r: (Vertex, Vertex))
    ensures
        r == if orient(from, to, a) > 0 {
            (a, b)
        } else {
            (b, a)
        },
{
    if orient2d(from, to, a) > 0 {
        (a, b)
    } else {
        (b, a)
    }
}

/// Whether a path that stays in one triangle, from a place on a layer to a
/// place on a layer, has a second point: not where it ends where it starts.
pub fn has_two_ends(start: (u32, Vertex), goal: (u32, Vertex)) -> (r: bool)
    ensures
        r == (start.0 != goal.0 || !same_place(start.1, goal.1)),
{
    start.0 != goal.0 || !is_same_place(start.1, goal.1)
}

/// The first edge of a triangle from `k` on that leads to another triangle of
/// its layer.
pub open spec fn inner_edge(w: World, from: (u32, u32), to: u32, k: nat) -> Option<u8>
    decreases 3 - k,
{
    if k >= 3 {
        None
    } else if w.layers@[from.0 as int].triangles@[from.1 as int].neighbors[k as int] == to {
        Some(k as u8)
    } else {
        inner_edge(w, from, to, k + 1)
    }
}

/// The first edge of a triangle from `k` on whose seam leads to another
/// triangle.
pub open spec fn outer_edge(w: World, from: (u32, u32), to: (u32, u32), k: nat) -> Option<u8>
    decreases 3 - k,
{
    if k >= 3 {
        None
    } else if w.crosses_to(from, k as u8, to) {
        Some(k as u8)
    } else {
        outer_edge(w, from, to, k + 1)
    }
}

/// The edge that a corridor leaves a triangle over.
#[derive(Copy, Clone, Debug, PartialEq, Eq, Structural)]
pub struct CorridorEdge {
    pub layer: u32,
    pub tri: u32,
    pub edge: u8,
    /// Whether the edge is a seam to another layer.
    pub seam: bool,
}

/// The edge between two triangles of a corridor.
pub open spec fn edge_between(w: World, a: (u32, u32), b: (u32, u32)) -> Option<CorridorEdge> {
    let seam = a.0 != b.0;
    let found = if seam {
        outer_edge(w, a, b, 0)
    } else {
        inner_edge(w, a, b.1, 0)
    };
    match found {
        None => None,
        Some(edge) => Some(CorridorEdge { layer: a.0, tri: a.1, edge, seam }),
    }
}

/// The edges between the first `n` triangles of a corridor.
pub open spec fn edges_along(w: World, steps: Seq<(u32, u32)>, n: nat) -> Seq<CorridorEdge>
    decreases n,
{
    if n <= 1 {
        Seq::empty()
    } else {
        let before = edges_along(w, steps, (n - 1) as nat);
        match edge_between(w, steps[n - 2], steps[n - 1]) {
            None => before,
            Some(e) => before.push(e),
        }
    }
}

impl World {
    fn find_edge_between(&self, a: (u32, u32), b: (u32, u32)) -> (r: Option<CorridorEdge>)
        requires
            self.has(a.0, a.1),
        ensures
            r == edge_between(*self, a, b),
    {
        let seam = a.0 != b.0;
        let found: Option<u8> = if seam {
            self.seam_edge(a, b)
        } else {
            self.interior_edge(a.0, a.1, b.1)
        };
        proof {
            if seam {
                assert(!self.crosses_to(a, 0, b) || found == Some(0u8));
                assert(found is None ==> !self.crosses_to(a, 0, b) && !self.crosses_to(a, 1, b)
                    && !self.crosses_to(a, 2, b));
                assert(found matches Some(k) ==> (k > 0 ==> !self.crosses_to(a, 0, b)) && (k > 1
                    ==> !self.crosses_to(a, 1, b)));
                reveal_with_fuel(outer_edge, 4);
            } else {
                let t = self.layers@[a.0 as int].triangles@[a.1 as int];
                assert(found is None ==> t.neighbors[0] != b.1 && t.neighbors[1] != b.1
                    && t.neighbors[2] != b.1);
                assert(found matches Some(k) ==> (k > 0 ==> t.neighbors[0] != b.1) && (k > 1
                    ==> t.neighbors[1] != b.1));
                reveal_with_fuel(inner_edge, 4);
            }
        }
        match found {
            None => None,
            Some(edge) => Some(CorridorEdge { layer: a.0, tri: a.1, edge, seam }),
        }
    }

    /// The edges that a corridor goes over, from each triangle to the next.
    pub fn corridor_edges(&self, steps: &Vec<(u32, u32)>) -> (out: Vec<CorridorEdge>)
        requires
            forall|i: int|
                0 <= i < steps@.len() ==> self.has((#[trigger] steps@[i]).0, steps@[i].1),
        ensures
            out@ == edges_along(*self, steps@, steps@.len()),
            exists|at: Seq<int>| #[trigger]
                lists_edges(*self, steps@, steps@.len() as int, out@, at),
    {
        let mut out: Vec<CorridorEdge> = Vec::new();
        let mut i: usize = 1;
        while i < steps.len()
            invariant
                forall|i: int|
                    0 <= i < steps@.len() ==> self.has((#[trigger] steps@[i]).0, steps@[i].1),
                1 <= i,
                i <= steps@.len() || (i == 1 && steps@.len() == 0),
                out@ == edges_along(*self, steps@, i as nat),
            decreases steps.len() - i,
        {
            assert(self.has(steps@[i - 1].0, steps@[i - 1].1));
            if let Some(e) = self.find_edge_between(steps[i - 1], steps[i]) {
                out.push(e);
            }
            i += 1;
        }
        proof {
            let at = every_crossed_edge_is_listed(*self, steps@, steps@.len());
        }
        out
    }
}

// --- Corners and doorways ---------------------------------------------------

/// The ends of doorways, counted left and right of each in turn.
pub open spec fn post(portals: Seq<(Vertex, Vertex)>, j: int) -> Vertex {
    if j % 2 == 0 {
        portals[j / 2].0
    } else {
        portals[j / 2].1
    }
}

/// Whether `j` is the first end of a doorway that is the given point.
pub open spec fn is_first_post(portals: Seq<(Vertex, Vertex)>, p: Vertex, j: int) -> bool {
    &&& 0 <= j < 2 * portals.len()
    &&& post(portals, j) == p
    &&& forall|k: int| 0 <= k < j ==> #[trigger] post(portals, k) != p
}

fn find_post(portals: &Vec<(Vertex, Vertex)>, p: Vertex) -> (j: usize)
    requires
        is_post(portals@, p),
        2 * portals@.len() <= usize::MAX,
    ensures
        is_first_post(portals@, p, j as int),
{
    let mut i: usize = 0;
    while i < portals.len()
        invariant
            i <= portals@.len(),
            2 * portals@.len() <= usize::MAX,
            is_post(portals@, p),
            forall|k: int| 0 <= k < 2 * i ==> #[trigger] post(portals@, k) != p,
        decreases portals.len() - i,
    {
        let (l, r) = portals[i];
        assert(post(portals@, 2 * i) == l);
        assert(post(portals@, 2 * i + 1) == r);
        if l.x == p.x && l.y == p.y {
            return 2 * i;
        }
        if r.x == p.x && r.y == p.y {
            return 2 * i + 1;
        }
        assert forall|k: int| 0 <= k < 2 * (i + 1) implies #[trigger] post(portals@, k) != p by {
            if k >= 2 * i {
                assert(k == 2 * i || k == 2 * i + 1);
            }
        }
        i += 1;
    }
    proof {
        let k = choose|k: int|
            0 <= k < portals@.len() && ((#[trigger] portals@[k]).0 == p || portals@[k].1 == p);
        assert(post(portals@, 2 * k) == portals@[k].0);
        assert(post(portals@, 2 * k + 1) == portals@[k].1);
        assert(false);
    }
    0
}

/// Pull a string through doorways, and trace each of its corners to the first
/// end of a doorway that it is. Where the doorways are those of a sleeve, the
/// string goes through all of them.
pub fn pull_posts(portals: &Vec<(Vertex, Vertex)>) -> (out: Vec<usize>)
    requires
        portals@.len() > 0,
        2 * portals@.len() <= usize::MAX,
    ensures
        out@.len() == string_of(portals@).len(),
        is_sleeve(portals@) ==> is_taut(portals@, string_of(portals@)),
        forall|i: int|
            0 <= i < out@.len() ==> is_first_post(
                portals@,
                string_of(portals@)[i],
                #[trigger] out@[i] as int,
            ),
{
    let corners = funnel(portals);
    proof {
        strings_turn_at_doorways(portals@);
    }
    let mut out: Vec<usize> = Vec::new();
    let mut i: usize = 0;
    while i < corners.len()
        invariant
            2 * portals@.len() <= usize::MAX,
            corners@ == string_of(portals@),
            turns_at_posts(portals@, portals@[0].0, corners@),
            i <= corners@.len(),
            out@.len() == i,
            forall|k: int|
                0 <= k < i ==> is_first_post(portals@, corners@[k], #[trigger] out@[k] as int),
        decreases corners.len() - i,
    {
        assert(is_post(portals@, corners@[i as int]));
        out.push(find_post(portals, corners[i]));
        i += 1;
    }
    out
}

// --- Crossing points --------------------------------------------------------

/// A point of a finished path.
#[derive(Copy, Clone, Debug, PartialEq, Eq, Structural)]
pub enum Woven {
    /// A corner of the string.
    Corner(usize),
    /// The point where the stretch before a corner crosses a hinge.
    Crossing { corner: usize, hinge: usize },
}

/// Whether `meet` can say something of a stretch and a hinge.
pub open spec fn tells<C: Fn(usize, usize) -> Option<bool>>(
    meet: C,
    i: usize,
    h: usize,
    o: Option<bool>,
) -> bool {
    meet.ensures((i, h), o)
}

/// Whether `meet` answers everything, and always the same.
pub open spec fn meets_steadily<C: Fn(usize, usize) -> Option<bool>>(meet: C) -> bool {
    &&& forall|i: usize, h: usize| #[trigger] meet.requires((i, h))
    &&& forall|i: usize, h: usize, a: Option<bool>, b: Option<bool>| #[trigger]
        tells(meet, i, h, a) && #[trigger] tells(meet, i, h, b) ==> a == b
}

/// What `meet` says of stretches and hinges.
pub open spec fn meetings<C: Fn(usize, usize) -> Option<bool>>(meet: C) -> spec_fn(
    usize,
    usize,
) -> Option<bool> {
    |i: usize, h: usize| choose|o: Option<bool>| tells(meet, i, h, o)
}

/// The hinges from `h` on that the stretch before corner `i` meets, and the
/// first that it does not. A hinge met at an end of the stretch gives no point:
/// the corner there stands for it.
pub open spec fn crossed(
    f: spec_fn(usize, usize) -> Option<bool>,
    i: usize,
    h: nat,
    hinges: nat,
) -> (Seq<Woven>, nat)
    decreases hinges - h,
{
    if h >= hinges {
        (Seq::empty(), h)
    } else {
        match f(i, h as usize) {
            None => (Seq::empty(), h),
            Some(inside) => {
                let (rest, end) = crossed(f, i, h + 1, hinges);
                if inside {
                    (seq![Woven::Crossing { corner: i, hinge: h as usize }] + rest, end)
                } else {
                    (rest, end)
                }
            },
        }
    }
}

/// The points of a path up to corner `n`, and the first hinge not met yet.
pub open spec fn woven(f: spec_fn(usize, usize) -> Option<bool>, n: nat, hinges: nat) -> (
    Seq<Woven>,
    nat,
)
    decreases n,
{
    if n == 0 {
        (Seq::empty(), 0)
    } else {
        let (before, h) = woven(f, (n - 1) as nat, hinges);
        let i = (n - 1) as usize;
        if i == 0 {
            (before.push(Woven::Corner(i)), h)
        } else {
            let (met, end) = crossed(f, i, h, hinges);
            ((before + met).push(Woven::Corner(i)), end)
        }
    }
}

/// Put the points where a string crosses hinges between its corners. `meet`
/// tells of a stretch, named by the corner at its end, and a hinge whether they
/// meet, and if so, whether inside the stretch.
pub fn weave<C: Fn(usize, usize) -> Option<bool>>(corners: usize, hinges: usize, meet: C) -> (out:
    Vec<Woven>)
    requires
        meets_steadily(meet),
    ensures
        out@ == woven(meetings(meet), corners as nat, hinges as nat).0,
        exists|taken: Seq<nat>| #[trigger]
            is_weave(meetings(meet), corners as nat, hinges as nat, out@, taken),
{
    let ghost f = meetings(meet);
    let mut out: Vec<Woven> = Vec::new();
    let mut h: usize = 0;
    let mut i: usize = 0;
    while i < corners
        invariant
            meets_steadily(meet),
            f == meetings(meet),
            i <= corners,
            h <= hinges,
            (out@, h as nat) == woven(f, i as nat, hinges as nat),
        decreases corners - i,
    {
        if i > 0 {
            let ghost before = out@;
            let ghost goal = crossed(f, i, h as nat, hinges as nat);
            loop
                invariant_except_break
                    before + goal.0 == out@ + crossed(f, i, h as nat, hinges as nat).0,
                    goal.1 == crossed(f, i, h as nat, hinges as nat).1,
                invariant
                    meets_steadily(meet),
                    f == meetings(meet),
                    h <= hinges,
                ensures
                    out@ == before + goal.0,
                    h == goal.1,
                decreases hinges - h,
            {
                if h >= hinges {
                    assert(out@ + Seq::<Woven>::empty() =~= out@);
                    break;
                }
                let o = meet(i, h);
                proof {
                    assert(tells(meet, i, h, o));
                    let c = choose|c: Option<bool>| tells(meet, i, h, c);
                    assert(tells(meet, i, h, c));
                    assert(f(i, h) == c);
                }
                match o {
                    None => {
                        assert(out@ + Seq::<Woven>::empty() =~= out@);
                        break;
                    },
                    Some(inside) => {
                        let ghost mid = out@;
                        let ghost rest = crossed(f, i, (h + 1) as nat, hinges as nat).0;
                        if inside {
                            let w = Woven::Crossing { corner: i, hinge: h };
                            out.push(w);
                            assert(mid + (seq![w] + rest) =~= out@ + rest);
                        }
                        h += 1;
                    },
                }
            }
        }
        out.push(Woven::Corner(i));
        i += 1;
    }
    proof {
        let taken = every_crossing_is_woven_in(f, corners as nat, hinges as nat);
        assert(is_weave(f, corners as nat, hinges as nat, out@, taken));
    }
    out
}

// --- Laws -------------------------------------------------------------------

proof fn lemma_crossed_forward(
    f: spec_fn(usize, usize) -> Option<bool>,
    i: usize,
    h: nat,
    hinges: nat,
)
    requires
        h <= hinges <= usize::MAX,
    ensures
        h <= crossed(f, i, h, hinges).1 <= hinges,
        forall|k: int|
            0 <= k < crossed(f, i, h, hinges).0.len() ==> ((#[trigger] crossed(
                f,
                i,
                h,
                hinges,
            ).0[k]) matches Woven::Crossing { corner, hinge } && corner == i && h <= hinge
                < crossed(f, i, h, hinges).1),
    decreases hinges - h,
{
    if h < hinges {
        if let Some(inside) = f(i, h as usize) {
            lemma_crossed_forward(f, i, h + 1, hinges);
            let (rest, end) = crossed(f, i, h + 1, hinges);
            let all = crossed(f, i, h, hinges).0;
            assert forall|k: int| 0 <= k < all.len() implies ((
            #[trigger] all[k]) matches Woven::Crossing { corner, hinge } && corner == i && h
                <= hinge < end) by {
                if inside {
                    if k > 0 {
                        assert(all[k] == rest[k - 1]);
                    }
                } else {
                    assert(all[k] == rest[k]);
                }
            }
        }
    }
}

/// Every point of a path is a corner or lies on a hinge, no hinge is met twice,
/// and hinges are met in their order.
pub proof fn hinges_are_met_in_order(
    f: spec_fn(usize, usize) -> Option<bool>,
    n: nat,
    hinges: nat,
    i: int,
    j: int,
)
    requires
        n <= usize::MAX,
        hinges <= usize::MAX,
        0 <= i < j < woven(f, n, hinges).0.len(),
        woven(f, n, hinges).0[i] is Crossing,
        woven(f, n, hinges).0[j] is Crossing,
    ensures
        woven(f, n, hinges).0[i]->Crossing_hinge < woven(f, n, hinges).0[j]->Crossing_hinge,
{
    lemma_met_in_order(f, n, hinges);
    assert(in_hinge_order(woven(f, n, hinges).0, woven(f, n, hinges).1));
}

/// Whether hinges rise along a list, all of them below `end`.
spec fn in_hinge_order(list: Seq<Woven>, end: nat) -> bool {
    &&& forall|k: int|
        0 <= k < list.len() && (#[trigger] list[k]) is Crossing ==> list[k]->Crossing_hinge < end
    &&& forall|k: int, m: int|
        0 <= k < m < list.len() && (#[trigger] list[k]) is Crossing && (
        #[trigger] list[m]) is Crossing ==> list[k]->Crossing_hinge < list[m]->Crossing_hinge
}

proof fn lemma_crossed_in_order(
    f: spec_fn(usize, usize) -> Option<bool>,
    i: usize,
    h: nat,
    hinges: nat,
)
    requires
        h <= hinges <= usize::MAX,
    ensures
        in_hinge_order(crossed(f, i, h, hinges).0, crossed(f, i, h, hinges).1),
    decreases hinges - h,
{
    if h < hinges {
        if let Some(inside) = f(i, h as usize) {
            lemma_crossed_in_order(f, i, h + 1, hinges);
            lemma_crossed_forward(f, i, h + 1, hinges);
            let (rest, end) = crossed(f, i, h + 1, hinges);
            let all = crossed(f, i, h, hinges).0;
            assert forall|k: int, m: int|
                0 <= k < m < all.len() && (#[trigger] all[k]) is Crossing && (
                #[trigger] all[m]) is Crossing implies all[k]->Crossing_hinge
                < all[m]->Crossing_hinge by {
                if inside {
                    assert(all[m] == rest[m - 1]);
                    if k > 0 {
                        assert(all[k] == rest[k - 1]);
                    }
                } else {
                    assert(all[k] == rest[k] && all[m] == rest[m]);
                }
            }
            assert forall|k: int| 0 <= k < all.len() && (
            #[trigger] all[k]) is Crossing implies all[k]->Crossing_hinge < end by {
                if inside {
                    if k > 0 {
                        assert(all[k] == rest[k - 1]);
                    }
                } else {
                    assert(all[k] == rest[k]);
                }
            }
        }
    }
}

proof fn lemma_met_in_order(f: spec_fn(usize, usize) -> Option<bool>, n: nat, hinges: nat)
    requires
        n <= usize::MAX,
        hinges <= usize::MAX,
    ensures
        in_hinge_order(woven(f, n, hinges).0, woven(f, n, hinges).1),
        woven(f, n, hinges).1 <= hinges,
    decreases n,
{
    if n > 0 {
        lemma_met_in_order(f, (n - 1) as nat, hinges);
        let (before, h) = woven(f, (n - 1) as nat, hinges);
        let i = (n - 1) as usize;
        if i > 0 {
            lemma_crossed_in_order(f, i, h, hinges);
            lemma_crossed_forward(f, i, h, hinges);
            let (met, end) = crossed(f, i, h, hinges);
            let all = woven(f, n, hinges).0;
            assert(all == (before + met).push(Woven::Corner(i)));
            assert forall|k: int, m: int|
                0 <= k < m < all.len() && (#[trigger] all[k]) is Crossing && (
                #[trigger] all[m]) is Crossing implies all[k]->Crossing_hinge
                < all[m]->Crossing_hinge by {
                if m < before.len() {
                    assert(all[k] == before[k] && all[m] == before[m]);
                } else {
                    assert(all[m] == met[m - before.len()]);
                    if k < before.len() {
                        assert(all[k] == before[k]);
                    } else {
                        assert(all[k] == met[k - before.len()]);
                    }
                }
            }
            assert forall|k: int| 0 <= k < all.len() && (
            #[trigger] all[k]) is Crossing implies all[k]->Crossing_hinge < end by {
                if k < before.len() {
                    assert(all[k] == before[k]);
                } else if k < before.len() + met.len() {
                    assert(all[k] == met[k - before.len()]);
                }
            }
        }
    }
}

// --- Every crossing ---------------------------------------------------------

/// Whether `taken[i]` hinges are behind a string after the stretch before corner
/// `i`: each stretch takes up where the one before stopped, meets hinge after
/// hinge, and stops at the first that it does not meet.
pub open spec fn takes_hinges(
    f: spec_fn(usize, usize) -> Option<bool>,
    n: nat,
    hinges: nat,
    taken: Seq<nat>,
) -> bool {
    &&& taken.len() == n
    &&& n > 0 ==> taken[0] == 0
    &&& forall|i: int| 1 <= i < n ==> #[trigger] takes_on(f, hinges, taken, i)
}

/// Whether the stretch before corner `i` meets the hinges from those taken before
/// up to those taken after it, and not the next.
pub open spec fn takes_on(
    f: spec_fn(usize, usize) -> Option<bool>,
    hinges: nat,
    taken: Seq<nat>,
    i: int,
) -> bool {
    &&& taken[i - 1] <= taken[i] <= hinges
    &&& forall|h: nat|
        taken[i - 1] <= h < taken[i] ==> (#[trigger] f(i as usize, h as usize)) is Some
    &&& taken[i] < hinges ==> f(i as usize, taken[i] as usize) is None
}

/// Whether the stretch before corner `i` meets hinge `h`, among those it takes,
/// in its inside.
pub open spec fn crosses_inside(
    f: spec_fn(usize, usize) -> Option<bool>,
    n: nat,
    taken: Seq<nat>,
    i: int,
    h: int,
) -> bool {
    1 <= i < n && taken[i - 1] <= h < taken[i] && f(i as usize, h as usize) == Some(true)
}

/// Whether one point of a path comes before another: crossings come before the
/// corner at the end of their stretch, in the order of their hinges.
pub open spec fn comes_before(a: Woven, b: Woven) -> bool {
    match (a, b) {
        (Woven::Corner(i), Woven::Corner(j)) => i < j,
        (Woven::Corner(i), Woven::Crossing { corner, .. }) => i < corner,
        (Woven::Crossing { corner, .. }, Woven::Corner(j)) => corner <= j,
        (Woven::Crossing { corner: i, hinge: g }, Woven::Crossing { corner: j, hinge: h }) => i < j
            || (i == j && g < h),
    }
}

/// Whether a path consists of all corners of a string and all crossings of its
/// stretches with hinges, each once and in order.
pub open spec fn is_weave(
    f: spec_fn(usize, usize) -> Option<bool>,
    n: nat,
    hinges: nat,
    out: Seq<Woven>,
    taken: Seq<nat>,
) -> bool {
    &&& takes_hinges(f, n, hinges, taken)
    &&& forall|a: int, b: int|
        0 <= a < b < out.len() ==> comes_before(#[trigger] out[a], #[trigger] out[b])
    &&& forall|i: usize| #[trigger] out.contains(Woven::Corner(i)) <==> i < n
    &&& forall|i: usize, h: usize| #[trigger]
        out.contains(Woven::Crossing { corner: i, hinge: h }) <==> crosses_inside(
            f,
            n,
            taken,
            i as int,
            h as int,
        )
}

/// What one stretch meets.
proof fn lemma_crossed_all(f: spec_fn(usize, usize) -> Option<bool>, i: usize, h: nat, hinges: nat)
    requires
        h <= hinges <= usize::MAX,
    ensures
        ({
            let (met, end) = crossed(f, i, h, hinges);
            &&& h <= end <= hinges
            &&& forall|g: nat| h <= g < end ==> (#[trigger] f(i, g as usize)) is Some
            &&& end < hinges ==> f(i, end as usize) is None
            &&& forall|k: int|
                0 <= k < met.len() ==> (#[trigger] met[k] matches Woven::Crossing { corner, hinge }
                    && corner == i && h <= hinge < end && f(i, hinge) == Some(true))
            &&& forall|a: int, b: int|
                0 <= a < b < met.len() ==> comes_before(#[trigger] met[a], #[trigger] met[b])
            &&& forall|g: usize|
                h <= g < end && #[trigger] f(i, g) == Some(true) ==> met.contains(
                    Woven::Crossing { corner: i, hinge: g },
                )
        }),
    decreases hinges - h,
{
    if h < hinges {
        if let Some(inside) = f(i, h as usize) {
            lemma_crossed_all(f, i, h + 1, hinges);
            let (rest, end) = crossed(f, i, h + 1, hinges);
            let all = crossed(f, i, h, hinges).0;
            let first = Woven::Crossing { corner: i, hinge: h as usize };
            if inside {
                assert(all == seq![first] + rest);
                assert forall|k: int| 0 <= k < all.len() implies (
                #[trigger] all[k] matches Woven::Crossing { corner, hinge } && corner == i && h
                    <= hinge < end && f(i, hinge) == Some(true)) by {
                    if k > 0 {
                        assert(all[k] == rest[k - 1]);
                    }
                }
                assert forall|a: int, b: int| 0 <= a < b < all.len() implies comes_before(
                    #[trigger] all[a],
                    #[trigger] all[b],
                ) by {
                    assert(all[b] == rest[b - 1]);
                    if a > 0 {
                        assert(all[a] == rest[a - 1]);
                    }
                }
                assert forall|g: usize| h <= g < end && #[trigger] f(i, g) == Some(true) implies all.contains(
                    Woven::Crossing { corner: i, hinge: g },
                ) by {
                    if g == h {
                        assert(all[0] == first);
                    } else {
                        let w = Woven::Crossing { corner: i, hinge: g };
                        assert(rest.contains(w));
                        let k = choose|k: int| 0 <= k < rest.len() && rest[k] == w;
                        assert(all[k + 1] == w);
                    }
                }
            } else {
                assert(all == rest);
            }
            assert forall|g: nat| h <= g < end implies (#[trigger] f(i, g as usize)) is Some by {
                if g == h {
                    assert(f(i, g as usize) == Some(inside));
                }
            }
        }
    }
}

/// A path has every corner of its string, and a point on a hinge for every
/// stretch that meets it in its inside, between the corners of that stretch; each
/// of them once and nothing else. `taken` says which hinges are behind it after
/// each stretch.
pub proof fn every_crossing_is_woven_in(
    f: spec_fn(usize, usize) -> Option<bool>,
    n: nat,
    hinges: nat,
) -> (taken: Seq<nat>)
    requires
        n <= usize::MAX,
        hinges <= usize::MAX,
    ensures
        is_weave(f, n, hinges, woven(f, n, hinges).0, taken),
        n > 0 ==> taken.last() == woven(f, n, hinges).1,
    decreases n,
{
    if n == 0 {
        let taken = Seq::<nat>::empty();
        let out = woven(f, 0, hinges).0;
        assert(out.len() == 0);
        assert forall|i: usize, h: usize| #[trigger]
            out.contains(Woven::Crossing { corner: i, hinge: h }) <==> crosses_inside(
            f,
            0,
            taken,
            i as int,
            h as int,
        ) by {}
        taken
    } else {
        let m = (n - 1) as nat;
        let i = m as usize;
        let last = every_crossing_is_woven_in(f, m, hinges);
        let (before, h) = woven(f, m, hinges);
        let (out, end) = woven(f, n, hinges);
        let taken = last.push(end);
        let corner = Woven::Corner(i);
        let met = if i == 0 {
            Seq::empty()
        } else {
            crossed(f, i, h, hinges).0
        };
        if i > 0 {
            lemma_met_in_order(f, m, hinges);
            lemma_crossed_all(f, i, h, hinges);
        }
        assert(out =~= (before + met).push(corner));
        let nb = before.len() as int;
        assert forall|k: int| 0 <= k < nb implies (match #[trigger] before[k] {
            Woven::Corner(j) => j < i,
            Woven::Crossing { corner, .. } => corner < i,
        }) by {
            let w = before[k];
            assert(before.contains(w));
            match w {
                Woven::Corner(j) => {
                    assert(before.contains(Woven::Corner(j)));
                },
                Woven::Crossing { corner, hinge } => {
                    assert(before.contains(Woven::Crossing { corner, hinge }));
                },
            }
        }
        assert forall|a: int, b: int| 0 <= a < b < out.len() implies comes_before(
            #[trigger] out[a],
            #[trigger] out[b],
        ) by {
            if b < nb {
                assert(out[a] == before[a] && out[b] == before[b]);
            } else if b < nb + met.len() {
                assert(out[b] == met[b - nb]);
                if a < nb {
                    assert(out[a] == before[a]);
                } else {
                    assert(out[a] == met[a - nb]);
                }
            } else {
                if a < nb {
                    assert(out[a] == before[a]);
                } else {
                    assert(out[a] == met[a - nb]);
                }
            }
        }
        assert forall|j: usize| #[trigger] out.contains(Woven::Corner(j)) <==> j < n by {
            let w = Woven::Corner(j);
            if out.contains(w) {
                let k = choose|k: int| 0 <= k < out.len() && out[k] == w;
                if k < nb {
                    assert(before[k] == w);
                } else if k < nb + met.len() {
                    assert(met[k - nb] == w);
                }
            }
            if j < m {
                assert(before.contains(w));
                let k = choose|k: int| 0 <= k < before.len() && before[k] == w;
                assert(out[k] == w);
            } else if j < n {
                assert(out[nb + met.len()] == corner);
            }
        }
        assert forall|j: usize, g: usize| #[trigger]
            out.contains(Woven::Crossing { corner: j, hinge: g }) <==> crosses_inside(
            f,
            n,
            taken,
            j as int,
            g as int,
        ) by {
            let w = Woven::Crossing { corner: j, hinge: g };
            if out.contains(w) {
                let k = choose|k: int| 0 <= k < out.len() && out[k] == w;
                if k < nb {
                    assert(before[k] == w);
                    assert(before.contains(w));
                    assert(crosses_inside(f, m, last, j as int, g as int));
                } else if k < nb + met.len() {
                    assert(met[k - nb] == w);
                }
            }
            if crosses_inside(f, n, taken, j as int, g as int) {
                if j < m {
                    assert(crosses_inside(f, m, last, j as int, g as int));
                    assert(before.contains(w));
                    let k = choose|k: int| 0 <= k < before.len() && before[k] == w;
                    assert(out[k] == w);
                } else {
                    assert(taken[j - 1] == h);
                    assert(f(i, g) == Some(true));
                    assert(met.contains(w));
                    let k = choose|k: int| 0 <= k < met.len() && met[k] == w;
                    assert(out[nb + k] == w);
                }
            }
        }
        assert forall|j: int| 1 <= j < n implies #[trigger] takes_on(f, hinges, taken, j) by {
            if j < m {
                assert(takes_on(f, hinges, last, j));
            }
        }
        taken
    }
}

// --- Edges of a corridor ----------------------------------------------------

/// Whether edge `k` of triangle `a` leads to triangle `b`: to a neighbor in the
/// same layer, over a seam to another layer.
pub open spec fn leads_over(w: World, a: (u32, u32), b: (u32, u32), k: int) -> bool {
    &&& 0 <= k < 3
    &&& if a.0 == b.0 {
        w.layers@[a.0 as int].triangles@[a.1 as int].neighbors[k] == b.1
    } else {
        w.crosses_to(a, k as u8, b)
    }
}

/// Whether an edge leads from triangle `s` of a corridor to the next.
pub open spec fn is_led_over(w: World, steps: Seq<(u32, u32)>, s: int) -> bool {
    exists|k: int| #[trigger] leads_over(w, steps[s], steps[s + 1], k)
}

/// Whether `e` is the first edge that leads from triangle `s` of a corridor to
/// the next.
pub open spec fn goes_over(w: World, steps: Seq<(u32, u32)>, s: int, e: CorridorEdge) -> bool {
    let (a, b) = (steps[s], steps[s + 1]);
    &&& e.layer == a.0 && e.tri == a.1
    &&& e.seam == (a.0 != b.0)
    &&& leads_over(w, a, b, e.edge as int)
    &&& forall|k: int| 0 <= k < e.edge ==> !(#[trigger] leads_over(w, a, b, k))
}

/// Whether `out` lists the edges between the first `n` triangles of a corridor:
/// edge `i` leaves triangle `at[i]`, they come in the corridor's order, and
/// none is left out.
pub open spec fn lists_edges(
    w: World,
    steps: Seq<(u32, u32)>,
    n: int,
    out: Seq<CorridorEdge>,
    at: Seq<int>,
) -> bool {
    &&& at.len() == out.len()
    &&& forall|i: int|
        0 <= i < at.len() ==> 0 <= #[trigger] at[i] < n - 1 && goes_over(w, steps, at[i], out[i])
    &&& forall|i: int, j: int| 0 <= i < j < at.len() ==> at[i] < at[j]
    &&& forall|s: int| 0 <= s < n - 1 && #[trigger] is_led_over(w, steps, s) ==> at.contains(s)
}

proof fn lemma_inner_edge(w: World, a: (u32, u32), b: (u32, u32), k: nat)
    requires
        k <= 3,
        a.0 == b.0,
        forall|j: int| 0 <= j < k ==> !(#[trigger] leads_over(w, a, b, j)),
    ensures
        match inner_edge(w, a, b.1, k) {
            None => forall|j: int| !(#[trigger] leads_over(w, a, b, j)),
            Some(e) => leads_over(w, a, b, e as int) && forall|j: int|
                0 <= j < e ==> !(#[trigger] leads_over(w, a, b, j)),
        },
    decreases 3 - k,
{
    if k < 3 {
        if w.layers@[a.0 as int].triangles@[a.1 as int].neighbors[k as int] == b.1 {
            assert(leads_over(w, a, b, k as int));
        } else {
            assert(!leads_over(w, a, b, k as int));
            lemma_inner_edge(w, a, b, k + 1);
        }
    }
}

proof fn lemma_outer_edge(w: World, a: (u32, u32), b: (u32, u32), k: nat)
    requires
        k <= 3,
        a.0 != b.0,
        forall|j: int| 0 <= j < k ==> !(#[trigger] leads_over(w, a, b, j)),
    ensures
        match outer_edge(w, a, b, k) {
            None => forall|j: int| !(#[trigger] leads_over(w, a, b, j)),
            Some(e) => leads_over(w, a, b, e as int) && forall|j: int|
                0 <= j < e ==> !(#[trigger] leads_over(w, a, b, j)),
        },
    decreases 3 - k,
{
    if k < 3 {
        if w.crosses_to(a, k as u8, b) {
            assert(leads_over(w, a, b, k as int));
        } else {
            assert(!leads_over(w, a, b, k as int));
            lemma_outer_edge(w, a, b, k + 1);
        }
    }
}

/// The edges of a corridor are those that lead from a triangle to the next,
/// the first such edge of each, in the corridor's order: wherever one leads
/// on, one is listed.
pub proof fn every_crossed_edge_is_listed(w: World, steps: Seq<(u32, u32)>, n: nat) -> (at: Seq<int>)
    requires
        n <= steps.len(),
    ensures
        lists_edges(w, steps, n as int, edges_along(w, steps, n), at),
    decreases n,
{
    if n <= 1 {
        Seq::empty()
    } else {
        let before = every_crossed_edge_is_listed(w, steps, (n - 1) as nat);
        let s = n - 2;
        let (a, b) = (steps[s], steps[s + 1]);
        if a.0 == b.0 {
            lemma_inner_edge(w, a, b, 0);
        } else {
            lemma_outer_edge(w, a, b, 0);
        }
        match edge_between(w, a, b) {
            None => {
                assert(!is_led_over(w, steps, s));
                before
            },
            Some(e) => {
                assert(goes_over(w, steps, s, e));
                let at = before.push(s);
                assert(at[before.len() as int] == s);
                assert forall|t: int| 0 <= t < n - 1 && #[trigger] is_led_over(w, steps, t) implies at.contains(
                    t,
                ) by {
                    if t < s {
                        let i = before.index_of(t);
                        assert(before.contains(t));
                        assert(at[i] == t);
                    }
                }
                at
            },
        }
    }
}

} // verus!
