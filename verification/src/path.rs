//! Paths across the layers of a world: corridors of triangles over edges and
//! seams, and the floors where they begin.

use crate::search::{
    affordable, find_route, is_found, is_missed, is_route, linked, links_fit, Link,
};
use crate::unionfind::joined;
use crate::world::{numbers_tell_triangles_apart, region_number, region_pairs, LayerId, World};
use vstd::prelude::*;

verus! {

/// Why no corridor was found.
#[derive(Copy, Clone, Debug, PartialEq, Eq, Structural)]
pub enum WorldAstarError {
    /// No seams join the regions of start and goal.
    UnreachableComponent,
    /// Every way on was closed before the goal was reached.
    Unreachable,
}

/// Why no path was found.
#[derive(Copy, Clone, Debug, PartialEq, Eq, Structural)]
pub enum WorldPathError {
    /// The start lies in no triangle of its layer.
    StartOutsideMesh,
    /// The goal lies in no triangle of its layer.
    GoalOutsideMesh,
    /// No corridor leads from start to goal.
    Unreachable,
}

/// The path error for a failed search.
pub fn path_error(e: WorldAstarError) -> (r: WorldPathError)
    ensures
        r == WorldPathError::Unreachable,
{
    match e {
        WorldAstarError::UnreachableComponent => WorldPathError::Unreachable,
        WorldAstarError::Unreachable => WorldPathError::Unreachable,
    }
}

/// The triangles of start and goal, where both lie in one.
pub fn path_ends(start: Option<u32>, goal: Option<u32>) -> (r: Result<(u32, u32), WorldPathError>)
    ensures
        r == match (start, goal) {
            (None, _) => Err::<(u32, u32), WorldPathError>(WorldPathError::StartOutsideMesh),
            (Some(_), None) => Err(WorldPathError::GoalOutsideMesh),
            (Some(a), Some(b)) => Ok((a, b)),
        },
{
    match (start, goal) {
        (None, _) => Err(WorldPathError::StartOutsideMesh),
        (Some(_), None) => Err(WorldPathError::GoalOutsideMesh),
        (Some(a), Some(b)) => Ok((a, b)),
    }
}

// --- Corridors --------------------------------------------------------------

/// Whether an edge of triangle `a` leads to triangle `b`, and `wide` lets it
/// pass.
pub open spec fn steps_to<W: Fn(u32, u32, u8) -> bool>(
    w: World,
    wide: W,
    a: (u32, u32),
    b: (u32, u32),
) -> bool {
    exists|e: u8| #[trigger]
        w.way(a.0, a.1, e) == Some(b) && e < 3 && wide.ensures((a.0, a.1, e), true)
}

/// Whether an edge of triangle `a` leads to triangle `b` that `wide` cannot
/// refuse.
pub open spec fn surely_steps_to<W: Fn(u32, u32, u8) -> bool>(
    w: World,
    wide: W,
    a: (u32, u32),
    b: (u32, u32),
) -> bool {
    exists|e: u8| #[trigger]
        w.way(a.0, a.1, e) == Some(b) && e < 3 && !wide.ensures((a.0, a.1, e), false)
}

/// Whether triangles lead from one to another over edges that `wide` lets
/// pass.
pub open spec fn is_way<W: Fn(u32, u32, u8) -> bool>(
    w: World,
    wide: W,
    steps: Seq<(u32, u32)>,
    start: (u32, u32),
    goal: (u32, u32),
) -> bool {
    &&& steps.len() > 0
    &&& steps[0] == start
    &&& steps.last() == goal
    &&& forall|i: int|
        0 <= i < steps.len() - 1 ==> steps_to(w, wide, #[trigger] steps[i], steps[i + 1])
}

/// Whether triangles lead from one to another over edges that `wide` cannot
/// refuse.
pub open spec fn is_sure_way<W: Fn(u32, u32, u8) -> bool>(
    w: World,
    wide: W,
    steps: Seq<(u32, u32)>,
    start: (u32, u32),
    goal: (u32, u32),
) -> bool {
    &&& steps.len() > 0
    &&& steps[0] == start
    &&& steps.last() == goal
    &&& forall|i: int|
        0 <= i < steps.len() - 1 ==> w.has((#[trigger] steps[i]).0, steps[i].1) && surely_steps_to(
            w,
            wide,
            steps[i],
            steps[i + 1],
        )
}

/// Whether one link of triangle (`layer`, `tri`) goes over one of its edges.
pub open spec fn link_sound<W: Fn(u32, u32, u8) -> bool>(
    w: World,
    wide: W,
    layer: u32,
    tri: u32,
    l: Link,
) -> bool {
    &&& l.tag < 3
    &&& wide.ensures((layer, tri, l.tag as u8), true)
    &&& w.way(layer, tri, l.tag as u8) matches Some(n) && w.has(n.0, n.1) && l.to == w.node(
        n.0,
        n.1,
    )
}

/// Whether edge `e` of a triangle has its link, leads nowhere or was refused.
pub open spec fn edge_covered<W: Fn(u32, u32, u8) -> bool>(
    w: World,
    wide: W,
    layer: u32,
    tri: u32,
    list: Seq<Link>,
    e: u8,
) -> bool {
    w.way(layer, tri, e) matches Some(n) ==> wide.ensures((layer, tri, e), false) || exists|j: int|
        0 <= j < list.len() && (#[trigger] list[j]).to == w.node(n.0, n.1) && list[j].tag == e
}

/// Whether the links of a triangle are those of its edges.
pub open spec fn links_sound<W: Fn(u32, u32, u8) -> bool>(
    w: World,
    wide: W,
    layer: u32,
    tri: u32,
    list: Seq<Link>,
) -> bool {
    &&& forall|j: int| 0 <= j < list.len() ==> link_sound(w, wide, layer, tri, #[trigger] list[j])
    &&& forall|e: u8| e < 3 ==> #[trigger] edge_covered(w, wide, layer, tri, list, e)
}

/// Whether `links` holds the links of every triangle.
pub open spec fn links_world<W: Fn(u32, u32, u8) -> bool>(
    w: World,
    wide: W,
    links: Seq<Vec<Link>>,
) -> bool {
    &&& links.len() == w.total_triangles
    &&& forall|l: u32, t: u32|
        w.has(l, t) && #[trigger] w.node(l, t) < links.len() ==> links_sound(
            w,
            wide,
            l,
            t,
            links[w.node(l, t)]@,
        )
}

/// The numbers of triangles.
pub open spec fn nodes_of(w: World, steps: Seq<(u32, u32)>) -> Seq<usize> {
    Seq::new(steps.len(), |i: int| w.node(steps[i].0, steps[i].1) as usize)
}

/// Whether a search over the triangles, steered by `price`, finds a corridor.
pub open spec fn corridor_found<
    W: Fn(u32, u32, u8) -> bool,
    F: Fn(u64, usize, u32, usize, u32) -> (u64, u64),
>(
    w: World,
    wide: W,
    price: F,
    start: (u32, u32),
    goal: (u32, u32),
    steps: Seq<(u32, u32)>,
) -> bool {
    exists|links: Seq<Vec<Link>>, tags: Seq<u32>|
        links_world(w, wide, links) && #[trigger] is_found(
            links,
            price,
            false,
            w.node(start.0, start.1),
            w.node(goal.0, goal.1),
            nodes_of(w, steps),
            tags,
        )
}

/// Whether a search over the triangles, steered by `price`, finds none.
pub open spec fn corridor_missed<
    W: Fn(u32, u32, u8) -> bool,
    F: Fn(u64, usize, u32, usize, u32) -> (u64, u64),
>(w: World, wide: W, price: F, start: (u32, u32), goal: (u32, u32)) -> bool {
    exists|links: Seq<Vec<Link>>|
        links_world(w, wide, links) && #[trigger] is_missed(
            links,
            price,
            false,
            w.node(start.0, start.1),
            w.node(goal.0, goal.1),
        )
}

impl World {
    fn tri_links<W: Fn(u32, u32, u8) -> bool>(&self, layer: u32, tri: u32, wide: &W) -> (list: Vec<
        Link,
    >)
        requires
            self.wf(),
            self.has(layer, tri),
            forall|l: u32, t: u32, e: u8| #[trigger] wide.requires((l, t, e)),
        ensures
            links_sound(*self, *wide, layer, tri, list@),
    {
        let mut list: Vec<Link> = Vec::new();
        let mut e: u8 = 0;
        while e < 3
            invariant
                self.wf(),
                self.has(layer, tri),
                forall|l: u32, t: u32, e: u8| #[trigger] wide.requires((l, t, e)),
                e <= 3,
                forall|j: int|
                    0 <= j < list@.len() ==> link_sound(
                        *self,
                        *wide,
                        layer,
                        tri,
                        #[trigger] list@[j],
                    ),
                forall|k: u8|
                    k < e ==> #[trigger] edge_covered(*self, *wide, layer, tri, list@, k),
            decreases 3 - e,
        {
            let ghost before = list@;
            if let Some((l, t)) = self.way_across(layer, tri, e) {
                let lets = wide(layer, tri, e);
                if lets {
                    let link = Link { to: self.flat_index(l, t), tag: e as u32 };
                    list.push(link);
                    assert(list@[before.len() as int] == link);
                }
            }
            proof {
                assert forall|k: u8| k < e + 1 implies #[trigger] edge_covered(
                    *self,
                    *wide,
                    layer,
                    tri,
                    list@,
                    k,
                ) by {
                    if k < e {
                        assert(edge_covered(*self, *wide, layer, tri, before, k));
                        if let Some(n) = self.way(layer, tri, k) {
                            if !wide.ensures((layer, tri, k), false) {
                                let j = choose|j: int|
                                    0 <= j < before.len() && (#[trigger] before[j]).to
                                        == self.node(n.0, n.1) && before[j].tag == k;
                                assert(list@[j] == before[j]);
                            }
                        }
                    }
                }
            }
            e += 1;
        }
        list
    }

    /// Find a corridor from one triangle to another. `wide` tells whether an
    /// edge lets the agent pass; `price` steers the search.
    ///
    /// There is none where no seams join the regions of start and goal, or
    /// where every way between them goes over an edge that is refused or is
    /// beyond price.
    pub fn astar<
        W: Fn(u32, u32, u8) -> bool,
        F: Fn(u64, usize, u32, usize, u32) -> (u64, u64),
    >(&self, start: (LayerId, u32), goal: (LayerId, u32), wide: W, price: F) -> (r: Result<
        Vec<(LayerId, u32)>,
        WorldAstarError,
    >)
        requires
            self.wf(),
            self.has(start.0, start.1),
            self.has(goal.0, goal.1),
            forall|l: u32, t: u32, e: u8| #[trigger] wide.requires((l, t, e)),
            forall|g: u64, a: usize, t: u32, b: usize, u: u32| #[trigger]
                price.requires((g, a, t, b, u)),
        ensures
            ({
                let near = joined(
                    region_pairs(self.layers@, self.pairs()),
                    region_number(self.layers@, start.0, start.1),
                    region_number(self.layers@, goal.0, goal.1),
                );
                match r {
                    Err(WorldAstarError::UnreachableComponent) => !near,
                    Err(WorldAstarError::Unreachable) => {
                        &&& near
                        &&& start != goal
                        &&& corridor_missed(*self, wide, price, start, goal)
                        &&& affordable(price) ==> forall|steps: Seq<(u32, u32)>| !(#[trigger]
                            is_sure_way(*self, wide, steps, start, goal))
                    },
                    Ok(steps) => {
                        &&& near
                        &&& is_way(*self, wide, steps@, start, goal)
                        &&& steps@.no_duplicates()
                        &&& if start == goal {
                            steps@.len() == 1
                        } else {
                            corridor_found(*self, wide, price, start, goal, steps@)
                        }
                    },
                }
            }),
    {
        if !self.reachable(start, goal) {
            return Err(WorldAstarError::UnreachableComponent);
        }
        let a: usize = self.flat_index(start.0, start.1);
        let b: usize = self.flat_index(goal.0, goal.1);
        let mut steps: Vec<(LayerId, u32)> = Vec::new();
        if a == b {
            proof {
                numbers_tell_triangles_apart(*self, start, goal);
            }
            steps.push(start);
            return Ok(steps);
        }
        let n: usize = self.total_triangles();
        let mut links: Vec<Vec<Link>> = Vec::new();
        let mut node: usize = 0;
        while node < n
            invariant
                self.wf(),
                n == self.total_triangles,
                node <= n,
                links@.len() == node,
                forall|l: u32, t: u32, e: u8| #[trigger] wide.requires((l, t, e)),
                forall|l: u32, t: u32|
                    self.has(l, t) && #[trigger] self.node(l, t) < node ==> links_sound(
                        *self,
                        wide,
                        l,
                        t,
                        links@[self.node(l, t)]@,
                    ),
                forall|x: int, j: int|
                    0 <= x < node && 0 <= j < links@[x]@.len() ==> (#[trigger] links@[x]@[j]).to
                        < n,
            decreases n - node,
        {
            let (l, t) = self.node_to_tri(node);
            let list = self.tri_links(l, t, &wide);
            let ghost before = links@;
            links.push(list);
            proof {
                assert forall|l2: u32, t2: u32|
                    self.has(l2, t2) && #[trigger] self.node(l2, t2) < node + 1 implies links_sound(
                    *self,
                    wide,
                    l2,
                    t2,
                    links@[self.node(l2, t2)]@,
                ) by {
                    if self.node(l2, t2) == node {
                        numbers_tell_triangles_apart(*self, (l, t), (l2, t2));
                    } else {
                        self.lemma_node_bound(l2, t2);
                        assert(links@[self.node(l2, t2)] == before[self.node(l2, t2)]);
                    }
                }
                assert forall|x: int, j: int|
                    0 <= x < node + 1 && 0 <= j < links@[x]@.len() implies (
                #[trigger] links@[x]@[j]).to < n by {
                    if x < node {
                        assert(links@[x] == before[x]);
                    } else {
                        assert(link_sound(*self, wide, l, t, list@[j]));
                        let m = self.way(l, t, list@[j].tag as u8)->0;
                        self.lemma_node_bound(m.0, m.1);
                    }
                }
            }
            node += 1;
        }
        match find_route(&links, a, b, false, price) {
            None => {
                proof {
                    assert(links_world(*self, wide, links@));
                    assert forall|steps: Seq<(u32, u32)>| affordable(price) implies !(
                    #[trigger] is_sure_way(
                        *self,
                        wide,
                        steps,
                        start,
                        goal,
                    )) by {
                        if is_sure_way(*self, wide, steps, start, goal) {
                            self.lemma_sure_way_is_route(wide, links@, steps, start, goal);
                        }
                    }
                }
                Err(WorldAstarError::Unreachable)
            },
            Some((nodes, tags)) => {
                proof {
                    self.lemma_route_nodes(links@, nodes@, tags@, a as int, b as int);
                }
                let mut i: usize = 0;
                while i < nodes.len()
                    invariant
                        self.wf(),
                        n == self.total_triangles,
                        i <= nodes@.len(),
                        forall|k: int| 0 <= k < nodes@.len() ==> #[trigger] nodes@[k] < n,
                        steps@.len() == i,
                        forall|k: int|
                            0 <= k < i ==> self.has((#[trigger] steps@[k]).0, steps@[k].1)
                                && nodes@[k] == self.node(steps@[k].0, steps@[k].1),
                    decreases nodes.len() - i,
                {
                    steps.push(self.node_to_tri(nodes[i]));
                    i += 1;
                }
                proof {
                    let last = steps@.len() - 1;
                    numbers_tell_triangles_apart(*self, steps@[0], start);
                    numbers_tell_triangles_apart(*self, steps@[last], goal);
                    assert forall|k: int| 0 <= k < steps@.len() - 1 implies steps_to(
                        *self,
                        wide,
                        #[trigger] steps@[k],
                        steps@[k + 1],
                    ) by {
                        let (p, q) = (steps@[k], steps@[k + 1]);
                        assert(linked(links@, nodes@[k] as int, nodes@[k + 1] as int, tags@[k]));
                        self.lemma_node_bound(p.0, p.1);
                        let list = links@[nodes@[k] as int]@;
                        let j = choose|j: int|
                            0 <= j < list.len() && (#[trigger] list[j]).to == nodes@[k + 1]
                                && list[j].tag == tags@[k];
                        assert(link_sound(*self, wide, p.0, p.1, list[j]));
                        let m = self.way(p.0, p.1, list[j].tag as u8)->0;
                        numbers_tell_triangles_apart(*self, m, q);
                        assert(self.way(p.0, p.1, list[j].tag as u8) == Some(q));
                    }
                    assert(links_world(*self, wide, links@));
                    assert(nodes_of(*self, steps@) =~= nodes@);
                    assert(corridor_found(*self, wide, price, start, goal, steps@));
                    assert forall|i: int, j: int|
                        0 <= i < steps@.len() && 0 <= j < steps@.len() && i != j implies steps@[i]
                        != steps@[j] by {
                        assert(nodes@[i] != nodes@[j]);
                    }
                }
                Ok(steps)
            },
        }
    }

    proof fn lemma_route_nodes(
        &self,
        links: Seq<Vec<Link>>,
        nodes: Seq<usize>,
        tags: Seq<u32>,
        a: int,
        b: int,
    )
        requires
            links.len() == self.total_triangles,
            links_fit(links),
            is_route(links, nodes, tags, a, b),
            b < links.len(),
        ensures
            forall|k: int| 0 <= k < nodes.len() ==> #[trigger] nodes[k] < self.total_triangles,
    {
        assert forall|k: int| 0 <= k < nodes.len() implies #[trigger] nodes[k]
            < self.total_triangles by {
            if k < nodes.len() - 1 {
                assert(linked(links, nodes[k] as int, nodes[k + 1] as int, tags[k]));
            }
        }
    }

    proof fn lemma_sure_way_is_route<W: Fn(u32, u32, u8) -> bool>(
        &self,
        wide: W,
        links: Seq<Vec<Link>>,
        steps: Seq<(u32, u32)>,
        start: (u32, u32),
        goal: (u32, u32),
    )
        requires
            self.wf(),
            self.has(goal.0, goal.1),
            is_sure_way(*self, wide, steps, start, goal),
            links.len() == self.total_triangles,
            forall|l: u32, t: u32|
                self.has(l, t) && #[trigger] self.node(l, t) < links.len() ==> links_sound(
                    *self,
                    wide,
                    l,
                    t,
                    links[self.node(l, t)]@,
                ),
        ensures
            exists|nodes: Seq<usize>, tags: Seq<u32>| #[trigger]
                is_route(
                    links,
                    nodes,
                    tags,
                    self.node(start.0, start.1),
                    self.node(goal.0, goal.1),
                ),
    {
        let nodes = Seq::new(steps.len(), |i: int| self.node(steps[i].0, steps[i].1) as usize);
        let way = |i: int|
            choose|j: int|
                0 <= j < links[self.node(steps[i].0, steps[i].1)]@.len() && (
                #[trigger] links[self.node(steps[i].0, steps[i].1)]@[j]).to == self.node(
                    steps[i + 1].0,
                    steps[i + 1].1,
                );
        let tags = Seq::new(
            (steps.len() - 1) as nat,
            |i: int| links[self.node(steps[i].0, steps[i].1)]@[way(i)].tag,
        );
        assert forall|i: int| 0 <= i < steps.len() implies self.has(
            (#[trigger] steps[i]).0,
            steps[i].1,
        ) && 0 <= self.node(steps[i].0, steps[i].1) < self.total_triangles && nodes[i]
            == self.node(steps[i].0, steps[i].1) by {
            if i == steps.len() - 1 {
                assert(steps[i] == goal);
            }
            self.lemma_node_bound(steps[i].0, steps[i].1);
        }
        assert forall|i: int| 0 <= i < tags.len() implies linked(
            links,
            nodes[i] as int,
            nodes[i + 1] as int,
            #[trigger] tags[i],
        ) by {
            let (p, q) = (steps[i], steps[i + 1]);
            assert(surely_steps_to(*self, wide, p, q));
            let e = choose|e: u8| #[trigger]
                self.way(p.0, p.1, e) == Some(q) && e < 3 && !wide.ensures((p.0, p.1, e), false);
            let list = links[self.node(p.0, p.1)]@;
            assert(links_sound(*self, wide, p.0, p.1, list));
            assert(edge_covered(*self, wide, p.0, p.1, list, e));
            let j = way(i);
            assert(0 <= j < list.len() && list[j].to == self.node(q.0, q.1));
        }
        assert(is_route(
            links,
            nodes,
            tags,
            self.node(start.0, start.1),
            self.node(goal.0, goal.1),
        ));
    }
}

// --- Choosing a floor -------------------------------------------------------

/// The floor nearest in height among one candidate for each layer: a triangle
/// and the key of the height difference, which must not be above `max_key`.
/// The first of equals counts.
pub open spec fn is_floor(
    floors: Seq<Option<(u32, u64)>>,
    max_key: u64,
    r: Option<(u32, u32)>,
) -> bool {
    match r {
        None => forall|i: int|
            0 <= i < floors.len() ==> ((#[trigger] floors[i]) matches Some(f) ==> f.1 > max_key),
        Some((l, t)) => {
            &&& l < floors.len()
            &&& floors[l as int] matches Some(f) && f.0 == t && f.1 <= max_key && (forall|i: int|
                0 <= i < floors.len() ==> ((#[trigger] floors[i]) matches Some(g) ==> f.1 <= g.1))
                && (forall|i: int|
                0 <= i < l ==> ((#[trigger] floors[i]) matches Some(g) ==> f.1 < g.1))
        },
    }
}

/// Choose the floor nearest in height.
pub fn closest_floor(floors: &Vec<Option<(u32, u64)>>, max_key: u64) -> (r: Option<(LayerId, u32)>)
    requires
        floors@.len() <= u32::MAX,
    ensures
        is_floor(floors@, max_key, r),
{
    let mut best: Option<(LayerId, u32)> = None;
    let mut best_key: u64 = 0;
    let mut i: usize = 0;
    while i < floors.len()
        invariant
            i <= floors@.len() <= u32::MAX,
            match best {
                None => forall|k: int|
                    0 <= k < i ==> ((#[trigger] floors@[k]) matches Some(f) ==> f.1 > max_key),
                Some((l, t)) => {
                    &&& l < i
                    &&& floors@[l as int] == Some((t, best_key))
                    &&& best_key <= max_key
                    &&& forall|k: int|
                        0 <= k < i ==> ((#[trigger] floors@[k]) matches Some(g) ==> best_key <= g.1)
                    &&& forall|k: int|
                        0 <= k < l ==> ((#[trigger] floors@[k]) matches Some(g) ==> best_key < g.1)
                },
            },
        decreases floors.len() - i,
    {
        if let Some((t, key)) = floors[i] {
            let better = match best {
                None => true,
                Some(_) => key < best_key,
            };
            if key <= max_key && better {
                best = Some((i as u32, t));
                best_key = key;
            }
        }
        i += 1;
    }
    best
}

/// The layer with the least distance key, the first of equals; none where no
/// layer has one.
pub fn closest_layer(distances: &Vec<Option<u64>>) -> (r: Option<LayerId>)
    requires
        distances@.len() <= u32::MAX,
    ensures
        match r {
            None => forall|i: int| 0 <= i < distances@.len() ==> #[trigger] distances@[i] is None,
            Some(l) => {
                &&& l < distances@.len()
                &&& distances@[l as int] matches Some(d) && (forall|i: int|
                    0 <= i < distances@.len() ==> ((#[trigger] distances@[i]) matches Some(e) ==> d
                        <= e)) && (forall|i: int|
                    0 <= i < l ==> ((#[trigger] distances@[i]) matches Some(e) ==> d < e))
            },
        },
{
    let mut best: Option<LayerId> = None;
    let mut best_key: u64 = 0;
    let mut i: usize = 0;
    while i < distances.len()
        invariant
            i <= distances@.len() <= u32::MAX,
            match best {
                None => forall|k: int| 0 <= k < i ==> #[trigger] distances@[k] is None,
                Some(l) => {
                    &&& l < i
                    &&& distances@[l as int] == Some(best_key)
                    &&& forall|k: int|
                        0 <= k < i ==> ((#[trigger] distances@[k]) matches Some(e) ==> best_key
                            <= e)
                    &&& forall|k: int|
                        0 <= k < l ==> ((#[trigger] distances@[k]) matches Some(e) ==> best_key < e)
                },
            },
        decreases distances.len() - i,
    {
        if let Some(key) = distances[i] {
            let better = match best {
                None => true,
                Some(_) => key < best_key,
            };
            if better {
                best = Some(i as u32);
                best_key = key;
            }
        }
        i += 1;
    }
    best
}

} // verus!
