//! Best-first search over numbered nodes, one decision at a time.
//!
//! The search keeps what is known of each node: the cost of the best way to
//! it, the node that way comes from, and whether the node is done. The caller
//! asks which node to expand next and offers ways to its neighbors. Costs are
//! ordered by their keys: the bits of a nonnegative binary64 number order as
//! the number does.

use vstd::prelude::*;

verus! {

/// Key of the cost of a node to which no way is known.
pub const UNKNOWN: u64 = 0x7ff0_0000_0000_0000;

/// What to do next.
#[derive(Copy, Clone, Debug, PartialEq, Eq, Structural)]
pub enum SearchStep {
    /// Offer the ways from this node to its neighbors.
    Expand { node: usize, tag: u32 },
    /// The goal is reached.
    Found,
    /// No node is left to expand.
    Exhausted,
}

/// A waiting node with the key of its estimated total.
#[derive(Copy, Clone, Debug, PartialEq, Eq, Structural)]
pub struct Frontier {
    pub node: usize,
    pub key: u64,
    /// What the way that was offered goes by.
    pub tag: u32,
}

/// The state of a search.
pub struct Search {
    start: usize,
    goal: usize,
    /// Whether a node that was expanded may be expanded again.
    reopens: bool,
    cost: Vec<u64>,
    came_from: Vec<usize>,
    link: Vec<u32>,
    done: Vec<bool>,
    open: Vec<Frontier>,
    /// When each node last got a better way.
    stamp: Ghost<Seq<nat>>,
    now: Ghost<nat>,
}

/// A search as mathematics.
pub struct SearchView {
    pub start: int,
    pub goal: int,
    pub reopens: bool,
    /// Key of the best known cost of each node.
    pub cost: Seq<u64>,
    /// Where the best way to each node comes from, and by what.
    pub came_from: Seq<usize>,
    pub link: Seq<u32>,
    /// The nodes that are done.
    pub done: Seq<bool>,
    /// The nodes that wait.
    pub open: Seq<Frontier>,
}

impl View for Search {
    type V = SearchView;

    closed spec fn view(&self) -> SearchView {
        SearchView {
            start: self.start as int,
            goal: self.goal as int,
            reopens: self.reopens,
            cost: self.cost@,
            came_from: self.came_from@,
            link: self.link@,
            done: self.done@,
            open: self.open@,
        }
    }
}

/// Whether a list of waiting nodes has node `x`.
pub open spec fn waits(open: Seq<Frontier>, x: int) -> bool {
    exists|i: int| 0 <= i < open.len() && (#[trigger] open[i]).node == x
}

impl SearchView {
    /// How many nodes there are.
    pub open spec fn nodes(self) -> int {
        self.cost.len() as int
    }

    /// Whether a way to the node is known.
    pub open spec fn known(self, x: int) -> bool {
        0 <= x < self.nodes() && self.cost[x] < UNKNOWN
    }

    /// Whether a node waits.
    pub open spec fn waiting(self, x: int) -> bool {
        waits(self.open, x)
    }

    /// Whether a list of nodes leads from the start to `x`, each coming from
    /// the one before.
    pub open spec fn leads_to(self, path: Seq<usize>, x: int) -> bool {
        &&& path.len() > 0
        &&& path[0] == self.start
        &&& path.last() == x
        &&& forall|i: int|
            0 <= i < path.len() - 1 ==> self.known(#[trigger] path[i + 1] as int)
                && path[i + 1] != self.start && self.came_from[path[i + 1] as int] == path[i]
    }
}

proof fn lemma_other_way_back(s: SearchView, path: Seq<usize>, x: int, i: int, j: int)
    requires
        s.leads_to(path, x),
        0 <= i < j < path.len(),
    ensures
        path[i] != path[j],
    decreases i,
{
    assert(path[j - 1 + 1] != s.start);
    if i > 0 {
        assert(s.came_from[path[i - 1 + 1] as int] == path[i - 1]);
        assert(s.came_from[path[j - 1 + 1] as int] == path[j - 1]);
        lemma_other_way_back(s, path, x, i - 1, j - 1);
    }
}

/// The way that leads to a node meets no node twice.
pub proof fn ways_meet_no_node_twice(s: SearchView, path: Seq<usize>, x: int)
    requires
        s.leads_to(path, x),
    ensures
        path.no_duplicates(),
{
    assert forall|i: int, j: int| 0 <= i < path.len() && 0 <= j < path.len() && i != j implies path[i]
        != path[j] by {
        if i < j {
            lemma_other_way_back(s, path, x, i, j);
        } else {
            lemma_other_way_back(s, path, x, j, i);
        }
    }
}

/// Whether a waiting entry still counts: it is of the goal, or of a node that
/// may yet be expanded.
pub open spec fn live(s: SearchView, i: int) -> bool {
    &&& 0 <= i < s.open.len()
    &&& s.open[i].node == s.goal || s.reopens || !s.done[s.open[i].node as int]
}

/// Whether no entry that counts has a lesser key than entry `i`, which counts.
pub open spec fn is_least(s: SearchView, i: int) -> bool {
    &&& live(s, i)
    &&& forall|j: int| #[trigger] live(s, j) ==> s.open[i].key <= s.open[j].key
}

/// Whether `open` is what waits once entry `i` is taken: entries that no
/// longer count may be gone too.
pub open spec fn taken_out(s: SearchView, i: int, open: Seq<Frontier>) -> bool {
    &&& forall|k: int| 0 <= k < open.len() ==> s.open.contains(#[trigger] open[k])
    &&& forall|j: int| #[trigger]
        live(s, j) && s.open[j] != s.open[i] ==> open.contains(s.open[j])
}

/// Whether `node`, offered by `tag`, is one to take next, and `open` what waits
/// after it.
pub open spec fn picks(s: SearchView, node: usize, tag: u32, open: Seq<Frontier>) -> bool {
    exists|i: int| #[trigger]
        is_least(s, i) && s.open[i].node == node && s.open[i].tag == tag && taken_out(s, i, open)
}

/// Whether the goal is one to take next.
pub open spec fn at_goal(s: SearchView) -> bool {
    exists|i: int| #[trigger] is_least(s, i) && s.open[i].node == s.goal
}

/// A search after a way to `to` by way of `from` was offered: it is taken where
/// it is better than the best one known, unless the node is done for good.
pub open spec fn with_offer(
    s: SearchView,
    from: usize,
    to: usize,
    cost: u64,
    key: u64,
    tag: u32,
) -> SearchView {
    if cost < s.cost[to as int] && (s.reopens || !s.done[to as int]) {
        SearchView {
            cost: s.cost.update(to as int, cost),
            came_from: s.came_from.update(to as int, from),
            link: s.link.update(to as int, tag),
            open: s.open.push(Frontier { node: to, key, tag }),
            ..s
        }
    } else {
        s
    }
}

impl Search {
    /// What holds of a search at every step: every known node but the start
    /// comes from a known node, by ways that lead back to the start; every
    /// known node is done or waits; every waiting node is known.
    pub closed spec fn wf(&self) -> bool {
        let n = self.cost@.len();
        &&& self.start < n
        &&& self.goal < n
        &&& self.came_from@.len() == n
        &&& self.link@.len() == n
        &&& self.done@.len() == n
        &&& self.stamp@.len() == n
        &&& self.cost@[self.start as int] == 0
        &&& forall|x: int| 0 <= x < n ==> #[trigger] self.stamp@[x] <= self.now@
        &&& forall|x: int| 0 <= x < n ==> #[trigger] self.cost@[x] <= UNKNOWN
        &&& forall|x: int|
            0 <= x < n && #[trigger] self.cost@[x] < UNKNOWN && x != self.start
                ==> self.comes_from_earlier(x)
        &&& forall|i: int|
            0 <= i < self.open@.len() ==> (#[trigger] self.open@[i]).node < n
                && self.cost@[self.open@[i].node as int] < UNKNOWN
        &&& forall|x: int|
            0 <= x < n && #[trigger] self.cost@[x] < UNKNOWN ==> self.done@[x] || waits(self.open@, x)
        &&& forall|x: int| 0 <= x < n && #[trigger] self.done@[x] ==> self.cost@[x] < UNKNOWN
    }

    spec fn comes_from_earlier(&self, x: int) -> bool {
        let p = self.came_from@[x] as int;
        &&& p < self.cost@.len()
        &&& self.cost@[p] < UNKNOWN
        &&& self.cost@[p] < self.cost@[x] || (self.cost@[p] == self.cost@[x] && self.stamp@[p]
            < self.stamp@[x])
    }

    /// A search among `nodes` nodes in which only the start is known, with the
    /// key of its estimated total.
    pub fn new(nodes: usize, start: usize, goal: usize, reopens: bool, key: u64) -> (s: Search)
        requires
            start < nodes,
            goal < nodes,
        ensures
            s.wf(),
            s@.start == start && s@.goal == goal && s@.reopens == reopens,
            s@.nodes() == nodes,
            s@.cost[start as int] == 0,
            forall|x: int| 0 <= x < nodes && x != start ==> s@.cost[x] == UNKNOWN,
            forall|x: int| 0 <= x < nodes ==> !s@.done[x],
            s@.open == seq![Frontier { node: start, key, tag: NO_TAG }],
    {
        let mut cost: Vec<u64> = Vec::new();
        let mut came_from: Vec<usize> = Vec::new();
        let mut link: Vec<u32> = Vec::new();
        let mut done: Vec<bool> = Vec::new();
        let mut i: usize = 0;
        while i < nodes
            invariant
                i <= nodes,
                start < nodes,
                cost@.len() == i,
                came_from@.len() == i,
                link@.len() == i,
                done@.len() == i,
                forall|x: int|
                    0 <= x < i ==> #[trigger] cost@[x] == if x == start {
                        0
                    } else {
                        UNKNOWN
                    },
                forall|x: int| 0 <= x < i ==> !done@[x],
            decreases nodes - i,
        {
            cost.push(
                if i == start {
                    0
                } else {
                    UNKNOWN
                },
            );
            came_from.push(start);
            link.push(0);
            done.push(false);
            i += 1;
        }
        let mut open: Vec<Frontier> = Vec::new();
        open.push(Frontier { node: start, key, tag: NO_TAG });
        let stamp = Ghost(Seq::new(nodes as nat, |x: int| 0nat));
        let s = Search { start, goal, reopens, cost, came_from, link, done, open, stamp, now: Ghost(0) };
        proof {
            assert(s@.open =~= seq![Frontier { node: start, key, tag: NO_TAG }]);
            assert(s@.open[0].node == start);
        }
        s
    }

    /// The index of the waiting node with the least key, the first of equals.
    fn least(&self) -> (i: usize)
        requires
            self.open@.len() > 0,
        ensures
            i < self.open@.len(),
            forall|j: int| 0 <= j < self.open@.len() ==> self.open@[i as int].key <= (
            #[trigger] self.open@[j]).key,
    {
        let mut best: usize = 0;
        let mut j: usize = 1;
        while j < self.open.len()
            invariant
                best < self.open@.len(),
                1 <= j <= self.open@.len(),
                forall|k: int| 0 <= k < j ==> self.open@[best as int].key <= (
                #[trigger] self.open@[k]).key,
            decreases self.open.len() - j,
        {
            if self.open[j].key < self.open[best].key {
                best = j;
            }
            j += 1;
        }
        best
    }

    /// Take the waiting node with the least key: the goal ends the search, any
    /// other node that is not done is to be expanded.
    pub fn next(&mut self) -> (step: SearchStep)
        requires
            old(self).wf(),
        ensures
            final(self).wf(),
            final(self)@.start == old(self)@.start && final(self)@.goal == old(self)@.goal
                && final(self)@.reopens == old(self)@.reopens,
            final(self)@.cost == old(self)@.cost,
            final(self)@.came_from == old(self)@.came_from,
            final(self)@.link == old(self)@.link,
            match step {
                SearchStep::Expand { node, tag } => {
                    &&& final(self)@.known(node as int)
                    &&& node != final(self)@.goal
                    &&& picks(old(self)@, node, tag, final(self)@.open)
                    &&& old(self)@.reopens || !old(self)@.done[node as int]
                    &&& final(self)@.done == old(self)@.done.update(node as int, true)
                    &&& final(self)@.open.len() < old(self)@.open.len()
                },
                SearchStep::Found => {
                    &&& at_goal(old(self)@)
                    &&& final(self)@.known(final(self)@.goal)
                    &&& final(self)@.done == old(self)@.done
                },
                SearchStep::Exhausted => {
                    &&& forall|i: int| !(#[trigger] live(old(self)@, i))
                    &&& final(self)@.open.len() == 0
                    &&& final(self)@.done == old(self)@.done
                    &&& forall|x: int| #[trigger]
                        final(self)@.known(x) ==> final(self)@.done[x]
                },
            },
    {
        let ghost first = self@;
        loop
            invariant
                self.wf(),
                self@.start == first.start && self@.goal == first.goal && self@.reopens
                    == first.reopens,
                self@.cost == first.cost,
                self@.came_from == first.came_from,
                self@.link == first.link,
                self@.done == first.done,
                self@.open.len() <= first.open.len(),
                forall|k: int|
                    0 <= k < self@.open.len() ==> first.open.contains(#[trigger] self@.open[k]),
                forall|j: int| #[trigger]
                    live(first, j) ==> self@.open.contains(first.open[j]),
                first == old(self)@,
            decreases self.open@.len(),
        {
            if self.open.len() == 0 {
                assert forall|i: int| !(#[trigger] live(old(self)@, i)) by {
                    if live(first, i) {
                        assert(self@.open.contains(first.open[i]));
                    }
                }
                return SearchStep::Exhausted;
            }
            let i: usize = self.least();
            let ghost before = self@;
            let node: usize = self.open[i].node;
            let tag: u32 = self.open[i].tag;
            let ghost m = first.open.index_of(before.open[i as int]);
            proof {
                assert(first.open.contains(before.open[i as int]));
                assert(first.open[m] == before.open[i as int]);
                if live(first, m) {
                    assert forall|j: int| #[trigger] live(first, j) implies first.open[m].key
                        <= first.open[j].key by {
                        assert(before.open.contains(first.open[j]));
                        let k = before.open.index_of(first.open[j]);
                        assert(before.open[i as int].key <= before.open[k].key);
                    }
                    assert(is_least(first, m));
                }
            }
            if node == self.goal {
                assert(live(first, m));
                return SearchStep::Found;
            }
            let _ = self.open.swap_remove(i);
            proof {
                lemma_swap_removed(before.open, self@.open, i as int);
                assert forall|k: int| 0 <= k < self@.open.len() implies (
                #[trigger] self@.open[k]).node < self.cost@.len() && self.cost@[
                    self@.open[k].node as int
                ] < UNKNOWN by {
                    assert(before.open.contains(self@.open[k]));
                    let m = before.open.index_of(self@.open[k]);
                    assert(before.open[m].node < self.cost@.len());
                }
                assert forall|k: int| 0 <= k < self@.open.len() implies first.open.contains(
                    #[trigger] self@.open[k],
                ) by {
                    assert(before.open.contains(self@.open[k]));
                    let m = before.open.index_of(self@.open[k]);
                    assert(first.open.contains(before.open[m]));
                }
                assert forall|x: int| waits(before.open, x) && x != node implies #[trigger] waits(
                    self@.open,
                    x,
                ) by {
                    let k = choose|k: int|
                        0 <= k < before.open.len() && (#[trigger] before.open[k]).node == x;
                    assert(self@.open.contains(before.open[k]));
                    let m = self@.open.index_of(before.open[k]);
                    assert(self@.open[m].node == x);
                }
                assert forall|j: int| #[trigger]
                    live(first, j) && first.open[j] != first.open[m] implies self@.open.contains(
                    first.open[j],
                ) by {
                    assert(before.open.contains(first.open[j]));
                    let k = before.open.index_of(first.open[j]);
                    assert(self@.open.contains(before.open[k]));
                }
            }
            if self.reopens || !self.done[node] {
                self.done.set(node, true);
                proof {
                    assert(live(first, m));
                    assert(taken_out(first, m, self@.open));
                }
                return SearchStep::Expand { node, tag };
            }
            proof {
                assert forall|j: int| #[trigger] live(first, j) implies self@.open.contains(
                    first.open[j],
                ) by {
                    assert(first.open[j] != first.open[m]);
                }
            }
        }
    }

    /// Offer a way to node `to` by way of `from`, with the keys of its cost
    /// and of the estimated total, and a tag that says what it goes by. It is
    /// taken where it is better than the best one known, unless the node is
    /// done for good.
    pub fn relax(&mut self, from: usize, to: usize, cost: u64, key: u64, tag: u32) -> (taken: bool)
        requires
            old(self).wf(),
            old(self)@.known(from as int),
            to < old(self)@.nodes(),
            old(self)@.cost[from as int] <= cost,
        ensures
            final(self).wf(),
            final(self)@.start == old(self)@.start && final(self)@.goal == old(self)@.goal
                && final(self)@.reopens == old(self)@.reopens,
            final(self)@.done == old(self)@.done,
            final(self)@ == with_offer(old(self)@, from, to, cost, key, tag),
            taken == (cost < old(self)@.cost[to as int] && (old(self)@.reopens || !old(
                self,
            )@.done[to as int])),
            cost < UNKNOWN ==> final(self)@.known(to as int),
    {
        if !self.reopens && self.done[to] {
            return false;
        }
        if cost >= self.cost[to] {
            return false;
        }
        let ghost before = self@;
        let ghost stamps = self.stamp@;
        self.cost.set(to, cost);
        self.came_from.set(to, from);
        self.link.set(to, tag);
        self.open.push(Frontier { node: to, key, tag });
        proof {
            self.now@ = self.now@ + 1;
            self.stamp@ = self.stamp@.update(to as int, self.now@);
            assert(self@.open[before.open.len() as int].node == to);
            assert forall|x: int| waits(before.open, x) implies #[trigger] waits(self@.open, x) by {
                let k = choose|k: int|
                    0 <= k < before.open.len() && (#[trigger] before.open[k]).node == x;
                assert(self@.open[k].node == x);
            }
            assert(from != to);
            assert forall|x: int|
                0 <= x < self.cost@.len() && #[trigger] self.cost@[x] < UNKNOWN && x
                    != self.start implies self.comes_from_earlier(x) by {
                if x == to {
                    assert(stamps[from as int] <= self.now@ - 1);
                } else {
                    assert(before.cost[x] < UNKNOWN);
                    assert(old(self).comes_from_earlier(x));
                }
            }
            assert forall|x: int| 0 <= x < self.cost@.len() && #[trigger] self.cost@[x]
                < UNKNOWN implies self.done@[x] || waits(self.open@, x) by {
                if x != to {
                    assert(before.cost[x] < UNKNOWN);
                }
            }
        }
        true
    }

    /// The nodes on the best known way from the start to node `x`, and what
    /// each but the first was reached by.
    pub fn path_to(&self, x: usize) -> (out: (Vec<usize>, Vec<u32>))
        requires
            self.wf(),
            self@.known(x as int),
        ensures
            self@.leads_to(out.0@, x as int),
            out.1@.len() == out.0@.len() - 1,
            forall|i: int|
                0 <= i < out.1@.len() ==> #[trigger] out.1@[i] == self@.link[out.0@[i + 1] as int],
    {
        let mut back: Vec<usize> = Vec::new();
        let mut cur: usize = x;
        back.push(cur);
        while cur != self.start
            invariant
                self.wf(),
                self@.known(cur as int),
                back@.len() > 0,
                back@[0] == x,
                back@.last() == cur,
                forall|i: int|
                    0 <= i < back@.len() - 1 ==> self@.known(#[trigger] back@[i] as int) && back@[i]
                        != self.start && self.came_from@[back@[i] as int] == back@[i + 1],
            decreases self.cost@[cur as int], self.stamp@[cur as int],
        {
            assert(self.cost@[cur as int] < UNKNOWN);
            assert(self.comes_from_earlier(cur as int));
            cur = self.came_from[cur];
            back.push(cur);
        }
        let n: usize = back.len();
        let mut nodes: Vec<usize> = Vec::new();
        let mut tags: Vec<u32> = Vec::new();
        let mut i: usize = 0;
        while i < n
            invariant
                i <= n,
                n == back@.len(),
                n > 0,
                self.wf(),
                forall|k: int|
                    0 <= k < back@.len() - 1 ==> self@.known(#[trigger] back@[k] as int) && back@[k]
                        != self.start && self.came_from@[back@[k] as int] == back@[k + 1],
                nodes@.len() == i,
                forall|k: int| 0 <= k < i ==> #[trigger] nodes@[k] == back@[n - 1 - k],
                i == 0 ==> tags@.len() == 0,
                i > 0 ==> tags@.len() == i - 1,
                forall|k: int|
                    0 <= k < tags@.len() ==> #[trigger] tags@[k] == self.link@[nodes@[k + 1] as int],
            decreases n - i,
        {
            let node: usize = back[n - 1 - i];
            nodes.push(node);
            if i > 0 {
                assert(self@.known(back@[n - 1 - i] as int));
                tags.push(self.link[node]);
            }
            i += 1;
        }
        proof {
            assert forall|k: int| 0 <= k < nodes@.len() - 1 implies self@.known(
                #[trigger] nodes@[k + 1] as int,
            ) && nodes@[k + 1] != self@.start && self@.came_from[nodes@[k + 1] as int]
                == nodes@[k] by {
                assert(nodes@[k + 1] == back@[n - 2 - k]);
                assert(nodes@[k] == back@[n - 1 - k]);
                assert(self@.known(back@[n - 2 - k] as int));
            }
        }
        (nodes, tags)
    }
}

proof fn lemma_swap_removed(before: Seq<Frontier>, after: Seq<Frontier>, i: int)
    requires
        0 <= i < before.len(),
        after == before.update(i, before.last()).drop_last(),
    ensures
        after.len() == before.len() - 1,
        forall|k: int| 0 <= k < after.len() ==> before.contains(#[trigger] after[k]),
        forall|k: int|
            0 <= k < before.len() && k != i ==> after.contains(#[trigger] before[k]),
{
    assert forall|k: int| 0 <= k < after.len() implies before.contains(#[trigger] after[k]) by {
        if k == i {
            assert(after[k] == before[before.len() - 1]);
        } else {
            assert(after[k] == before[k]);
        }
    }
    assert forall|k: int| 0 <= k < before.len() && k != i implies after.contains(
        #[trigger] before[k],
    ) by {
        if k == before.len() - 1 {
            assert(after[i] == before[k]);
        } else {
            assert(after[k] == before[k]);
        }
    }
}

// --- Routes through a graph -------------------------------------------------

/// A link from a node to another, with a tag that tells it apart.
#[derive(Copy, Clone, Debug, PartialEq, Eq, Structural)]
pub struct Link {
    pub to: usize,
    pub tag: u32,
}

/// The tag that stands for the beginning of a route.
pub const NO_TAG: u32 = u32::MAX;

/// Whether every link leads to a node.
pub open spec fn links_fit(links: Seq<Vec<Link>>) -> bool {
    forall|a: int, j: int|
        0 <= a < links.len() && 0 <= j < links[a]@.len() ==> (#[trigger] links[a]@[j]).to
            < links.len()
}

/// Whether a node has the link to `b` with the given tag.
pub open spec fn linked(links: Seq<Vec<Link>>, a: int, b: int, tag: u32) -> bool {
    &&& 0 <= a < links.len()
    &&& exists|j: int|
        0 <= j < links[a]@.len() && (#[trigger] links[a]@[j]).to == b && links[a]@[j].tag == tag
}

/// Whether nodes and tags are a route from `start` to `goal`: each node has
/// the link to the next.
pub open spec fn is_route(
    links: Seq<Vec<Link>>,
    nodes: Seq<usize>,
    tags: Seq<u32>,
    start: int,
    goal: int,
) -> bool {
    &&& nodes.len() > 0
    &&& tags.len() == nodes.len() - 1
    &&& nodes[0] == start
    &&& nodes.last() == goal
    &&& forall|i: int|
        0 <= i < tags.len() ==> linked(
            links,
            nodes[i] as int,
            nodes[i + 1] as int,
            #[trigger] tags[i],
        )
}

/// The cost of a way that `price` asks for, which is never below the cost up to
/// where it begins.
pub open spec fn at_least(base: u64, asked: u64) -> u64 {
    if asked < base {
        base
    } else {
        asked
    }
}

/// A search after the first `n` links of a node were offered, at the given
/// costs and keys.
pub open spec fn offered_all(
    s: SearchView,
    from: usize,
    base: u64,
    list: Seq<Link>,
    prices: Seq<(u64, u64)>,
    n: nat,
) -> SearchView
    decreases n,
{
    if n == 0 {
        s
    } else {
        with_offer(
            offered_all(s, from, base, list, prices, (n - 1) as nat),
            from,
            list[n - 1].to,
            at_least(base, prices[n - 1].0),
            prices[n - 1].1,
            list[n - 1].tag,
        )
    }
}

/// Whether a search goes on from `s` to `t` by expanding `node`: an entry with
/// the least key is taken, and each link of its node is offered at its price,
/// which is asked for with the tag that the entry was offered by.
pub open spec fn expands_by<F: Fn(u64, usize, u32, usize, u32) -> (u64, u64)>(
    links: Seq<Vec<Link>>,
    price: F,
    s: SearchView,
    t: SearchView,
    node: usize,
    tag: u32,
    open: Seq<Frontier>,
    prices: Seq<(u64, u64)>,
) -> bool {
    let list = links[node as int]@;
    let base = s.cost[node as int];
    &&& picks(s, node, tag, open)
    &&& node != s.goal
    &&& prices.len() == list.len()
    &&& forall|j: int|
        0 <= j < list.len() ==> price.ensures(
            (base, node, tag, list[j].to, list[j].tag),
            #[trigger] prices[j],
        )
    &&& t == offered_all(
        SearchView { done: s.done.update(node as int, true), open, ..s },
        node,
        base,
        list,
        prices,
        list.len(),
    )
}

/// Whether a search goes on from `s` to `t` by expanding a node.
pub open spec fn expands<F: Fn(u64, usize, u32, usize, u32) -> (u64, u64)>(
    links: Seq<Vec<Link>>,
    price: F,
    s: SearchView,
    t: SearchView,
) -> bool {
    exists|node: usize, tag: u32, open: Seq<Frontier>, prices: Seq<(u64, u64)>| #[trigger]
        expands_by(links, price, s, t, node, tag, open, prices)
}

/// Whether a search has just begun: only the start is known, and waits.
pub open spec fn is_fresh(s: SearchView, n: nat, start: int, goal: int, reopens: bool) -> bool {
    &&& s.start == start && s.goal == goal && s.reopens == reopens
    &&& s.nodes() == n
    &&& s.done.len() == n && s.came_from.len() == n && s.link.len() == n
    &&& forall|x: int|
        0 <= x < n ==> #[trigger] s.cost[x] == if x == start {
            0
        } else {
            UNKNOWN
        }
    &&& forall|x: int| 0 <= x < n ==> !s.done[x]
    &&& s.open.len() == 1 && s.open[0].node == start && s.open[0].tag == NO_TAG
}

/// Whether searches are one search from its beginning, each going on to the
/// next.
pub open spec fn is_run<F: Fn(u64, usize, u32, usize, u32) -> (u64, u64)>(
    links: Seq<Vec<Link>>,
    price: F,
    reopens: bool,
    start: int,
    goal: int,
    run: Seq<SearchView>,
) -> bool {
    &&& run.len() > 0
    &&& is_fresh(run[0], links.len(), start, goal, reopens)
    &&& forall|k: int|
        0 <= k < run.len() - 1 ==> expands(links, price, #[trigger] run[k], run[k + 1])
}

/// Whether a search that ends at `s` gives the route `nodes` by `tags`: the
/// goal is next, and the route is the best way known to it.
pub open spec fn ends_with(s: SearchView, nodes: Seq<usize>, tags: Seq<u32>) -> bool {
    &&& at_goal(s)
    &&& s.leads_to(nodes, s.goal)
    &&& tags.len() == nodes.len() - 1
    &&& forall|i: int|
        0 <= i < tags.len() ==> #[trigger] tags[i] == s.link[nodes[i + 1] as int]
}

/// Whether a search from `start` gives the route `nodes` by `tags` to `goal`.
pub open spec fn is_found<F: Fn(u64, usize, u32, usize, u32) -> (u64, u64)>(
    links: Seq<Vec<Link>>,
    price: F,
    reopens: bool,
    start: int,
    goal: int,
    nodes: Seq<usize>,
    tags: Seq<u32>,
) -> bool {
    exists|run: Seq<SearchView>| #[trigger]
        is_run(links, price, reopens, start, goal, run) && ends_with(run.last(), nodes, tags)
}

/// Whether a search from `start` ends without reaching `goal`: no node is left
/// to expand.
pub open spec fn is_missed<F: Fn(u64, usize, u32, usize, u32) -> (u64, u64)>(
    links: Seq<Vec<Link>>,
    price: F,
    reopens: bool,
    start: int,
    goal: int,
) -> bool {
    exists|run: Seq<SearchView>| #[trigger]
        is_run(links, price, reopens, start, goal, run) && forall|i: int| !(#[trigger] live(
            run.last(),
            i,
        ))
}

/// Whether no way costs so much that it counts as unknown.
pub open spec fn affordable<F: Fn(u64, usize, u32, usize, u32) -> (u64, u64)>(price: F) -> bool {
    forall|g: u64, a: usize, t: u32, b: usize, u: u32, out: (u64, u64)| #[trigger]
        price.ensures((g, a, t, b, u), out) ==> out.0 < UNKNOWN
}

/// The costs of the first `n` nodes together.
spec fn cost_sum(cost: Seq<u64>, n: nat) -> nat
    decreases n,
{
    if n == 0 {
        0
    } else {
        cost_sum(cost, (n - 1) as nat) + cost[n - 1] as nat
    }
}

proof fn lemma_cost_sum(cost: Seq<u64>, x: int, c: u64, n: nat)
    requires
        0 <= x < cost.len(),
        n <= cost.len(),
    ensures
        cost_sum(cost.update(x, c), n) == cost_sum(cost, n) + if x < n {
            c - cost[x]
        } else {
            0int
        },
    decreases n,
{
    if n > 0 {
        lemma_cost_sum(cost, x, c, (n - 1) as nat);
    }
}

/// What holds of a search that has followed links only.
spec fn followed(links: Seq<Vec<Link>>, s: SearchView) -> bool {
    &&& s.nodes() == links.len()
    &&& !s.done[s.goal]
    &&& s.known(s.start)
    &&& s.done.len() == s.nodes() && s.came_from.len() == s.nodes() && s.link.len() == s.nodes()
    &&& forall|x: int| #[trigger]
        s.known(x) && x != s.start ==> linked(links, s.came_from[x] as int, x, s.link[x])
}

/// Whether every node that is done, `busy` set aside, has offered all its
/// links.
spec fn offered(links: Seq<Vec<Link>>, s: SearchView, busy: int) -> bool {
    forall|a: int, j: int|
        0 <= a < links.len() && a != busy && s.done[a] && 0 <= j < links[a]@.len() ==> s.known(
            (#[trigger] links[a]@[j]).to as int,
        )
}

/// Find a route from `start` to `goal` along links.
///
/// `price` gives the keys of two costs of a link to a node with a tag, from a
/// node that was reached by a tag at a known cost: the cost up to there, and
/// that with an estimate of what is still ahead. Costs never fall along a
/// route. Among the nodes that wait, one with the least estimate is expanded
/// next; a link is followed where it makes a better way to a node. `reopens`
/// tells whether a node that was expanded may be expanded again.
pub fn find_route<F: Fn(u64, usize, u32, usize, u32) -> (u64, u64)>(
    links: &Vec<Vec<Link>>,
    start: usize,
    goal: usize,
    reopens: bool,
    price: F,
) -> (r: Option<(Vec<usize>, Vec<u32>)>)
    requires
        links_fit(links@),
        start < links@.len(),
        goal < links@.len(),
        forall|g: u64, a: usize, t: u32, b: usize, u: u32| #[trigger]
            price.requires((g, a, t, b, u)),
    ensures
        match r {
            Some(p) => {
                &&& is_found(links@, price, reopens, start as int, goal as int, p.0@, p.1@)
                &&& is_route(links@, p.0@, p.1@, start as int, goal as int)
                &&& p.0@.no_duplicates()
            },
            None => {
                &&& is_missed(links@, price, reopens, start as int, goal as int)
                &&& affordable(price) ==> forall|nodes: Seq<usize>, tags: Seq<u32>|
                    !(#[trigger] is_route(links@, nodes, tags, start as int, goal as int))
            },
        },
{
    let n: usize = links.len();
    let mut s = Search::new(n, start, goal, reopens, 0);
    let ghost mut run: Seq<SearchView> = seq![s@];
    proof {
        s.lemma_shape();
        assert(is_fresh(s@, n as nat, start as int, goal as int, reopens));
    }
    loop
        invariant
            s.wf(),
            n == links@.len(),
            links_fit(links@),
            s@.start == start && s@.goal == goal && s@.reopens == reopens,
            start < n && goal < n,
            forall|g: u64, a: usize, t: u32, b: usize, u: u32| #[trigger]
                price.requires((g, a, t, b, u)),
            followed(links@, s@),
            affordable(price) ==> offered(links@, s@, -1),
            is_run(links@, price, reopens, start as int, goal as int, run),
            run.last() == s@,
        decreases cost_sum(s@.cost, n as nat), s@.open.len(),
    {
        let ghost before = s@;
        let step = s.next();
        proof {
            if step !is Expand {
                lemma_still_followed(links@, before, s@, affordable(price));
            }
        }
        let (node, from_tag): (usize, u32) = match step {
            SearchStep::Found => {
                let (nodes, tags) = s.path_to(goal);
                proof {
                    assert forall|i: int| 0 <= i < tags@.len() implies linked(
                        links@,
                        nodes@[i] as int,
                        nodes@[i + 1] as int,
                        #[trigger] tags@[i],
                    ) by {
                        assert(s@.known(nodes@[i + 1] as int));
                    }
                    assert(before.leads_to(nodes@, goal as int)) by {
                        assert forall|i: int| 0 <= i < nodes@.len() - 1 implies before.known(
                            #[trigger] nodes@[i + 1] as int,
                        ) && nodes@[i + 1] != before.start && before.came_from[nodes@[i + 1] as int]
                            == nodes@[i] by {
                            assert(s@.known(nodes@[i + 1] as int));
                        }
                    }
                    assert(ends_with(run.last(), nodes@, tags@));
                    ways_meet_no_node_twice(before, nodes@, goal as int);
                }
                return Some((nodes, tags));
            },
            SearchStep::Exhausted => {
                proof {
                    assert(!s@.known(goal as int));
                    if affordable(price) {
                        assert forall|nodes: Seq<usize>, tags: Seq<u32>| !(#[trigger] is_route(
                            links@,
                            nodes,
                            tags,
                            start as int,
                            goal as int,
                        )) by {
                            if is_route(links@, nodes, tags, start as int, goal as int) {
                                lemma_route_known(links@, s@, nodes, tags, nodes.len() - 1);
                            }
                        }
                    }
                    assert(is_run(links@, price, reopens, start as int, goal as int, run));
                }
                return None;
            },
            SearchStep::Expand { node, tag } => (node, tag),
        };
        let ghost mid = s@;
        proof {
            s.lemma_shape();
            assert forall|x: int| #[trigger] s@.known(x) implies (x == s@.start || linked(
                links@,
                s@.came_from[x] as int,
                x,
                s@.link[x],
            )) by {
                assert(before.known(x));
            }
        }
        let base: u64 = s.cost_of(node);
        let list = &links[node];
        let ghost mut prices: Seq<(u64, u64)> = Seq::empty();
        let mut j: usize = 0;
        proof {
            if affordable(price) {
                assert forall|a: int, k: int|
                    0 <= a < links@.len() && a != node && s@.done[a] && 0 <= k
                        < links@[a]@.len() implies s@.known(
                    (#[trigger] links@[a]@[k]).to as int,
                ) by {
                    assert(before.known(links@[a]@[k].to as int));
                }
            }
        }
        while j < list.len()
            invariant
                s.wf(),
                n == links@.len(),
                links_fit(links@),
                s@.start == start && s@.goal == goal && s@.reopens == reopens,
                start < n && goal < n,
                node < n,
                *list == links@[node as int],
                forall|g: u64, a: usize, t: u32, b: usize, u: u32| #[trigger]
                    price.requires((g, a, t, b, u)),
                followed(links@, s@),
                affordable(price) ==> offered(links@, s@, node as int),
                s@.known(node as int),
                s@.cost[node as int] <= base,
                base < UNKNOWN,
                j <= list@.len(),
                affordable(price) ==> forall|k: int|
                    0 <= k < j ==> s@.known((#[trigger] list@[k]).to as int),
                prices.len() == j,
                forall|k: int|
                    0 <= k < j ==> price.ensures(
                        (base, node, from_tag, list@[k].to, list@[k].tag),
                        #[trigger] prices[k],
                    ),
                s@ == offered_all(mid, node, base, list@, prices, j as nat),
                cost_sum(s@.cost, n as nat) < cost_sum(mid.cost, n as nat) || (cost_sum(
                    s@.cost,
                    n as nat,
                ) == cost_sum(mid.cost, n as nat) && s@.open.len() == mid.open.len()),
            decreases list.len() - j,
        {
            let way = list[j];
            assert(links@[node as int]@[j as int].to < n);
            let (asked, key) = price(base, node, from_tag, way.to, way.tag);
            let total: u64 = if asked < base {
                base
            } else {
                asked
            };
            let ghost prior = s@;
            let ghost asked_before = prices;
            let taken = s.relax(node, way.to, total, key, way.tag);
            proof {
                prices = prices.push((asked, key));
                lemma_offers_kept(mid, node, base, list@, asked_before, prices, j as nat);
                lemma_cost_sum(prior.cost, way.to as int, total, n as nat);
                s.lemma_shape();
                assert(linked(links@, node as int, way.to as int, way.tag)) by {
                    assert(links@[node as int]@[j as int] == way);
                }
                assert forall|x: int| #[trigger] s@.known(x) implies (x == s@.start || linked(
                    links@,
                    s@.came_from[x] as int,
                    x,
                    s@.link[x],
                )) by {
                    if x != way.to || !taken {
                        assert(prior.known(x));
                    }
                }
                assert forall|x: int| #[trigger] prior.known(x) implies s@.known(x) by {}
                if affordable(price) {
                    assert(total < UNKNOWN);
                    assert forall|a: int, k: int|
                        0 <= a < links@.len() && a != node && s@.done[a] && 0 <= k
                            < links@[a]@.len() implies s@.known(
                        (#[trigger] links@[a]@[k]).to as int,
                    ) by {
                        assert(prior.known(links@[a]@[k].to as int));
                    }
                    assert forall|k: int| 0 <= k < j + 1 implies s@.known(
                        (#[trigger] list@[k]).to as int,
                    ) by {
                        if k < j {
                            assert(prior.known(list@[k].to as int));
                        }
                    }
                }
            }
            j += 1;
        }
        proof {
            assert(expands_by(links@, price, before, s@, node, from_tag, mid.open, prices));
            let longer = run.push(s@);
            assert forall|k: int| 0 <= k < longer.len() - 1 implies expands(
                links@,
                price,
                #[trigger] longer[k],
                longer[k + 1],
            ) by {
                if k < run.len() - 1 {
                    assert(longer[k] == run[k]);
                    assert(longer[k + 1] == run[k + 1]);
                } else {
                    assert(longer[k] == before);
                    assert(longer[k + 1] == s@);
                }
            }
            run = longer;
        }
    }
}

proof fn lemma_offers_kept(
    s: SearchView,
    from: usize,
    base: u64,
    list: Seq<Link>,
    a: Seq<(u64, u64)>,
    b: Seq<(u64, u64)>,
    n: nat,
)
    requires
        n <= a.len() && n <= b.len(),
        forall|k: int| 0 <= k < n ==> a[k] == b[k],
    ensures
        offered_all(s, from, base, list, a, n) == offered_all(s, from, base, list, b, n),
    decreases n,
{
    if n > 0 {
        lemma_offers_kept(s, from, base, list, a, b, (n - 1) as nat);
    }
}

proof fn lemma_still_followed(links: Seq<Vec<Link>>, a: SearchView, b: SearchView, all: bool)
    requires
        followed(links, a),
        all ==> offered(links, a, -1),
        b.start == a.start && b.goal == a.goal && b.reopens == a.reopens,
        b.cost == a.cost && b.came_from == a.came_from && b.link == a.link && b.done == a.done,
    ensures
        followed(links, b),
        all ==> offered(links, b, -1),
{
    assert forall|x: int| #[trigger] b.known(x) implies a.known(x) by {}
    if all {
        assert forall|x: int, j: int|
            0 <= x < links.len() && b.done[x] && 0 <= j < links[x]@.len() implies b.known(
            (#[trigger] links[x]@[j]).to as int,
        ) by {
            assert(a.known(links[x]@[j].to as int));
        }
    }
}

proof fn lemma_route_known(
    links: Seq<Vec<Link>>,
    s: SearchView,
    nodes: Seq<usize>,
    tags: Seq<u32>,
    i: int,
)
    requires
        followed(links, s),
        offered(links, s, -1),
        forall|x: int| #[trigger] s.known(x) ==> s.done[x],
        nodes.len() > 0,
        tags.len() == nodes.len() - 1,
        nodes[0] == s.start,
        forall|k: int|
            0 <= k < tags.len() ==> linked(
                links,
                nodes[k] as int,
                nodes[k + 1] as int,
                #[trigger] tags[k],
            ),
        0 <= i < nodes.len(),
    ensures
        s.known(nodes[i] as int),
    decreases i,
{
    if i > 0 {
        lemma_route_known(links, s, nodes, tags, i - 1);
        assert(linked(links, nodes[i - 1] as int, nodes[i] as int, tags[i - 1]));
    }
}

impl Search {
    proof fn lemma_shape(&self)
        requires
            self.wf(),
        ensures
            self@.done.len() == self@.nodes(),
            self@.came_from.len() == self@.nodes(),
            self@.link.len() == self@.nodes(),
            self@.known(self@.start),
            0 <= self@.goal < self@.nodes(),
    {
    }

    /// The nodes on a way to a known node are nodes.
    pub proof fn lemma_path_in_range(&self, path: Seq<usize>, x: int)
        requires
            self.wf(),
            self@.leads_to(path, x),
        ensures
            forall|i: int| 0 <= i < path.len() ==> #[trigger] path[i] < self@.nodes(),
    {
        assert forall|i: int| 0 <= i < path.len() implies #[trigger] path[i] < self@.nodes() by {
            if i > 0 {
                assert(self@.known(path[i - 1 + 1] as int));
            } else {
                self.lemma_shape();
            }
        }
    }

    /// The key of the best known cost of a node.
    pub fn cost_of(&self, x: usize) -> (c: u64)
        requires
            x < self@.nodes(),
        ensures
            c == self@.cost[x as int],
    {
        self.cost[x]
    }
}

} // verus!
