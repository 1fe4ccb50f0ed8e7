//! What a search finds costs least.
//!
//! Where costs grow along a way, a way that begins cheaper stays cheaper, and
//! the estimate of a total never falls along a way, no route to the goal costs
//! less than the one that a search finds.

use crate::search::{
    at_goal, at_least, ends_with, expands, expands_by, is_fresh, is_found, is_least, is_route,
    is_run, linked, links_fit, live, offered_all, picks, taken_out, with_offer, Frontier, Link,
    SearchView, UNKNOWN,
};
use vstd::prelude::*;

verus! {

/// Whether prices are of costs by `step` and estimates by `key`, as a search
/// that finds the cheapest route asks for. `step` is the cost up to a node,
/// from the cost up to the one before, the two nodes and the tag; it grows, and
/// grows with the cost before. `key` is the estimated total of a way that costs
/// so much up to a node; it grows with the cost and never falls along a way.
pub open spec fn is_orderly<F: Fn(u64, usize, u32, usize, u32) -> (u64, u64)>(
    price: F,
    step: spec_fn(u64, usize, usize, u32) -> u64,
    key: spec_fn(usize, u64) -> u64,
) -> bool {
    &&& forall|g: u64, a: usize, t: u32, b: usize, u: u32, out: (u64, u64)| #[trigger]
        price.ensures((g, a, t, b, u), out) ==> out.0 == step(g, a, b, u) && out.1 == key(
            b,
            out.0,
        )
    &&& grows(step)
    &&& foresees(step, key)
}

/// Whether costs grow along a way, and with the cost of where it begins.
pub open spec fn grows(step: spec_fn(u64, usize, usize, u32) -> u64) -> bool {
    &&& forall|g: u64, a: usize, b: usize, u: u32| #[trigger]
        step(g, a, b, u) >= g && (g < UNKNOWN ==> step(g, a, b, u) < UNKNOWN)
    &&& forall|g: u64, h: u64, a: usize, b: usize, u: u32|
        g <= h ==> #[trigger] step(g, a, b, u) <= #[trigger] step(h, a, b, u)
}

/// Whether estimates grow with the cost, and never fall along a way.
pub open spec fn foresees(
    step: spec_fn(u64, usize, usize, u32) -> u64,
    key: spec_fn(usize, u64) -> u64,
) -> bool {
    &&& forall|a: usize, g: u64, h: u64| g < h ==> #[trigger] key(a, g) < #[trigger] key(a, h)
    &&& forall|g: u64, a: usize, b: usize, u: u32|
        key(a, g) <= key(b, #[trigger] step(g, a, b, u))
}

/// What the first `n` steps of a route cost.
pub open spec fn cost_along(
    step: spec_fn(u64, usize, usize, u32) -> u64,
    nodes: Seq<usize>,
    tags: Seq<u32>,
    n: int,
) -> u64
    decreases n,
{
    if n <= 0 {
        0
    } else {
        step(cost_along(step, nodes, tags, n - 1), nodes[n - 1], nodes[n], tags[n - 1])
    }
}

/// Whether a node waits with its best cost.
spec fn wants(s: SearchView, key: spec_fn(usize, u64) -> u64, x: int) -> bool {
    exists|i: int|
        0 <= i < s.open.len() && (#[trigger] s.open[i]).node == x && s.open[i].key <= key(
            x as usize,
            s.cost[x],
        )
}

/// Whether the first `n` links of a node lead to nodes with no more cost than
/// by way of it.
spec fn is_closed(
    links: Seq<Vec<Link>>,
    s: SearchView,
    step: spec_fn(u64, usize, usize, u32) -> u64,
    a: int,
    n: int,
) -> bool {
    forall|j: int|
        0 <= j < n ==> s.cost[(#[trigger] links[a]@[j]).to as int] <= step(
            s.cost[a],
            a as usize,
            links[a]@[j].to,
            links[a]@[j].tag,
        )
}

/// Whether the way to a node costs no more than the node is known for.
spec fn arrives(s: SearchView, step: spec_fn(u64, usize, usize, u32) -> u64, x: int) -> bool {
    let p = s.came_from[x];
    &&& s.known(p as int)
    &&& step(s.cost[p as int], p, x as usize, s.link[x]) <= s.cost[x]
}

/// What the waiting entries keep.
spec fn entries_keep(s: SearchView, key: spec_fn(usize, u64) -> u64, low: u64) -> bool {
    &&& forall|i: int| 0 <= i < s.open.len() ==> s.known((#[trigger] s.open[i]).node as int)
    &&& forall|i: int|
        0 <= i < s.open.len() && (#[trigger] s.open[i]).node != s.start ==> key(
            s.open[i].node,
            s.cost[s.open[i].node as int],
        ) <= s.open[i].key
    &&& !s.reopens ==> forall|i: int| #[trigger]
        live(s, i) && s.open[i].node != s.start ==> low <= s.open[i].key
}

/// What the nodes keep.
spec fn nodes_keep(
    links: Seq<Vec<Link>>,
    s: SearchView,
    step: spec_fn(u64, usize, usize, u32) -> u64,
    key: spec_fn(usize, u64) -> u64,
    low: u64,
    busy: int,
) -> bool {
    &&& !s.reopens ==> forall|x: int|
        0 <= x < s.nodes() && #[trigger] s.done[x] ==> key(x as usize, s.cost[x]) <= low
    &&& forall|x: int| #[trigger] s.known(x) && x != s.start ==> arrives(s, step, x)
    &&& forall|x: int| #[trigger] s.known(x) && x != s.start && !s.done[x] ==> wants(s, key, x)
    &&& forall|x: int|
        0 <= x < s.nodes() && #[trigger] s.done[x] ==> s.known(x) && (x == busy || is_closed(
            links,
            s,
            step,
            x,
            links[x]@.len() as int,
        ) || (s.reopens && x != s.start && wants(s, key, x)))
    &&& !s.done[s.start] ==> forall|x: int|
        0 <= x < s.nodes() ==> !(#[trigger] s.done[x]) && (s.known(x) ==> x == s.start)
}

/// What a search keeps while `busy` offers its links.
spec fn keeps(
    links: Seq<Vec<Link>>,
    s: SearchView,
    step: spec_fn(u64, usize, usize, u32) -> u64,
    key: spec_fn(usize, u64) -> u64,
    low: u64,
    busy: int,
) -> bool {
    &&& s.nodes() == links.len() && s.done.len() == links.len() && s.came_from.len() == links.len()
        && s.link.len() == links.len()
    &&& links.len() <= usize::MAX
    &&& 0 <= s.start < links.len() && 0 <= s.goal < links.len()
    &&& s.cost[s.start] == 0 && !s.done[s.goal]
    &&& entries_keep(s, key, low)
    &&& nodes_keep(links, s, step, key, low, busy)
}

proof fn lemma_fresh(
    links: Seq<Vec<Link>>,
    s: SearchView,
    step: spec_fn(u64, usize, usize, u32) -> u64,
    key: spec_fn(usize, u64) -> u64,
    start: int,
    goal: int,
    reopens: bool,
)
    requires
        is_fresh(s, links.len(), start, goal, reopens),
        links.len() <= usize::MAX,
        0 <= start < links.len(),
        0 <= goal < links.len(),
    ensures
        keeps(links, s, step, key, 0, -1),
{
    assert(s.known(start));
    assert forall|x: int| #[trigger] s.known(x) implies x == start by {
        assert(s.cost[x] < UNKNOWN);
    }
    assert forall|i: int| 0 <= i < s.open.len() implies (#[trigger] s.open[i]).node == start by {}
}

/// Taking an entry keeps what is kept.
proof fn lemma_picked(
    links: Seq<Vec<Link>>,
    s: SearchView,
    step: spec_fn(u64, usize, usize, u32) -> u64,
    key: spec_fn(usize, u64) -> u64,
    low: u64,
    node: usize,
    tag: u32,
    open: Seq<Frontier>,
)
    requires
        keeps(links, s, step, key, low, -1),
        foresees(step, key),
        picks(s, node, tag, open),
        node != s.goal,
    ensures
        s.known(node as int),
        keeps(
            links,
            SearchView { done: s.done.update(node as int, true), open, ..s },
            step,
            key,
            key(node, s.cost[node as int]),
            node as int,
        ),
{
    let t = SearchView { done: s.done.update(node as int, true), open, ..s };
    let now = key(node, s.cost[node as int]);
    let i = choose|i: int| #[trigger]
        is_least(s, i) && s.open[i].node == node && s.open[i].tag == tag && taken_out(s, i, open);
    assert(s.known(s.open[i].node as int));
    assert forall|k: int| 0 <= k < t.open.len() implies s.open.contains(#[trigger] t.open[k]) by {}
    assert forall|k: int| 0 <= k < t.open.len() implies t.known((#[trigger] t.open[k]).node as int)
        && (t.open[k].node != t.start ==> key(t.open[k].node, t.cost[t.open[k].node as int])
        <= t.open[k].key) by {
        let m = s.open.index_of(t.open[k]);
        assert(s.known(s.open[m].node as int));
    }
    assert forall|x: int|
        x != node && #[trigger] wants(s, key, x) && 0 <= x < s.nodes() && (s.reopens
            || !s.done[x]) implies wants(t, key, x) by {
        let m = choose|m: int|
            0 <= m < s.open.len() && (#[trigger] s.open[m]).node == x && s.open[m].key <= key(
                x as usize,
                s.cost[x],
            );
        assert(live(s, m));
        assert(t.open.contains(s.open[m]));
        let k = t.open.index_of(s.open[m]);
        assert(t.open[k].node == x);
    }
    if !s.reopens && node != s.start {
        assert(!s.done[node as int]);
        assert(wants(s, key, node as int));
        let m = choose|m: int|
            0 <= m < s.open.len() && (#[trigger] s.open[m]).node == node && s.open[m].key <= key(
                node,
                s.cost[node as int],
            );
        assert(live(s, m));
        assert(low <= now);
        assert(now <= s.open[i].key);
        assert forall|k: int| #[trigger] live(t, k) && t.open[k].node != t.start implies now
            <= t.open[k].key by {
            assert(s.open.contains(t.open[k]));
            let q = s.open.index_of(t.open[k]);
            assert(s.open[q] == t.open[k]);
            assert(live(s, q));
        }
    }
    if !s.reopens && node == s.start {
        assert(!s.done[node as int]);
        assert forall|k: int| 0 <= k < t.open.len() implies (#[trigger] t.open[k]).node == t.start by {
            assert(t.known(t.open[k].node as int));
            assert(s.known(t.open[k].node as int));
            assert(!s.done[t.open[k].node as int]);
        }
    }
    if node != s.start && !s.done[s.start] {
        assert(s.known(node as int));
        assert(!s.done[node as int]);
        assert(false);
    }
    assert forall|x: int| 0 <= x < t.nodes() && #[trigger] t.done[x] implies t.known(x) && (x
        == node || is_closed(links, t, step, x, links[x]@.len() as int) || (t.reopens && x
        != t.start && wants(t, key, x))) by {
        if x != node {
            assert(s.done[x]);
            if is_closed(links, s, step, x, links[x]@.len() as int) {
                assert(is_closed(links, t, step, x, links[x]@.len() as int));
            }
        }
    }
    assert forall|x: int| #[trigger] t.known(x) && x != t.start implies arrives(t, step, x) by {
        assert(s.known(x));
        assert(arrives(s, step, x));
    }
    assert forall|x: int| #[trigger] t.known(x) && x != t.start && !t.done[x] implies wants(
        t,
        key,
        x,
    ) by {
        assert(s.known(x));
        assert(!s.done[x]);
        assert(wants(s, key, x));
    }
    if !s.reopens {
        assert forall|x: int| 0 <= x < t.nodes() && #[trigger] t.done[x] implies key(
            x as usize,
            t.cost[x],
        ) <= now by {
            if x != node {
                assert(s.done[x]);
            }
        }
    }
}

/// Offering a link keeps what is kept.
proof fn lemma_offered(
    links: Seq<Vec<Link>>,
    s: SearchView,
    step: spec_fn(u64, usize, usize, u32) -> u64,
    key: spec_fn(usize, u64) -> u64,
    low: u64,
    a: usize,
    n: int,
)
    requires
        keeps(links, s, step, key, low, a as int),
        links_fit(links),
        grows(step),
        foresees(step, key),
        a < links.len(),
        s.done[a as int],
        s.known(a as int),
        low == key(a, s.cost[a as int]),
        0 <= n < links[a as int]@.len(),
        is_closed(links, s, step, a as int, n),
    ensures
        ({
            let l = links[a as int]@[n];
            let c = step(s.cost[a as int], a, l.to, l.tag);
            let t = with_offer(s, a, l.to, c, key(l.to, c), l.tag);
            &&& keeps(links, t, step, key, low, a as int)
            &&& t.cost[a as int] == s.cost[a as int]
            &&& t.done == s.done
            &&& t.start == s.start && t.goal == s.goal && t.reopens == s.reopens
            &&& is_closed(links, t, step, a as int, n + 1)
        }),
{
    let l = links[a as int]@[n];
    let b = l.to as int;
    let base = s.cost[a as int];
    let c = step(base, a, l.to, l.tag);
    let t = with_offer(s, a, l.to, c, key(l.to, c), l.tag);
    assert(l.to < links.len());
    assert(base <= c < UNKNOWN);
    assert(key(a, base) <= key(l.to, c));
    if c < s.cost[b] && (s.reopens || !s.done[b]) {
        assert(b != s.start && b != a);
        assert(forall|x: int| 0 <= x < s.nodes() ==> t.cost[x] <= #[trigger] s.cost[x]);
        assert(forall|x: int| #[trigger] s.known(x) ==> t.known(x));
        let last = s.open.len() as int;
        assert(t.open[last] == (Frontier { node: l.to, key: key(l.to, c), tag: l.tag }));
        assert(wants(t, key, b));
        assert forall|x: int| x != b && #[trigger] wants(s, key, x) implies wants(t, key, x) by {
            let m = choose|m: int|
                0 <= m < s.open.len() && (#[trigger] s.open[m]).node == x && s.open[m].key <= key(
                    x as usize,
                    s.cost[x],
                );
            assert(t.open[m] == s.open[m]);
        }
        assert forall|k: int| 0 <= k < t.open.len() implies t.known((#[trigger] t.open[k]).node as int)
            && (t.open[k].node != t.start ==> key(t.open[k].node, t.cost[t.open[k].node as int])
            <= t.open[k].key) by {
            if k < last {
                assert(t.open[k] == s.open[k]);
                assert(s.known(s.open[k].node as int));
                if s.open[k].node == b {
                    assert(key(l.to, c) < key(l.to, s.cost[b]));
                }
            }
        }
        if !s.reopens {
            assert forall|k: int| #[trigger] live(t, k) && t.open[k].node != t.start implies low
                <= t.open[k].key by {
                if k < last {
                    assert(t.open[k] == s.open[k]);
                    assert(live(s, k));
                }
            }
            assert forall|x: int| 0 <= x < t.nodes() && #[trigger] t.done[x] implies key(
                x as usize,
                t.cost[x],
            ) <= low by {
                assert(s.done[x]);
            }
        }
        assert forall|x: int| #[trigger] t.known(x) && x != t.start implies arrives(t, step, x) by {
            if x != b {
                assert(s.known(x));
                assert(arrives(s, step, x));
                let p = s.came_from[x];
                assert(t.cost[p as int] <= s.cost[p as int]);
                assert(step(t.cost[p as int], p, x as usize, s.link[x]) <= step(
                    s.cost[p as int],
                    p,
                    x as usize,
                    s.link[x],
                ));
            } else {
                assert(x as usize == l.to);
            }
        }
        assert forall|x: int| #[trigger] t.known(x) && x != t.start && !t.done[x] implies wants(
            t,
            key,
            x,
        ) by {
            if x != b {
                assert(s.known(x));
                assert(wants(s, key, x));
            }
        }
        assert forall|x: int| 0 <= x < t.nodes() && #[trigger] t.done[x] implies t.known(x) && (x
            == a || is_closed(links, t, step, x, links[x]@.len() as int) || (t.reopens && x
            != t.start && wants(t, key, x))) by {
            assert(s.done[x]);
            assert(s.known(x));
            if x != a && x != b && is_closed(links, s, step, x, links[x]@.len() as int) {
                lemma_still_closed(links, s, t, step, x, links[x]@.len() as int);
            }
        }
        lemma_still_closed(links, s, t, step, a as int, n);
    } else {
        if s.cost[b] > c {
            assert(!s.reopens && s.done[b]);
            assert(key(b as usize, s.cost[b]) <= low);
            assert(key(l.to, c) < key(l.to, s.cost[b]));
            assert(false);
        }
    }
    assert forall|j: int| 0 <= j < n + 1 implies t.cost[(#[trigger] links[a as int]@[j]).to as int]
        <= step(t.cost[a as int], a, links[a as int]@[j].to, links[a as int]@[j].tag) by {}
}

proof fn lemma_still_closed(
    links: Seq<Vec<Link>>,
    s: SearchView,
    t: SearchView,
    step: spec_fn(u64, usize, usize, u32) -> u64,
    a: int,
    n: int,
)
    requires
        links_fit(links),
        0 <= a < links.len() == s.cost.len(),
        n <= links[a]@.len(),
        is_closed(links, s, step, a, n),
        forall|x: int| 0 <= x < s.cost.len() ==> t.cost[x] <= #[trigger] s.cost[x],
        t.cost[a] == s.cost[a],
    ensures
        is_closed(links, t, step, a, n),
{
    assert forall|j: int| 0 <= j < n implies t.cost[(#[trigger] links[a]@[j]).to as int] <= step(
        t.cost[a],
        a as usize,
        links[a]@[j].to,
        links[a]@[j].tag,
    ) by {
        assert(links[a]@[j].to < links.len());
        assert(t.cost[links[a]@[j].to as int] <= s.cost[links[a]@[j].to as int]);
    }
}

proof fn lemma_all_offered<F: Fn(u64, usize, u32, usize, u32) -> (u64, u64)>(
    links: Seq<Vec<Link>>,
    price: F,
    s: SearchView,
    step: spec_fn(u64, usize, usize, u32) -> u64,
    key: spec_fn(usize, u64) -> u64,
    a: usize,
    tag: u32,
    prices: Seq<(u64, u64)>,
    n: nat,
)
    requires
        is_orderly(price, step, key),
        links_fit(links),
        a < links.len(),
        keeps(links, s, step, key, key(a, s.cost[a as int]), a as int),
        s.done[a as int],
        s.known(a as int),
        prices.len() == links[a as int]@.len(),
        forall|j: int|
            0 <= j < prices.len() ==> price.ensures(
                (s.cost[a as int], a, tag, links[a as int]@[j].to, links[a as int]@[j].tag),
                #[trigger] prices[j],
            ),
        n <= prices.len(),
    ensures
        ({
            let t = offered_all(s, a, s.cost[a as int], links[a as int]@, prices, n);
            &&& keeps(links, t, step, key, key(a, s.cost[a as int]), a as int)
            &&& t.cost[a as int] == s.cost[a as int]
            &&& t.done == s.done
            &&& t.start == s.start && t.goal == s.goal && t.reopens == s.reopens
            &&& is_closed(links, t, step, a as int, n as int)
        }),
    decreases n,
{
    if n > 0 {
        let base = s.cost[a as int];
        let list = links[a as int]@;
        lemma_all_offered(links, price, s, step, key, a, tag, prices, (n - 1) as nat);
        let m = offered_all(s, a, base, list, prices, (n - 1) as nat);
        let l = list[n - 1];
        let asked = prices[n - 1];
        assert(price.ensures((base, a, tag, l.to, l.tag), asked));
        assert(asked.0 == step(base, a, l.to, l.tag) && asked.1 == key(l.to, asked.0));
        assert(at_least(base, asked.0) == asked.0);
        lemma_offered(links, m, step, key, key(a, base), a, n - 1);
    }
}

proof fn lemma_expanded<F: Fn(u64, usize, u32, usize, u32) -> (u64, u64)>(
    links: Seq<Vec<Link>>,
    price: F,
    s: SearchView,
    t: SearchView,
    step: spec_fn(u64, usize, usize, u32) -> u64,
    key: spec_fn(usize, u64) -> u64,
    low: u64,
) -> (now: u64)
    requires
        is_orderly(price, step, key),
        links_fit(links),
        keeps(links, s, step, key, low, -1),
        expands(links, price, s, t),
    ensures
        keeps(links, t, step, key, now, -1),
        t.start == s.start && t.goal == s.goal && t.reopens == s.reopens,
{
    let (node, tag, open, prices) = choose|
        node: usize,
        tag: u32,
        open: Seq<Frontier>,
        prices: Seq<(u64, u64)>,
    | #[trigger] expands_by(links, price, s, t, node, tag, open, prices);
    lemma_picked(links, s, step, key, low, node, tag, open);
    let mid = SearchView { done: s.done.update(node as int, true), open, ..s };
    assert(s.known(node as int));
    assert(mid.known(node as int));
    assert(mid.done[node as int]);
    lemma_all_offered(links, price, mid, step, key, node, tag, prices, prices.len());
    let now = key(node, s.cost[node as int]);
    assert(keeps(links, t, step, key, now, node as int));
    now
}

proof fn lemma_run_keeps<F: Fn(u64, usize, u32, usize, u32) -> (u64, u64)>(
    links: Seq<Vec<Link>>,
    price: F,
    reopens: bool,
    start: int,
    goal: int,
    run: Seq<SearchView>,
    step: spec_fn(u64, usize, usize, u32) -> u64,
    key: spec_fn(usize, u64) -> u64,
    k: int,
) -> (low: u64)
    requires
        is_orderly(price, step, key),
        links_fit(links),
        links.len() <= usize::MAX,
        0 <= start < links.len(),
        0 <= goal < links.len(),
        is_run(links, price, reopens, start, goal, run),
        0 <= k < run.len(),
    ensures
        keeps(links, run[k], step, key, low, -1),
        run[k].start == start && run[k].goal == goal && run[k].reopens == reopens,
    decreases k,
{
    if k == 0 {
        lemma_fresh(links, run[0], step, key, start, goal, reopens);
        0
    } else {
        let before = lemma_run_keeps(links, price, reopens, start, goal, run, step, key, k - 1);
        assert(expands(links, price, run[k - 1], run[k - 1 + 1]));
        lemma_expanded(links, price, run[k - 1], run[k], step, key, before)
    }
}

/// The way that leads to a node costs no more than the node is known for.
proof fn lemma_way_cost(
    links: Seq<Vec<Link>>,
    s: SearchView,
    step: spec_fn(u64, usize, usize, u32) -> u64,
    key: spec_fn(usize, u64) -> u64,
    low: u64,
    nodes: Seq<usize>,
    tags: Seq<u32>,
    n: int,
)
    requires
        keeps(links, s, step, key, low, -1),
        grows(step),
        ends_with(s, nodes, tags),
        0 <= n < nodes.len(),
    ensures
        cost_along(step, nodes, tags, n) <= s.cost[nodes[n] as int],
    decreases n,
{
    if n > 0 {
        lemma_way_cost(links, s, step, key, low, nodes, tags, n - 1);
        let x = nodes[n - 1 + 1] as int;
        assert(s.known(x) && x != s.start && s.came_from[x] == nodes[n - 1]);
        assert(arrives(s, step, x));
        assert(tags[n - 1] == s.link[nodes[n - 1 + 1] as int]);
        let (g, h) = (cost_along(step, nodes, tags, n - 1), s.cost[nodes[n - 1] as int]);
        assert(step(g, nodes[n - 1], nodes[n], tags[n - 1]) <= step(
            h,
            nodes[n - 1],
            nodes[n],
            tags[n - 1],
        ));
    }
}

/// Along a route, estimates never fall.
proof fn lemma_foreseen(
    step: spec_fn(u64, usize, usize, u32) -> u64,
    key: spec_fn(usize, u64) -> u64,
    nodes: Seq<usize>,
    tags: Seq<u32>,
    i: int,
    n: int,
)
    requires
        foresees(step, key),
        0 <= i <= n < nodes.len(),
    ensures
        key(nodes[i], cost_along(step, nodes, tags, i)) <= key(
            nodes[n],
            cost_along(step, nodes, tags, n),
        ),
    decreases n - i,
{
    if i < n {
        lemma_foreseen(step, key, nodes, tags, i, n - 1);
        let g = cost_along(step, nodes, tags, n - 1);
        assert(key(nodes[n - 1], g) <= key(nodes[n], step(g, nodes[n - 1], nodes[n], tags[n - 1])));
    }
}

/// A route is known up to a node that waits, at no more than it costs.
proof fn lemma_known_up_to(
    links: Seq<Vec<Link>>,
    s: SearchView,
    step: spec_fn(u64, usize, usize, u32) -> u64,
    key: spec_fn(usize, u64) -> u64,
    low: u64,
    nodes: Seq<usize>,
    tags: Seq<u32>,
    n: int,
) -> (stop: Option<int>)
    requires
        keeps(links, s, step, key, low, -1),
        links_fit(links),
        grows(step),
        foresees(step, key),
        is_route(links, nodes, tags, s.start, s.goal),
        s.done[s.start],
        0 <= n < nodes.len(),
    ensures
        match stop {
            None => s.known(nodes[n] as int) && s.cost[nodes[n] as int] <= cost_along(
                step,
                nodes,
                tags,
                n,
            ),
            Some(i) => 0 <= i < n && s.known(nodes[i] as int) && s.cost[nodes[i] as int]
                <= cost_along(step, nodes, tags, i) && wants(s, key, nodes[i] as int) && (s.reopens
                || !s.done[nodes[i] as int]),
        },
    decreases n,
{
    if n == 0 {
        None
    } else {
        let before = lemma_known_up_to(links, s, step, key, low, nodes, tags, n - 1);
        match before {
            Some(i) => before,
            None => {
                let x = nodes[n - 1] as int;
                if s.done[x] && is_closed(links, s, step, x, links[x]@.len() as int) {
                    assert(linked(links, x, nodes[n - 1 + 1] as int, tags[n - 1]));
                    let j = choose|j: int|
                        0 <= j < links[x]@.len() && (#[trigger] links[x]@[j]).to == nodes[n]
                            && links[x]@[j].tag == tags[n - 1];
                    let (g, h) = (s.cost[x], cost_along(step, nodes, tags, n - 1));
                    assert(links[x]@[j].to < links.len());
                    assert(s.cost[links[x]@[j].to as int] <= step(g, nodes[n - 1], nodes[n], tags[n - 1]));
                    assert(step(g, nodes[n - 1], nodes[n], tags[n - 1]) <= step(
                        h,
                        nodes[n - 1],
                        nodes[n],
                        tags[n - 1],
                    ));
                    assert(step(g, nodes[n - 1], nodes[n], tags[n - 1]) < UNKNOWN);
                    None
                } else {
                    assert(s.known(x));
                    Some(n - 1)
                }
            },
        }
    }
}

/// No route to the goal costs less than the one that a search finds.
pub proof fn found_routes_cost_least<F: Fn(u64, usize, u32, usize, u32) -> (u64, u64)>(
    links: Seq<Vec<Link>>,
    price: F,
    reopens: bool,
    start: int,
    goal: int,
    nodes: Seq<usize>,
    tags: Seq<u32>,
    step: spec_fn(u64, usize, usize, u32) -> u64,
    key: spec_fn(usize, u64) -> u64,
    others: Seq<usize>,
    other_tags: Seq<u32>,
)
    requires
        links_fit(links),
        links.len() <= usize::MAX,
        0 <= start < links.len(),
        0 <= goal < links.len(),
        is_orderly(price, step, key),
        is_found(links, price, reopens, start, goal, nodes, tags),
        is_route(links, others, other_tags, start, goal),
    ensures
        cost_along(step, nodes, tags, tags.len() as int) <= cost_along(
            step,
            others,
            other_tags,
            other_tags.len() as int,
        ),
{
    let run = choose|run: Seq<SearchView>| #[trigger]
        is_run(links, price, reopens, start, goal, run) && ends_with(run.last(), nodes, tags);
    let s = run.last();
    let low = lemma_run_keeps(links, price, reopens, start, goal, run, step, key, run.len() - 1);
    lemma_way_cost(links, s, step, key, low, nodes, tags, tags.len() as int);
    let end = other_tags.len() as int;
    let whole = cost_along(step, others, other_tags, end);
    assert(at_goal(s));
    let g = choose|g: int| #[trigger] is_least(s, g) && s.open[g].node == s.goal;
    assert(s.known(s.open[g].node as int));
    if goal != start {
        assert(!s.done[goal]);
        assert(s.done[start]);
        let stop = lemma_known_up_to(links, s, step, key, low, others, other_tags, end);
        if stop is Some {
            let i = stop->0;
            let x = others[i] as int;
            let m = choose|m: int|
                0 <= m < s.open.len() && (#[trigger] s.open[m]).node == x && s.open[m].key <= key(
                    x as usize,
                    s.cost[x],
                );
            assert(live(s, m));
            let part = cost_along(step, others, other_tags, i);
            lemma_foreseen(step, key, others, other_tags, i, end);
            assert(s.cost[x] < part ==> key(others[i], s.cost[x]) < key(others[i], part));
            assert(key(goal as usize, s.cost[goal]) <= key(goal as usize, whole));
            if whole < s.cost[goal] {
                assert(key(goal as usize, whole) < key(goal as usize, s.cost[goal]));
            }
        }
    }
}

} // verus!
