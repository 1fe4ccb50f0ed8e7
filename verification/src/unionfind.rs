//! Disjoint sets of numbers, merged two at a time.

use vstd::prelude::*;

verus! {

/// Disjoint sets of the numbers below a bound. Every number points to one of
/// its set that is no larger; the least points to itself.
#[derive(Clone, Debug)]
pub struct UnionFind {
    parent: Vec<usize>,
}

/// Whether every number points to one that is no larger.
pub open spec fn descending(parent: Seq<usize>) -> bool {
    forall|x: int| 0 <= x < parent.len() ==> #[trigger] parent[x] <= x
}

/// The number that a chain of pointers from `x` ends at.
pub open spec fn root(parent: Seq<usize>, x: int) -> int
    decreases x,
{
    if 0 <= x < parent.len() && 0 <= parent[x] < x {
        root(parent, parent[x] as int)
    } else {
        x
    }
}

proof fn lemma_root(parent: Seq<usize>, x: int)
    requires
        descending(parent),
        0 <= x < parent.len(),
    ensures
        0 <= root(parent, x) <= x,
        parent[root(parent, x)] == root(parent, x),
        root(parent, root(parent, x)) == root(parent, x),
        root(parent, parent[x] as int) == root(parent, x),
    decreases x,
{
    if parent[x] < x {
        lemma_root(parent, parent[x] as int);
    }
}

/// Pointing a number past its parent leaves every root.
proof fn lemma_halved(parent: Seq<usize>, x: int, y: int)
    requires
        descending(parent),
        0 <= x < parent.len(),
        0 <= y < parent.len(),
    ensures
        ({
            let halved = parent.update(x, parent[parent[x] as int]);
            descending(halved) && root(halved, y) == root(parent, y)
        }),
    decreases y,
{
    let p = parent[x] as int;
    let halved = parent.update(x, parent[p]);
    assert(parent[p] <= p <= x);
    assert(descending(halved));
    if y == x {
        if p < x {
            if parent[p] < p {
                lemma_halved(parent, x, parent[p] as int);
                assert(halved[x] == parent[p]);
                assert(root(parent, x) == root(parent, p));
                assert(root(parent, p) == root(parent, parent[p] as int));
                assert(root(halved, x) == root(halved, parent[p] as int));
            } else {
                assert(root(parent, p) == p);
                assert(root(parent, x) == p);
                assert(halved[x] == p);
                lemma_halved(parent, x, p);
            }
        }
    } else if parent[y] < y {
        lemma_halved(parent, x, parent[y] as int);
    }
}

/// Pointing one root to a smaller one joins their sets.
proof fn lemma_merged(parent: Seq<usize>, hi: int, lo: int, y: int)
    requires
        descending(parent),
        0 <= lo < hi < parent.len(),
        parent[hi] == hi,
        parent[lo] == lo,
        0 <= y < parent.len(),
    ensures
        ({
            let joined = parent.update(hi, lo as usize);
            &&& descending(joined)
            &&& root(joined, y) == if root(parent, y) == hi {
                lo
            } else {
                root(parent, y)
            }
        }),
    decreases y,
{
    let joined = parent.update(hi, lo as usize);
    if y == hi {
        assert(root(joined, lo) == lo);
    } else if parent[y] < y {
        lemma_merged(parent, hi, lo, parent[y] as int);
    }
}

impl View for UnionFind {
    type V = Seq<usize>;

    closed spec fn view(&self) -> Seq<usize> {
        self.parent@
    }
}

impl UnionFind {
    pub open spec fn wf(&self) -> bool {
        descending(self@)
    }

    /// The least number of the set of `x`.
    pub open spec fn class(&self, x: int) -> int {
        root(self@, x)
    }

    /// The numbers below `n`, each in a set of its own.
    pub fn new(n: usize) -> (u: UnionFind)
        ensures
            u.wf(),
            u@.len() == n,
            forall|x: int| 0 <= x < n ==> #[trigger] root(u@, x) == x,
    {
        let mut parent: Vec<usize> = Vec::new();
        let mut i: usize = 0;
        while i < n
            invariant
                i <= n,
                parent@.len() == i,
                forall|x: int| 0 <= x < i ==> parent@[x] == x,
            decreases n - i,
        {
            parent.push(i);
            i += 1;
        }
        UnionFind { parent }
    }

    /// The least number of the set of `x`; pointers on the way are shortened.
    pub fn find(&mut self, x: usize) -> (r: usize)
        requires
            old(self).wf(),
            x < old(self)@.len(),
        ensures
            final(self).wf(),
            final(self)@.len() == old(self)@.len(),
            r == old(self).class(x as int),
            r < old(self)@.len(),
            forall|y: int|
                0 <= y < old(self)@.len() ==> #[trigger] root(final(self)@, y) == old(self).class(
                    y,
                ),
            final(self)@[r as int] == r,
    {
        let mut x: usize = x;
        let ghost start = x as int;
        let ghost first = self@;
        while self.parent[x] != x
            invariant
                self.wf(),
                x < self@.len(),
                self@.len() == first.len(),
                first == old(self)@,
                root(self@, x as int) == root(first, start),
                forall|y: int| 0 <= y < first.len() ==> #[trigger] root(self@, y) == root(first, y),
            decreases x,
        {
            let ghost before = self@;
            let p: usize = self.parent[x];
            assert(before[x as int] <= x && before[p as int] <= p);
            let pp: usize = self.parent[p];
            self.parent.set(x, pp);
            proof {
                assert forall|y: int| 0 <= y < first.len() implies #[trigger] root(self@, y) == root(
                    first,
                    y,
                ) by {
                    lemma_halved(before, x as int, y);
                    assert(root(before, y) == root(first, y));
                }
                lemma_halved(before, x as int, x as int);
                lemma_root(self@, x as int);
            }
            x = self.parent[x];
        }
        proof {
            assert(root(self@, x as int) == x);
        }
        x
    }

    /// Join the sets of `a` and `b`.
    pub fn union(&mut self, a: usize, b: usize)
        requires
            old(self).wf(),
            a < old(self)@.len(),
            b < old(self)@.len(),
        ensures
            final(self).wf(),
            final(self)@.len() == old(self)@.len(),
            forall|y: int|
                0 <= y < old(self)@.len() ==> #[trigger] root(final(self)@, y) == {
                    let (ca, cb) = (old(self).class(a as int), old(self).class(b as int));
                    let c = old(self).class(y);
                    if c == ca || c == cb {
                        if ca < cb {
                            ca
                        } else {
                            cb
                        }
                    } else {
                        c
                    }
                },
    {
        let ra: usize = self.find(a);
        let ghost mid = self@;
        let rb: usize = self.find(b);
        proof {
            lemma_root(self@, a as int);
            assert(root(self@, a as int) == ra);
        }
        if ra != rb {
            let ghost before = self@;
            let (lo, hi) = if ra < rb {
                (ra, rb)
            } else {
                (rb, ra)
            };
            self.parent.set(hi, lo);
            proof {
                assert forall|y: int| 0 <= y < before.len() implies #[trigger] root(self@, y)
                    == if root(before, y) == hi {
                    lo as int
                } else {
                    root(before, y)
                } by {
                    lemma_merged(before, hi as int, lo as int, y);
                }
                lemma_merged(before, hi as int, lo as int, 0);
                assert forall|y: int| 0 <= y < before.len() implies #[trigger] root(self@, y) == {
                    let (ca, cb) = (old(self).class(a as int), old(self).class(b as int));
                    let c = old(self).class(y);
                    if c == ca || c == cb {
                        if ca < cb {
                            ca
                        } else {
                            cb
                        }
                    } else {
                        c
                    }
                } by {
                    assert(root(mid, y) == root(old(self)@, y));
                    assert(root(before, y) == root(mid, y));
                    assert(root(self@, y) == if root(before, y) == hi {
                        lo as int
                    } else {
                        root(before, y)
                    });
                }
            }
        }
    }
}

// --- Sets joined by pairs ---------------------------------------------------

/// Whether a list of pairs has `a` and `b` together.
pub open spec fn paired(pairs: Seq<(usize, usize)>, a: int, b: int) -> bool {
    exists|i: int|
        #![trigger pairs[i]]
        0 <= i < pairs.len() && ((pairs[i].0 == a && pairs[i].1 == b) || (pairs[i].0 == b
            && pairs[i].1 == a))
}

/// Whether every number of a walk is paired with the next.
pub open spec fn is_walk(pairs: Seq<(usize, usize)>, walk: Seq<int>) -> bool {
    &&& walk.len() > 0
    &&& forall|i: int| 0 <= i < walk.len() - 1 ==> paired(pairs, #[trigger] walk[i], walk[i + 1])
}

/// Whether a walk leads from `a` to `b`.
pub open spec fn walks(pairs: Seq<(usize, usize)>, walk: Seq<int>, a: int, b: int) -> bool {
    is_walk(pairs, walk) && walk.first() == a && walk.last() == b
}

/// Whether some walk along pairs leads from `a` to `b`.
pub open spec fn joined(pairs: Seq<(usize, usize)>, a: int, b: int) -> bool {
    exists|walk: Seq<int>| #[trigger] walks(pairs, walk, a, b)
}

/// Whether the sets are those that the pairs join.
pub open spec fn partition_of(parent: Seq<usize>, pairs: Seq<(usize, usize)>) -> bool {
    &&& forall|i: int|
        0 <= i < pairs.len() ==> (#[trigger] pairs[i]).0 < parent.len() && pairs[i].1
            < parent.len()
    &&& forall|a: int, b: int|
        0 <= a < parent.len() && 0 <= b < parent.len() ==> (#[trigger] joined(pairs, a, b) <==> root(
            parent,
            a,
        ) == root(parent, b))
}

proof fn lemma_joined_self(pairs: Seq<(usize, usize)>, a: int)
    ensures
        joined(pairs, a, a),
{
    assert(walks(pairs, seq![a], a, a));
}

proof fn lemma_joined_pair(pairs: Seq<(usize, usize)>, a: int, b: int)
    requires
        paired(pairs, a, b),
    ensures
        joined(pairs, a, b),
{
    assert(walks(pairs, seq![a, b], a, b));
}

proof fn lemma_joined_back(pairs: Seq<(usize, usize)>, a: int, b: int)
    requires
        joined(pairs, a, b),
    ensures
        joined(pairs, b, a),
{
    let walk = choose|walk: Seq<int>| #[trigger] walks(pairs, walk, a, b);
    let back = walk.reverse();
    assert forall|i: int| 0 <= i < back.len() - 1 implies paired(
        pairs,
        #[trigger] back[i],
        back[i + 1],
    ) by {
        let j = walk.len() - 2 - i;
        assert(paired(pairs, walk[j], walk[j + 1]));
        assert(back[i] == walk[j + 1] && back[i + 1] == walk[j]);
    }
    assert(walks(pairs, back, b, a));
}

proof fn lemma_joined_on(pairs: Seq<(usize, usize)>, a: int, b: int, c: int)
    requires
        joined(pairs, a, b),
        joined(pairs, b, c),
    ensures
        joined(pairs, a, c),
{
    let p = choose|walk: Seq<int>| #[trigger] walks(pairs, walk, a, b);
    let q = choose|walk: Seq<int>| #[trigger] walks(pairs, walk, b, c);
    let walk = p + q.drop_first();
    assert forall|i: int| 0 <= i < walk.len() - 1 implies paired(
        pairs,
        #[trigger] walk[i],
        walk[i + 1],
    ) by {
        if i < p.len() - 1 {
            assert(paired(pairs, p[i], p[i + 1]));
        } else {
            let j = i - (p.len() - 1);
            assert(paired(pairs, q[j], q[j + 1]));
            assert(walk[i] == q[j] && walk[i + 1] == q[j + 1]);
        }
    }
    assert(walk.last() == c) by {
        if q.len() == 1 {
            assert(walk =~= p);
        }
    }
    assert(walks(pairs, walk, a, c));
}

proof fn lemma_joined_more(pairs: Seq<(usize, usize)>, one: (usize, usize), a: int, b: int)
    requires
        joined(pairs, a, b),
    ensures
        joined(pairs.push(one), a, b),
{
    let more = pairs.push(one);
    let walk = choose|walk: Seq<int>| #[trigger] walks(pairs, walk, a, b);
    assert forall|i: int| 0 <= i < walk.len() - 1 implies paired(
        more,
        #[trigger] walk[i],
        walk[i + 1],
    ) by {
        assert(paired(pairs, walk[i], walk[i + 1]));
        let j = choose|j: int|
            #![trigger pairs[j]]
            0 <= j < pairs.len() && ((pairs[j].0 == walk[i] && pairs[j].1 == walk[i + 1]) || (
            pairs[j].0 == walk[i + 1] && pairs[j].1 == walk[i]));
        assert(more[j] == pairs[j]);
    }
    assert(walks(more, walk, a, b));
}

/// Along a walk of paired numbers with equal roots, the root stays.
proof fn lemma_walk_one_root(parent: Seq<usize>, pairs: Seq<(usize, usize)>, walk: Seq<int>, i: int)
    requires
        is_walk(pairs, walk),
        forall|j: int|
            0 <= j < pairs.len() ==> root(parent, (#[trigger] pairs[j]).0 as int) == root(
                parent,
                pairs[j].1 as int,
            ),
        0 <= i < walk.len(),
    ensures
        root(parent, walk[i]) == root(parent, walk[0]),
    decreases i,
{
    if i > 0 {
        lemma_walk_one_root(parent, pairs, walk, i - 1);
        assert(paired(pairs, walk[i - 1], walk[i - 1 + 1]));
    }
}

/// Without pairs every number is alone.
pub proof fn fresh_sets_are_alone(parent: Seq<usize>)
    requires
        forall|x: int| 0 <= x < parent.len() ==> #[trigger] root(parent, x) == x,
    ensures
        partition_of(parent, Seq::empty()),
{
    let none = Seq::<(usize, usize)>::empty();
    assert forall|a: int, b: int|
        0 <= a < parent.len() && 0 <= b < parent.len() implies (#[trigger] joined(none, a, b)
        <==> root(parent, a) == root(parent, b)) by {
        if joined(none, a, b) {
            let walk = choose|walk: Seq<int>| #[trigger] walks(none, walk, a, b);
            lemma_walk_one_root(parent, none, walk, walk.len() - 1);
        }
        lemma_joined_self(none, a);
    }
}

/// Joining the sets of a pair gives the sets that the pairs join with that one
/// added.
pub proof fn joining_adds_a_pair(
    before: Seq<usize>,
    after: Seq<usize>,
    pairs: Seq<(usize, usize)>,
    a: usize,
    b: usize,
)
    requires
        partition_of(before, pairs),
        after.len() == before.len(),
        a < before.len(),
        b < before.len(),
        forall|y: int|
            0 <= y < before.len() ==> #[trigger] root(after, y) == {
                let (ca, cb) = (root(before, a as int), root(before, b as int));
                let c = root(before, y);
                if c == ca || c == cb {
                    if ca < cb {
                        ca
                    } else {
                        cb
                    }
                } else {
                    c
                }
            },
    ensures
        partition_of(after, pairs.push((a, b))),
{
    let more = pairs.push((a, b));
    assert(more[pairs.len() as int] == (a, b));
    assert forall|j: int| 0 <= j < more.len() implies root(after, (#[trigger] more[j]).0 as int)
        == root(after, more[j].1 as int) && more[j].0 < after.len() && more[j].1 < after.len() by {
        if j < pairs.len() {
            assert(pairs[j].0 < before.len() && pairs[j].1 < before.len());
            assert(paired(pairs, pairs[j].0 as int, pairs[j].1 as int));
            lemma_joined_pair(pairs, pairs[j].0 as int, pairs[j].1 as int);
            assert(root(before, pairs[j].0 as int) == root(before, pairs[j].1 as int));
            assert(root(after, pairs[j].0 as int) == root(after, pairs[j].1 as int));
        }
    }
    assert forall|x: int, y: int|
        0 <= x < after.len() && 0 <= y < after.len() implies (#[trigger] joined(more, x, y) <==> root(
        after,
        x,
    ) == root(after, y)) by {
        if joined(more, x, y) {
            let walk = choose|walk: Seq<int>| #[trigger] walks(more, walk, x, y);
            lemma_walk_one_root(after, more, walk, walk.len() - 1);
        }
        if root(after, x) == root(after, y) {
            let (ca, cb) = (root(before, a as int), root(before, b as int));
            let (cx, cy) = (root(before, x), root(before, y));
            if cx == cy {
                assert(joined(pairs, x, y));
                lemma_joined_more(pairs, (a, b), x, y);
            } else {
                assert(paired(more, a as int, b as int));
                lemma_joined_pair(more, a as int, b as int);
                lemma_joined_back(more, a as int, b as int);
                let (p, q) = if cx == ca {
                    (a as int, b as int)
                } else {
                    (b as int, a as int)
                };
                assert(joined(pairs, x, p));
                assert(joined(pairs, q, y));
                lemma_joined_more(pairs, (a, b), x, p);
                lemma_joined_more(pairs, (a, b), q, y);
                lemma_joined_on(more, x, p, q);
                lemma_joined_on(more, x, q, y);
            }
        }
    }
}

} // verus!
