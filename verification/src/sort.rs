//! Orderings of vertices for divide-and-conquer triangulation.

use crate::coord::{coord_key, key};
use crate::mesh::{CdtMesh, MeshView, VertexId};
use vstd::prelude::*;

verus! {

/// Sort key of a vertex: the coordinate on `axis` (0 for x, 1 for y) and
/// the coordinate on the other axis.
pub open spec fn lex_key(m: MeshView, v: VertexId, axis: u8) -> (int, int) {
    let p = m.pos(v);
    if axis == 0 {
        (key(p.x), key(p.y))
    } else {
        (key(p.y), key(p.x))
    }
}

/// Lexicographic order on keys.
pub open spec fn lex_less(a: (int, int), b: (int, int)) -> bool {
    a.0 < b.0 || (a.0 == b.0 && a.1 < b.1)
}

/// A key with the place it was taken from.
pub type Item = (i64, i64, usize);

/// Order on items: by key, then by place.
pub open spec fn item_le(a: Item, b: Item) -> bool {
    a.0 < b.0 || (a.0 == b.0 && (a.1 < b.1 || (a.1 == b.1 && a.2 <= b.2)))
}

/// Whether a list of items ascends.
pub open spec fn items_sorted(s: Seq<Item>) -> bool {
    forall|i: int, j: int| 0 <= i < j < s.len() ==> item_le(s[i], s[j])
}

fn is_item_le(a: &Item, b: &Item) -> (r: bool)
    ensures
        r == item_le(*a, *b),
{
    a.0 < b.0 || (a.0 == b.0 && (a.1 < b.1 || (a.1 == b.1 && a.2 <= b.2)))
}

fn merge(a: &Vec<Item>, b: &Vec<Item>) -> (out: Vec<Item>)
    requires
        items_sorted(a@),
        items_sorted(b@),
    ensures
        items_sorted(out@),
        out@.to_multiset() == a@.to_multiset().add(b@.to_multiset()),
{
    broadcast use vstd::seq_lib::group_to_multiset_ensures;

    let mut out: Vec<Item> = Vec::new();
    let mut i: usize = 0;
    let mut j: usize = 0;
    proof {
        assert(a@.take(0) =~= Seq::<Item>::empty());
        assert(b@.take(0) =~= Seq::<Item>::empty());
        assert(out@.to_multiset() =~= a@.take(0).to_multiset().add(b@.take(0).to_multiset()));
    }
    while i < a.len() || j < b.len()
        invariant
            i <= a@.len(),
            j <= b@.len(),
            items_sorted(a@),
            items_sorted(b@),
            items_sorted(out@),
            forall|k: int, l: int|
                0 <= k < out@.len() && i <= l < a@.len() ==> item_le(
                    #[trigger] out@[k],
                    #[trigger] a@[l],
                ),
            forall|k: int, l: int|
                0 <= k < out@.len() && j <= l < b@.len() ==> item_le(
                    #[trigger] out@[k],
                    #[trigger] b@[l],
                ),
            out@.to_multiset() == a@.take(i as int).to_multiset().add(
                b@.take(j as int).to_multiset(),
            ),
        decreases a@.len() - i + b@.len() - j,
    {
        broadcast use vstd::seq_lib::group_to_multiset_ensures;

        let from_a: bool = j >= b.len() || (i < a.len() && is_item_le(&a[i], &b[j]));
        if from_a {
            proof {
                assert forall|l: int| i < l < a@.len() implies item_le(a@[i as int], a@[l]) by {}
                assert forall|l: int| j <= l < b@.len() implies item_le(a@[i as int], b@[l]) by {
                    if l > j {
                        assert(item_le(b@[j as int], b@[l]));
                    }
                }
                assert(a@.take(i + 1) =~= a@.take(i as int).push(a@[i as int]));
                assert(out@.push(a@[i as int]).to_multiset() =~= a@.take(i + 1).to_multiset().add(
                    b@.take(j as int).to_multiset(),
                ));
            }
            out.push(a[i]);
            i += 1;
        } else {
            proof {
                assert forall|l: int| j < l < b@.len() implies item_le(b@[j as int], b@[l]) by {}
                assert forall|l: int| i <= l < a@.len() implies item_le(b@[j as int], a@[l]) by {
                    if l > i {
                        assert(item_le(a@[i as int], a@[l]));
                    }
                }
                assert(b@.take(j + 1) =~= b@.take(j as int).push(b@[j as int]));
                assert(out@.push(b@[j as int]).to_multiset() =~= a@.take(i as int).to_multiset().add(
                    b@.take(j + 1).to_multiset(),
                ));
            }
            out.push(b[j]);
            j += 1;
        }
    }
    proof {
        assert(a@.take(i as int) =~= a@);
        assert(b@.take(j as int) =~= b@);
    }
    out
}

fn merge_sort(v: &Vec<Item>, lo: usize, hi: usize) -> (out: Vec<Item>)
    requires
        lo <= hi <= v@.len(),
    ensures
        items_sorted(out@),
        out@.to_multiset() == v@.subrange(lo as int, hi as int).to_multiset(),
    decreases hi - lo,
{
    broadcast use vstd::seq_lib::group_to_multiset_ensures;

    if hi - lo <= 1 {
        let mut out: Vec<Item> = Vec::new();
        if lo < hi {
            out.push(v[lo]);
        }
        assert(out@ =~= v@.subrange(lo as int, hi as int));
        return out;
    }
    let mid: usize = lo + (hi - lo) / 2;
    let a = merge_sort(v, lo, mid);
    let b = merge_sort(v, mid, hi);
    proof {
        let (l, r) = (v@.subrange(lo as int, mid as int), v@.subrange(mid as int, hi as int));
        assert(v@.subrange(lo as int, hi as int) =~= l + r);
        vstd::seq_lib::lemma_multiset_commutative(l, r);
    }
    merge(&a, &b)
}

/// Whether `p` is a permutation of `0..n`.
pub open spec fn is_permutation(p: Seq<int>, n: nat) -> bool {
    &&& p.len() == n
    &&& forall|i: int| 0 <= i < n ==> 0 <= #[trigger] p[i] < n
    &&& forall|i: int, j: int| 0 <= i < j < n ==> p[i] != p[j]
}

/// Whether `after` is `before` in ascending order on `axis`, entries with the
/// same key in the order they had; `p` says where each entry came from.
pub open spec fn stable_order(
    m: MeshView,
    axis: u8,
    before: Seq<VertexId>,
    after: Seq<VertexId>,
    p: Seq<int>,
) -> bool {
    &&& is_permutation(p, before.len())
    &&& after.len() == before.len()
    &&& forall|i: int| 0 <= i < after.len() ==> #[trigger] after[i] == before[p[i]]
    &&& forall|i: int, j: int|
        0 <= i < j < after.len() ==> lex_less(
            lex_key(m, #[trigger] after[i], axis),
            lex_key(m, #[trigger] after[j], axis),
        ) || (lex_key(m, after[i], axis) == lex_key(m, after[j], axis) && p[i] < p[j])
}

/// Whether every id in the list names a vertex.
pub open spec fn all_known(m: MeshView, ids: Seq<VertexId>) -> bool {
    forall|i: int| 0 <= i < ids.len() ==> m.has_vertex(#[trigger] ids[i])
}

proof fn lemma_distinct_places(s: Seq<Item>, t: Seq<Item>)
    requires
        s.to_multiset() == t.to_multiset(),
        forall|i: int| 0 <= i < s.len() ==> (#[trigger] s[i]).2 == i,
    ensures
        t.len() == s.len(),
        forall|i: int| 0 <= i < t.len() ==> (#[trigger] t[i]).2 < s.len() && t[i] == s[t[i].2 as int],
        forall|i: int, j: int| 0 <= i < j < t.len() ==> t[i].2 != t[j].2,
{
    broadcast use vstd::seq_lib::group_to_multiset_ensures;

    assert(s.no_duplicates());
    s.lemma_multiset_has_no_duplicates();
    assert(s.to_multiset().len() == s.len());
    assert(t.to_multiset().len() == t.len());
    assert forall|i: int| 0 <= i < t.len() implies (#[trigger] t[i]).2 < s.len() && t[i]
        == s[t[i].2 as int] by {
        assert(t.contains(t[i]));
        assert(t.to_multiset().count(t[i]) > 0);
        assert(s.contains(t[i]));
    }
    t.lemma_multiset_has_no_duplicates_conv();
    assert forall|i: int, j: int| 0 <= i < j < t.len() implies t[i].2 != t[j].2 by {
        if t[i].2 == t[j].2 {
            assert(t[i] == t[j]);
        }
    }
}

/// The list in ascending order on `axis`, equal keys in the order they had.
fn sorted_ids(mesh: &CdtMesh, ids: &Vec<VertexId>, lo: usize, hi: usize, axis: u8) -> (out: Vec<
    VertexId,
>)
    requires
        all_known(mesh@, ids@),
        lo <= hi <= ids@.len(),
    ensures
        exists|p: Seq<int>|
            stable_order(mesh@, axis, ids@.subrange(lo as int, hi as int), out@, p),
{
    let ghost before = ids@.subrange(lo as int, hi as int);
    let mut items: Vec<Item> = Vec::new();
    let mut i: usize = lo;
    while i < hi
        invariant
            lo <= i <= hi,
            hi <= ids@.len(),
            before == ids@.subrange(lo as int, hi as int),
            all_known(mesh@, ids@),
            items@.len() == i - lo,
            forall|k: int|
                0 <= k < i - lo ==> (#[trigger] items@[k]).2 == k && (
                items@[k].0 as int, items@[k].1 as int) == lex_key(mesh@, before[k], axis),
        decreases hi - i,
    {
        assert(ids@[i as int] == before[i - lo]);
        let p = mesh.vertex_pos(ids[i]);
        let (kx, ky) = (coord_key(p.x), coord_key(p.y));
        if axis == 0 {
            items.push((kx, ky, i - lo));
        } else {
            items.push((ky, kx, i - lo));
        }
        i += 1;
    }
    let n: usize = items.len();
    let sorted = merge_sort(&items, 0, n);
    proof {
        assert(items@.subrange(0, n as int) =~= items@);
        lemma_distinct_places(items@, sorted@);
    }
    let mut out: Vec<VertexId> = Vec::new();
    let mut i: usize = 0;
    while i < n
        invariant
            i <= n,
            n == hi - lo,
            hi <= ids@.len(),
            sorted@.len() == n,
            before == ids@.subrange(lo as int, hi as int),
            forall|k: int| 0 <= k < n ==> (#[trigger] sorted@[k]).2 < n,
            out@.len() == i,
            forall|k: int| 0 <= k < i ==> #[trigger] out@[k] == before[sorted@[k].2 as int],
        decreases n - i,
    {
        let at: usize = sorted[i].2;
        out.push(ids[lo + at]);
        i += 1;
    }
    proof {
        let p = Seq::new(n as nat, |k: int| sorted@[k].2 as int);
        assert forall|i: int, j: int| 0 <= i < j < out@.len() implies lex_less(
            lex_key(mesh@, #[trigger] out@[i], axis),
            lex_key(mesh@, #[trigger] out@[j], axis),
        ) || (lex_key(mesh@, out@[i], axis) == lex_key(mesh@, out@[j], axis) && p[i] < p[j]) by {
            assert(item_le(sorted@[i], sorted@[j]));
            let (x, y) = (items@[sorted@[i].2 as int], items@[sorted@[j].2 as int]);
            assert(sorted@[i] == x && sorted@[j] == y);
        }
        assert(stable_order(mesh@, axis, before, out@, p));
    }
    out
}

/// Sort `ids` by position: x first, then y, equal positions in the order they
/// had.
pub fn vertex_sort(mesh: &CdtMesh, ids: &mut Vec<VertexId>)
    requires
        all_known(mesh@, old(ids)@),
    ensures
        exists|p: Seq<int>| stable_order(mesh@, 0, old(ids)@, final(ids)@, p),
{
    let n: usize = ids.len();
    let sorted = sorted_ids(mesh, ids, 0, n, 0);
    assert(ids@.subrange(0, n as int) =~= ids@);
    *ids = sorted;
}

/// Whether everything before position `at` precedes, or equals, everything
/// from it on.
pub open spec fn split_at(m: MeshView, ids: Seq<VertexId>, at: int, axis: u8) -> bool {
    forall|i: int, j: int|
        0 <= i < at <= j < ids.len() ==> !lex_less(
            lex_key(m, #[trigger] ids[j], axis),
            lex_key(m, #[trigger] ids[i], axis),
        )
}

/// Whether `after` holds the same ids as `before`, in some order.
pub open spec fn rearranged(before: Seq<VertexId>, after: Seq<VertexId>) -> bool {
    before.to_multiset() == after.to_multiset()
}

proof fn lemma_stable_order_rearranges(
    m: MeshView,
    axis: u8,
    before: Seq<VertexId>,
    after: Seq<VertexId>,
    p: Seq<int>,
)
    requires
        stable_order(m, axis, before, after, p),
    ensures
        rearranged(before, after),
    decreases before.len(),
{
    lemma_permuted(before, after, p);
}

proof fn lemma_permuted(before: Seq<VertexId>, after: Seq<VertexId>, p: Seq<int>)
    requires
        is_permutation(p, before.len()),
        after.len() == before.len(),
        forall|i: int| 0 <= i < after.len() ==> #[trigger] after[i] == before[p[i]],
    ensures
        before.to_multiset() == after.to_multiset(),
    decreases before.len(),
{
    broadcast use vstd::seq_lib::group_to_multiset_ensures;

    let n = before.len();
    if n == 0 {
        assert(before =~= after);
    } else {
        let q = p[n - 1];
        let b = before.remove(q);
        let a = after.drop_last();
        let r = Seq::new(
            (n - 1) as nat,
            |i: int| if p[i] > q {
                p[i] - 1
            } else {
                p[i]
            },
        );
        assert forall|i: int| 0 <= i < n - 1 implies 0 <= #[trigger] r[i] < n - 1 by {
            assert(p[i] != p[n - 1]);
        }
        assert forall|i: int, j: int| 0 <= i < j < n - 1 implies r[i] != r[j] by {
            assert(p[i] != p[j] && p[i] != p[n - 1] && p[j] != p[n - 1]);
        }
        assert forall|i: int| 0 <= i < a.len() implies #[trigger] a[i] == b[r[i]] by {
            assert(a[i] == after[i]);
            assert(p[i] != p[n - 1]);
        }
        lemma_permuted(b, a, r);
        assert(before =~= b.insert(q, before[q]));
        vstd::seq_lib::to_multiset_insert(b, q, before[q]);
        assert(after =~= a.push(after[n - 1]));
        assert(before.to_multiset() =~= after.to_multiset());
    }
}

/// Rearrange `ids` so that everything before `median` precedes, on `axis`,
/// everything from it on. Nothing happens where `median` is past the end.
pub fn vertex_median(mesh: &CdtMesh, ids: &mut Vec<VertexId>, median: usize, axis: u8)
    requires
        all_known(mesh@, old(ids)@),
    ensures
        rearranged(old(ids)@, final(ids)@),
        median < old(ids)@.len() ==> split_at(mesh@, final(ids)@, median as int, axis),
        median >= old(ids)@.len() ==> final(ids)@ == old(ids)@,
{
    let n: usize = ids.len();
    if median >= n {
        return;
    }
    let sorted = sorted_ids(mesh, ids, 0, n, axis);
    proof {
        assert(ids@.subrange(0, n as int) =~= ids@);
        let p = choose|p: Seq<int>| stable_order(mesh@, axis, ids@, sorted@, p);
        lemma_stable_order_rearranges(mesh@, axis, ids@, sorted@, p);
    }
    *ids = sorted;
}

/// Whether a list is cut at its middle on `axis`, and each half likewise on
/// the other axis, down to lists of at most three, which ascend on x.
pub open spec fn alternated(m: MeshView, ids: Seq<VertexId>, axis: u8) -> bool
    decreases ids.len(),
{
    let n = ids.len() as int;
    if n <= 3 {
        forall|i: int, j: int|
            0 <= i < j < n ==> !lex_less(
                lex_key(m, #[trigger] ids[j], 0),
                lex_key(m, #[trigger] ids[i], 0),
            )
    } else {
        &&& split_at(m, ids, n / 2, axis)
        &&& alternated(m, ids.take(n / 2), (1 - axis) as u8)
        &&& alternated(m, ids.skip(n / 2), (1 - axis) as u8)
    }
}

proof fn lemma_all_known_part(m: MeshView, before: Seq<VertexId>, after: Seq<VertexId>)
    requires
        all_known(m, before),
        rearranged(before, after),
    ensures
        all_known(m, after),
{
    broadcast use vstd::seq_lib::group_to_multiset_ensures;

    assert forall|i: int| 0 <= i < after.len() implies m.has_vertex(#[trigger] after[i]) by {
        assert(after.contains(after[i]));
        assert(after.to_multiset().count(after[i]) > 0);
        assert(before.contains(after[i]));
    }
}

proof fn lemma_split_kept(
    m: MeshView,
    axis: u8,
    l0: Seq<VertexId>,
    r0: Seq<VertexId>,
    l1: Seq<VertexId>,
    r1: Seq<VertexId>,
)
    requires
        split_at(m, l0 + r0, l0.len() as int, axis),
        rearranged(l0, l1),
        rearranged(r0, r1),
    ensures
        split_at(m, l1 + r1, l1.len() as int, axis),
        l1.len() == l0.len(),
        r1.len() == r0.len(),
{
    broadcast use vstd::seq_lib::group_to_multiset_ensures;

    assert(l0.to_multiset().len() == l0.len() && l1.to_multiset().len() == l1.len());
    assert(r0.to_multiset().len() == r0.len() && r1.to_multiset().len() == r1.len());
    let (s, t) = (l0 + r0, l1 + r1);
    assert forall|i: int, j: int| 0 <= i < l1.len() <= j < t.len() implies !lex_less(
        lex_key(m, #[trigger] t[j], axis),
        lex_key(m, #[trigger] t[i], axis),
    ) by {
        let (a, b) = (l1[i], r1[j - l1.len()]);
        assert(l1.contains(a) && r1.contains(b));
        assert(l1.to_multiset().count(a) > 0 && r1.to_multiset().count(b) > 0);
        assert(l0.contains(a) && r0.contains(b));
        let x = choose|x: int| 0 <= x < l0.len() && l0[x] == a;
        let y = choose|y: int| 0 <= y < r0.len() && r0[y] == b;
        assert(s[x] == a && s[l0.len() + y] == b);
    }
}

/// The list cut alternately along both axes, down to short lists sorted on x.
fn alternate_list(mesh: &CdtMesh, ids: Vec<VertexId>, axis: u8) -> (out: Vec<VertexId>)
    requires
        all_known(mesh@, ids@),
        axis <= 1,
    ensures
        alternated(mesh@, out@, axis),
        rearranged(ids@, out@),
        out@.len() == ids@.len(),
    decreases ids@.len(),
{
    broadcast use vstd::seq_lib::group_to_multiset_ensures;

    let n: usize = ids.len();
    let effective: u8 = if n <= 3 {
        0
    } else {
        axis
    };
    let sorted = sorted_ids(mesh, &ids, 0, n, effective);
    proof {
        assert(ids@.subrange(0, n as int) =~= ids@);
        let p = choose|p: Seq<int>| stable_order(mesh@, effective, ids@, sorted@, p);
        lemma_stable_order_rearranges(mesh@, effective, ids@, sorted@, p);
        lemma_all_known_part(mesh@, ids@, sorted@);
    }
    if n <= 3 {
        return sorted;
    }
    let divider: usize = n / 2;
    let mut left: Vec<VertexId> = Vec::new();
    let mut right: Vec<VertexId> = Vec::new();
    let mut i: usize = 0;
    while i < n
        invariant
            i <= n,
            n == sorted@.len(),
            divider == n / 2,
            left@ == sorted@.take(if i < divider {
                i as int
            } else {
                divider as int
            }),
            right@ == if i < divider {
                Seq::<VertexId>::empty()
            } else {
                sorted@.subrange(divider as int, i as int)
            },
        decreases n - i,
    {
        if i < divider {
            left.push(sorted[i]);
            assert(sorted@.take(i + 1) =~= sorted@.take(i as int).push(sorted@[i as int]));
            if i + 1 == divider {
                assert(sorted@.subrange(divider as int, i + 1) =~= Seq::<VertexId>::empty());
            }
        } else {
            right.push(sorted[i]);
            assert(sorted@.subrange(divider as int, i + 1) =~= sorted@.subrange(
                divider as int,
                i as int,
            ).push(sorted@[i as int]));
        }
        i += 1;
    }
    let ghost (l0, r0) = (left@, right@);
    proof {
        assert(l0 + r0 =~= sorted@);
    }
    let left2 = alternate_list(mesh, left, 1 - axis);
    let right2 = alternate_list(mesh, right, 1 - axis);
    proof {
        lemma_split_kept(mesh@, axis, l0, r0, left2@, right2@);
        vstd::seq_lib::lemma_multiset_commutative(l0, r0);
        vstd::seq_lib::lemma_multiset_commutative(left2@, right2@);
        let t = left2@ + right2@;
        assert(t.take(n as int / 2) =~= left2@);
        assert(t.skip(n as int / 2) =~= right2@);
    }
    let mut out = left2;
    let mut tail = right2;
    out.append(&mut tail);
    out
}

/// Rearrange `ids`: cut at the middle on `axis`, each half on the other axis,
/// down to lists of at most three, which are sorted on x.
pub fn alternate_axes(mesh: &CdtMesh, ids: &mut Vec<VertexId>, axis: u8)
    requires
        all_known(mesh@, old(ids)@),
        axis <= 1,
    ensures
        alternated(mesh@, final(ids)@, axis),
        rearranged(old(ids)@, final(ids)@),
        final(ids)@.len() == old(ids)@.len(),
{
    let mut work: Vec<VertexId> = Vec::new();
    std::mem::swap(&mut work, ids);
    *ids = alternate_list(mesh, work, axis);
}

} // verus!
