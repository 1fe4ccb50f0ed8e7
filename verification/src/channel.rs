//! Paths within one region's surface: the triangles to walk through and the
//! string pulled tight through them.

use crate::holes::{is_mixture, mixtures_are_on_one_side};
use crate::navmesh::RegionNavMesh;
use crate::plane::areas_turn;
use crate::predicates::{orient, orient2d, Vertex};
use crate::search::{affordable, find_route, is_found, is_missed, is_route, Link};
use std::collections::HashMap;
use vstd::prelude::*;

verus! {

impl RegionNavMesh {
    /// Whether the corners of every triangle are vertices.
    pub open spec fn wf(&self) -> bool {
        forall|i: int, e: int|
            0 <= i < self.triangles@.len() && 0 <= e < 3 ==> (#[trigger] self.triangles@[i]@[e])
                < self.vertices@.len()
    }

    /// The place of corner `e` of triangle `i`.
    pub open spec fn corner_at(&self, i: int, e: int) -> Vertex {
        self.vertices@[self.triangles@[i]@[e] as int].position
    }
}

// --- Neighbors --------------------------------------------------------------

/// A number for an edge between two vertices, the same both ways round.
pub open spec fn edge_number(a: u32, b: u32) -> int {
    if a < b {
        a * 0x1_0000_0000 + b
    } else {
        b * 0x1_0000_0000 + a
    }
}

/// The number of edge `e` of a triangle.
pub open spec fn tri_edge(t: [u32; 3], e: int) -> int {
    edge_number(t@[e], t@[if e == 2 {
        0
    } else {
        e + 1
    }])
}

/// Whether a triangle has an edge.
pub open spec fn has_edge(t: [u32; 3], k: int) -> bool {
    tri_edge(t, 0) == k || tri_edge(t, 1) == k || tri_edge(t, 2) == k
}

/// Whether `n` is the first other triangle with the edge that edge `e` of
/// triangle `i` is.
pub open spec fn is_neighbor(triangles: Seq<[u32; 3]>, i: int, e: int, n: Option<usize>) -> bool {
    let k = tri_edge(triangles[i], e);
    match n {
        None => forall|j: int|
            0 <= j < triangles.len() && j != i ==> !has_edge(#[trigger] triangles[j], k),
        Some(j) => {
            &&& j < triangles.len()
            &&& j != i
            &&& has_edge(triangles[j as int], k)
            &&& forall|m: int| 0 <= m < j && m != i ==> !has_edge(#[trigger] triangles[m], k)
        },
    }
}

/// The first two triangles with an edge.
#[derive(Copy, Clone, Debug)]
struct Sharers {
    first: usize,
    second: Option<usize>,
}

/// Whether triangle `j` has an edge, counting the first `m` triangles and the
/// first `e` edges of the next.
spec fn seen(triangles: Seq<[u32; 3]>, m: int, e: int, j: int, k: int) -> bool {
    ||| 0 <= j < m && has_edge(triangles[j], k)
    ||| j == m && ((e > 0 && tri_edge(triangles[m], 0) == k) || (e > 1 && tri_edge(
        triangles[m],
        1,
    ) == k) || (e > 2 && tri_edge(triangles[m], 2) == k))
}

spec fn shared_by(
    map: Map<u64, Sharers>,
    triangles: Seq<[u32; 3]>,
    m: int,
    e: int,
    k: u64,
) -> bool {
    if map.contains_key(k) {
        let s = map[k];
        &&& seen(triangles, m, e, s.first as int, k as int)
        &&& forall|j: int| #[trigger] seen(triangles, m, e, j, k as int) ==> j >= s.first
        &&& match s.second {
            None => forall|j: int| #[trigger]
                seen(triangles, m, e, j, k as int) ==> j == s.first,
            Some(b) => {
                &&& seen(triangles, m, e, b as int, k as int)
                &&& b > s.first
                &&& forall|j: int| #[trigger]
                    seen(triangles, m, e, j, k as int) && j != s.first ==> j >= b
            },
        }
    } else {
        forall|j: int| !(#[trigger] seen(triangles, m, e, j, k as int))
    }
}

fn edge_key(t: &[u32; 3], e: usize) -> (k: u64)
    requires
        e < 3,
    ensures
        k == tri_edge(*t, e as int),
{
    let a: u32 = t[e];
    let b: u32 = t[if e == 2 {
        0
    } else {
        e + 1
    }];
    if a < b {
        a as u64 * 0x1_0000_0000 + b as u64
    } else {
        b as u64 * 0x1_0000_0000 + a as u64
    }
}

/// For each triangle the neighbor across each of its edges, where there is
/// one: the first other triangle with the same two corners.
pub fn triangle_adjacency(mesh: &RegionNavMesh) -> (adj: Vec<[Option<usize>; 3]>)
    ensures
        adj@.len() == mesh.triangles@.len(),
        forall|i: int, e: int|
            0 <= i < adj@.len() && 0 <= e < 3 ==> is_neighbor(
                mesh.triangles@,
                i,
                e,
                #[trigger] adj@[i]@[e],
            ),
{
    broadcast use vstd::std_specs::hash::group_hash_axioms;

    let ghost tris = mesh.triangles@;
    let n: usize = mesh.triangles.len();
    let mut map: HashMap<u64, Sharers> = HashMap::new();
    let mut i: usize = 0;
    while i < n
        invariant
            n == tris.len(),
            tris == mesh.triangles@,
            i <= n,
            forall|k: u64| #[trigger] shared_by(map@, tris, i as int, 0, k),
        decreases n - i,
    {
        let mut e: usize = 0;
        while e < 3
            invariant
                n == tris.len(),
                tris == mesh.triangles@,
                i < n,
                e <= 3,
                forall|k: u64| #[trigger] shared_by(map@, tris, i as int, e as int, k),
            decreases 3 - e,
        {
            broadcast use vstd::std_specs::hash::group_hash_axioms;

            let key: u64 = edge_key(&mesh.triangles[i], e);
            let ghost before = map@;
            assert(shared_by(before, tris, i as int, e as int, key));
            let entry: Option<Sharers> = match map.get(&key) {
                None => None,
                Some(s) => Some(*s),
            };
            match entry {
                None => {
                    map.insert(key, Sharers { first: i, second: None });
                },
                Some(s) => {
                    if s.second.is_none() && s.first != i {
                        map.insert(key, Sharers { first: s.first, second: Some(i) });
                    }
                },
            }
            proof {
                assert forall|k: u64| #[trigger] shared_by(map@, tris, i as int, e + 1, k) by {
                    assert(shared_by(before, tris, i as int, e as int, k));
                    assert forall|j: int| #[trigger]
                        seen(tris, i as int, e + 1, j, k as int) implies seen(
                        tris,
                        i as int,
                        e as int,
                        j,
                        k as int,
                    ) || (j == i && k == key) by {}
                    assert forall|j: int| #[trigger]
                        seen(tris, i as int, e as int, j, k as int) implies seen(
                        tris,
                        i as int,
                        e + 1,
                        j,
                        k as int,
                    ) by {}
                    if k == key {
                        assert(seen(tris, i as int, e + 1, i as int, k as int));
                    }
                }
            }
            e += 1;
        }
        proof {
            assert forall|k: u64| #[trigger] shared_by(map@, tris, i + 1, 0, k) by {
                assert(shared_by(map@, tris, i as int, 3, k));
                assert forall|j: int| #[trigger] seen(tris, i + 1, 0, j, k as int) <==> seen(
                    tris,
                    i as int,
                    3,
                    j,
                    k as int,
                ) by {}
            }
        }
        i += 1;
    }
    let mut adj: Vec<[Option<usize>; 3]> = Vec::new();
    let mut m: usize = 0;
    while m < n
        invariant
            n == tris.len(),
            tris == mesh.triangles@,
            m <= n,
            forall|k: u64| #[trigger] shared_by(map@, tris, n as int, 0, k),
            adj@.len() == m,
            forall|i: int, e: int|
                0 <= i < m && 0 <= e < 3 ==> is_neighbor(tris, i, e, #[trigger] adj@[i]@[e]),
        decreases n - m,
    {
        let n0 = other_sharer(&map, &mesh.triangles, m, 0);
        let n1 = other_sharer(&map, &mesh.triangles, m, 1);
        let n2 = other_sharer(&map, &mesh.triangles, m, 2);
        let row = [n0, n1, n2];
        let ghost before = adj@;
        adj.push(row);
        proof {
            assert forall|i: int, e: int| 0 <= i < m + 1 && 0 <= e < 3 implies is_neighbor(
                tris,
                i,
                e,
                #[trigger] adj@[i]@[e],
            ) by {
                if i < m {
                    assert(adj@[i]@[e] == before[i]@[e]);
                } else {
                    assert(adj@[i] == row);
                }
            }
        }
        m += 1;
    }
    adj
}

fn other_sharer(
    map: &HashMap<u64, Sharers>,
    triangles: &Vec<[u32; 3]>,
    i: usize,
    e: usize,
) -> (r: Option<usize>)
    requires
        i < triangles@.len(),
        e < 3,
        forall|k: u64| #[trigger]
            shared_by(map@, triangles@, triangles@.len() as int, 0, k),
    ensures
        is_neighbor(triangles@, i as int, e as int, r),
{
    broadcast use vstd::std_specs::hash::group_hash_axioms;

    let key: u64 = edge_key(&triangles[i], e);
    let ghost n = triangles@.len() as int;
    proof {
        assert(shared_by(map@, triangles@, n, 0, key));
        assert(has_edge(triangles@[i as int], key as int));
        assert(seen(triangles@, n, 0, i as int, key as int));
        assert forall|j: int| 0 <= j < n && has_edge(#[trigger] triangles@[j], key as int) implies seen(
            triangles@,
            n,
            0,
            j,
            key as int,
        ) by {}
    }
    match map.get(&key) {
        None => None,
        Some(s) => {
            if s.first != i {
                Some(s.first)
            } else {
                s.second
            }
        },
    }
}

/// The first triangle that holds a point, edges counted.
pub fn find_triangle_at_xy(mesh: &RegionNavMesh, p: Vertex) -> (r: Option<usize>)
    requires
        mesh.wf(),
    ensures
        match r {
            None => forall|i: int| 0 <= i < mesh.triangles@.len() ==> !(#[trigger] covers(*mesh, i, p)),
            Some(t) => t < mesh.triangles@.len() && covers(*mesh, t as int, p) && forall|i: int|
                0 <= i < t ==> !(#[trigger] covers(*mesh, i, p)),
        },
{
    let mut i: usize = 0;
    while i < mesh.triangles.len()
        invariant
            mesh.wf(),
            i <= mesh.triangles@.len(),
            forall|k: int| 0 <= k < i ==> !(#[trigger] covers(*mesh, k, p)),
        decreases mesh.triangles.len() - i,
    {
        let t = mesh.triangles[i];
        assert(t@[0] == mesh.triangles@[i as int]@[0]);
        assert(t@[1] == mesh.triangles@[i as int]@[1]);
        assert(t@[2] == mesh.triangles@[i as int]@[2]);
        let a = mesh.vertices[t[0] as usize].position;
        let b = mesh.vertices[t[1] as usize].position;
        let c = mesh.vertices[t[2] as usize].position;
        let s1: i32 = orient2d(p, a, b);
        let s2: i32 = orient2d(p, b, c);
        let s3: i32 = orient2d(p, c, a);
        let some_left = s1 < 0 || s2 < 0 || s3 < 0;
        let some_right = s1 > 0 || s2 > 0 || s3 > 0;
        if !(some_left && some_right) {
            assert(covers(*mesh, i as int, p));
            return Some(i);
        }
        assert(!covers(*mesh, i as int, p));
        i += 1;
    }
    None
}

/// Whether a point is not strictly on different sides of two edges of a
/// triangle.
pub open spec fn covers(mesh: RegionNavMesh, i: int, p: Vertex) -> bool {
    let (a, b, c) = (mesh.corner_at(i, 0), mesh.corner_at(i, 1), mesh.corner_at(i, 2));
    let (s1, s2, s3) = (orient(p, a, b), orient(p, b, c), orient(p, c, a));
    !((s1 < 0 || s2 < 0 || s3 < 0) && (s1 > 0 || s2 > 0 || s3 > 0))
}

/// Whether no edge belongs to three triangles.
pub open spec fn manifold(triangles: Seq<[u32; 3]>) -> bool {
    forall|a: int, b: int, c: int, k: int|
        0 <= a < triangles.len() && 0 <= b < triangles.len() && 0 <= c < triangles.len() && a != b
            && b != c && a != c ==> !(#[trigger] has_edge(triangles[a], k) && #[trigger] has_edge(
            triangles[b],
            k,
        ) && #[trigger] has_edge(triangles[c], k))
}

/// Where no edge belongs to three triangles, the neighbor of a triangle across
/// an edge has that triangle for a neighbor.
pub proof fn neighbors_are_mutual(triangles: Seq<[u32; 3]>, i: int, e: int, j: usize, f: int, n: Option<
    usize,
>)
    requires
        manifold(triangles),
        0 <= i < triangles.len() <= usize::MAX,
        0 <= e < 3,
        is_neighbor(triangles, i, e, Some(j)),
        0 <= f < 3,
        tri_edge(triangles[j as int], f) == tri_edge(triangles[i], e),
        is_neighbor(triangles, j as int, f, n),
    ensures
        n == Some(i as usize),
{
    let k = tri_edge(triangles[i], e);
    assert(has_edge(triangles[i], k));
    assert(has_edge(triangles[j as int], k));
    match n {
        None => {
            assert(has_edge(triangles[i], k));
        },
        Some(m) => {
            if m != i {
                assert(has_edge(triangles[m as int], k));
            }
        },
    }
}

// --- Channels ---------------------------------------------------------------

/// Whether a list of triangles leads from one to another, each a neighbor of
/// the one before.
pub open spec fn is_channel(
    adj: Seq<[Option<usize>; 3]>,
    channel: Seq<usize>,
    src: int,
    dst: int,
) -> bool {
    &&& channel.len() > 0
    &&& channel[0] == src
    &&& channel.last() == dst
    &&& forall|i: int|
        0 <= i < channel.len() - 1 ==> neighboring(
            adj,
            #[trigger] channel[i] as int,
            channel[i + 1] as int,
        )
}

/// Whether triangle `b` is across an edge of triangle `a`.
pub open spec fn neighboring(adj: Seq<[Option<usize>; 3]>, a: int, b: int) -> bool {
    &&& 0 <= a < adj.len()
    &&& exists|e: int| 0 <= e < 3 && (#[trigger] adj[a]@[e]) == Some(b as usize)
}

/// Whether every neighbor is a triangle.
pub open spec fn adjacency_fits(adj: Seq<[Option<usize>; 3]>) -> bool {
    forall|i: int, e: int|
        0 <= i < adj.len() && 0 <= e < 3 ==> ((#[trigger] adj[i]@[e]) matches Some(n) ==> n
            < adj.len())
}

/// The links of a triangle over its first `n` edges, each tagged by its edge.
pub open spec fn row_links(row: Seq<Option<usize>>, n: nat) -> Seq<Link>
    decreases n,
{
    if n == 0 {
        Seq::empty()
    } else {
        let before = row_links(row, (n - 1) as nat);
        match row[n - 1] {
            None => before,
            Some(to) => before.push(Link { to, tag: (n - 1) as u32 }),
        }
    }
}

/// Whether `links` holds the neighbors of each triangle, tagged by edge.
pub open spec fn lists_neighbors(links: Seq<Vec<Link>>, adj: Seq<[Option<usize>; 3]>) -> bool {
    &&& links.len() == adj.len()
    &&& forall|i: int| 0 <= i < adj.len() ==> (#[trigger] links[i])@ == row_links(adj[i]@, 3)
}

/// Whether a search from triangle to triangle, steered by `price`, finds a
/// channel.
pub open spec fn channel_found<F: Fn(u64, usize, u32, usize, u32) -> (u64, u64)>(
    adj: Seq<[Option<usize>; 3]>,
    price: F,
    src: int,
    dst: int,
    channel: Seq<usize>,
) -> bool {
    exists|links: Seq<Vec<Link>>, tags: Seq<u32>|
        lists_neighbors(links, adj) && #[trigger] is_found(
            links,
            price,
            true,
            src,
            dst,
            channel,
            tags,
        )
}

/// Whether a search from triangle to triangle, steered by `price`, finds none.
pub open spec fn channel_missed<F: Fn(u64, usize, u32, usize, u32) -> (u64, u64)>(
    adj: Seq<[Option<usize>; 3]>,
    price: F,
    src: int,
    dst: int,
) -> bool {
    exists|links: Seq<Vec<Link>>|
        lists_neighbors(links, adj) && #[trigger] is_missed(links, price, true, src, dst)
}

proof fn lemma_row_links(row: Seq<Option<usize>>, n: nat)
    requires
        n <= 3 == row.len(),
    ensures
        forall|j: int|
            0 <= j < row_links(row, n).len() ==> (#[trigger] row_links(row, n)[j]).tag < n
                && row[row_links(row, n)[j].tag as int] == Some(row_links(row, n)[j].to),
        forall|e: int|
            0 <= e < n && (#[trigger] row[e]) is Some ==> row_links(row, n).contains(
                (Link { to: row[e].unwrap(), tag: e as u32 }),
            ),
    decreases n,
{
    if n > 0 {
        lemma_row_links(row, (n - 1) as nat);
        let before = row_links(row, (n - 1) as nat);
        let now = row_links(row, n);
        assert forall|e: int| 0 <= e < n && (#[trigger] row[e]) is Some implies now.contains(
            (Link { to: row[e].unwrap(), tag: e as u32 }),
        ) by {
            let one = Link { to: row[e].unwrap(), tag: e as u32 };
            if e < n - 1 {
                let at = before.index_of(one);
                assert(now[at] == one);
            } else {
                assert(now[before.len() as int] == one);
            }
        }
    }
}

fn links_from(row: &[Option<usize>; 3]) -> (list: Vec<Link>)
    ensures
        list@ == row_links(row@, 3),
{
    let mut list: Vec<Link> = Vec::new();
    let mut e: usize = 0;
    while e < 3
        invariant
            e <= 3,
            list@ == row_links(row@, e as nat),
        decreases 3 - e,
    {
        if let Some(n) = row[e] {
            list.push(Link { to: n, tag: e as u32 });
        }
        e += 1;
    }
    list
}

/// Find triangles that lead from one to another, each a neighbor of the one
/// before. `price` gives the cost of a step from one triangle to the next and
/// an estimate of what is still ahead; it steers the search.
pub fn find_triangle_channel<F: Fn(u64, usize, u32, usize, u32) -> (u64, u64)>(
    adj: &Vec<[Option<usize>; 3]>,
    src: usize,
    dst: usize,
    price: F,
) -> (r: Option<Vec<usize>>)
    requires
        adjacency_fits(adj@),
        src < adj@.len(),
        dst < adj@.len(),
        forall|g: u64, a: usize, t: u32, b: usize, u: u32| #[trigger]
            price.requires((g, a, t, b, u)),
    ensures
        match r {
            Some(c) => {
                &&& channel_found(adj@, price, src as int, dst as int, c@)
                &&& is_channel(adj@, c@, src as int, dst as int)
                &&& c@.no_duplicates()
            },
            None => {
                &&& channel_missed(adj@, price, src as int, dst as int)
                &&& affordable(price) ==> forall|c: Seq<usize>|
                    !(#[trigger] is_channel(adj@, c, src as int, dst as int))
            },
        },
{
    let n: usize = adj.len();
    let mut links: Vec<Vec<Link>> = Vec::new();
    let mut i: usize = 0;
    while i < n
        invariant
            n == adj@.len(),
            i <= n,
            links@.len() == i,
            forall|k: int| 0 <= k < i ==> (#[trigger] links@[k])@ == row_links(adj@[k]@, 3),
        decreases n - i,
    {
        links.push(links_from(&adj[i]));
        i += 1;
    }
    proof {
        assert forall|a: int, j: int| 0 <= a < links@.len() && 0 <= j < links@[a]@.len() implies (
        #[trigger] links@[a]@[j]).to < links@.len() by {
            lemma_row_links(adj@[a]@, 3);
            assert(adj@[a]@[links@[a]@[j].tag as int] == Some(links@[a]@[j].to));
        }
    }
    match find_route(&links, src, dst, true, price) {
        Some((nodes, tags)) => {
            proof {
                assert forall|k: int| 0 <= k < nodes@.len() - 1 implies neighboring(
                    adj@,
                    #[trigger] nodes@[k] as int,
                    nodes@[k + 1] as int,
                ) by {
                    assert(crate::search::linked(
                        links@,
                        nodes@[k] as int,
                        nodes@[k + 1] as int,
                        tags@[k],
                    ));
                    let a = nodes@[k] as int;
                    let j = choose|j: int|
                        0 <= j < links@[a]@.len() && (#[trigger] links@[a]@[j]).to == nodes@[k + 1]
                            && links@[a]@[j].tag == tags@[k];
                    lemma_row_links(adj@[a]@, 3);
                    assert(adj@[a]@[links@[a]@[j].tag as int] == Some(nodes@[k + 1]));
                }
                assert(lists_neighbors(links@, adj@));
            }
            Some(nodes)
        },
        None => {
            proof {
                assert(lists_neighbors(links@, adj@));
                assert forall|c: Seq<usize>| affordable(price) implies !(#[trigger] is_channel(
                    adj@,
                    c,
                    src as int,
                    dst as int,
                )) by {
                    if is_channel(adj@, c, src as int, dst as int) {
                        let tags = Seq::new(
                            (c.len() - 1) as nat,
                            |k: int| edge_between(adj@, c[k] as int, c[k + 1] as int) as u32,
                        );
                        assert forall|k: int| 0 <= k < tags.len() implies crate::search::linked(
                            links@,
                            c[k] as int,
                            c[k + 1] as int,
                            #[trigger] tags[k],
                        ) by {
                            assert(neighboring(adj@, c[k] as int, c[k + 1] as int));
                            let e = edge_between(adj@, c[k] as int, c[k + 1] as int);
                            let a = c[k] as int;
                            assert(adj@[a]@[e] == Some(c[k + 1]));
                            lemma_row_links(adj@[a]@, 3);
                            let way = Link { to: c[k + 1], tag: e as u32 };
                            let at = row_links(adj@[a]@, 3).index_of(way);
                            assert(links@[a]@[at] == way);
                        }
                        assert(is_route(links@, c, tags, src as int, dst as int));
                    }
                }
            }
            None
        },
    }
}

/// An edge of triangle `a` across which `b` lies.
spec fn edge_between(adj: Seq<[Option<usize>; 3]>, a: int, b: int) -> int {
    choose|e: int| 0 <= e < 3 && (#[trigger] adj[a]@[e]) == Some(b as usize)
}

// --- Edge numbers -----------------------------------------------------------

/// Two edges have the same number exactly where they join the same two
/// vertices, either way round.
pub proof fn edge_numbers_tell_edges_apart(a: u32, b: u32, c: u32, d: u32)
    ensures
        edge_number(a, b) == edge_number(c, d) <==> (a == c && b == d) || (a == d && b == c),
{
}

/// Whether corners `e` and the next of a triangle are two given vertices,
/// either way round.
pub open spec fn joins(t: [u32; 3], e: int, a: u32, b: u32) -> bool {
    let (x, y) = (t@[e], t@[(e + 1) % 3]);
    (x == a && y == b) || (x == b && y == a)
}

/// The neighbor across an edge is the first other triangle that has the two
/// ends of the edge for ends of one of its own: where any does, there is one.
pub proof fn every_shared_edge_has_a_neighbor(
    triangles: Seq<[u32; 3]>,
    i: int,
    e: int,
    n: Option<usize>,
)
    requires
        0 <= i < triangles.len() <= usize::MAX,
        0 <= e < 3,
        is_neighbor(triangles, i, e, n),
    ensures
        ({
            let (a, b) = (triangles[i]@[e], triangles[i]@[(e + 1) % 3]);
            &&& n matches Some(j) ==> j < triangles.len() && j != i && exists|f: int|
                0 <= f < 3 && #[trigger] joins(triangles[j as int], f, a, b)
            &&& forall|j: int, f: int|
                0 <= j < triangles.len() && j != i && 0 <= f < 3 && #[trigger] joins(
                    triangles[j],
                    f,
                    a,
                    b,
                ) ==> (n matches Some(m) && m <= j)
        }),
{
    let (a, b) = (triangles[i]@[e], triangles[i]@[(e + 1) % 3]);
    let k = tri_edge(triangles[i], e);
    assert(k == edge_number(a, b));
    if let Some(j) = n {
        let t = triangles[j as int];
        let f = if tri_edge(t, 0) == k {
            0int
        } else if tri_edge(t, 1) == k {
            1
        } else {
            2
        };
        edge_numbers_tell_edges_apart(t@[f], t@[(f + 1) % 3], a, b);
        assert(joins(t, f, a, b));
    }
    assert forall|j: int, f: int|
        0 <= j < triangles.len() && j != i && 0 <= f < 3 && #[trigger] joins(
            triangles[j],
            f,
            a,
            b,
        ) implies (n matches Some(m) && m <= j) by {
        let t = triangles[j];
        edge_numbers_tell_edges_apart(t@[f], t@[(f + 1) % 3], a, b);
        assert(tri_edge(t, f) == k);
        assert(has_edge(t, k));
    }
}

/// A triangle that is not flat covers exactly the mixtures of its corners.
pub proof fn triangles_cover_their_mixtures(mesh: RegionNavMesh, i: int, p: Vertex)
    requires
        orient(mesh.corner_at(i, 0), mesh.corner_at(i, 1), mesh.corner_at(i, 2)) != 0,
    ensures
        covers(mesh, i, p) <==> is_mixture(
            mesh.corner_at(i, 0),
            mesh.corner_at(i, 1),
            mesh.corner_at(i, 2),
            p,
        ),
{
    let (a, b, c) = (mesh.corner_at(i, 0), mesh.corner_at(i, 1), mesh.corner_at(i, 2));
    areas_turn(a, b, p);
    areas_turn(b, c, p);
    areas_turn(c, a, p);
    mixtures_are_on_one_side(a, b, c, p);
}

} // verus!
