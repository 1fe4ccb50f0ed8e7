//! Layers of walkable floor stitched together along seams.
//!
//! Where two layers meet, both hold the same boundary edges, marked with the
//! same connection. Their ends are equal bit for bit, so partners are found
//! by comparing them exactly.

use crate::predicates::Vertex;
use crate::unionfind::{
    fresh_sets_are_alone, joined, joining_adds_a_pair, partition_of, root, UnionFind,
};
use std::collections::HashMap;
use vstd::prelude::*;

verus! {

/// Index of a layer in a world.
pub type LayerId = u32;

/// A point with a height; each coordinate is a binary64 bit pattern.
#[derive(Copy, Clone, Debug, PartialEq, Eq, Structural)]
pub struct Point3 {
    pub x: u64,
    pub y: u64,
    pub z: u64,
}

/// A triangle of a layer.
#[derive(Copy, Clone, Debug)]
pub struct LayerTriangle {
    /// The vertices at the ends of each edge.
    pub edges: [[u32; 2]; 3],
    /// The triangle across each edge, where the edge is no wall.
    pub neighbors: [u32; 3],
    /// Whether each edge is a wall within the layer.
    pub walls: [bool; 3],
    /// The region of the layer that the triangle belongs to.
    pub region: u32,
}

/// An edge on the boundary of a layer.
#[derive(Copy, Clone, Debug, PartialEq, Eq, Structural)]
pub struct BoundaryEdge {
    pub triangle: u32,
    pub from: u32,
    pub to: u32,
    /// The connection whose seam the edge belongs to.
    pub connection: Option<u32>,
}

/// A layer: its vertices, triangles, boundary and number of regions.
#[derive(Clone, Debug)]
pub struct LayerMesh {
    pub vertices: Vec<Point3>,
    pub triangles: Vec<LayerTriangle>,
    pub boundary: Vec<BoundaryEdge>,
    pub region_count: u32,
}

/// An edge of a triangle of a layer.
#[derive(Copy, Clone, Debug, PartialEq, Eq, Structural, Hash)]
pub struct EdgeRef {
    pub layer: LayerId,
    pub tri: u32,
    pub edge: u8,
}

/// The same edge as seen from two layers.
#[derive(Copy, Clone, Debug, PartialEq, Eq, Structural)]
pub struct SubEdge {
    pub a: EdgeRef,
    pub b: EdgeRef,
}

/// All matched edges of one connection.
#[derive(Clone, Debug)]
pub struct Connection {
    pub id: u32,
    pub sub_edges: Vec<SubEdge>,
}

/// Why layers could not be stitched.
#[derive(Copy, Clone, Debug, PartialEq, Eq, Structural)]
pub enum WorldBuildError {
    /// A seam edge has no partner.
    UnmatchedSeamEdge { connection: u32, layer: LayerId, from: Vertex, to: Vertex },
    /// More than two seam edges have the same connection and ends.
    AmbiguousSeamEdge { connection: u32, from: Vertex, to: Vertex },
}

// --- Layers -----------------------------------------------------------------

/// Whether edge `e` of a triangle runs from `from` to `to`.
pub open spec fn edge_is(t: LayerTriangle, e: int, from: u32, to: u32) -> bool {
    t.edges[e][0] == from && t.edges[e][1] == to
}

/// The first edge of a triangle that runs from `from` to `to`.
pub open spec fn edge_of(t: LayerTriangle, from: u32, to: u32) -> u8 {
    if edge_is(t, 0, from, to) {
        0
    } else if edge_is(t, 1, from, to) {
        1
    } else {
        2
    }
}

impl LayerMesh {
    /// Whether the ends of a triangle's edges are vertices, its region and its
    /// open neighbors exist.
    pub open spec fn triangle_fits(&self, t: LayerTriangle) -> bool {
        &&& t.region < self.region_count
        &&& forall|e: int|
            0 <= e < 3 ==> (#[trigger] t.edges[e])[0] < self.vertices@.len() && t.edges[e][1]
                < self.vertices@.len()
        &&& forall|e: int|
            0 <= e < 3 && !(#[trigger] t.walls[e]) ==> t.neighbors[e] < self.triangles@.len()
    }

    /// Whether a boundary edge is an edge of its triangle.
    pub open spec fn boundary_fits(&self, b: BoundaryEdge) -> bool {
        &&& b.triangle < self.triangles@.len()
        &&& exists|e: int|
            0 <= e < 3 && #[trigger] edge_is(
                self.triangles@[b.triangle as int],
                e,
                b.from,
                b.to,
            )
    }

    /// Indices are in range, and no boundary edge is listed twice.
    pub open spec fn wf(&self) -> bool {
        &&& self.triangles@.len() <= u32::MAX
        &&& forall|i: int|
            0 <= i < self.triangles@.len() ==> self.triangle_fits(#[trigger] self.triangles@[i])
        &&& forall|i: int|
            0 <= i < self.boundary@.len() ==> self.boundary_fits(#[trigger] self.boundary@[i])
        &&& forall|i: int, j: int|
            0 <= i < j < self.boundary@.len() ==> {
                let (a, b) = (#[trigger] self.boundary@[i], #[trigger] self.boundary@[j]);
                a.triangle != b.triangle || a.from != b.from || a.to != b.to
            }
    }
}

// --- Seam edges -------------------------------------------------------------

/// A seam edge with what it is matched by: its connection and its ends, the
/// lesser first.
#[derive(Copy, Clone, Debug, PartialEq, Eq, Structural)]
pub struct SeamEdge {
    pub edge: EdgeRef,
    pub connection: u32,
    pub low: Point3,
    pub high: Point3,
}

/// Order of points by their bit patterns.
pub open spec fn point_le(a: Point3, b: Point3) -> bool {
    a.x < b.x || (a.x == b.x && (a.y < b.y || (a.y == b.y && a.z <= b.z)))
}

/// The seam edge of a boundary edge with a connection.
pub open spec fn seam_edge_of(layer: LayerMesh, li: int, b: BoundaryEdge, connection: u32) -> SeamEdge {
    let (p, q) = (layer.vertices@[b.from as int], layer.vertices@[b.to as int]);
    SeamEdge {
        edge: EdgeRef {
            layer: li as u32,
            tri: b.triangle,
            edge: edge_of(layer.triangles@[b.triangle as int], b.from, b.to),
        },
        connection,
        low: if point_le(p, q) {
            p
        } else {
            q
        },
        high: if point_le(p, q) {
            q
        } else {
            p
        },
    }
}

/// The seam edges among the first `n` boundary edges of a layer.
pub open spec fn layer_seams(layer: LayerMesh, li: int, n: nat) -> Seq<SeamEdge>
    decreases n,
{
    if n == 0 {
        Seq::empty()
    } else {
        let before = layer_seams(layer, li, (n - 1) as nat);
        let b = layer.boundary@[n - 1];
        match b.connection {
            None => before,
            Some(c) => before.push(seam_edge_of(layer, li, b, c)),
        }
    }
}

/// The seam edges of the first `n` layers.
pub open spec fn seams_of(layers: Seq<LayerMesh>, n: nat) -> Seq<SeamEdge>
    decreases n,
{
    if n == 0 {
        Seq::empty()
    } else {
        seams_of(layers, (n - 1) as nat) + layer_seams(
            layers[n - 1],
            n - 1,
            layers[n - 1].boundary@.len(),
        )
    }
}

/// Whether two seam edges have the same connection and ends.
pub open spec fn same_seam(a: SeamEdge, b: SeamEdge) -> bool {
    a.connection == b.connection && a.low == b.low && a.high == b.high
}

/// How many of the first `n` seam edges match the `i`-th, itself counted.
pub open spec fn matches_of(seams: Seq<SeamEdge>, i: int, n: nat) -> nat
    decreases n,
{
    if n == 0 {
        0
    } else {
        matches_of(seams, i, (n - 1) as nat) + if same_seam(seams[i], seams[n - 1]) {
            1nat
        } else {
            0
        }
    }
}

/// The first seam edge from the `j`-th on that matches the `i`-th and is
/// another.
pub open spec fn partner_from(seams: Seq<SeamEdge>, i: int, j: nat) -> int
    decreases seams.len() - j,
{
    if j >= seams.len() {
        seams.len() as int
    } else if j != i && same_seam(seams[i], seams[j as int]) {
        j as int
    } else {
        partner_from(seams, i, j + 1)
    }
}

/// The partner of the `i`-th seam edge.
pub open spec fn partner(seams: Seq<SeamEdge>, i: int) -> int {
    partner_from(seams, i, 0)
}

/// Whether the first `n` seam edges have exactly one partner each.
pub open spec fn matched_to(seams: Seq<SeamEdge>, n: int) -> bool {
    forall|i: int| 0 <= i < n ==> #[trigger] matches_of(seams, i, seams.len()) == 2
}

fn point_at_most(a: Point3, b: Point3) -> (r: bool)
    ensures
        r == point_le(a, b),
{
    a.x < b.x || (a.x == b.x && (a.y < b.y || (a.y == b.y && a.z <= b.z)))
}

fn make_seam_edge(layer: &LayerMesh, li: u32, b: BoundaryEdge, connection: u32) -> (s: SeamEdge)
    requires
        layer.wf(),
        layer.boundary_fits(b),
    ensures
        s == seam_edge_of(*layer, li as int, b, connection),
{
    let t = layer.triangles[b.triangle as usize];
    proof {
        assert(layer.triangle_fits(layer.triangles@[b.triangle as int]));
        let e = choose|e: int|
            0 <= e < 3 && #[trigger] edge_is(
                layer.triangles@[b.triangle as int],
                e,
                b.from,
                b.to,
            );
        assert(t.edges[e][0] < layer.vertices@.len());
    }
    let edge: u8 = if t.edges[0][0] == b.from && t.edges[0][1] == b.to {
        0
    } else if t.edges[1][0] == b.from && t.edges[1][1] == b.to {
        1
    } else {
        2
    };
    let p = layer.vertices[b.from as usize];
    let q = layer.vertices[b.to as usize];
    let (low, high) = if point_at_most(p, q) {
        (p, q)
    } else {
        (q, p)
    };
    SeamEdge { edge: EdgeRef { layer: li, tri: b.triangle, edge }, connection, low, high }
}

/// Whether every layer is sound.
pub open spec fn layers_fit(layers: Seq<LayerMesh>) -> bool {
    forall|i: int| 0 <= i < layers.len() ==> (#[trigger] layers[i]).wf()
}

fn collect_seams(layers: &Vec<LayerMesh>) -> (out: Vec<SeamEdge>)
    requires
        layers_fit(layers@),
        layers@.len() <= u32::MAX,
    ensures
        out@ == seams_of(layers@, layers@.len()),
{
    let mut out: Vec<SeamEdge> = Vec::new();
    let mut li: usize = 0;
    while li < layers.len()
        invariant
            layers_fit(layers@),
            li <= layers@.len() <= u32::MAX,
            out@ == seams_of(layers@, li as nat),
        decreases layers.len() - li,
    {
        let layer = &layers[li];
        let ghost base = out@;
        assert(base + Seq::<SeamEdge>::empty() =~= base);
        let mut i: usize = 0;
        while i < layer.boundary.len()
            invariant
                layer.wf(),
                li < u32::MAX,
                i <= layer.boundary@.len(),
                out@ == base + layer_seams(*layer, li as int, i as nat),
            decreases layer.boundary.len() - i,
        {
            let b = layer.boundary[i];
            assert(layer.boundary_fits(layer.boundary@[i as int]));
            if let Some(c) = b.connection {
                let s = make_seam_edge(layer, li as u32, b, c);
                let ghost before = layer_seams(*layer, li as int, i as nat);
                out.push(s);
                assert(base + before.push(s) =~= (base + before).push(s));
            }
            i += 1;
        }
        li += 1;
    }
    out
}

/// How many seam edges match the `i`-th, and its partner.
fn find_partner(seams: &Vec<SeamEdge>, i: usize) -> (r: (usize, usize))
    requires
        i < seams@.len(),
    ensures
        r.0 == matches_of(seams@, i as int, seams@.len()),
        r.1 == partner(seams@, i as int),
        r.0 >= 1,
{
    let n: usize = seams.len();
    let me = seams[i];
    let mut count: usize = 0;
    let mut found: usize = n;
    let mut j: usize = 0;
    while j < n
        invariant
            n == seams@.len(),
            i < n,
            me == seams@[i as int],
            j <= n,
            count <= j,
            count == matches_of(seams@, i as int, j as nat),
            j > i ==> count >= 1,
            found == n ==> partner(seams@, i as int) == partner_from(seams@, i as int, j as nat),
            found != n ==> found == partner(seams@, i as int),
            found <= n,
        decreases n - j,
    {
        let s = seams[j];
        if me.connection == s.connection && me.low == s.low && me.high == s.high {
            count += 1;
            if j != i && found == n {
                found = j;
            }
        }
        j += 1;
    }
    (count, found)
}

// --- Partners ---------------------------------------------------------------

proof fn lemma_matches_grow(seams: Seq<SeamEdge>, i: int, m: nat, n: nat)
    requires
        m <= n,
    ensures
        matches_of(seams, i, m) <= matches_of(seams, i, n),
    decreases n - m,
{
    if m < n {
        lemma_matches_grow(seams, i, m, (n - 1) as nat);
    }
}

proof fn lemma_three_matches(seams: Seq<SeamEdge>, i: int, a: int, b: int, c: int)
    requires
        0 <= a < b < c < seams.len(),
        same_seam(seams[i], seams[a]),
        same_seam(seams[i], seams[b]),
        same_seam(seams[i], seams[c]),
    ensures
        matches_of(seams, i, seams.len()) >= 3,
{
    lemma_matches_grow(seams, i, (a + 1) as nat, b as nat);
    lemma_matches_grow(seams, i, (b + 1) as nat, c as nat);
    lemma_matches_grow(seams, i, (c + 1) as nat, seams.len());
}

proof fn lemma_one_match(seams: Seq<SeamEdge>, i: int, n: nat)
    requires
        n <= seams.len(),
        forall|j: int| 0 <= j < n && j != i ==> !same_seam(seams[i], #[trigger] seams[j]),
    ensures
        matches_of(seams, i, n) <= if i < n {
            1nat
        } else {
            0
        },
    decreases n,
{
    if n > 0 {
        lemma_one_match(seams, i, (n - 1) as nat);
    }
}

proof fn lemma_partner_from(seams: Seq<SeamEdge>, i: int, j: nat)
    ensures
        ({
            let p = partner_from(seams, i, j);
            &&& j <= seams.len() ==> j <= p <= seams.len()
            &&& j <= p < seams.len() ==> p != i && same_seam(seams[i], seams[p])
            &&& forall|k: int|
                j <= k < p && k < seams.len() && k != i ==> !same_seam(
                    seams[i],
                    #[trigger] seams[k],
                )
        }),
    decreases seams.len() - j,
{
    if j < seams.len() && !(j != i && same_seam(seams[i], seams[j as int])) {
        lemma_partner_from(seams, i, j + 1);
    }
}

/// A seam edge with exactly one match besides itself has a partner, whose
/// partner it is.
pub proof fn partners_are_mutual(seams: Seq<SeamEdge>, i: int)
    requires
        matched_to(seams, seams.len() as int),
        0 <= i < seams.len(),
    ensures
        ({
            let p = partner(seams, i);
            &&& 0 <= p < seams.len()
            &&& p != i
            &&& same_seam(seams[i], seams[p])
            &&& partner(seams, p) == i
        }),
{
    assert(matches_of(seams, i, seams.len()) == 2);
    lemma_partner_from(seams, i, 0);
    let p = partner(seams, i);
    if p >= seams.len() {
        lemma_one_match(seams, i, seams.len());
    }
    lemma_partner_from(seams, p, 0);
    let q = partner(seams, p);
    assert(matches_of(seams, p, seams.len()) == 2);
    if q >= seams.len() {
        lemma_one_match(seams, p, seams.len());
    }
    if q != i {
        let (a, b) = if i < p {
            (i, p)
        } else {
            (p, i)
        };
        if q < a {
            lemma_three_matches(seams, i, q, a, b);
        } else if q < b {
            lemma_three_matches(seams, i, a, q, b);
        } else {
            lemma_three_matches(seams, i, a, b, q);
        }
    }
}

// --- Links ------------------------------------------------------------------

/// A number for each edge of each triangle.
pub open spec fn ref_code(r: EdgeRef) -> int {
    (r.layer * 0x1_0000_0000 + r.tri) * 0x100 + r.edge
}

/// Different edges have different numbers.
pub proof fn ref_codes_differ(a: EdgeRef, b: EdgeRef)
    requires
        ref_code(a) == ref_code(b),
    ensures
        a == b,
{
}

fn code_of(r: EdgeRef) -> (n: u128)
    ensures
        n == ref_code(r),
{
    (r.layer as u128 * 0x1_0000_0000 + r.tri as u128) * 0x100 + r.edge as u128
}

/// Whether the links lead from each of the first `n` seam edges to its
/// partner, and from no other edge.
pub open spec fn links_to(links: Map<u128, EdgeRef>, seams: Seq<SeamEdge>, n: int) -> bool {
    &&& forall|i: int|
        0 <= i < n ==> links.contains_key(ref_code((#[trigger] seams[i]).edge) as u128)
            && links[ref_code(seams[i].edge) as u128] == seams[partner(seams, i)].edge
    &&& forall|k: u128| #[trigger]
        links.contains_key(k) ==> exists|i: int|
            0 <= i < n && k == ref_code((#[trigger] seams[i]).edge)
}

/// Whether no two seam edges are the same edge.
pub open spec fn edges_distinct(seams: Seq<SeamEdge>) -> bool {
    forall|i: int, j: int|
        0 <= i < j < seams.len() ==> (#[trigger] seams[i]).edge != (#[trigger] seams[j]).edge
}

proof fn lemma_layer_seams(layer: LayerMesh, li: int, n: nat)
    requires
        layer.wf(),
        n <= layer.boundary@.len(),
        0 <= li <= u32::MAX,
    ensures
        edges_distinct(layer_seams(layer, li, n)),
        forall|i: int|
            0 <= i < layer_seams(layer, li, n).len() ==> {
                let s = #[trigger] layer_seams(layer, li, n)[i];
                &&& s.edge.layer == li
                &&& s.edge.tri < layer.triangles@.len()
                &&& s.edge.edge < 3
                &&& exists|j: int|
                    0 <= j < n && s.edge.tri == (#[trigger] layer.boundary@[j]).triangle && edge_is(
                        layer.triangles@[s.edge.tri as int],
                        s.edge.edge as int,
                        layer.boundary@[j].from,
                        layer.boundary@[j].to,
                    )
            },
    decreases n,
{
    if n > 0 {
        lemma_layer_seams(layer, li, (n - 1) as nat);
        let before = layer_seams(layer, li, (n - 1) as nat);
        let all = layer_seams(layer, li, n);
        let b = layer.boundary@[n - 1];
        assert(layer.boundary_fits(b));
        if let Some(c) = b.connection {
            let last = seam_edge_of(layer, li, b, c);
            let t = layer.triangles@[b.triangle as int];
            assert(edge_is(t, last.edge.edge as int, b.from, b.to));
            assert forall|i: int| 0 <= i < before.len() implies (#[trigger] before[i]).edge
                != last.edge by {
                let s = before[i];
                let j = choose|j: int|
                    0 <= j < n - 1 && s.edge.tri == (#[trigger] layer.boundary@[j]).triangle
                        && edge_is(
                        layer.triangles@[s.edge.tri as int],
                        s.edge.edge as int,
                        layer.boundary@[j].from,
                        layer.boundary@[j].to,
                    );
                assert(layer.boundary@[j].triangle != b.triangle || layer.boundary@[j].from
                    != b.from || layer.boundary@[j].to != b.to);
            }
            assert forall|i: int| 0 <= i < all.len() implies {
                let s = #[trigger] all[i];
                &&& s.edge.layer == li
                &&& s.edge.tri < layer.triangles@.len()
                &&& s.edge.edge < 3
                &&& exists|j: int|
                    0 <= j < n && s.edge.tri == (#[trigger] layer.boundary@[j]).triangle && edge_is(
                        layer.triangles@[s.edge.tri as int],
                        s.edge.edge as int,
                        layer.boundary@[j].from,
                        layer.boundary@[j].to,
                    )
            } by {
                if i < before.len() {
                    assert(all[i] == before[i]);
                } else {
                    assert(layer.boundary@[n - 1].triangle == last.edge.tri);
                }
            }
        }
    }
}

proof fn lemma_seams_of(layers: Seq<LayerMesh>, n: nat)
    requires
        layers_fit(layers),
        n <= layers.len() <= u32::MAX,
    ensures
        edges_distinct(seams_of(layers, n)),
        forall|i: int|
            0 <= i < seams_of(layers, n).len() ==> {
                let e = (#[trigger] seams_of(layers, n)[i]).edge;
                &&& e.layer < n
                &&& e.tri < layers[e.layer as int].triangles@.len()
                &&& e.edge < 3
            },
    decreases n,
{
    if n > 0 {
        lemma_seams_of(layers, (n - 1) as nat);
        assert(layers[n - 1].wf());
        lemma_layer_seams(layers[n - 1], n - 1, layers[n - 1].boundary@.len());
        let before = seams_of(layers, (n - 1) as nat);
        let more = layer_seams(layers[n - 1], n - 1, layers[n - 1].boundary@.len());
        let all = seams_of(layers, n);
        assert forall|i: int| 0 <= i < all.len() implies all[i] == if i < before.len() {
            before[i]
        } else {
            more[i - before.len()]
        } by {}
        assert forall|i: int, j: int| 0 <= i < j < all.len() implies (#[trigger] all[i]).edge != (
        #[trigger] all[j]).edge by {
            if j < before.len() {
                assert(before[i].edge != before[j].edge);
            } else if i < before.len() {
                assert(before[i].edge.layer < n - 1);
                assert(more[j - before.len()].edge.layer == n - 1);
            } else {
                assert(more[i - before.len()].edge != more[j - before.len()].edge);
            }
        }
        assert forall|i: int| 0 <= i < all.len() implies {
            let e = (#[trigger] all[i]).edge;
            &&& e.layer < n
            &&& e.tri < layers[e.layer as int].triangles@.len()
            &&& e.edge < 3
        } by {
            if i < before.len() {
                assert(all[i] == before[i]);
            } else {
                assert(all[i] == more[i - before.len()]);
            }
        }
    }
}

/// The positions at the ends of an edge.
pub open spec fn ends_of(layers: Seq<LayerMesh>, r: EdgeRef) -> (Vertex, Vertex) {
    let layer = layers[r.layer as int];
    let e = layer.triangles@[r.tri as int].edges[r.edge as int];
    let (p, q) = (layer.vertices@[e[0] as int], layer.vertices@[e[1] as int]);
    (Vertex { x: p.x, y: p.y }, Vertex { x: q.x, y: q.y })
}

/// What is wrong with the `i`-th seam edge: it matches no other, or more than
/// one.
pub open spec fn seam_fault(layers: Seq<LayerMesh>, seams: Seq<SeamEdge>, i: int) -> WorldBuildError {
    let s = seams[i];
    let (from, to) = ends_of(layers, s.edge);
    if matches_of(seams, i, seams.len()) <= 1 {
        WorldBuildError::UnmatchedSeamEdge {
            connection: s.connection,
            layer: s.edge.layer,
            from,
            to,
        }
    } else {
        WorldBuildError::AmbiguousSeamEdge { connection: s.connection, from, to }
    }
}

fn edge_ends(layers: &Vec<LayerMesh>, r: EdgeRef) -> (e: (Vertex, Vertex))
    requires
        layers_fit(layers@),
        r.layer < layers@.len(),
        r.tri < layers@[r.layer as int].triangles@.len(),
        r.edge < 3,
    ensures
        e == ends_of(layers@, r),
{
    let layer = &layers[r.layer as usize];
    assert(layer.wf());
    assert(layer.triangle_fits(layer.triangles@[r.tri as int]));
    let t = layer.triangles[r.tri as usize];
    let ends = t.edges[r.edge as usize];
    assert(t.edges[r.edge as int][0] < layer.vertices@.len());
    let p = layer.vertices[ends[0] as usize];
    let q = layer.vertices[ends[1] as usize];
    (Vertex::new(p.x, p.y), Vertex::new(q.x, q.y))
}

/// The matched edges with their connection: each pair once, from the seam edge
/// that comes first.
pub open spec fn pairs_to(seams: Seq<SeamEdge>, n: nat) -> Seq<(u32, SubEdge)>
    decreases n,
{
    if n == 0 {
        Seq::empty()
    } else {
        let before = pairs_to(seams, (n - 1) as nat);
        let i = n - 1;
        let j = partner(seams, i);
        if i < j {
            before.push(
                (seams[i].connection, SubEdge { a: seams[i].edge, b: seams[j].edge }),
            )
        } else {
            before
        }
    }
}

/// Match every seam edge with its partner, or say what is wrong with the
/// first that has not exactly one.
fn match_seams(layers: &Vec<LayerMesh>, seams: &Vec<SeamEdge>) -> (r: Result<
    (HashMap<u128, EdgeRef>, Vec<(u32, SubEdge)>),
    WorldBuildError,
>)
    requires
        layers_fit(layers@),
        layers@.len() <= u32::MAX,
        seams@ == seams_of(layers@, layers@.len()),
    ensures
        match r {
            Ok((links, pairs)) => {
                &&& matched_to(seams@, seams@.len() as int)
                &&& links_to(links@, seams@, seams@.len() as int)
                &&& pairs@ == pairs_to(seams@, seams@.len())
            },
            Err(e) => exists|i: int|
                0 <= i < seams@.len() && matched_to(seams@, i) && matches_of(
                    seams@,
                    i,
                    seams@.len(),
                ) != 2 && e == #[trigger] seam_fault(layers@, seams@, i),
        },
{
    broadcast use vstd::std_specs::hash::group_hash_axioms;

    proof {
        lemma_seams_of(layers@, layers@.len());
    }
    let mut i: usize = 0;
    while i < seams.len()
        invariant
            layers_fit(layers@),
            layers@.len() <= u32::MAX,
            seams@ == seams_of(layers@, layers@.len()),
            forall|k: int|
                0 <= k < seams@.len() ==> {
                    let e = (#[trigger] seams@[k]).edge;
                    &&& e.layer < layers@.len()
                    &&& e.tri < layers@[e.layer as int].triangles@.len()
                    &&& e.edge < 3
                },
            i <= seams@.len(),
            matched_to(seams@, i as int),
        decreases seams.len() - i,
    {
        let (count, _) = find_partner(seams, i);
        if count != 2 {
            let s = seams[i];
            let (from, to) = edge_ends(layers, s.edge);
            let e = if count <= 1 {
                WorldBuildError::UnmatchedSeamEdge {
                    connection: s.connection,
                    layer: s.edge.layer,
                    from,
                    to,
                }
            } else {
                WorldBuildError::AmbiguousSeamEdge { connection: s.connection, from, to }
            };
            assert(e == seam_fault(layers@, seams@, i as int));
            return Err(e);
        }
        i += 1;
    }
    let mut links: HashMap<u128, EdgeRef> = HashMap::new();
    let mut pairs: Vec<(u32, SubEdge)> = Vec::new();
    let mut k: usize = 0;
    while k < seams.len()
        invariant
            k <= seams@.len(),
            matched_to(seams@, seams@.len() as int),
            edges_distinct(seams@),
            links_to(links@, seams@, k as int),
            pairs@ == pairs_to(seams@, k as nat),
        decreases seams.len() - k,
    {
        broadcast use vstd::std_specs::hash::group_hash_axioms;

        let (_, j) = find_partner(seams, k);
        proof {
            partners_are_mutual(seams@, k as int);
        }
        let here = seams[k].edge;
        let there = seams[j].edge;
        let ghost before = links@;
        links.insert(code_of(here), there);
        proof {
            assert forall|i: int| 0 <= i < k + 1 implies links@.contains_key(
                ref_code((#[trigger] seams@[i]).edge) as u128,
            ) && links@[ref_code(seams@[i].edge) as u128] == seams@[partner(seams@, i)].edge by {
                if i < k {
                    assert(seams@[i].edge != seams@[k as int].edge);
                    if ref_code(seams@[i].edge) == ref_code(here) {
                        ref_codes_differ(seams@[i].edge, here);
                    }
                    assert(before.contains_key(ref_code(seams@[i].edge) as u128));
                }
            }
            assert forall|c: u128| #[trigger] links@.contains_key(c) implies exists|i: int|
                0 <= i < k + 1 && c == ref_code((#[trigger] seams@[i]).edge) by {
                if c == ref_code(here) {
                    assert(c == ref_code(seams@[k as int].edge));
                } else {
                    assert(before.contains_key(c));
                }
            }
        }
        if k < j {
            pairs.push((seams[k].connection, SubEdge { a: here, b: there }));
        }
        k += 1;
    }
    Ok((links, pairs))
}

// --- Connections ------------------------------------------------------------

/// The matched edges of connection `id` among the first `n` pairs.
pub open spec fn edges_of(pairs: Seq<(u32, SubEdge)>, id: u32, n: nat) -> Seq<SubEdge>
    decreases n,
{
    if n == 0 {
        Seq::empty()
    } else {
        let before = edges_of(pairs, id, (n - 1) as nat);
        if pairs[n - 1].0 == id {
            before.push(pairs[n - 1].1)
        } else {
            before
        }
    }
}

/// Whether the connections, in ascending order, hold the matched edges of the
/// first `n` pairs.
pub open spec fn grouped(conns: Seq<Connection>, pairs: Seq<(u32, SubEdge)>, n: nat) -> bool {
    &&& forall|i: int, j: int|
        0 <= i < j < conns.len() ==> (#[trigger] conns[i]).id < (#[trigger] conns[j]).id
    &&& forall|i: int|
        0 <= i < conns.len() ==> (#[trigger] conns[i]).sub_edges@ == edges_of(
            pairs,
            conns[i].id,
            n,
        )
    &&& forall|k: int|
        0 <= k < n ==> exists|i: int|
            0 <= i < conns.len() && (#[trigger] conns[i]).id == (#[trigger] pairs[k]).0
    &&& forall|i: int| 0 <= i < conns.len() ==> (#[trigger] conns[i]).sub_edges@.len() > 0
}

proof fn lemma_no_edges(pairs: Seq<(u32, SubEdge)>, id: u32, n: nat)
    requires
        forall|k: int| 0 <= k < n ==> (#[trigger] pairs[k]).0 != id,
    ensures
        edges_of(pairs, id, n) =~= Seq::empty(),
    decreases n,
{
    if n > 0 {
        lemma_no_edges(pairs, id, (n - 1) as nat);
    }
}

fn group_pairs(pairs: &Vec<(u32, SubEdge)>) -> (conns: Vec<Connection>)
    ensures
        grouped(conns@, pairs@, pairs@.len()),
{
    let mut conns: Vec<Connection> = Vec::new();
    let mut k: usize = 0;
    while k < pairs.len()
        invariant
            k <= pairs@.len(),
            grouped(conns@, pairs@, k as nat),
        decreases pairs.len() - k,
    {
        let (id, sub) = pairs[k];
        let mut at: usize = 0;
        while at < conns.len() && conns[at].id < id
            invariant
                at <= conns@.len(),
                forall|i: int| 0 <= i < at ==> (#[trigger] conns@[i]).id < id,
            decreases conns.len() - at,
        {
            at += 1;
        }
        let ghost before = conns@;
        if at < conns.len() && conns[at].id == id {
            conns[at].sub_edges.push(sub);
            proof {
                assert(conns@[at as int].sub_edges@ == before[at as int].sub_edges@.push(sub));
                assert forall|i: int| 0 <= i < conns@.len() implies (
                #[trigger] conns@[i]).sub_edges@ == edges_of(
                    pairs@,
                    conns@[i].id,
                    (k + 1) as nat,
                ) && conns@[i].id == before[i].id && conns@[i].sub_edges@.len() > 0 by {
                    if i != at {
                        assert(conns@[i] == before[i]);
                        assert(before[i].id != id) by {
                            if i < at {
                                assert(before[i].id < before[at as int].id);
                            } else {
                                assert(before[at as int].id < before[i].id);
                            }
                        }
                    }
                }
                assert forall|m: int| 0 <= m < k + 1 implies exists|i: int|
                    0 <= i < conns@.len() && (#[trigger] conns@[i]).id == (
                    #[trigger] pairs@[m]).0 by {
                    if m < k {
                        let i = choose|i: int|
                            0 <= i < before.len() && (#[trigger] before[i]).id == pairs@[m].0;
                        assert(conns@[i].id == before[i].id);
                    } else {
                        assert(conns@[at as int].id == pairs@[m].0);
                    }
                }
                assert forall|i: int, j: int| 0 <= i < j < conns@.len() implies (
                #[trigger] conns@[i]).id < (#[trigger] conns@[j]).id by {
                    assert(before[i].id < before[j].id);
                }
            }
        } else {
            let mut fresh: Vec<SubEdge> = Vec::new();
            fresh.push(sub);
            proof {
                assert forall|m: int| 0 <= m < k implies (#[trigger] pairs@[m]).0 != id by {
                    let i = choose|i: int|
                        0 <= i < before.len() && (#[trigger] before[i]).id == pairs@[m].0;
                    if i < at {
                        assert(before[i].id < id);
                    } else if i > at {
                        assert(before[at as int].id < before[i].id);
                    }
                }
                lemma_no_edges(pairs@, id, k as nat);
                assert(fresh@ =~= edges_of(pairs@, id, (k + 1) as nat));
            }
            conns.insert(at, Connection { id, sub_edges: fresh });
            proof {
                assert forall|i: int| 0 <= i < conns@.len() implies conns@[i] == if i < at {
                    before[i]
                } else if i == at {
                    conns@[at as int]
                } else {
                    before[i - 1]
                } by {}
                assert forall|i: int, j: int| 0 <= i < j < conns@.len() implies (
                #[trigger] conns@[i]).id < (#[trigger] conns@[j]).id by {
                    let bi = if i < at {
                        i
                    } else {
                        i - 1
                    };
                    let bj = if j < at {
                        j
                    } else {
                        j - 1
                    };
                    if i == at {
                        assert(before[at as int].id > id);
                        if j > at + 1 {
                            assert(before[at as int].id < before[bj].id);
                        }
                    } else if j == at {
                        assert(before[i].id < id);
                    } else {
                        assert(before[bi].id < before[bj].id);
                    }
                }
                assert forall|i: int| 0 <= i < conns@.len() implies (
                #[trigger] conns@[i]).sub_edges@ == edges_of(
                    pairs@,
                    conns@[i].id,
                    (k + 1) as nat,
                ) && conns@[i].sub_edges@.len() > 0 by {
                    if i < at {
                        assert(conns@[i] == before[i]);
                        assert(before[i].id < id);
                    } else if i > at {
                        assert(conns@[i] == before[i - 1]);
                        assert(before[i - 1].id != id) by {
                            if i - 1 > at {
                                assert(before[at as int].id < before[i - 1].id);
                            }
                        }
                    }
                }
                assert forall|m: int| 0 <= m < k + 1 implies exists|i: int|
                    0 <= i < conns@.len() && (#[trigger] conns@[i]).id == (
                    #[trigger] pairs@[m]).0 by {
                    if m < k {
                        let i = choose|i: int|
                            0 <= i < before.len() && (#[trigger] before[i]).id == pairs@[m].0;
                        if i < at {
                            assert(conns@[i] == before[i]);
                        } else {
                            assert(conns@[i + 1] == before[i]);
                        }
                    } else {
                        assert(conns@[at as int].id == pairs@[m].0);
                    }
                }
            }
        }
        k += 1;
    }
    conns
}

// --- Regions and offsets ----------------------------------------------------

/// How many regions the first `n` layers have.
pub open spec fn regions_before(layers: Seq<LayerMesh>, n: nat) -> nat
    decreases n,
{
    if n == 0 {
        0
    } else {
        regions_before(layers, (n - 1) as nat) + layers[n - 1].region_count as nat
    }
}

/// How many triangles the first `n` layers have.
pub open spec fn triangles_before(layers: Seq<LayerMesh>, n: nat) -> nat
    decreases n,
{
    if n == 0 {
        0
    } else {
        triangles_before(layers, (n - 1) as nat) + layers[n - 1].triangles@.len()
    }
}

proof fn lemma_regions_grow(layers: Seq<LayerMesh>, m: nat, n: nat)
    requires
        m <= n,
    ensures
        regions_before(layers, m) <= regions_before(layers, n),
    decreases n - m,
{
    if m < n {
        lemma_regions_grow(layers, m, (n - 1) as nat);
    }
}

proof fn lemma_triangles_grow(layers: Seq<LayerMesh>, m: nat, n: nat)
    requires
        m <= n,
    ensures
        triangles_before(layers, m) <= triangles_before(layers, n),
    decreases n - m,
{
    if m < n {
        lemma_triangles_grow(layers, m, (n - 1) as nat);
    }
}

/// The number of the region of a triangle among all layers.
pub open spec fn region_number(layers: Seq<LayerMesh>, layer: u32, tri: u32) -> int {
    regions_before(layers, layer as nat) + layers[layer as int].triangles@[tri as int].region
}

/// The regions that the matched edges join.
pub open spec fn region_pairs(layers: Seq<LayerMesh>, pairs: Seq<(u32, SubEdge)>) -> Seq<
    (usize, usize),
> {
    Seq::new(
        pairs.len(),
        |k: int|
            (
                region_number(layers, pairs[k].1.a.layer, pairs[k].1.a.tri) as usize,
                region_number(layers, pairs[k].1.b.layer, pairs[k].1.b.tri) as usize,
            ),
    )
}

/// Whether an edge is one of a world's triangles.
pub open spec fn ref_fits(layers: Seq<LayerMesh>, r: EdgeRef) -> bool {
    r.layer < layers.len() && r.tri < layers[r.layer as int].triangles@.len() && r.edge < 3
}

proof fn lemma_region_number(layers: Seq<LayerMesh>, layer: u32, tri: u32)
    requires
        layers_fit(layers),
        layer < layers.len(),
        tri < layers[layer as int].triangles@.len(),
    ensures
        0 <= region_number(layers, layer, tri) < regions_before(layers, layers.len()),
        layers[layer as int].triangles@[tri as int].region < layers[layer as int].region_count,
{
    assert(layers[layer as int].wf());
    assert(layers[layer as int].triangle_fits(layers[layer as int].triangles@[tri as int]));
    lemma_regions_grow(layers, (layer + 1) as nat, layers.len());
}

proof fn lemma_pairs_fit(layers: Seq<LayerMesh>, seams: Seq<SeamEdge>, n: nat)
    requires
        layers_fit(layers),
        layers.len() <= u32::MAX,
        seams == seams_of(layers, layers.len()),
        matched_to(seams, seams.len() as int),
        n <= seams.len(),
    ensures
        forall|k: int|
            0 <= k < pairs_to(seams, n).len() ==> ref_fits(
                layers,
                (#[trigger] pairs_to(seams, n)[k]).1.a,
            ) && ref_fits(layers, pairs_to(seams, n)[k].1.b),
    decreases n,
{
    if n > 0 {
        lemma_pairs_fit(layers, seams, (n - 1) as nat);
        lemma_seams_of(layers, layers.len());
        partners_are_mutual(seams, n - 1);
        let before = pairs_to(seams, (n - 1) as nat);
        let all = pairs_to(seams, n);
        let j = partner(seams, n - 1);
        assert(ref_fits(layers, seams[n - 1].edge));
        assert(ref_fits(layers, seams[j].edge));
        assert forall|k: int| 0 <= k < all.len() implies ref_fits(layers, (#[trigger] all[k]).1.a)
            && ref_fits(layers, all[k].1.b) by {
            if k < before.len() {
                assert(all[k] == before[k]);
            }
        }
    }
}

/// Whether the components say which regions the pairs join.
pub open spec fn components_of(
    component: Seq<Vec<u32>>,
    layers: Seq<LayerMesh>,
    pairs: Seq<(usize, usize)>,
) -> bool {
    &&& component.len() == layers.len()
    &&& forall|l: int|
        0 <= l < layers.len() ==> (#[trigger] component[l])@.len() == layers[l].region_count
    &&& forall|l: int, r: int, m: int, s: int|
        0 <= l < layers.len() && 0 <= r < layers[l].region_count && 0 <= m < layers.len() && 0 <= s
            < layers[m].region_count ==> (#[trigger] component[l]@[r] == #[trigger] component[m]@[s]
            <==> joined(
            pairs,
            regions_before(layers, l as nat) + r,
            regions_before(layers, m as nat) + s,
        ))
}

/// Number the regions of all layers so that two have the same number exactly
/// where seams join them.
fn find_components(layers: &Vec<LayerMesh>, pairs: &Vec<(u32, SubEdge)>) -> (component: Vec<
    Vec<u32>,
>)
    requires
        layers_fit(layers@),
        layers@.len() <= u32::MAX,
        regions_before(layers@, layers@.len()) <= u32::MAX,
        forall|k: int|
            0 <= k < pairs@.len() ==> ref_fits(layers@, (#[trigger] pairs@[k]).1.a) && ref_fits(
                layers@,
                pairs@[k].1.b,
            ),
    ensures
        components_of(component@, layers@, region_pairs(layers@, pairs@)),
{
    let mut offsets: Vec<usize> = Vec::new();
    let mut total: usize = 0;
    let mut l: usize = 0;
    while l < layers.len()
        invariant
            l <= layers@.len(),
            regions_before(layers@, layers@.len()) <= u32::MAX,
            total == regions_before(layers@, l as nat),
            offsets@.len() == l,
            forall|k: int| 0 <= k < l ==> #[trigger] offsets@[k] == regions_before(layers@, k as nat),
        decreases layers.len() - l,
    {
        proof {
            lemma_regions_grow(layers@, (l + 1) as nat, layers@.len());
        }
        offsets.push(total);
        total += layers[l].region_count as usize;
        l += 1;
    }
    let ghost all = region_pairs(layers@, pairs@);
    let mut uf = UnionFind::new(total);
    proof {
        fresh_sets_are_alone(uf@);
        assert(all.take(0) =~= Seq::empty());
    }
    let mut k: usize = 0;
    while k < pairs.len()
        invariant
            layers_fit(layers@),
            regions_before(layers@, layers@.len()) <= u32::MAX,
            total == regions_before(layers@, layers@.len()),
            offsets@.len() == layers@.len(),
            forall|k: int|
                0 <= k < offsets@.len() ==> #[trigger] offsets@[k] == regions_before(
                    layers@,
                    k as nat,
                ),
            forall|k: int|
                0 <= k < pairs@.len() ==> ref_fits(layers@, (#[trigger] pairs@[k]).1.a) && ref_fits(
                    layers@,
                    pairs@[k].1.b,
                ),
            all == region_pairs(layers@, pairs@),
            k <= pairs@.len(),
            uf.wf(),
            uf@.len() == total,
            partition_of(uf@, all.take(k as int)),
        decreases pairs.len() - k,
    {
        let sub = pairs[k].1;
        assert(ref_fits(layers@, pairs@[k as int].1.a));
        proof {
            lemma_region_number(layers@, sub.a.layer, sub.a.tri);
            lemma_region_number(layers@, sub.b.layer, sub.b.tri);
        }
        let ra: usize = offsets[sub.a.layer as usize] + layers[sub.a.layer as usize].triangles[
            sub.a.tri as usize
        ].region as usize;
        let rb: usize = offsets[sub.b.layer as usize] + layers[sub.b.layer as usize].triangles[
            sub.b.tri as usize
        ].region as usize;
        let ghost before = uf@;
        uf.union(ra, rb);
        proof {
            joining_adds_a_pair(before, uf@, all.take(k as int), ra, rb);
            assert(all.take(k + 1) =~= all.take(k as int).push((ra, rb)));
        }
        k += 1;
    }
    assert(all.take(k as int) =~= all);
    let ghost parent = uf@;
    let mut component: Vec<Vec<u32>> = Vec::new();
    let mut m: usize = 0;
    while m < layers.len()
        invariant
            total == regions_before(layers@, layers@.len()),
            total <= u32::MAX,
            offsets@.len() == layers@.len(),
            forall|k: int|
                0 <= k < offsets@.len() ==> #[trigger] offsets@[k] == regions_before(
                    layers@,
                    k as nat,
                ),
            m <= layers@.len(),
            uf.wf(),
            uf@.len() == total,
            parent.len() == total,
            forall|y: int| 0 <= y < total ==> #[trigger] root(uf@, y) == root(parent, y),
            component@.len() == m,
            forall|l: int|
                0 <= l < m ==> (#[trigger] component@[l])@.len() == layers@[l].region_count,
            forall|l: int, r: int|
                0 <= l < m && 0 <= r < layers@[l].region_count ==> #[trigger] component@[l]@[r]
                    == root(parent, regions_before(layers@, l as nat) + r),
        decreases layers.len() - m,
    {
        proof {
            lemma_regions_grow(layers@, (m + 1) as nat, layers@.len());
        }
        let mut list: Vec<u32> = Vec::new();
        let n: u32 = layers[m].region_count;
        let mut r: u32 = 0;
        while r < n
            invariant
                m < layers@.len(),
                n == layers@[m as int].region_count,
                r <= n,
                total <= u32::MAX,
                offsets@[m as int] == regions_before(layers@, m as nat),
                m < offsets@.len(),
                offsets@[m as int] + n <= total,
                uf.wf(),
                uf@.len() == total,
                parent.len() == total,
                forall|y: int| 0 <= y < total ==> #[trigger] root(uf@, y) == root(parent, y),
                list@.len() == r,
                forall|k: int|
                    0 <= k < r ==> #[trigger] list@[k] == root(
                        parent,
                        regions_before(layers@, m as nat) + k,
                    ),
            decreases n - r,
        {
            let x: usize = offsets[m] + r as usize;
            let ghost before = uf@;
            let c: usize = uf.find(x);
            proof {
                assert(root(before, x as int) == root(parent, x as int));
                assert forall|y: int| 0 <= y < total implies #[trigger] root(uf@, y) == root(
                    parent,
                    y,
                ) by {
                    assert(root(uf@, y) == root(before, y));
                }
            }
            list.push(c as u32);
            r += 1;
        }
        component.push(list);
        m += 1;
    }
    proof {
        assert forall|l: int, r: int, m: int, s: int|
            0 <= l < layers@.len() && 0 <= r < layers@[l].region_count && 0 <= m < layers@.len() && 0
                <= s < layers@[m].region_count implies (#[trigger] component@[l]@[r]
            == #[trigger] component@[m]@[s] <==> joined(
            all,
            regions_before(layers@, l as nat) + r,
            regions_before(layers@, m as nat) + s,
        )) by {
            lemma_regions_grow(layers@, (l + 1) as nat, layers@.len());
            lemma_regions_grow(layers@, (m + 1) as nat, layers@.len());
            let (x, y) = (
                regions_before(layers@, l as nat) + r,
                regions_before(layers@, m as nat) + s,
            );
            assert(joined(all, x, y) <==> root(parent, x) == root(parent, y));
            assert(component@[l]@[r] == root(parent, x));
            assert(component@[m]@[s] == root(parent, y));
        }
    }
    component
}

// --- The world --------------------------------------------------------------

/// Stitched layers, with the table of crossings and the regions joined by
/// them.
#[derive(Debug)]
pub struct World {
    pub layers: Vec<LayerMesh>,
    pub connections: Vec<Connection>,
    /// The partner of each seam edge, by the number of the edge.
    pub links: HashMap<u128, EdgeRef>,
    /// For each layer and region the number of its component.
    pub component: Vec<Vec<u32>>,
    /// How many triangles come before those of each layer.
    pub tri_offset: Vec<usize>,
    pub total_triangles: usize,
}

/// Whether layers are small enough to be counted together.
pub open spec fn countable(layers: Seq<LayerMesh>) -> bool {
    &&& layers.len() <= u32::MAX
    &&& regions_before(layers, layers.len()) <= u32::MAX
    &&& triangles_before(layers, layers.len()) <= usize::MAX
}

impl World {
    /// The seam edges of all layers.
    pub open spec fn seams(&self) -> Seq<SeamEdge> {
        seams_of(self.layers@, self.layers@.len())
    }

    /// The matched edges of all layers.
    pub open spec fn pairs(&self) -> Seq<(u32, SubEdge)> {
        pairs_to(self.seams(), self.seams().len())
    }

    /// Every seam edge has its partner, and the tables say what the layers
    /// hold.
    pub open spec fn wf(&self) -> bool {
        let n = self.layers@.len();
        &&& layers_fit(self.layers@)
        &&& countable(self.layers@)
        &&& matched_to(self.seams(), self.seams().len() as int)
        &&& links_to(self.links@, self.seams(), self.seams().len() as int)
        &&& grouped(self.connections@, self.pairs(), self.pairs().len())
        &&& components_of(
            self.component@,
            self.layers@,
            region_pairs(self.layers@, self.pairs()),
        )
        &&& self.tri_offset@.len() == n
        &&& forall|l: int|
            0 <= l < n ==> #[trigger] self.tri_offset@[l] == triangles_before(
                self.layers@,
                l as nat,
            )
        &&& self.total_triangles == triangles_before(self.layers@, n)
    }

    /// Whether a triangle is one of the world's.
    pub open spec fn has(&self, layer: u32, tri: u32) -> bool {
        layer < self.layers@.len() && tri < self.layers@[layer as int].triangles@.len()
    }

    /// The number of a triangle among all layers.
    pub open spec fn node(&self, layer: u32, tri: u32) -> int {
        triangles_before(self.layers@, layer as nat) + tri
    }

    /// Where an edge continues, where it is a matched seam edge.
    pub open spec fn across_seam(&self, r: EdgeRef) -> Option<EdgeRef> {
        if self.links@.contains_key(ref_code(r) as u128) {
            Some(self.links@[ref_code(r) as u128])
        } else {
            None
        }
    }

    pub(crate) proof fn lemma_node_bound(&self, layer: u32, tri: u32)
        requires
            self.wf(),
            self.has(layer, tri),
        ensures
            0 <= self.node(layer, tri) < self.total_triangles,
    {
        lemma_triangles_grow(self.layers@, (layer + 1) as nat, self.layers@.len());
    }

    /// Where an edge of a triangle leads: to the neighbor in its layer, or
    /// across a seam; nowhere for any other wall.
    pub open spec fn way(&self, layer: u32, tri: u32, edge: u8) -> Option<(u32, u32)> {
        let t = self.layers@[layer as int].triangles@[tri as int];
        if !t.walls[edge as int] {
            Some((layer, t.neighbors[edge as int]))
        } else {
            match self.across_seam(EdgeRef { layer, tri, edge }) {
                None => None,
                Some(r) => Some((r.layer, r.tri)),
            }
        }
    }

    /// Stitch layers together. Every seam edge must have exactly one partner.
    pub fn build(layers: Vec<LayerMesh>) -> (r: Result<World, WorldBuildError>)
        requires
            layers_fit(layers@),
            countable(layers@),
        ensures
            ({
                let seams = seams_of(layers@, layers@.len());
                match r {
                    Ok(w) => {
                        &&& w.layers@ == layers@
                        &&& matched_to(seams, seams.len() as int)
                        &&& w.wf()
                    },
                    Err(e) => exists|i: int|
                        0 <= i < seams.len() && matched_to(seams, i) && matches_of(
                            seams,
                            i,
                            seams.len(),
                        ) != 2 && e == #[trigger] seam_fault(layers@, seams, i),
                }
            }),
            r is Ok <==> forall|l: int, i: int| #[trigger]
                has_seam(layers@, l, i) ==> is_paired(layers@, l, i),
            r matches Err(e) ==> is_fault_somewhere(layers@, e),
    {
        proof {
            stitching_needs_pairs(layers@);
        }
        let seams = collect_seams(&layers);
        let (links, pairs) = match match_seams(&layers, &seams) {
            Err(e) => return Err(e),
            Ok(x) => x,
        };
        proof {
            lemma_pairs_fit(layers@, seams@, seams@.len());
        }
        let connections = group_pairs(&pairs);
        let component = find_components(&layers, &pairs);
        let mut tri_offset: Vec<usize> = Vec::new();
        let mut total: usize = 0;
        let mut l: usize = 0;
        while l < layers.len()
            invariant
                l <= layers@.len(),
                triangles_before(layers@, layers@.len()) <= usize::MAX,
                total == triangles_before(layers@, l as nat),
                tri_offset@.len() == l,
                forall|k: int|
                    0 <= k < l ==> #[trigger] tri_offset@[k] == triangles_before(
                        layers@,
                        k as nat,
                    ),
            decreases layers.len() - l,
        {
            proof {
                lemma_triangles_grow(layers@, (l + 1) as nat, layers@.len());
            }
            tri_offset.push(total);
            total += layers[l].triangles.len();
            l += 1;
        }
        Ok(World { layers, connections, links, component, tri_offset, total_triangles: total })
    }

    pub fn layer_count(&self) -> (n: usize)
        ensures
            n == self.layers@.len(),
    {
        self.layers.len()
    }

    /// One layer.
    pub fn layer(&self, id: LayerId) -> (l: &LayerMesh)
        requires
            id < self.layers@.len(),
        ensures
            *l == self.layers@[id as int],
    {
        &self.layers[id as usize]
    }

    /// All connections, by id.
    pub fn connections(&self) -> (c: &Vec<Connection>)
        ensures
            *c == self.connections,
    {
        &self.connections
    }

    /// How many triangles all layers have.
    pub fn total_triangles(&self) -> (n: usize)
        ensures
            n == self.total_triangles,
    {
        self.total_triangles
    }

    /// Where an edge continues, where it is a matched seam edge.
    pub fn seam_neighbor(&self, r: EdgeRef) -> (n: Option<EdgeRef>)
        ensures
            n == self.across_seam(r),
    {
        broadcast use vstd::std_specs::hash::group_hash_axioms;

        match self.links.get(&code_of(r)) {
            None => None,
            Some(n) => Some(*n),
        }
    }

    /// Whether a path can lead from one triangle to the other, across seams
    /// where need be.
    pub fn reachable(&self, a: (LayerId, u32), b: (LayerId, u32)) -> (r: bool)
        requires
            self.wf(),
            self.has(a.0, a.1),
            self.has(b.0, b.1),
        ensures
            r == joined(
                region_pairs(self.layers@, self.pairs()),
                region_number(self.layers@, a.0, a.1),
                region_number(self.layers@, b.0, b.1),
            ),
    {
        proof {
            lemma_region_number(self.layers@, a.0, a.1);
            lemma_region_number(self.layers@, b.0, b.1);
        }
        let ra: u32 = self.layers[a.0 as usize].triangles[a.1 as usize].region;
        let rb: u32 = self.layers[b.0 as usize].triangles[b.1 as usize].region;
        let ca: u32 = self.component[a.0 as usize][ra as usize];
        let cb: u32 = self.component[b.0 as usize][rb as usize];
        ca == cb
    }

    /// The number of a triangle among all layers.
    pub fn flat_index(&self, layer: LayerId, tri: u32) -> (n: usize)
        requires
            self.wf(),
            self.has(layer, tri),
        ensures
            n == self.node(layer, tri),
            n < self.total_triangles,
    {
        proof {
            lemma_triangles_grow(self.layers@, (layer + 1) as nat, self.layers@.len());
        }
        self.tri_offset[layer as usize] + tri as usize
    }

    /// The triangle with a number.
    pub fn node_to_tri(&self, node: usize) -> (t: (LayerId, u32))
        requires
            self.wf(),
            node < self.total_triangles,
        ensures
            self.has(t.0, t.1),
            node == self.node(t.0, t.1),
    {
        let n: usize = self.layers.len();
        // The last layer that begins at or before the node.
        let mut lo: usize = 0;
        let mut hi: usize = n;
        while lo < hi
            invariant
                self.wf(),
                n == self.layers@.len(),
                lo <= hi <= n,
                forall|l: int| 0 <= l < lo ==> #[trigger] self.tri_offset@[l] <= node,
                forall|l: int| hi <= l < n ==> #[trigger] self.tri_offset@[l] > node,
            decreases hi - lo,
        {
            let mid: usize = lo + (hi - lo) / 2;
            if self.tri_offset[mid] <= node {
                proof {
                    assert forall|l: int| 0 <= l < mid + 1 implies #[trigger] self.tri_offset@[l]
                        <= node by {
                        lemma_triangles_grow(self.layers@, l as nat, mid as nat);
                    }
                }
                lo = mid + 1;
            } else {
                proof {
                    assert forall|l: int| mid <= l < n implies #[trigger] self.tri_offset@[l]
                        > node by {
                        lemma_triangles_grow(self.layers@, mid as nat, l as nat);
                    }
                }
                hi = mid;
            }
        }
        proof {
            if lo == 0 {
                if n > 0 {
                    assert(self.tri_offset@[0] == triangles_before(self.layers@, 0));
                }
                assert(false);
            }
            assert(self.tri_offset@[lo - 1] == triangles_before(self.layers@, (lo - 1) as nat));
            if lo < n {
                assert(self.tri_offset@[lo as int] == triangles_before(self.layers@, lo as nat));
            }
            assert(self.layers@[lo - 1].wf());
        }
        let layer: usize = lo - 1;
        (layer as u32, (node - self.tri_offset[layer]) as u32)
    }

    /// Where edge `edge` of a triangle leads: to the neighbor in its layer, or
    /// across a seam; nowhere for any other wall.
    pub fn way_across(&self, layer: LayerId, tri: u32, edge: u8) -> (w: Option<(LayerId, u32)>)
        requires
            self.wf(),
            self.has(layer, tri),
            edge < 3,
        ensures
            w == self.way(layer, tri, edge),
            w matches Some(n) ==> self.has(n.0, n.1),
    {
        let t = self.layers[layer as usize].triangles[tri as usize];
        proof {
            assert(self.layers@[layer as int].wf());
            assert(self.layers@[layer as int].triangle_fits(
                self.layers@[layer as int].triangles@[tri as int],
            ));
        }
        if !t.walls[edge as usize] {
            assert(!t.walls[edge as int]);
            return Some((layer, t.neighbors[edge as usize]));
        }
        let r = EdgeRef { layer, tri, edge };
        match self.seam_neighbor(r) {
            None => None,
            Some(q) => {
                proof {
                    self.lemma_link(r);
                }
                Some((q.layer, q.tri))
            },
        }
    }

    /// A link leads from a seam edge to its partner.
    proof fn lemma_link(&self, r: EdgeRef)
        requires
            self.wf(),
            self.across_seam(r) is Some,
        ensures
            exists|i: int|
                0 <= i < self.seams().len() && (#[trigger] self.seams()[i]).edge == r
                    && self.across_seam(r) == Some(self.seams()[partner(self.seams(), i)].edge) && 0
                    <= partner(self.seams(), i) < self.seams().len(),
            ref_fits(self.layers@, r),
            ref_fits(self.layers@, self.across_seam(r).unwrap()),
    {
        let seams = self.seams();
        let code = ref_code(r) as u128;
        let i = choose|i: int| 0 <= i < seams.len() && code == ref_code((#[trigger] seams[i]).edge);
        ref_codes_differ(r, seams[i].edge);
        partners_are_mutual(seams, i);
        lemma_seams_of(self.layers@, self.layers@.len());
        assert(ref_fits(self.layers@, seams[i].edge));
        assert(ref_fits(self.layers@, seams[partner(seams, i)].edge));
    }

    /// The edge of a triangle across which the other lies, in the same layer.
    pub fn interior_edge(&self, layer: LayerId, from: u32, to: u32) -> (e: Option<u8>)
        requires
            self.has(layer, from),
        ensures
            ({
                let t = self.layers@[layer as int].triangles@[from as int];
                match e {
                    Some(k) => k < 3 && t.neighbors[k as int] == to && forall|j: int|
                        0 <= j < k ==> #[trigger] t.neighbors[j] != to,
                    None => forall|j: int| 0 <= j < 3 ==> #[trigger] t.neighbors[j] != to,
                }
            }),
    {
        let t = self.layers[layer as usize].triangles[from as usize];
        if t.neighbors[0] == to {
            Some(0)
        } else if t.neighbors[1] == to {
            Some(1)
        } else if t.neighbors[2] == to {
            Some(2)
        } else {
            None
        }
    }

    /// Whether edge `k` of a triangle crosses a seam to the triangle `to`.
    pub open spec fn crosses_to(&self, from: (u32, u32), k: u8, to: (u32, u32)) -> bool {
        self.across_seam(EdgeRef { layer: from.0, tri: from.1, edge: k }) matches Some(r)
            && r.layer == to.0 && r.tri == to.1
    }

    /// The first edge of a triangle that crosses a seam to the other.
    pub fn seam_edge(&self, from: (LayerId, u32), to: (LayerId, u32)) -> (e: Option<u8>)
        ensures
            match e {
                Some(k) => k < 3 && self.crosses_to(from, k, to) && forall|j: u8|
                    j < k ==> !(#[trigger] self.crosses_to(from, j, to)),
                None => forall|j: u8| j < 3 ==> !(#[trigger] self.crosses_to(from, j, to)),
            },
    {
        let mut k: u8 = 0;
        while k < 3
            invariant
                k <= 3,
                forall|j: u8| j < k ==> !(#[trigger] self.crosses_to(from, j, to)),
            decreases 3 - k,
        {
            let r = self.seam_neighbor(EdgeRef { layer: from.0, tri: from.1, edge: k });
            if let Some(q) = r {
                if q.layer == to.0 && q.tri == to.1 {
                    return Some(k);
                }
            }
            k += 1;
        }
        None
    }
}

// --- Laws -------------------------------------------------------------------

/// Crossing a seam and crossing back leads to the same edge.
pub proof fn seams_lead_back(w: World, r: EdgeRef)
    requires
        w.wf(),
        w.across_seam(r) is Some,
    ensures
        w.across_seam(w.across_seam(r).unwrap()) == Some(r),
{
    w.lemma_link(r);
    let seams = w.seams();
    let i = choose|i: int|
        0 <= i < seams.len() && (#[trigger] seams[i]).edge == r && w.across_seam(r) == Some(
            seams[partner(seams, i)].edge,
        ) && 0 <= partner(seams, i) < seams.len();
    partners_are_mutual(seams, i);
    let p = partner(seams, i);
    assert(w.links@.contains_key(ref_code(seams[p].edge) as u128));
}

/// Different triangles have different numbers.
pub proof fn numbers_tell_triangles_apart(w: World, a: (u32, u32), b: (u32, u32))
    requires
        w.wf(),
        w.has(a.0, a.1),
        w.has(b.0, b.1),
        w.node(a.0, a.1) == w.node(b.0, b.1),
    ensures
        a == b,
{
    if a.0 < b.0 {
        lemma_triangles_grow(w.layers@, (a.0 + 1) as nat, b.0 as nat);
    } else if b.0 < a.0 {
        lemma_triangles_grow(w.layers@, (b.0 + 1) as nat, a.0 as nat);
    }
}

proof fn lemma_pair_listed(seams: Seq<SeamEdge>, i: int, n: nat)
    requires
        matched_to(seams, seams.len() as int),
        0 <= i < n <= seams.len(),
        i < partner(seams, i),
    ensures
        exists|k: int|
            0 <= k < pairs_to(seams, n).len() && (#[trigger] pairs_to(seams, n)[k]).1 == (SubEdge {
                a: seams[i].edge,
                b: seams[partner(seams, i)].edge,
            }),
    decreases n,
{
    let all = pairs_to(seams, n);
    if i == n - 1 {
        assert(all.last().1 == (SubEdge { a: seams[i].edge, b: seams[partner(seams, i)].edge }));
        assert(all[all.len() - 1] == all.last());
    } else {
        lemma_pair_listed(seams, i, (n - 1) as nat);
        let before = pairs_to(seams, (n - 1) as nat);
        let k = choose|k: int|
            0 <= k < before.len() && (#[trigger] before[k]).1 == (SubEdge {
                a: seams[i].edge,
                b: seams[partner(seams, i)].edge,
            });
        assert(all[k] == before[k]);
    }
}

/// The triangles on the two sides of a seam can reach each other.
pub proof fn seams_join_their_sides(w: World, r: EdgeRef)
    requires
        w.wf(),
        w.across_seam(r) is Some,
    ensures
        ({
            let q = w.across_seam(r).unwrap();
            joined(
                region_pairs(w.layers@, w.pairs()),
                region_number(w.layers@, r.layer, r.tri),
                region_number(w.layers@, q.layer, q.tri),
            )
        }),
{
    w.lemma_link(r);
    let seams = w.seams();
    let i = choose|i: int|
        0 <= i < seams.len() && (#[trigger] seams[i]).edge == r && w.across_seam(r) == Some(
            seams[partner(seams, i)].edge,
        ) && 0 <= partner(seams, i) < seams.len();
    partners_are_mutual(seams, i);
    let p = partner(seams, i);
    let q = seams[p].edge;
    let first = if i < p {
        i
    } else {
        p
    };
    lemma_pair_listed(seams, first, seams.len());
    let all = w.pairs();
    let k = choose|k: int|
        0 <= k < all.len() && (#[trigger] all[k]).1 == (SubEdge {
            a: seams[first].edge,
            b: seams[partner(seams, first)].edge,
        });
    let pairs = region_pairs(w.layers@, all);
    let (x, y) = (
        region_number(w.layers@, r.layer, r.tri),
        region_number(w.layers@, q.layer, q.tri),
    );
    lemma_region_number(w.layers@, r.layer, r.tri);
    lemma_region_number(w.layers@, q.layer, q.tri);
    assert((pairs[k].0 == x && pairs[k].1 == y) || (pairs[k].0 == y && pairs[k].1 == x));
    assert(crate::unionfind::paired(pairs, x, y));
    assert(crate::unionfind::walks(pairs, seq![x, y], x, y));
}

// --- Stitching --------------------------------------------------------------

/// Whether boundary edge `i` of layer `l` belongs to a connection.
pub open spec fn has_seam(layers: Seq<LayerMesh>, l: int, i: int) -> bool {
    0 <= l < layers.len() && 0 <= i < layers[l].boundary@.len() && layers[l].boundary@[i].connection
        is Some
}

/// The points at the ends of a boundary edge.
pub open spec fn seam_ends(layers: Seq<LayerMesh>, l: int, i: int) -> (Point3, Point3) {
    let b = layers[l].boundary@[i];
    (layers[l].vertices@[b.from as int], layers[l].vertices@[b.to as int])
}

/// Whether two different boundary edges belong to one connection and have the
/// same ends, either way round.
pub open spec fn meets(layers: Seq<LayerMesh>, l: int, i: int, m: int, j: int) -> bool {
    let (a, b) = (seam_ends(layers, l, i), seam_ends(layers, m, j));
    &&& has_seam(layers, l, i)
    &&& has_seam(layers, m, j)
    &&& (l, i) != (m, j)
    &&& layers[l].boundary@[i].connection == layers[m].boundary@[j].connection
    &&& (a.0 == b.0 && a.1 == b.1) || (a.0 == b.1 && a.1 == b.0)
}

/// Whether a boundary edge meets another.
pub open spec fn meets_any(layers: Seq<LayerMesh>, l: int, i: int) -> bool {
    exists|m: int, j: int| #[trigger] meets(layers, l, i, m, j)
}

/// Whether a boundary edge meets exactly one other.
pub open spec fn is_paired(layers: Seq<LayerMesh>, l: int, i: int) -> bool {
    &&& meets_any(layers, l, i)
    &&& forall|m: int, j: int, x: int, y: int| #[trigger]
        meets(layers, l, i, m, j) && #[trigger] meets(layers, l, i, x, y) ==> m == x && j == y
}

/// Whether an edge of a triangle is boundary edge `i` of layer `l`: the first of
/// the triangle's that runs so.
pub open spec fn is_boundary_ref(layers: Seq<LayerMesh>, l: int, i: int, r: EdgeRef) -> bool {
    let b = layers[l].boundary@[i];
    let t = layers[l].triangles@[b.triangle as int];
    &&& r.layer == l
    &&& r.tri == b.triangle
    &&& r.edge < 3
    &&& t.edges[r.edge as int][0] == b.from && t.edges[r.edge as int][1] == b.to
    &&& forall|e: int|
        0 <= e < r.edge ==> !((#[trigger] t.edges[e])[0] == b.from && t.edges[e][1] == b.to)
}

/// Whether one boundary edge comes before another, layer by layer.
pub open spec fn seam_before(a: (int, int), b: (int, int)) -> bool {
    a.0 < b.0 || (a.0 == b.0 && a.1 < b.1)
}

/// Whether `e` says of boundary edge `i` of layer `l`, the first that does not meet
/// exactly one other, what is wrong: it meets none, or more than one.
pub open spec fn is_seam_fault(
    layers: Seq<LayerMesh>,
    l: int,
    i: int,
    e: WorldBuildError,
) -> bool {
    let (p, q) = seam_ends(layers, l, i);
    let (from, to) = (Vertex { x: p.x, y: p.y }, Vertex { x: q.x, y: q.y });
    let connection = layers[l].boundary@[i].connection.unwrap();
    &&& has_seam(layers, l, i)
    &&& !is_paired(layers, l, i)
    &&& forall|m: int, j: int| #[trigger]
        has_seam(layers, m, j) && seam_before((m, j), (l, i)) ==> is_paired(layers, m, j)
    &&& e == if meets_any(layers, l, i) {
        WorldBuildError::AmbiguousSeamEdge { connection, from, to }
    } else {
        WorldBuildError::UnmatchedSeamEdge { connection, layer: l as u32, from, to }
    }
}

/// Where the seam edges come from.
spec fn come_from(layers: Seq<LayerMesh>, seams: Seq<SeamEdge>, src: Seq<(int, int)>, n: int) -> bool {
    &&& src.len() == seams.len()
    &&& forall|k: int|
        0 <= k < src.len() ==> #[trigger] is_seam_at(layers, seams[k], src[k]) && src[k].0 < n
    &&& forall|j: int, k: int|
        0 <= j < k < src.len() ==> seam_before(#[trigger] src[j], #[trigger] src[k])
    &&& forall|l: int, i: int| #[trigger]
        has_seam(layers, l, i) && l < n ==> src.contains((l, i))
}

spec fn is_seam_at(layers: Seq<LayerMesh>, s: SeamEdge, at: (int, int)) -> bool {
    &&& has_seam(layers, at.0, at.1)
    &&& s == seam_edge_of(
        layers[at.0],
        at.0,
        layers[at.0].boundary@[at.1],
        layers[at.0].boundary@[at.1].connection.unwrap(),
    )
}

#[verifier::spinoff_prover]
proof fn lemma_layer_sources(layers: Seq<LayerMesh>, l: int, n: nat) -> (src: Seq<(int, int)>)
    requires
        0 <= l < layers.len(),
        n <= layers[l].boundary@.len(),
    ensures
        ({
            let seams = layer_seams(layers[l], l, n);
            &&& src.len() == seams.len()
            &&& forall|k: int|
                0 <= k < src.len() ==> #[trigger] is_seam_at(layers, seams[k], src[k]) && src[k].0
                    == l && src[k].1 < n
            &&& forall|j: int, k: int|
                0 <= j < k < src.len() ==> seam_before(#[trigger] src[j], #[trigger] src[k])
            &&& forall|i: int| #[trigger] has_seam(layers, l, i) && i < n ==> src.contains((l, i))
        }),
    decreases n,
{
    if n == 0 {
        Seq::empty()
    } else {
        let m = (n - 1) as nat;
        let before = lemma_layer_sources(layers, l, m);
        let old = layer_seams(layers[l], l, m);
        let seams = layer_seams(layers[l], l, n);
        if layers[l].boundary@[n - 1].connection is Some {
            let src = before.push((l, n - 1));
            assert forall|k: int| 0 <= k < src.len() implies #[trigger] is_seam_at(
                layers,
                seams[k],
                src[k],
            ) && src[k].0 == l && src[k].1 < n by {
                if k < before.len() {
                    assert(is_seam_at(layers, old[k], before[k]));
                    assert(seams[k] == old[k] && src[k] == before[k]);
                }
            }
            assert forall|j: int, k: int| 0 <= j < k < src.len() implies seam_before(
                #[trigger] src[j],
                #[trigger] src[k],
            ) by {
                assert(is_seam_at(layers, old[j], before[j]));
                assert(src[j] == before[j]);
                if k < before.len() {
                    assert(src[k] == before[k]);
                }
            }
            assert forall|i: int| #[trigger] has_seam(layers, l, i) && i < n implies src.contains(
                (l, i),
            ) by {
                if i < m {
                    let k = choose|k: int| 0 <= k < before.len() && before[k] == (l, i);
                    assert(src[k] == (l, i));
                } else {
                    assert(src[before.len() as int] == (l, i));
                }
            }
            src
        } else {
            assert(seams == old);
            assert forall|k: int| 0 <= k < before.len() implies #[trigger] is_seam_at(
                layers,
                seams[k],
                before[k],
            ) && before[k].0 == l && before[k].1 < n by {
                assert(is_seam_at(layers, old[k], before[k]));
            }
            before
        }
    }
}

proof fn lemma_sources(layers: Seq<LayerMesh>, n: nat) -> (src: Seq<(int, int)>)
    requires
        n <= layers.len(),
    ensures
        come_from(layers, seams_of(layers, n), src, n as int),
    decreases n,
{
    if n == 0 {
        Seq::empty()
    } else {
        let m = (n - 1) as nat;
        let before = lemma_sources(layers, m);
        let more = lemma_layer_sources(layers, m as int, layers[m as int].boundary@.len());
        let src = before + more;
        let old = seams_of(layers, m);
        let new = layer_seams(layers[m as int], m as int, layers[m as int].boundary@.len());
        let seams = seams_of(layers, n);
        let c = before.len() as int;
        assert forall|k: int| 0 <= k < src.len() implies #[trigger] is_seam_at(
            layers,
            seams[k],
            src[k],
        ) && src[k].0 < n by {
            if k < c {
                assert(is_seam_at(layers, old[k], before[k]));
                assert(seams[k] == old[k] && src[k] == before[k]);
            } else {
                assert(is_seam_at(layers, new[k - c], more[k - c]));
                assert(seams[k] == new[k - c] && src[k] == more[k - c]);
            }
        }
        assert forall|j: int, k: int| 0 <= j < k < src.len() implies seam_before(
            #[trigger] src[j],
            #[trigger] src[k],
        ) by {
            if j < c {
                assert(is_seam_at(layers, old[j], before[j]));
                assert(src[j] == before[j]);
            } else {
                assert(src[j] == more[j - c]);
            }
            if k < c {
                assert(src[k] == before[k]);
            } else {
                assert(is_seam_at(layers, new[k - c], more[k - c]));
                assert(src[k] == more[k - c]);
            }
        }
        assert forall|l: int, i: int| #[trigger] has_seam(layers, l, i) && l < n implies src.contains(
            (l, i),
        ) by {
            if l < m {
                let k = choose|k: int| 0 <= k < before.len() && before[k] == (l, i);
                assert(src[k] == (l, i));
            } else {
                let k = choose|k: int| 0 <= k < more.len() && more[k] == (l, i);
                assert(src[c + k] == (l, i));
            }
        }
        src
    }
}

/// Seam edges match where their boundary edges meet.
proof fn lemma_same_is_meeting(
    layers: Seq<LayerMesh>,
    seams: Seq<SeamEdge>,
    src: Seq<(int, int)>,
    a: int,
    b: int,
)
    requires
        come_from(layers, seams, src, layers.len() as int),
        0 <= a < seams.len(),
        0 <= b < seams.len(),
        a != b,
    ensures
        same_seam(seams[a], seams[b]) <==> meets(layers, src[a].0, src[a].1, src[b].0, src[b].1),
{
    assert(is_seam_at(layers, seams[a], src[a]));
    assert(is_seam_at(layers, seams[b], src[b]));
    if a < b {
        assert(seam_before(src[a], src[b]));
    } else {
        assert(seam_before(src[b], src[a]));
    }
}

proof fn lemma_matches_of(seams: Seq<SeamEdge>, i: int)
    requires
        0 <= i < seams.len(),
    ensures
        ({
            let n = matches_of(seams, i, seams.len());
            &&& n <= 1 <==> forall|j: int|
                0 <= j < seams.len() && j != i ==> !same_seam(seams[i], #[trigger] seams[j])
            &&& n == 2 <==> {
                &&& exists|j: int|
                    0 <= j < seams.len() && j != i && same_seam(seams[i], #[trigger] seams[j])
                &&& forall|j: int, k: int|
                    0 <= j < seams.len() && 0 <= k < seams.len() && j != i && k != i && same_seam(
                        seams[i],
                        #[trigger] seams[j],
                    ) && same_seam(seams[i], #[trigger] seams[k]) ==> j == k
            }
        }),
{
    let n = matches_of(seams, i, seams.len());
    lemma_partner_from(seams, i, 0);
    let p = partner(seams, i);
    if p >= seams.len() {
        lemma_one_match(seams, i, seams.len());
    } else {
        let (a, b) = if i < p {
            (i, p)
        } else {
            (p, i)
        };
        lemma_matches_grow(seams, i, (a + 1) as nat, b as nat);
        lemma_matches_grow(seams, i, (b + 1) as nat, seams.len());
        assert(n >= 2);
        if exists|q: int|
            0 <= q < seams.len() && q != i && q != p && same_seam(seams[i], #[trigger] seams[q]) {
            let q = choose|q: int|
                0 <= q < seams.len() && q != i && q != p && same_seam(seams[i], #[trigger] seams[q]);
            if q < a {
                lemma_three_matches(seams, i, q, a, b);
            } else if q < b {
                lemma_three_matches(seams, i, a, q, b);
            } else {
                lemma_three_matches(seams, i, a, b, q);
            }
        } else {
            lemma_two_matches(seams, i, p, seams.len());
        }
    }
}

proof fn lemma_two_matches(seams: Seq<SeamEdge>, i: int, p: int, n: nat)
    requires
        n <= seams.len(),
        forall|j: int|
            0 <= j < seams.len() && j != i && j != p ==> !same_seam(seams[i], #[trigger] seams[j]),
    ensures
        matches_of(seams, i, n) <= 2,
        matches_of(seams, i, n) <= (if i < n {
            1nat
        } else {
            0
        }) + (if p < n {
            1nat
        } else {
            0
        }),
    decreases n,
{
    if n > 0 {
        lemma_two_matches(seams, i, p, (n - 1) as nat);
    }
}

/// A seam edge has one partner where its boundary edge meets one other.
proof fn lemma_paired(
    layers: Seq<LayerMesh>,
    seams: Seq<SeamEdge>,
    src: Seq<(int, int)>,
    a: int,
)
    requires
        come_from(layers, seams, src, layers.len() as int),
        0 <= a < seams.len(),
    ensures
        matches_of(seams, a, seams.len()) == 2 <==> is_paired(layers, src[a].0, src[a].1),
        matches_of(seams, a, seams.len()) <= 1 <==> !meets_any(layers, src[a].0, src[a].1),
{
    lemma_matches_of(seams, a);
    let (l, i) = src[a];
    assert(is_seam_at(layers, seams[a], src[a]));
    assert forall|b: int| 0 <= b < seams.len() && b != a implies (same_seam(
        seams[a],
        #[trigger] seams[b],
    ) <==> meets(layers, l, i, src[b].0, src[b].1)) by {
        lemma_same_is_meeting(layers, seams, src, a, b);
    }
    assert forall|m: int, j: int| #[trigger] meets(layers, l, i, m, j) implies exists|b: int|
        0 <= b < seams.len() && b != a && same_seam(seams[a], #[trigger] seams[b]) && src[b] == (
        m,
        j,
    ) by {
        assert(has_seam(layers, m, j));
        let b = choose|b: int| 0 <= b < src.len() && src[b] == (m, j);
        assert(same_seam(seams[a], seams[b]));
    }
    if exists|b: int| 0 <= b < seams.len() && b != a && same_seam(seams[a], #[trigger] seams[b]) {
        let b = choose|b: int|
            0 <= b < seams.len() && b != a && same_seam(seams[a], #[trigger] seams[b]);
        assert(meets(layers, l, i, src[b].0, src[b].1));
    }
    if is_paired(layers, l, i) {
        assert forall|b: int, c: int|
            0 <= b < seams.len() && 0 <= c < seams.len() && b != a && c != a && same_seam(
                seams[a],
                #[trigger] seams[b],
            ) && same_seam(seams[a], #[trigger] seams[c]) implies b == c by {
            assert(meets(layers, l, i, src[b].0, src[b].1));
            assert(meets(layers, l, i, src[c].0, src[c].1));
            if b < c {
                assert(seam_before(src[b], src[c]));
            } else if c < b {
                assert(seam_before(src[c], src[b]));
            }
        }
    }
}

proof fn lemma_boundary_ref(layers: Seq<LayerMesh>, s: SeamEdge, at: (int, int))
    requires
        layers_fit(layers),
        layers.len() <= u32::MAX,
        is_seam_at(layers, s, at),
    ensures
        is_boundary_ref(layers, at.0, at.1, s.edge),
{
    let layer = layers[at.0];
    assert(layer.wf());
    let b = layer.boundary@[at.1];
    assert(layer.boundary_fits(b));
    let t = layer.triangles@[b.triangle as int];
    let e = choose|e: int| 0 <= e < 3 && #[trigger] edge_is(t, e, b.from, b.to);
    assert(edge_is(t, e, b.from, b.to));
}

/// Layers can be stitched exactly where every boundary edge of a connection meets
/// one other; the error speaks of the first that does not.
pub proof fn stitching_needs_pairs(layers: Seq<LayerMesh>)
    requires
        layers_fit(layers),
        layers.len() <= u32::MAX,
    ensures
        ({
            let seams = seams_of(layers, layers.len());
            &&& matched_to(seams, seams.len() as int) <==> forall|l: int, i: int| #[trigger]
                has_seam(layers, l, i) ==> is_paired(layers, l, i)
            &&& forall|k: int|
                0 <= k < seams.len() && matched_to(seams, k) && matches_of(seams, k, seams.len())
                    != 2 ==> is_fault_somewhere(layers, #[trigger] seam_fault(layers, seams, k))
        }),
{
    let seams = seams_of(layers, layers.len());
    let src = lemma_sources(layers, layers.len());
    if matched_to(seams, seams.len() as int) {
        assert forall|l: int, i: int| #[trigger] has_seam(layers, l, i) implies is_paired(
            layers,
            l,
            i,
        ) by {
            let k = choose|k: int| 0 <= k < src.len() && src[k] == (l, i);
            lemma_paired(layers, seams, src, k);
            assert(matches_of(seams, k, seams.len()) == 2);
        }
    }
    if forall|l: int, i: int| #[trigger] has_seam(layers, l, i) ==> is_paired(layers, l, i) {
        assert forall|k: int| 0 <= k < seams.len() implies #[trigger] matches_of(
            seams,
            k,
            seams.len(),
        ) == 2 by {
            assert(is_seam_at(layers, seams[k], src[k]));
            lemma_paired(layers, seams, src, k);
        }
    }
    assert forall|k: int|
        0 <= k < seams.len() && matched_to(seams, k) && matches_of(seams, k, seams.len())
            != 2 implies is_fault_somewhere(layers, #[trigger] seam_fault(layers, seams, k)) by {
        let (l, i) = src[k];
        assert(is_seam_at(layers, seams[k], src[k]));
        lemma_paired(layers, seams, src, k);
        lemma_boundary_ref(layers, seams[k], src[k]);
        assert forall|m: int, j: int| #[trigger]
            has_seam(layers, m, j) && seam_before((m, j), (l, i)) implies is_paired(
            layers,
            m,
            j,
        ) by {
            let q = choose|q: int| 0 <= q < src.len() && src[q] == (m, j);
            if q > k {
                assert(seam_before(src[k], src[q]));
            }
            assert(matches_of(seams, q, seams.len()) == 2);
            lemma_paired(layers, seams, src, q);
        }
        assert(is_seam_fault(layers, l, i, seam_fault(layers, seams, k)));
    }
}

/// Whether an error says what is wrong with the first boundary edge that does not
/// meet exactly one other.
pub open spec fn is_fault_somewhere(layers: Seq<LayerMesh>, e: WorldBuildError) -> bool {
    exists|l: int, i: int| #[trigger] is_seam_fault(layers, l, i, e)
}

/// In a world, every boundary edge of a connection leads across to the one that it
/// meets, and no other edge leads across anything.
pub proof fn every_seam_can_be_crossed(w: World, r: EdgeRef)
    requires
        w.wf(),
    ensures
        ({
            let layers = w.layers@;
            &&& forall|l: int, i: int|
                has_seam(layers, l, i) && #[trigger] is_boundary_ref(layers, l, i, r) ==> exists|
                    m: int,
                    j: int,
                | #[trigger]
                    meets(layers, l, i, m, j) && (w.across_seam(r) matches Some(q)
                        && is_boundary_ref(layers, m, j, q))
            &&& w.across_seam(r) is Some ==> exists|l: int, i: int|
                has_seam(layers, l, i) && #[trigger] is_boundary_ref(layers, l, i, r)
        }),
{
    let layers = w.layers@;
    let seams = w.seams();
    let src = lemma_sources(layers, layers.len());
    assert forall|l: int, i: int|
        has_seam(layers, l, i) && #[trigger] is_boundary_ref(layers, l, i, r) implies exists|
        m: int,
        j: int,
    | #[trigger]
        meets(layers, l, i, m, j) && (w.across_seam(r) matches Some(q) && is_boundary_ref(
            layers,
            m,
            j,
            q,
        )) by {
        let k = choose|k: int| 0 <= k < src.len() && src[k] == (l, i);
        assert(is_seam_at(layers, seams[k], src[k]));
        lemma_boundary_ref(layers, seams[k], src[k]);
        assert(seams[k].edge.edge == r.edge);
        assert(seams[k].edge == r);
        partners_are_mutual(seams, k);
        let p = partner(seams, k);
        lemma_same_is_meeting(layers, seams, src, k, p);
        assert(is_seam_at(layers, seams[p], src[p]));
        lemma_boundary_ref(layers, seams[p], src[p]);
        assert(w.links@.contains_key(ref_code(seams[k].edge) as u128));
        assert(meets(layers, l, i, src[p].0, src[p].1));
    }
    if w.across_seam(r) is Some {
        w.lemma_link(r);
        let k = choose|k: int|
            0 <= k < seams.len() && (#[trigger] seams[k]).edge == r && w.across_seam(r) == Some(
                seams[partner(seams, k)].edge,
            ) && 0 <= partner(seams, k) < seams.len();
        assert(is_seam_at(layers, seams[k], src[k]));
        lemma_boundary_ref(layers, seams[k], src[k]);
        assert(has_seam(layers, src[k].0, src[k].1));
    }
}

/// Whether a connection holds an edge, on one side or the other.
pub open spec fn connection_holds(c: Connection, r: EdgeRef) -> bool {
    exists|k: int|
        0 <= k < c.sub_edges@.len() && ((#[trigger] c.sub_edges@[k]).a == r || c.sub_edges@[k].b
            == r)
}

proof fn lemma_pair_of(seams: Seq<SeamEdge>, i: int, n: nat) -> (k: int)
    requires
        0 <= i < n <= seams.len(),
        i < partner(seams, i),
    ensures
        0 <= k < pairs_to(seams, n).len(),
        pairs_to(seams, n)[k] == (
            seams[i].connection,
            SubEdge { a: seams[i].edge, b: seams[partner(seams, i)].edge },
        ),
    decreases n,
{
    let all = pairs_to(seams, n);
    if i == n - 1 {
        all.len() - 1
    } else {
        let k = lemma_pair_of(seams, i, (n - 1) as nat);
        assert(all[k] == pairs_to(seams, (n - 1) as nat)[k]);
        k
    }
}

proof fn lemma_edge_listed(pairs: Seq<(u32, SubEdge)>, id: u32, n: nat, k: int) -> (e: int)
    requires
        0 <= k < n <= pairs.len(),
        pairs[k].0 == id,
    ensures
        0 <= e < edges_of(pairs, id, n).len(),
        edges_of(pairs, id, n)[e] == pairs[k].1,
    decreases n,
{
    let all = edges_of(pairs, id, n);
    if k == n - 1 {
        all.len() - 1
    } else {
        let e = lemma_edge_listed(pairs, id, (n - 1) as nat, k);
        assert(all[e] == edges_of(pairs, id, (n - 1) as nat)[e]);
        e
    }
}

/// Every edge that leads across a seam is listed under its connection.
pub proof fn every_seam_is_listed(w: World, l: int, i: int, r: EdgeRef)
    requires
        w.wf(),
        has_seam(w.layers@, l, i),
        is_boundary_ref(w.layers@, l, i, r),
    ensures
        exists|c: int|
            0 <= c < w.connections@.len() && (#[trigger] w.connections@[c]).id
                == w.layers@[l].boundary@[i].connection.unwrap() && connection_holds(
                w.connections@[c],
                r,
            ),
{
    let layers = w.layers@;
    let seams = w.seams();
    let pairs = w.pairs();
    let src = lemma_sources(layers, layers.len());
    let k = choose|k: int| 0 <= k < src.len() && src[k] == (l, i);
    assert(is_seam_at(layers, seams[k], src[k]));
    lemma_boundary_ref(layers, seams[k], src[k]);
    assert(seams[k].edge == r);
    partners_are_mutual(seams, k);
    let p = partner(seams, k);
    let first = if k < p {
        k
    } else {
        p
    };
    let id = seams[k].connection;
    let q = lemma_pair_of(seams, first, seams.len());
    assert(pairs[q].0 == id);
    let c = choose|c: int|
        0 <= c < w.connections@.len() && (#[trigger] w.connections@[c]).id == pairs[q].0;
    let e = lemma_edge_listed(pairs, id, pairs.len(), q);
    assert(w.connections@[c].sub_edges@ == edges_of(pairs, id, pairs.len()));
    let s = w.connections@[c].sub_edges@[e];
    assert(s.a == r || s.b == r);
    assert(connection_holds(w.connections@[c], r));
}

proof fn lemma_pair_is_seam(seams: Seq<SeamEdge>, n: nat, k: int) -> (i: int)
    requires
        n <= seams.len(),
        0 <= k < pairs_to(seams, n).len(),
    ensures
        0 <= i < n,
        i < partner(seams, i),
        pairs_to(seams, n)[k] == (
            seams[i].connection,
            SubEdge { a: seams[i].edge, b: seams[partner(seams, i)].edge },
        ),
    decreases n,
{
    let before = pairs_to(seams, (n - 1) as nat);
    if k < before.len() {
        let i = lemma_pair_is_seam(seams, (n - 1) as nat, k);
        assert(pairs_to(seams, n)[k] == before[k]);
        i
    } else {
        n - 1
    }
}

/// Regions are joined by seams only: where one step leads from a region to another,
/// a seam has a triangle of each on its sides.
pub proof fn only_seams_join_regions(w: World, x: int, y: int)
    requires
        w.wf(),
        crate::unionfind::paired(region_pairs(w.layers@, w.pairs()), x, y),
    ensures
        exists|r: EdgeRef| #[trigger]
            ref_fits(w.layers@, r) && (w.across_seam(r) matches Some(q) && region_number(
                w.layers@,
                r.layer,
                r.tri,
            ) == x && region_number(w.layers@, q.layer, q.tri) == y),
{
    let layers = w.layers@;
    let seams = w.seams();
    let all = w.pairs();
    let pairs = region_pairs(layers, all);
    let k = choose|k: int|
        0 <= k < pairs.len() && (((#[trigger] pairs[k]).0 == x && pairs[k].1 == y) || (pairs[k].0 == y
            && pairs[k].1 == x));
    let i = lemma_pair_is_seam(seams, seams.len(), k);
    partners_are_mutual(seams, i);
    let p = partner(seams, i);
    lemma_pairs_fit(layers, seams, seams.len());
    let (a, b) = (seams[i].edge, seams[p].edge);
    assert(ref_fits(layers, all[k].1.a) && ref_fits(layers, all[k].1.b));
    lemma_region_number(layers, a.layer, a.tri);
    lemma_region_number(layers, b.layer, b.tri);
    assert(w.links@.contains_key(ref_code(seams[i].edge) as u128));
    assert(w.links@.contains_key(ref_code(seams[p].edge) as u128));
    assert(w.across_seam(a) == Some(b) && w.across_seam(b) == Some(a));
    assert(ref_fits(layers, a) && ref_fits(layers, b));
}

} // verus!
