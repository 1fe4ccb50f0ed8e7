//! The triangles of simple shapes: a plane cut into squares, a slope and a
//! box. Positions are the caller's; here are the corners that each triangle
//! joins.

use vstd::prelude::*;

verus! {

/// The number of vertices along one side of a plane.
pub open spec fn side(n: int) -> int {
    n + 1
}

/// The two triangles of the square in column `i` and row `j` of a plane that
/// is cut into `n` by `n`; vertices count row by row.
pub open spec fn square(n: int, i: int, j: int, upper: bool) -> [u32; 3] {
    let a = j * side(n) + i;
    let c = a + side(n);
    if upper {
        [a as u32, (c + 1) as u32, c as u32]
    } else {
        [a as u32, (a + 1) as u32, (c + 1) as u32]
    }
}

/// The triangles of a plane cut into `n` by `n` squares.
pub open spec fn plane_triangle(n: int, k: int) -> [u32; 3] {
    square(n, (k / 2) % n, (k / 2) / n, k % 2 == 1)
}

/// How many squares a plane is cut into along a side: at least one.
pub fn plane_cuts(subdivisions: u32) -> (n: u32)
    ensures
        n == if subdivisions == 0 {
            1
        } else {
            subdivisions
        },
{
    if subdivisions == 0 {
        1
    } else {
        subdivisions
    }
}

proof fn lemma_vertex_bound(n: int, i: int, j: int)
    requires
        0 <= i < n,
        0 <= j < n,
        n <= 0xb504,
    ensures
        0 <= j * side(n) + i,
        j * side(n) + i + side(n) + 1 < side(n) * side(n),
        side(n) * side(n) <= 0xffff_0000,
{
    assert(j * (n + 1) <= (n - 1) * (n + 1)) by (nonlinear_arith)
        requires
            0 <= j <= n - 1,
            n > 0,
    ;
    assert(0 <= j * (n + 1)) by (nonlinear_arith)
        requires
            0 <= j,
            n > 0,
    ;
    assert((n - 1) * (n + 1) + (n + 1) + (n + 1) == (n + 1) * (n + 1)) by (nonlinear_arith);
    assert((n + 1) * (n + 1) <= 0xb505 * 0xb505) by (nonlinear_arith)
        requires
            0 <= n <= 0xb504,
    ;
}

proof fn lemma_square_number(n: int, i: int, j: int)
    requires
        0 <= i < n,
        0 <= j,
    ensures
        (j * n + i) % n == i,
        (j * n + i) / n == j,
{
    vstd::arithmetic::div_mod::lemma_fundamental_div_mod_converse(j * n + i, n, j, i);
}

/// The triangles of a plane cut into `n` by `n` squares, two for each square,
/// row by row.
pub fn plane_triangles(n: u32) -> (out: Vec<[u32; 3]>)
    requires
        0 < n <= 0xb504,
    ensures
        out@.len() == 2 * n * n,
        forall|k: int| 0 <= k < out@.len() ==> #[trigger] out@[k] == plane_triangle(n as int, k),
{
    let mut out: Vec<[u32; 3]> = Vec::new();
    let stride: u32 = n + 1;
    let mut j: u32 = 0;
    while j < n
        invariant
            0 < n <= 0xb504,
            stride == n + 1,
            j <= n,
            out@.len() == 2 * (j * n),
            forall|k: int|
                0 <= k < out@.len() ==> #[trigger] out@[k] == plane_triangle(n as int, k),
        decreases n - j,
    {
        let mut i: u32 = 0;
        while i < n
            invariant
                0 < n <= 0xb504,
                stride == n + 1,
                j < n,
                i <= n,
                out@.len() == 2 * (j * n + i),
                forall|k: int|
                    0 <= k < out@.len() ==> #[trigger] out@[k] == plane_triangle(n as int, k),
            decreases n - i,
        {
            proof {
                lemma_vertex_bound(n as int, i as int, j as int);
                lemma_square_number(n as int, i as int, j as int);
            }
            let a: u32 = j * stride + i;
            let b: u32 = a + 1;
            let c: u32 = a + stride;
            let d: u32 = c + 1;
            let ghost m = out@.len() as int;
            let (low, up) = ([a, b, d], [a, d, c]);
            out.push(low);
            out.push(up);
            proof {
                let p = (j * n + i) as int;
                assert(m / 2 == p && (m + 1) / 2 == p);
                assert(low@ =~= plane_triangle(n as int, m)@);
                assert(up@ =~= plane_triangle(n as int, m + 1)@);
                assert(low == plane_triangle(n as int, m));
                assert(up == plane_triangle(n as int, m + 1));
            }
            i += 1;
        }
        proof {
            let (x, y) = (j as int, n as int);
            assert((x + 1) * y == x * y + y) by (nonlinear_arith);
        }
        j += 1;
    }
    assert(2 * (n * n) == 2 * n * n) by (nonlinear_arith);
    out
}

/// The two triangles of a slope: its corners count around it.
pub fn ramp_triangles() -> (out: Vec<[u32; 3]>)
    ensures
        out@ == seq![[0u32, 1u32, 2u32], [0u32, 2u32, 3u32]],
{
    let out = vec![[0u32, 1, 2], [0u32, 2, 3]];
    out
}

/// The twelve triangles of a box, two for each face: its corners count around
/// the bottom and then around the top.
pub fn box_triangles() -> (out: Vec<[u32; 3]>)
    ensures
        out@ == seq![
            [0u32, 2u32, 1u32],
            [0u32, 3u32, 2u32],
            [4u32, 5u32, 6u32],
            [4u32, 6u32, 7u32],
            [0u32, 1u32, 5u32],
            [0u32, 5u32, 4u32],
            [3u32, 6u32, 2u32],
            [3u32, 7u32, 6u32],
            [0u32, 4u32, 7u32],
            [0u32, 7u32, 3u32],
            [1u32, 2u32, 6u32],
            [1u32, 6u32, 5u32],
        ],
        is_closed_surface(out@),
{
    let out = vec![
        [0u32, 2, 1],
        [0u32, 3, 2],
        [4u32, 5, 6],
        [4u32, 6, 7],
        [0u32, 1, 5],
        [0u32, 5, 4],
        [3u32, 6, 2],
        [3u32, 7, 6],
        [0u32, 4, 7],
        [0u32, 7, 3],
        [1u32, 2, 6],
        [1u32, 6, 5],
    ];
    proof {
        boxes_are_closed(out@);
    }
    out
}

/// Every triangle of a plane joins three different vertices of it.
pub proof fn plane_triangles_are_proper(n: int, k: int)
    requires
        0 < n <= 0xb504,
        0 <= k < 2 * (n * n),
    ensures
        plane_triangle(n, k)@[0] < side(n) * side(n),
        plane_triangle(n, k)@[1] < side(n) * side(n),
        plane_triangle(n, k)@[2] < side(n) * side(n),
        plane_triangle(n, k)@[0] != plane_triangle(n, k)@[1],
        plane_triangle(n, k)@[1] != plane_triangle(n, k)@[2],
        plane_triangle(n, k)@[0] != plane_triangle(n, k)@[2],
{
    let p = k / 2;
    let (i, j) = (p % n, p / n);
    assert(p < n * n);
    assert(0 <= i < n) by {
        vstd::arithmetic::div_mod::lemma_mod_bound(p, n);
    }
    assert(0 <= j < n) by {
        vstd::arithmetic::div_mod::lemma_multiply_divide_lt(p, n, n);
        vstd::arithmetic::div_mod::lemma_div_pos_is_pos(p, n);
    }
    lemma_vertex_bound(n, i, j);
}

/// Whether vertex `v` of a plane that is cut into `n` by `n` squares stands in
/// column `x` and row `y`.
pub open spec fn stands_at(n: int, v: u32, x: int, y: int) -> bool {
    0 <= x <= n && 0 <= y <= n && v == y * (n + 1) + x
}

/// Every square of a plane is halved by two triangles, both counter-clockwise,
/// that share the diagonal from its lower left corner.
pub proof fn every_square_is_halved(n: int, i: int, j: int)
    requires
        0 < n <= 0xb504,
        0 <= i < n,
        0 <= j < n,
    ensures
        ({
            let k = 2 * (j * n + i);
            let (low, up) = (plane_triangle(n, k)@, plane_triangle(n, k + 1)@);
            &&& 0 <= k < k + 1 < 2 * (n * n)
            &&& stands_at(n, low[0], i, j)
            &&& stands_at(n, low[1], i + 1, j)
            &&& stands_at(n, low[2], i + 1, j + 1)
            &&& stands_at(n, up[0], i, j)
            &&& stands_at(n, up[1], i + 1, j + 1)
            &&& stands_at(n, up[2], i, j + 1)
        }),
{
    let k = 2 * (j * n + i);
    lemma_vertex_bound(n, i, j);
    lemma_square_number(n, i, j);
    assert(0 <= j * n && j * n + i < n * n) by (nonlinear_arith)
        requires
            0 <= i < n,
            0 <= j < n,
    ;
    assert((j + 1) * (n + 1) == j * (n + 1) + (n + 1)) by (nonlinear_arith);
    assert(k / 2 == j * n + i && (k + 1) / 2 == j * n + i);
}

/// Whether edge `e` of triangle `k` runs from one vertex to another.
pub open spec fn edge_runs(list: Seq<[u32; 3]>, k: int, e: int, a: u32, b: u32) -> bool {
    0 <= k < list.len() && 0 <= e < 3 && list[k]@[e] == a && list[k]@[(e + 1) % 3] == b
}

/// Whether a triangle has an edge from one vertex to another.
pub open spec fn has_run(list: Seq<[u32; 3]>, a: u32, b: u32) -> bool {
    exists|k: int, e: int| #[trigger] edge_runs(list, k, e, a, b)
}

/// Whether triangles close a surface and face the same side: every edge is run
/// the other way round too.
pub open spec fn is_closed_surface(list: Seq<[u32; 3]>) -> bool {
    forall|k: int, e: int|
        0 <= k < list.len() && 0 <= e < 3 ==> has_run(
            list,
            list[k]@[(e + 1) % 3],
            #[trigger] list[k]@[e],
        )
}

/// The triangles of a box close its surface and all face the same side.
pub proof fn boxes_are_closed(list: Seq<[u32; 3]>)
    requires
        list == seq![
            [0u32, 2u32, 1u32],
            [0u32, 3u32, 2u32],
            [4u32, 5u32, 6u32],
            [4u32, 6u32, 7u32],
            [0u32, 1u32, 5u32],
            [0u32, 5u32, 4u32],
            [3u32, 6u32, 2u32],
            [3u32, 7u32, 6u32],
            [0u32, 4u32, 7u32],
            [0u32, 7u32, 3u32],
            [1u32, 2u32, 6u32],
            [1u32, 6u32, 5u32],
        ],
    ensures
        is_closed_surface(list),
{
    assert(edge_runs(list, 1, 2, 2, 0));
    assert(edge_runs(list, 10, 0, 1, 2));
    assert(edge_runs(list, 4, 0, 0, 1));
    assert(edge_runs(list, 9, 2, 3, 0));
    assert(edge_runs(list, 6, 2, 2, 3));
    assert(edge_runs(list, 0, 0, 0, 2));
    assert(edge_runs(list, 5, 1, 5, 4));
    assert(edge_runs(list, 11, 1, 6, 5));
    assert(edge_runs(list, 3, 0, 4, 6));
    assert(edge_runs(list, 2, 2, 6, 4));
    assert(edge_runs(list, 7, 1, 7, 6));
    assert(edge_runs(list, 8, 1, 4, 7));
    assert(edge_runs(list, 0, 2, 1, 0));
    assert(edge_runs(list, 11, 2, 5, 1));
    assert(edge_runs(list, 5, 0, 0, 5));
    assert(edge_runs(list, 4, 2, 5, 0));
    assert(edge_runs(list, 2, 0, 4, 5));
    assert(edge_runs(list, 8, 0, 0, 4));
    assert(edge_runs(list, 7, 2, 6, 3));
    assert(edge_runs(list, 10, 1, 2, 6));
    assert(edge_runs(list, 1, 1, 3, 2));
    assert(edge_runs(list, 9, 1, 7, 3));
    assert(edge_runs(list, 3, 1, 6, 7));
    assert(edge_runs(list, 6, 0, 3, 6));
    assert(edge_runs(list, 5, 2, 4, 0));
    assert(edge_runs(list, 3, 2, 7, 4));
    assert(edge_runs(list, 9, 0, 0, 7));
    assert(edge_runs(list, 8, 2, 7, 0));
    assert(edge_runs(list, 7, 0, 3, 7));
    assert(edge_runs(list, 1, 0, 0, 3));
    assert(edge_runs(list, 0, 1, 2, 1));
    assert(edge_runs(list, 6, 1, 6, 2));
    assert(edge_runs(list, 11, 0, 1, 6));
    assert(edge_runs(list, 10, 2, 6, 1));
    assert(edge_runs(list, 2, 1, 5, 6));
    assert(edge_runs(list, 4, 1, 1, 5));
    assert forall|k: int, e: int| 0 <= k < list.len() && 0 <= e < 3 implies has_run(
        list,
        list[k]@[(e + 1) % 3],
        #[trigger] list[k]@[e],
    ) by {
        let t = list[k];
        let (a, b) = (t@[e], t@[(e + 1) % 3]);
        if k == 0 {
            assert(t@ =~= seq![0u32, 2u32, 1u32]);
        }
        if k == 1 {
            assert(t@ =~= seq![0u32, 3u32, 2u32]);
        }
        if k == 2 {
            assert(t@ =~= seq![4u32, 5u32, 6u32]);
        }
        if k == 3 {
            assert(t@ =~= seq![4u32, 6u32, 7u32]);
        }
        if k == 4 {
            assert(t@ =~= seq![0u32, 1u32, 5u32]);
        }
        if k == 5 {
            assert(t@ =~= seq![0u32, 5u32, 4u32]);
        }
        if k == 6 {
            assert(t@ =~= seq![3u32, 6u32, 2u32]);
        }
        if k == 7 {
            assert(t@ =~= seq![3u32, 7u32, 6u32]);
        }
        if k == 8 {
            assert(t@ =~= seq![0u32, 4u32, 7u32]);
        }
        if k == 9 {
            assert(t@ =~= seq![0u32, 7u32, 3u32]);
        }
        if k == 10 {
            assert(t@ =~= seq![1u32, 2u32, 6u32]);
        }
        if k == 11 {
            assert(t@ =~= seq![1u32, 6u32, 5u32]);
        }
        assert(has_run(list, b, a));
    }
}

} // verus!
