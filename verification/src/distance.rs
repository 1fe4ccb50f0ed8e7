//! Distance of every walkable surface from the boundary of its area.
//!
//! A surface without a link in some direction is on the boundary, at distance
//! zero. Two sweeps over the columns, one forward against the left and lower
//! neighbors, one backward against the right and upper ones, bring every
//! other surface to at most one more than its neighbors.

use crate::walkability::{
    column_index, columns_are_apart, lemma_column_bound, lemma_column_of, list_cells, lists_entries,
    listing, shifted, CompactHeightfield, WalkableCell,
};
use vstd::prelude::*;

verus! {

/// The distances of the surfaces of a field, in the shape of its columns.
#[derive(Clone, Debug)]
pub struct DistanceField {
    pub cols: u32,
    pub rows: u32,
    pub columns: Vec<Vec<u16>>,
}

/// Whether a surface lacks a link in some direction.
pub open spec fn on_boundary(cell: WalkableCell) -> bool {
    cell.neighbors[0] is None || cell.neighbors[1] is None || cell.neighbors[2] is None
        || cell.neighbors[3] is None
}

/// Lists of distances as mathematics.
pub open spec fn depths(columns: Seq<Vec<u16>>) -> Seq<Seq<u16>> {
    Seq::new(columns.len(), |i: int| columns[i]@)
}

/// Zero on the boundary, unknown elsewhere.
pub open spec fn starting(chf: CompactHeightfield) -> Seq<Seq<u16>> {
    Seq::new(
        chf.columns@.len(),
        |i: int|
            Seq::new(
                chf.columns@[i]@.len(),
                |s: int|
                    if on_boundary(chf.columns@[i]@[s]) {
                        0u16
                    } else {
                        u16::MAX
                    },
            ),
    )
}

/// One more, unless unknown.
pub open spec fn one_more(d: u16) -> u16 {
    if d == u16::MAX {
        u16::MAX
    } else {
        (d + 1) as u16
    }
}

/// The distance that a surface would have by way of its neighbor in
/// direction `k`.
pub open spec fn by_way_of(
    chf: CompactHeightfield,
    d: Seq<Seq<u16>>,
    c: u32,
    r: u32,
    s: int,
    k: int,
) -> u16 {
    match chf.neighbor(c, r, s as u32, k) {
        None => u16::MAX,
        Some((nc, nr, ns)) => one_more(
            d[column_index(chf.cols as int, nc as int, nr as int)][ns as int],
        ),
    }
}

/// The smaller of two distances.
pub open spec fn lesser(a: u16, b: u16) -> u16 {
    if b < a {
        b
    } else {
        a
    }
}

/// The distance of a surface of the `i`-th column, relaxed against its
/// neighbors in directions `j` and `k`.
pub open spec fn relaxed_value(
    chf: CompactHeightfield,
    d: Seq<Seq<u16>>,
    i: int,
    s: int,
    j: int,
    k: int,
) -> u16 {
    let (c, r) = ((i % chf.cols as int) as u32, (i / chf.cols as int) as u32);
    lesser(
        lesser(d[i][s], by_way_of(chf, d, c, r, s, j)),
        by_way_of(chf, d, c, r, s, k),
    )
}

/// The distances with the `i`-th column relaxed in directions `j` and `k`.
pub open spec fn relaxed(
    chf: CompactHeightfield,
    d: Seq<Seq<u16>>,
    i: int,
    j: int,
    k: int,
) -> Seq<Seq<u16>> {
    d.update(i, Seq::new(d[i].len(), |s: int| relaxed_value(chf, d, i, s, j, k)))
}

/// The first `n` columns relaxed one after the other against left and below.
pub open spec fn forward_to(chf: CompactHeightfield, d: Seq<Seq<u16>>, n: nat) -> Seq<Seq<u16>>
    decreases n,
{
    if n == 0 {
        d
    } else {
        relaxed(chf, forward_to(chf, d, (n - 1) as nat), n - 1, 2, 3)
    }
}

/// The columns from the last down to the `i`-th relaxed one after the other
/// against right and above.
pub open spec fn backward_from(chf: CompactHeightfield, d: Seq<Seq<u16>>, i: nat) -> Seq<Seq<u16>>
    decreases d.len() - i,
{
    if i >= d.len() {
        d
    } else {
        relaxed(chf, backward_from(chf, d, i + 1), i as int, 0, 1)
    }
}

/// The distances of all surfaces of a field.
pub open spec fn distances(chf: CompactHeightfield) -> Seq<Seq<u16>> {
    let d = starting(chf);
    backward_from(chf, forward_to(chf, d, d.len()), 0)
}

/// One distance for each surface.
pub open spec fn shaped(chf: CompactHeightfield, d: Seq<Seq<u16>>) -> bool {
    &&& d.len() == chf.columns@.len()
    &&& forall|i: int| 0 <= i < d.len() ==> (#[trigger] d[i]).len() == chf.columns@[i]@.len()
}

fn candidate(
    chf: &CompactHeightfield,
    columns: &Vec<Vec<u16>>,
    c: u32,
    r: u32,
    s: u32,
    k: usize,
) -> (v: u16)
    requires
        chf.wf(),
        shaped(*chf, depths(columns@)),
        k < 4,
    ensures
        v == by_way_of(*chf, depths(columns@), c, r, s as int, k as int),
{
    match chf.neighbor_cell(c, r, s, k) {
        None => u16::MAX,
        Some((nc, nr, ns)) => {
            proof {
                lemma_column_bound(chf.cols as int, chf.rows as int, nc as int, nr as int);
                let at = column_index(chf.cols as int, nc as int, nr as int);
                assert(depths(columns@)[at].len() == chf.columns@[at]@.len());
            }
            let d: u16 = columns[(nr * chf.cols + nc) as usize][ns as usize];
            if d == u16::MAX {
                u16::MAX
            } else {
                d + 1
            }
        },
    }
}

/// Relax one column against its neighbors in directions `j` and `k`.
fn relax_pair(
    chf: &CompactHeightfield,
    columns: &mut Vec<Vec<u16>>,
    c: u32,
    r: u32,
    j: usize,
    k: usize,
)
    requires
        chf.wf(),
        shaped(*chf, depths(old(columns)@)),
        c < chf.cols,
        r < chf.rows,
        j < 4,
        k < 4,
    ensures
        depths(final(columns)@) == relaxed(
            *chf,
            depths(old(columns)@),
            column_index(chf.cols as int, c as int, r as int),
            j as int,
            k as int,
        ),
{
    let ghost at = column_index(chf.cols as int, c as int, r as int);
    let ghost d = depths(columns@);
    proof {
        lemma_column_bound(chf.cols as int, chf.rows as int, c as int, r as int);
        lemma_column_of(chf.cols as int, chf.rows as int, at);
        columns_are_apart(
            chf.cols as int,
            c as int,
            r as int,
            at % chf.cols as int,
            at / chf.cols as int,
        );
    }
    let idx: usize = (r * chf.cols + c) as usize;
    let mut fresh: Vec<u16> = Vec::new();
    let n: usize = columns[idx].len();
    assert(d[at].len() == chf.columns@[at]@.len());
    assert(chf.surfaces(c, r).len() <= u32::MAX);
    let mut s: usize = 0;
    while s < n
        invariant
            chf.wf(),
            d == depths(columns@),
            columns@ == old(columns)@,
            shaped(*chf, d),
            c < chf.cols,
            r < chf.rows,
            j < 4,
            k < 4,
            at == column_index(chf.cols as int, c as int, r as int),
            at == idx,
            0 <= at < d.len(),
            c == at % chf.cols as int,
            r == at / chf.cols as int,
            n == d[at].len(),
            n <= u32::MAX,
            s <= n,
            fresh@.len() == s,
            forall|t: int|
                0 <= t < s ==> #[trigger] fresh@[t] == relaxed_value(
                    *chf,
                    d,
                    at,
                    t,
                    j as int,
                    k as int,
                ),
        decreases n - s,
    {
        let mut best: u16 = columns[idx][s];
        let first: u16 = candidate(chf, columns, c, r, s as u32, j);
        if first < best {
            best = first;
        }
        let second: u16 = candidate(chf, columns, c, r, s as u32, k);
        if second < best {
            best = second;
        }
        fresh.push(best);
        s += 1;
    }
    columns.set(idx, fresh);
    proof {
        let want = relaxed(*chf, d, at, j as int, k as int);
        assert forall|i: int| 0 <= i < d.len() implies #[trigger] depths(columns@)[i] == want[i] by {
            if i == at {
                assert(depths(columns@)[i] =~= want[i]);
            } else {
                assert(columns@[i] == old(columns)@[i]);
            }
        }
        assert(depths(columns@) =~= want);
    }
}

proof fn lemma_relaxed_shape(chf: CompactHeightfield, d: Seq<Seq<u16>>, i: int, j: int, k: int)
    requires
        shaped(chf, d),
        0 <= i < d.len(),
    ensures
        shaped(chf, relaxed(chf, d, i, j, k)),
{
}

/// Compute the distance of every surface from the boundary.
pub fn build_distance_field(chf: &CompactHeightfield) -> (df: DistanceField)
    requires
        chf.wf(),
    ensures
        df.cols == chf.cols && df.rows == chf.rows,
        depths(df.columns@) == distances(*chf),
        shaped(*chf, depths(df.columns@)),
{
    let n: usize = chf.columns.len();
    let mut columns: Vec<Vec<u16>> = Vec::new();
    let mut i: usize = 0;
    while i < n
        invariant
            i <= n,
            n == chf.columns@.len(),
            columns@.len() == i,
            forall|t: int| 0 <= t < i ==> (#[trigger] columns@[t])@ == starting(*chf)[t],
        decreases n - i,
    {
        let list = &chf.columns[i];
        let mut dists: Vec<u16> = Vec::new();
        let mut s: usize = 0;
        while s < list.len()
            invariant
                s <= list@.len(),
                dists@.len() == s,
                forall|t: int|
                    0 <= t < s ==> #[trigger] dists@[t] == if on_boundary(list@[t]) {
                        0u16
                    } else {
                        u16::MAX
                    },
            decreases list.len() - s,
        {
            let cell = list[s];
            let edge = cell.neighbors[0].is_none() || cell.neighbors[1].is_none()
                || cell.neighbors[2].is_none() || cell.neighbors[3].is_none();
            dists.push(
                if edge {
                    0
                } else {
                    u16::MAX
                },
            );
            s += 1;
        }
        assert(dists@ =~= starting(*chf)[i as int]);
        columns.push(dists);
        i += 1;
    }
    assert(depths(columns@) =~= starting(*chf));
    let ghost d0 = depths(columns@);
    let mut f: usize = 0;
    while f < n
        invariant
            chf.wf(),
            f <= n,
            n == chf.columns@.len(),
            shaped(*chf, depths(columns@)),
            depths(columns@) == forward_to(*chf, d0, f as nat),
        decreases n - f,
    {
        proof {
            lemma_column_of(chf.cols as int, chf.rows as int, f as int);
            lemma_relaxed_shape(*chf, depths(columns@), f as int, 2, 3);
        }
        let (c, r) = ((f as u32) % chf.cols, (f as u32) / chf.cols);
        relax_pair(chf, &mut columns, c, r, 2, 3);
        f += 1;
    }
    let ghost d1 = depths(columns@);
    let mut b: usize = n;
    while b > 0
        invariant
            chf.wf(),
            b <= n,
            n == chf.columns@.len(),
            d1.len() == n,
            shaped(*chf, depths(columns@)),
            depths(columns@) == backward_from(*chf, d1, b as nat),
        decreases b,
    {
        b -= 1;
        proof {
            lemma_column_of(chf.cols as int, chf.rows as int, b as int);
            lemma_relaxed_shape(*chf, depths(columns@), b as int, 0, 1);
        }
        let (c, r) = ((b as u32) % chf.cols, (b as u32) / chf.cols);
        relax_pair(chf, &mut columns, c, r, 0, 1);
    }
    DistanceField { cols: chf.cols, rows: chf.rows, columns }
}

impl DistanceField {
    /// One list for each column.
    pub open spec fn wf(&self) -> bool {
        &&& self.columns@.len() == self.cols * self.rows
        &&& self.cols * self.rows <= u32::MAX
        &&& forall|i: int|
            0 <= i < self.columns@.len() ==> (#[trigger] self.columns@[i])@.len() <= u32::MAX
    }

    /// The distance of a surface, where it exists.
    pub fn at(&self, c: u32, r: u32, surface_index: u32) -> (d: Option<u16>)
        requires
            self.wf(),
        ensures
            c < self.cols && r < self.rows ==> {
                let list = self.columns@[column_index(self.cols as int, c as int, r as int)]@;
                d == if surface_index < list.len() {
                    Some(list[surface_index as int])
                } else {
                    None
                }
            },
            !(c < self.cols && r < self.rows) ==> d is None,
    {
        if c >= self.cols || r >= self.rows {
            return None;
        }
        proof {
            lemma_column_bound(self.cols as int, self.rows as int, c as int, r as int);
        }
        let list = &self.columns[(r * self.cols + c) as usize];
        if (surface_index as usize) < list.len() {
            Some(list[surface_index as usize])
        } else {
            None
        }
    }

    /// The largest known distance; zero where none is known.
    pub fn max_distance(&self) -> (m: u16)
        ensures
            m != u16::MAX,
            forall|i: int, s: int|
                0 <= i < self.columns@.len() && 0 <= s < self.columns@[i]@.len()
                    && #[trigger] self.columns@[i]@[s] != u16::MAX ==> self.columns@[i]@[s] <= m,
            m != 0 ==> exists|i: int, s: int|
                0 <= i < self.columns@.len() && 0 <= s < self.columns@[i]@.len()
                    && #[trigger] self.columns@[i]@[s] == m,
    {
        let mut m: u16 = 0;
        let ghost (mut gi, mut gs) = (0int, 0int);
        let mut i: usize = 0;
        while i < self.columns.len()
            invariant
                i <= self.columns@.len(),
                m != u16::MAX,
                forall|j: int, t: int|
                    0 <= j < i && 0 <= t < self.columns@[j]@.len()
                        && #[trigger] self.columns@[j]@[t] != u16::MAX ==> self.columns@[j]@[t]
                        <= m,
                m != 0 ==> 0 <= gi < self.columns@.len() && 0 <= gs < self.columns@[gi]@.len()
                    && self.columns@[gi]@[gs] == m,
            decreases self.columns.len() - i,
        {
            let list = &self.columns[i];
            let mut s: usize = 0;
            while s < list.len()
                invariant
                    i < self.columns@.len(),
                    *list == self.columns@[i as int],
                    s <= list@.len(),
                    m != u16::MAX,
                    forall|j: int, t: int|
                        0 <= j < i && 0 <= t < self.columns@[j]@.len()
                            && #[trigger] self.columns@[j]@[t] != u16::MAX ==> self.columns@[j]@[t]
                            <= m,
                    forall|t: int|
                        0 <= t < s && #[trigger] self.columns@[i as int]@[t] != u16::MAX
                            ==> self.columns@[i as int]@[t] <= m,
                    m != 0 ==> 0 <= gi < self.columns@.len() && 0 <= gs < self.columns@[gi]@.len()
                        && self.columns@[gi]@[gs] == m,
                decreases list.len() - s,
            {
                let d: u16 = list[s];
                if d != u16::MAX && d > m {
                    m = d;
                    proof {
                        gi = i as int;
                        gs = s as int;
                    }
                }
                s += 1;
            }
            i += 1;
        }
        m
    }

    /// Every distance as (column, row, index, distance).
    pub fn iter(&self) -> (out: Vec<(u32, u32, u32, u16)>)
        requires
            self.wf(),
        ensures
            out@ == listing(self.columns@, self.cols as int, self.columns@.len()),
            lists_entries(self.columns@, self.cols as int, out@),
    {
        list_cells(&self.columns, self.cols, self.rows)
    }
}

// --- Laws -------------------------------------------------------------------

/// Whether the distances are zero exactly on the boundary.
pub open spec fn zero_on_boundary(chf: CompactHeightfield, d: Seq<Seq<u16>>) -> bool {
    &&& shaped(chf, d)
    &&& forall|i: int, s: int|
        0 <= i < d.len() && 0 <= s < d[i].len() ==> (#[trigger] d[i][s] == 0 <==> on_boundary(
            chf.columns@[i]@[s],
        ))
}

proof fn lemma_relaxing_keeps_zeros(
    chf: CompactHeightfield,
    d: Seq<Seq<u16>>,
    i: int,
    j: int,
    k: int,
)
    requires
        zero_on_boundary(chf, d),
        0 <= i < d.len(),
    ensures
        zero_on_boundary(chf, relaxed(chf, d, i, j, k)),
{
    let e = relaxed(chf, d, i, j, k);
    assert forall|t: int, s: int| 0 <= t < e.len() && 0 <= s < e[t].len() implies (
    #[trigger] e[t][s] == 0 <==> on_boundary(chf.columns@[t]@[s])) by {
        assert(d[t][s] == 0 <==> on_boundary(chf.columns@[t]@[s]));
    }
}

proof fn lemma_forward_keeps_zeros(chf: CompactHeightfield, d: Seq<Seq<u16>>, n: nat)
    requires
        zero_on_boundary(chf, d),
        n <= d.len(),
    ensures
        zero_on_boundary(chf, forward_to(chf, d, n)),
    decreases n,
{
    if n > 0 {
        lemma_forward_keeps_zeros(chf, d, (n - 1) as nat);
        lemma_relaxing_keeps_zeros(chf, forward_to(chf, d, (n - 1) as nat), n - 1, 2, 3);
    }
}

proof fn lemma_backward_keeps_zeros(chf: CompactHeightfield, d: Seq<Seq<u16>>, i: nat)
    requires
        zero_on_boundary(chf, d),
    ensures
        zero_on_boundary(chf, backward_from(chf, d, i)),
    decreases d.len() - i,
{
    if i < d.len() {
        lemma_backward_keeps_zeros(chf, d, i + 1);
        lemma_relaxing_keeps_zeros(chf, backward_from(chf, d, i + 1), i as int, 0, 1);
    }
}

/// The distance of a surface is zero exactly where it is on the boundary.
pub proof fn boundary_cells_are_at_zero(chf: CompactHeightfield)
    ensures
        zero_on_boundary(chf, distances(chf)),
{
    let d = starting(chf);
    lemma_forward_keeps_zeros(chf, d, d.len());
    lemma_backward_keeps_zeros(chf, forward_to(chf, d, d.len()), 0);
}

/// Whether every column has at most one surface and every link leads back.
pub open spec fn single_storey(chf: CompactHeightfield) -> bool {
    &&& forall|c: u32, r: u32| (#[trigger] chf.surfaces(c, r)).len() <= 1
    &&& forall|c: u32, r: u32, k: int, nc: u32, nr: u32|
        0 <= k < 4 && #[trigger] chf.neighbor(c, r, 0, k) == Some((nc, nr, 0u32))
            ==> #[trigger] chf.neighbor(nc, nr, 0, (k + 2) % 4) == Some((c, r, 0u32))
}

proof fn lemma_forward_local(chf: CompactHeightfield, d: Seq<Seq<u16>>, n: nat, i: int)
    requires
        0 <= i < d.len(),
        n <= d.len(),
    ensures
        forward_to(chf, d, n).len() == d.len(),
        n <= i ==> forward_to(chf, d, n)[i] == d[i],
        i < n ==> forward_to(chf, d, n)[i] == forward_to(chf, d, (i + 1) as nat)[i],
    decreases n,
{
    if n > 0 {
        lemma_forward_local(chf, d, (n - 1) as nat, i);
    }
}

proof fn lemma_backward_local(chf: CompactHeightfield, d: Seq<Seq<u16>>, n: nat, i: int)
    requires
        0 <= i < d.len(),
        n <= d.len(),
    ensures
        backward_from(chf, d, n).len() == d.len(),
        i < n ==> backward_from(chf, d, n)[i] == d[i],
        n <= i ==> backward_from(chf, d, n)[i] == backward_from(chf, d, i as nat)[i],
    decreases d.len() - n,
{
    if n < d.len() {
        lemma_backward_local(chf, d, n + 1, i);
    }
}

/// Place of a column in the field.
spec fn at(chf: CompactHeightfield, c: u32, r: u32) -> int {
    column_index(chf.cols as int, c as int, r as int)
}

proof fn lemma_at(chf: CompactHeightfield, c: u32, r: u32)
    requires
        chf.wf(),
        c < chf.cols,
        r < chf.rows,
    ensures
        0 <= at(chf, c, r) < chf.columns@.len(),
        at(chf, c, r) % (chf.cols as int) == c,
        at(chf, c, r) / (chf.cols as int) == r,
        chf.surfaces(c, r) == chf.columns@[at(chf, c, r)]@,
{
    let cols = chf.cols as int;
    lemma_column_bound(cols, chf.rows as int, c as int, r as int);
    lemma_column_of(cols, chf.rows as int, at(chf, c, r));
    columns_are_apart(
        cols,
        c as int,
        r as int,
        at(chf, c, r) % cols,
        at(chf, c, r) / cols,
    );
}

/// After the forward sweep a surface is at most one farther than its left and
/// lower neighbors.
proof fn lemma_forward_step(chf: CompactHeightfield, c: u32, r: u32, k: int, nc: u32, nr: u32)
    requires
        chf.wf(),
        k == 2 || k == 3,
        chf.neighbor(c, r, 0, k) == Some((nc, nr, 0u32)),
    ensures
        ({
            let d = starting(chf);
            let f = forward_to(chf, d, d.len());
            f[at(chf, c, r)][0] <= one_more(f[at(chf, nc, nr)][0])
        }),
{
    let d = starting(chf);
    let n = d.len();
    let (i, j) = (at(chf, c, r), at(chf, nc, nr));
    lemma_at(chf, c, r);
    lemma_at(chf, nc, nr);
    assert(j < i) by {
        if k == 3 {
            assert(r * chf.cols == (r - 1) * chf.cols + chf.cols) by (nonlinear_arith);
        }
    }
    lemma_forward_local(chf, d, n, i);
    lemma_forward_local(chf, d, n, j);
    lemma_forward_local(chf, d, i as nat, j);
    lemma_forward_local(chf, d, i as nat, i);
    let before = forward_to(chf, d, i as nat);
    assert(forward_to(chf, d, (i + 1) as nat) == relaxed(chf, before, i, 2, 3));
    assert(before[i].len() == chf.columns@[i]@.len());
    assert(relaxed(chf, before, i, 2, 3)[i][0] == relaxed_value(chf, before, i, 0, 2, 3));
}

/// What the backward sweep makes of a surface.
proof fn lemma_backward_value(chf: CompactHeightfield, c: u32, r: u32)
    requires
        chf.wf(),
        chf.has(c, r, 0),
    ensures
        ({
            let d = starting(chf);
            let f = forward_to(chf, d, d.len());
            let b = distances(chf);
            b[at(chf, c, r)][0] == lesser(
                lesser(f[at(chf, c, r)][0], by_way_of(chf, b, c, r, 0, 0)),
                by_way_of(chf, b, c, r, 0, 1),
            )
        }),
{
    let d = starting(chf);
    let n = d.len();
    let f = forward_to(chf, d, n);
    let b = backward_from(chf, f, 0);
    let i = at(chf, c, r);
    lemma_at(chf, c, r);
    lemma_forward_local(chf, d, n, i);
    lemma_forward_keeps_zeros(chf, d, n);
    lemma_backward_local(chf, f, 0, i);
    lemma_backward_local(chf, f, (i + 1) as nat, i);
    let before = backward_from(chf, f, (i + 1) as nat);
    assert(backward_from(chf, f, i as nat) == relaxed(chf, before, i, 0, 1));
    assert(relaxed(chf, before, i, 0, 1)[i][0] == relaxed_value(chf, before, i, 0, 0, 1));
    assert forall|k: int| k == 0 || k == 1 implies by_way_of(chf, before, c, r, 0, k) == by_way_of(
        chf,
        b,
        c,
        r,
        0,
        k,
    ) by {
        if let Some((nc, nr, ns)) = chf.neighbor(c, r, 0, k) {
            let j = at(chf, nc, nr);
            lemma_at(chf, nc, nr);
            assert(i < j) by {
                if k == 1 {
                    assert((r + 1) * chf.cols == r * chf.cols + chf.cols) by (nonlinear_arith);
                }
            }
            lemma_backward_local(chf, f, 0, j);
            lemma_backward_local(chf, f, (i + 1) as nat, j);
        }
    }
}

/// Where every column has at most one surface, the distance of a surface is
/// at most one more than that of any neighbor.
pub proof fn neighbors_differ_by_at_most_one(
    chf: CompactHeightfield,
    c: u32,
    r: u32,
    k: int,
    nc: u32,
    nr: u32,
)
    requires
        chf.wf(),
        single_storey(chf),
        0 <= k < 4,
        chf.neighbor(c, r, 0, k) == Some((nc, nr, 0u32)),
    ensures
        ({
            let b = distances(chf);
            b[column_index(chf.cols as int, c as int, r as int)][0] <= one_more(
                b[column_index(chf.cols as int, nc as int, nr as int)][0],
            )
        }),
    decreases chf.cols + chf.rows - nc - nr,
{
    let b = distances(chf);
    let cell = chf.surfaces(c, r)[0];
    assert(chf.link_fits(c, r, k, chf.surfaces(c, r)[0].neighbors[k]));
    assert(chf.has(nc, nr, 0));
    lemma_backward_value(chf, c, r);
    lemma_at(chf, c, r);
    boundary_cells_are_at_zero(chf);
    assert(b[at(chf, c, r)][0] == 0 <==> on_boundary(cell));
    if k >= 2 && !on_boundary(cell) {
        lemma_forward_step(chf, c, r, k, nc, nr);
        lemma_backward_value(chf, nc, nr);
        // The direction in which the neighbor could have gained.
        let side = if k == 2 {
            1int
        } else {
            0int
        };
        assert(chf.neighbor(nc, nr, 0, (k + 2) % 4) == Some((c, r, 0u32)));
        if let Some((uc, ur, us)) = chf.neighbor(nc, nr, 0, side) {
            assert(chf.link_fits(nc, nr, side, chf.surfaces(nc, nr)[0].neighbors[side]));
            assert(chf.surfaces(uc, ur).len() <= 1);
            // The surface on the same side of this one.
            let (vc, vr) = shifted(c as int, r as int, side);
            let (vc, vr) = (vc as u32, vr as u32);
            assert(chf.link_fits(c, r, side, chf.surfaces(c, r)[0].neighbors[side]));
            assert(chf.surfaces(vc, vr).len() <= 1);
            assert(chf.neighbor(c, r, 0, side) == Some((vc, vr, 0u32)));
            lemma_at(chf, vc, vr);
            let over = chf.surfaces(vc, vr)[0];
            assert(b[at(chf, vc, vr)][0] == 0 <==> on_boundary(over));
            if over.neighbors[k] is Some {
                assert(chf.link_fits(vc, vr, k, chf.surfaces(vc, vr)[0].neighbors[k]));
                assert(chf.neighbor(vc, vr, 0, k) == Some((uc, ur, 0u32)));
                neighbors_differ_by_at_most_one(chf, vc, vr, k, uc, ur);
            }
        }
    }
}

// --- Chains -----------------------------------------------------------------

/// Whether surface `s` of the `i`-th column has its distance by way of a
/// neighbor.
spec fn has_source(chf: CompactHeightfield, d: Seq<Seq<u16>>, i: int, s: int) -> bool {
    let (c, r) = ((i % chf.cols as int) as u32, (i / chf.cols as int) as u32);
    exists|k: int| 0 <= k < 4 && #[trigger] by_way_of(chf, d, c, r, s, k) <= d[i][s]
}

/// Whether every distance is zero, unknown, or by way of a neighbor.
spec fn is_sourced(chf: CompactHeightfield, d: Seq<Seq<u16>>) -> bool {
    &&& shaped(chf, d)
    &&& forall|i: int, s: int|
        0 <= i < d.len() && 0 <= s < d[i].len() ==> #[trigger] d[i][s] == u16::MAX || d[i][s] == 0
            || has_source(chf, d, i, s)
}

proof fn lemma_relaxing_keeps_sources(
    chf: CompactHeightfield,
    d: Seq<Seq<u16>>,
    i: int,
    j: int,
    k: int,
)
    requires
        chf.wf(),
        is_sourced(chf, d),
        0 <= i < d.len(),
        0 <= j < 4,
        0 <= k < 4,
    ensures
        is_sourced(chf, relaxed(chf, d, i, j, k)),
{
    let e = relaxed(chf, d, i, j, k);
    assert forall|t: int, s: int| 0 <= t < e.len() && 0 <= s < e[t].len() implies #[trigger] e[t][s]
        == u16::MAX || e[t][s] == 0 || has_source(chf, e, t, s) by {
        lemma_column_of(chf.cols as int, chf.rows as int, t);
        let (c, r) = ((t % chf.cols as int) as u32, (t / chf.cols as int) as u32);
        assert(d[t][s] == u16::MAX || d[t][s] == 0 || has_source(chf, d, t, s));
        assert forall|q: int| 0 <= q < 4 implies #[trigger] by_way_of(chf, e, c, r, s, q)
            <= by_way_of(chf, d, c, r, s, q) by {
            if let Some((nc, nr, ns)) = chf.neighbor(c, r, s as u32, q) {
                assert(chf.link_fits(c, r, q, chf.surfaces(c, r)[s].neighbors[q]));
                lemma_at(chf, nc, nr);
                let n = at(chf, nc, nr);
                assert(d[n].len() == chf.columns@[n]@.len());
                assert(e[n][ns as int] <= d[n][ns as int]);
            }
        }
        if e[t][s] != u16::MAX && e[t][s] != 0 {
            if e[t][s] == d[t][s] {
                let q = choose|q: int|
                    0 <= q < 4 && #[trigger] by_way_of(chf, d, c, r, s, q) <= d[t][s];
                assert(by_way_of(chf, e, c, r, s, q) <= e[t][s]);
            } else {
                assert(t == i);
                assert(by_way_of(chf, e, c, r, s, j) <= by_way_of(chf, d, c, r, s, j));
                assert(by_way_of(chf, e, c, r, s, k) <= by_way_of(chf, d, c, r, s, k));
                assert(by_way_of(chf, e, c, r, s, j) <= e[t][s] || by_way_of(chf, e, c, r, s, k)
                    <= e[t][s]);
            }
        }
    }
}

proof fn lemma_forward_keeps_sources(chf: CompactHeightfield, d: Seq<Seq<u16>>, n: nat)
    requires
        chf.wf(),
        is_sourced(chf, d),
        n <= d.len(),
    ensures
        is_sourced(chf, forward_to(chf, d, n)),
    decreases n,
{
    if n > 0 {
        lemma_forward_keeps_sources(chf, d, (n - 1) as nat);
        lemma_relaxing_keeps_sources(chf, forward_to(chf, d, (n - 1) as nat), n - 1, 2, 3);
    }
}

proof fn lemma_backward_keeps_sources(chf: CompactHeightfield, d: Seq<Seq<u16>>, i: nat)
    requires
        chf.wf(),
        is_sourced(chf, d),
    ensures
        is_sourced(chf, backward_from(chf, d, i)),
    decreases d.len() - i,
{
    if i < d.len() {
        lemma_backward_keeps_sources(chf, d, i + 1);
        lemma_relaxing_keeps_sources(chf, backward_from(chf, d, i + 1), i as int, 0, 1);
    }
}

/// Whether a list of columns leads from surface to surface, each the neighbor
/// of the one before, and ends on the boundary.
pub open spec fn is_chain(chf: CompactHeightfield, chain: Seq<(u32, u32)>) -> bool {
    &&& chain.len() > 0
    &&& forall|i: int|
        0 <= i < chain.len() ==> chf.has((#[trigger] chain[i]).0, chain[i].1, 0)
    &&& forall|i: int|
        0 <= i < chain.len() - 1 ==> neighboring(chf, #[trigger] chain[i], chain[i + 1])
    &&& on_boundary(chf.surfaces(chain.last().0, chain.last().1)[0])
}

/// Whether the lowest surface of one column links to that of another.
pub open spec fn neighboring(chf: CompactHeightfield, a: (u32, u32), b: (u32, u32)) -> bool {
    exists|k: int| 0 <= k < 4 && #[trigger] chf.neighbor(a.0, a.1, 0, k) == Some((b.0, b.1, 0u32))
}

/// The distance of the lowest surface of a column.
pub open spec fn distance_at(chf: CompactHeightfield, c: u32, r: u32) -> u16 {
    distances(chf)[column_index(chf.cols as int, c as int, r as int)][0]
}

/// Where every column has at most one surface, no chain to the boundary is
/// shorter than the distance of the surface that it starts from.
pub proof fn no_chain_is_shorter(chf: CompactHeightfield, chain: Seq<(u32, u32)>)
    requires
        chf.wf(),
        single_storey(chf),
        is_chain(chf, chain),
    ensures
        distance_at(chf, chain[0].0, chain[0].1) <= chain.len() - 1,
    decreases chain.len(),
{
    let (c, r) = chain[0];
    boundary_cells_are_at_zero(chf);
    lemma_at(chf, c, r);
    if chain.len() == 1 {
        let b = distances(chf);
        assert(b[at(chf, c, r)][0] == 0 <==> on_boundary(chf.columns@[at(chf, c, r)]@[0]));
    } else {
        let rest = chain.drop_first();
        assert(is_chain(chf, rest)) by {
            assert forall|i: int| 0 <= i < rest.len() implies chf.has(
                (#[trigger] rest[i]).0,
                rest[i].1,
                0,
            ) by {
                assert(rest[i] == chain[i + 1]);
            }
            assert forall|i: int| 0 <= i < rest.len() - 1 implies neighboring(
                chf,
                #[trigger] rest[i],
                rest[i + 1],
            ) by {
                assert(neighboring(chf, chain[i + 1], chain[i + 1 + 1]));
            }
            assert(rest.last() == chain.last());
        }
        no_chain_is_shorter(chf, rest);
        assert(neighboring(chf, chain[0int], chain[0int + 1]));
        let (nc, nr) = chain[1];
        let k = choose|k: int| 0 <= k < 4 && #[trigger] chf.neighbor(c, r, 0, k) == Some((nc, nr, 0u32));
        neighbors_differ_by_at_most_one(chf, c, r, k, nc, nr);
        assert(rest[0] == chain[1]);
    }
}

/// Where every column has at most one surface, a known distance is the length
/// of a chain to the boundary.
pub proof fn distances_are_chain_lengths(chf: CompactHeightfield, c: u32, r: u32) -> (chain: Seq<
    (u32, u32),
>)
    requires
        chf.wf(),
        single_storey(chf),
        chf.has(c, r, 0),
        distance_at(chf, c, r) < u16::MAX,
    ensures
        is_chain(chf, chain),
        chain[0] == (c, r),
        chain.len() - 1 == distance_at(chf, c, r),
    decreases distance_at(chf, c, r),
{
    let b = distances(chf);
    let i = at(chf, c, r);
    boundary_cells_are_at_zero(chf);
    lemma_at(chf, c, r);
    assert(b[i][0] == 0 <==> on_boundary(chf.columns@[i]@[0]));
    if b[i][0] == 0 {
        seq![(c, r)]
    } else {
        let d = starting(chf);
        assert(is_sourced(chf, d));
        lemma_forward_keeps_sources(chf, d, d.len());
        lemma_backward_keeps_sources(chf, forward_to(chf, d, d.len()), 0);
        assert(has_source(chf, b, i, 0));
        let k = choose|k: int| 0 <= k < 4 && #[trigger] by_way_of(chf, b, c, r, 0, k) <= b[i][0];
        let (nc, nr, ns) = chf.neighbor(c, r, 0, k).unwrap();
        assert(chf.link_fits(c, r, k, chf.surfaces(c, r)[0].neighbors[k]));
        assert(chf.surfaces(nc, nr).len() <= 1);
        assert(ns == 0);
        neighbors_differ_by_at_most_one(chf, c, r, k, nc, nr);
        let rest = distances_are_chain_lengths(chf, nc, nr);
        let chain = seq![(c, r)] + rest;
        assert(neighboring(chf, (c, r), (nc, nr)));
        assert forall|j: int| 0 <= j < chain.len() implies chf.has(
            (#[trigger] chain[j]).0,
            chain[j].1,
            0,
        ) by {
            if j > 0 {
                assert(chain[j] == rest[j - 1]);
            }
        }
        assert forall|j: int| 0 <= j < chain.len() - 1 implies neighboring(
            chf,
            #[trigger] chain[j],
            chain[j + 1],
        ) by {
            if j > 0 {
                assert(chain[j] == rest[j - 1]);
                assert(neighboring(chf, rest[j - 1], rest[j - 1 + 1]));
            }
        }
        assert(chain.last() == rest.last());
        chain
    }
}

// --- Fields with several storeys --------------------------------------------

/// Whether a surface of a field has no link in one of the four directions.
pub open spec fn is_at_edge(chf: CompactHeightfield, c: u32, r: u32, s: u32) -> bool {
    exists|k: int|
        0 <= k < 4 && (#[trigger] chf.surfaces(c, r)[s as int].neighbors[k]) is None
}

/// The distance of a surface.
pub open spec fn depth_at(chf: CompactHeightfield, c: u32, r: u32, s: u32) -> u16 {
    distances(chf)[column_index(chf.cols as int, c as int, r as int)][s as int]
}

/// Whether a surface links to another in one of the directions from `lo` up to
/// `hi`.
pub open spec fn steps_to(
    chf: CompactHeightfield,
    a: (u32, u32, u32),
    b: (u32, u32, u32),
    lo: int,
    hi: int,
) -> bool {
    exists|k: int| lo <= k < hi && #[trigger] chf.neighbor(a.0, a.1, a.2, k) == Some(b)
}

/// Whether surfaces lead from one to the next, to one that lacks a link: the
/// first `turn` steps right or up, the others left or down.
pub open spec fn is_bent_trail(
    chf: CompactHeightfield,
    trail: Seq<(u32, u32, u32)>,
    turn: int,
) -> bool {
    &&& trail.len() > 0
    &&& forall|i: int|
        0 <= i < trail.len() ==> chf.has((#[trigger] trail[i]).0, trail[i].1, trail[i].2)
    &&& forall|i: int|
        0 <= i < trail.len() - 1 ==> if i < turn {
            steps_to(chf, #[trigger] trail[i], trail[i + 1], 0, 2)
        } else {
            steps_to(chf, trail[i], trail[i + 1], 2, 4)
        }
    &&& is_at_edge(chf, trail.last().0, trail.last().1, trail.last().2)
}

/// Whether surfaces lead from one to the next, to one that lacks a link.
pub open spec fn is_trail(chf: CompactHeightfield, trail: Seq<(u32, u32, u32)>) -> bool {
    &&& trail.len() > 0
    &&& forall|i: int|
        0 <= i < trail.len() ==> chf.has((#[trigger] trail[i]).0, trail[i].1, trail[i].2)
    &&& forall|i: int|
        0 <= i < trail.len() - 1 ==> steps_to(chf, #[trigger] trail[i], trail[i + 1], 0, 4)
    &&& is_at_edge(chf, trail.last().0, trail.last().1, trail.last().2)
}

proof fn lemma_forward_link(
    chf: CompactHeightfield,
    c: u32,
    r: u32,
    s: u32,
    k: int,
    nc: u32,
    nr: u32,
    ns: u32,
)
    requires
        chf.wf(),
        k == 2 || k == 3,
        chf.neighbor(c, r, s, k) == Some((nc, nr, ns)),
    ensures
        ({
            let d = starting(chf);
            let f = forward_to(chf, d, d.len());
            f[at(chf, c, r)][s as int] <= one_more(f[at(chf, nc, nr)][ns as int])
        }),
{
    let d = starting(chf);
    let n = d.len();
    let (i, j) = (at(chf, c, r), at(chf, nc, nr));
    lemma_at(chf, c, r);
    lemma_at(chf, nc, nr);
    assert(j < i) by {
        if k == 3 {
            assert(r * chf.cols == (r - 1) * chf.cols + chf.cols) by (nonlinear_arith);
        }
    }
    lemma_forward_local(chf, d, n, i);
    lemma_forward_local(chf, d, n, j);
    lemma_forward_local(chf, d, i as nat, j);
    lemma_forward_local(chf, d, i as nat, i);
    let before = forward_to(chf, d, i as nat);
    assert(forward_to(chf, d, (i + 1) as nat) == relaxed(chf, before, i, 2, 3));
    assert(before[i].len() == chf.columns@[i]@.len());
    assert(relaxed(chf, before, i, 2, 3)[i][s as int] == relaxed_value(
        chf,
        before,
        i,
        s as int,
        2,
        3,
    ));
}

proof fn lemma_forward_start(chf: CompactHeightfield, c: u32, r: u32, s: u32)
    requires
        chf.wf(),
        chf.has(c, r, s),
        is_at_edge(chf, c, r, s),
    ensures
        ({
            let d = starting(chf);
            forward_to(chf, d, d.len())[at(chf, c, r)][s as int] == 0
        }),
{
    let d = starting(chf);
    let i = at(chf, c, r);
    lemma_at(chf, c, r);
    lemma_forward_keeps_zeros(chf, d, d.len());
    let f = forward_to(chf, d, d.len());
    assert(f[i][s as int] == 0 <==> on_boundary(chf.columns@[i]@[s as int]));
}

proof fn lemma_backward_link(chf: CompactHeightfield, c: u32, r: u32, s: u32)
    requires
        chf.wf(),
        chf.has(c, r, s),
    ensures
        ({
            let d = starting(chf);
            let f = forward_to(chf, d, d.len());
            &&& depth_at(chf, c, r, s) <= f[at(chf, c, r)][s as int]
            &&& forall|k: int, nc: u32, nr: u32, ns: u32|
                (k == 0 || k == 1) && #[trigger] chf.neighbor(c, r, s, k) == Some((nc, nr, ns))
                    ==> depth_at(chf, c, r, s) <= one_more(#[trigger] depth_at(chf, nc, nr, ns))
        }),
{
    let d = starting(chf);
    let n = d.len();
    let f = forward_to(chf, d, n);
    let b = backward_from(chf, f, 0);
    let i = at(chf, c, r);
    lemma_at(chf, c, r);
    lemma_forward_local(chf, d, n, i);
    lemma_forward_keeps_zeros(chf, d, n);
    lemma_backward_local(chf, f, 0, i);
    lemma_backward_local(chf, f, (i + 1) as nat, i);
    let before = backward_from(chf, f, (i + 1) as nat);
    assert(backward_from(chf, f, i as nat) == relaxed(chf, before, i, 0, 1));
    assert(relaxed(chf, before, i, 0, 1)[i][s as int] == relaxed_value(
        chf,
        before,
        i,
        s as int,
        0,
        1,
    ));
    assert forall|k: int, nc: u32, nr: u32, ns: u32|
        (k == 0 || k == 1) && #[trigger] chf.neighbor(c, r, s, k) == Some(
            (nc, nr, ns),
        ) implies depth_at(chf, c, r, s) <= one_more(#[trigger] depth_at(chf, nc, nr, ns)) by {
        let j = at(chf, nc, nr);
        lemma_at(chf, nc, nr);
        assert(i < j) by {
            if k == 1 {
                assert((r + 1) * chf.cols == r * chf.cols + chf.cols) by (nonlinear_arith);
            }
        }
        lemma_backward_local(chf, f, 0, j);
        lemma_backward_local(chf, f, (i + 1) as nat, j);
        assert(by_way_of(chf, before, c, r, s as int, k) == one_more(before[j][ns as int]));
    }
}

proof fn lemma_forward_trail(chf: CompactHeightfield, trail: Seq<(u32, u32, u32)>)
    requires
        chf.wf(),
        is_bent_trail(chf, trail, 0),
    ensures
        ({
            let d = starting(chf);
            let (c, r, s) = trail[0];
            forward_to(chf, d, d.len())[at(chf, c, r)][s as int] <= trail.len() - 1
        }),
    decreases trail.len(),
{
    let (c, r, s) = trail[0];
    if trail.len() == 1 {
        lemma_forward_start(chf, c, r, s);
    } else {
        let rest = trail.drop_first();
        lemma_rest_of_trail(chf, trail, 0);
        lemma_forward_trail(chf, rest);
        assert(steps_to(chf, trail[0int], trail[0int + 1], 2, 4));
        let (nc, nr, ns) = trail[1];
        let k = choose|k: int| 2 <= k < 4 && #[trigger] chf.neighbor(c, r, s, k) == Some((nc, nr, ns));
        lemma_forward_link(chf, c, r, s, k, nc, nr, ns);
        assert(rest[0] == trail[1]);
    }
}

proof fn lemma_rest_of_trail(chf: CompactHeightfield, trail: Seq<(u32, u32, u32)>, turn: int)
    requires
        is_bent_trail(chf, trail, turn),
        trail.len() > 1,
    ensures
        is_bent_trail(chf, trail.drop_first(), turn - 1),
        turn <= 0 ==> is_bent_trail(chf, trail.drop_first(), 0),
{
    let rest = trail.drop_first();
    assert forall|i: int| 0 <= i < rest.len() implies chf.has(
        (#[trigger] rest[i]).0,
        rest[i].1,
        rest[i].2,
    ) by {
        assert(rest[i] == trail[i + 1]);
    }
    assert forall|i: int| 0 <= i < rest.len() - 1 implies if i < turn - 1 {
        steps_to(chf, #[trigger] rest[i], rest[i + 1], 0, 2)
    } else {
        steps_to(chf, rest[i], rest[i + 1], 2, 4)
    } by {
        assert(rest[i] == trail[i + 1] && rest[i + 1] == trail[i + 1 + 1]);
    }
    assert(rest.last() == trail.last());
}

/// A surface is no farther from the boundary than a trail is long that leads
/// there right and up first, then left and down, whatever storeys it goes
/// through.
pub proof fn no_bent_trail_is_shorter(
    chf: CompactHeightfield,
    trail: Seq<(u32, u32, u32)>,
    turn: int,
)
    requires
        chf.wf(),
        is_bent_trail(chf, trail, turn),
    ensures
        depth_at(chf, trail[0].0, trail[0].1, trail[0].2) <= trail.len() - 1,
    decreases trail.len(),
{
    let (c, r, s) = trail[0];
    assert(chf.has(trail[0].0, trail[0].1, trail[0].2));
    lemma_backward_link(chf, c, r, s);
    if turn <= 0 || trail.len() == 1 {
        assert(is_bent_trail(chf, trail, 0)) by {
            assert forall|i: int| 0 <= i < trail.len() - 1 implies steps_to(
                chf,
                #[trigger] trail[i],
                trail[i + 1],
                2,
                4,
            ) by {}
        }
        lemma_forward_trail(chf, trail);
    } else {
        let rest = trail.drop_first();
        lemma_rest_of_trail(chf, trail, turn);
        no_bent_trail_is_shorter(chf, rest, turn - 1);
        assert(steps_to(chf, trail[0int], trail[0int + 1], 0, 2));
        let (nc, nr, ns) = trail[1];
        let k = choose|k: int| 0 <= k < 2 && #[trigger] chf.neighbor(c, r, s, k) == Some((nc, nr, ns));
        assert(rest[0] == trail[1]);
        assert(depth_at(chf, c, r, s) <= one_more(depth_at(chf, nc, nr, ns)));
    }
}

/// Where the distance of a surface is known, a trail that is no longer leads
/// from it to the boundary.
pub proof fn known_distances_are_reached(chf: CompactHeightfield, c: u32, r: u32, s: u32) -> (trail:
    Seq<(u32, u32, u32)>)
    requires
        chf.wf(),
        chf.has(c, r, s),
        depth_at(chf, c, r, s) < u16::MAX,
    ensures
        is_trail(chf, trail),
        trail[0] == (c, r, s),
        trail.len() - 1 <= depth_at(chf, c, r, s),
    decreases depth_at(chf, c, r, s),
{
    let b = distances(chf);
    let i = at(chf, c, r);
    boundary_cells_are_at_zero(chf);
    lemma_at(chf, c, r);
    let cell = chf.surfaces(c, r)[s as int];
    assert(b[i][s as int] == 0 <==> on_boundary(chf.columns@[i]@[s as int]));
    if b[i][s as int] == 0 {
        let k = if cell.neighbors[0] is None {
            0int
        } else if cell.neighbors[1] is None {
            1
        } else if cell.neighbors[2] is None {
            2
        } else {
            3
        };
        assert(chf.surfaces(c, r)[s as int].neighbors[k] is None);
        seq![(c, r, s)]
    } else {
        let d = starting(chf);
        assert(is_sourced(chf, d));
        lemma_forward_keeps_sources(chf, d, d.len());
        lemma_backward_keeps_sources(chf, forward_to(chf, d, d.len()), 0);
        assert(has_source(chf, b, i, s as int));
        let k = choose|k: int|
            0 <= k < 4 && #[trigger] by_way_of(chf, b, c, r, s as int, k) <= b[i][s as int];
        let (nc, nr, ns) = chf.neighbor(c, r, s, k).unwrap();
        assert(chf.link_fits(c, r, k, chf.surfaces(c, r)[s as int].neighbors[k]));
        let rest = known_distances_are_reached(chf, nc, nr, ns);
        let trail = seq![(c, r, s)] + rest;
        assert(steps_to(chf, (c, r, s), (nc, nr, ns), 0, 4));
        assert forall|j: int| 0 <= j < trail.len() implies chf.has(
            (#[trigger] trail[j]).0,
            trail[j].1,
            trail[j].2,
        ) by {
            if j > 0 {
                assert(trail[j] == rest[j - 1]);
            }
        }
        assert forall|j: int| 0 <= j < trail.len() - 1 implies steps_to(
            chf,
            #[trigger] trail[j],
            trail[j + 1],
            0,
            4,
        ) by {
            if j > 0 {
                assert(trail[j] == rest[j - 1] && trail[j + 1] == rest[j - 1 + 1]);
            }
        }
        assert(trail.last() == rest.last());
        trail
    }
}

} // verus!
