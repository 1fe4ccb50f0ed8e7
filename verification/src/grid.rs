//! Dense voxel grid with an area type for each cell.
//!
//! Positions are cell coordinates: column along x, row along y, layer
//! along z.

use vstd::arithmetic::div_mod::{lemma_fundamental_div_mod, lemma_fundamental_div_mod_converse};
use vstd::prelude::*;

verus! {

/// No triangle hit the cell.
pub const EMPTY: u8 = 0;

/// A wall, a ceiling or a slope too steep to walk on hit the cell.
pub const SOLID: u8 = 1;

/// A walkable triangle hit the cell.
pub const WALKABLE: u8 = 2;

/// Where cell (`c`, `r`, `l`) stands in layer-major, row-major order.
pub open spec fn cell_index(cols: int, rows: int, c: int, r: int, l: int) -> int {
    (l * rows + r) * cols + c
}

/// A box of cells; a larger area value wins where two meet.
#[derive(Clone, Debug)]
pub struct VoxelGrid {
    pub cols: u32,
    pub rows: u32,
    pub layers: u32,
    pub area: Vec<u8>,
}

impl View for VoxelGrid {
    type V = Seq<u8>;

    /// The area of every cell, by layer, then row, then column.
    open spec fn view(&self) -> Seq<u8> {
        self.area@
    }
}

/// The number of entries among the first `n` that are not empty.
pub open spec fn occupied_in(cells: Seq<u8>, n: nat) -> nat
    decreases n,
{
    if n == 0 {
        0
    } else {
        occupied_in(cells, (n - 1) as nat) + if cells[n - 1] != EMPTY {
            1nat
        } else {
            0
        }
    }
}

/// The number of entries among the first `n` that are walkable.
pub open spec fn walkable_in(cells: Seq<u8>, n: nat) -> nat
    decreases n,
{
    if n == 0 {
        0
    } else {
        walkable_in(cells, (n - 1) as nat) + if cells[n - 1] == WALKABLE {
            1nat
        } else {
            0
        }
    }
}

/// Column, row and layer of the `i`-th cell.
pub open spec fn cell_at(cols: int, rows: int, i: int) -> (u32, u32, u32) {
    ((i % cols) as u32, ((i % (cols * rows)) / cols) as u32, (i / (cols * rows)) as u32)
}

/// The occupied cells among the first `n`, with their area.
pub open spec fn occupied_cells(cells: Seq<u8>, cols: int, rows: int, n: nat) -> Seq<
    (u32, u32, u32, u8),
>
    decreases n,
{
    if n == 0 {
        Seq::empty()
    } else {
        let before = occupied_cells(cells, cols, rows, (n - 1) as nat);
        if cells[n - 1] == EMPTY {
            before
        } else {
            let (c, r, l) = cell_at(cols, rows, n - 1);
            before.push((c, r, l, cells[n - 1]))
        }
    }
}

proof fn lemma_index_bound(cols: int, rows: int, layers: int, c: int, r: int, l: int)
    requires
        0 <= c < cols,
        0 <= r < rows,
        0 <= l < layers,
    ensures
        0 <= cell_index(cols, rows, c, r, l) < cols * rows * layers,
        0 <= l * rows + r < rows * layers,
{
    assert(0 <= l * rows + r < rows * layers) by (nonlinear_arith)
        requires
            0 <= r < rows,
            0 <= l < layers,
    ;
    let q = l * rows + r;
    assert(0 <= q * cols + c < cols * (rows * layers)) by (nonlinear_arith)
        requires
            0 <= c < cols,
            0 <= q < rows * layers,
    ;
    assert(cols * (rows * layers) == cols * rows * layers) by (nonlinear_arith);
}

/// Different cells of a grid stand at different places.
pub proof fn cells_are_apart(
    cols: int,
    rows: int,
    c: int,
    r: int,
    l: int,
    c2: int,
    r2: int,
    l2: int,
)
    requires
        0 <= c < cols,
        0 <= r < rows,
        0 <= c2 < cols,
        0 <= r2 < rows,
        cell_index(cols, rows, c, r, l) == cell_index(cols, rows, c2, r2, l2),
    ensures
        c == c2 && r == r2 && l == l2,
{
    let (q, q2) = (l * rows + r, l2 * rows + r2);
    assert(q * cols == cols * q && q2 * cols == cols * q2) by (nonlinear_arith);
    lemma_fundamental_div_mod_converse(q * cols + c, cols, q, c);
    lemma_fundamental_div_mod_converse(q2 * cols + c2, cols, q2, c2);
    assert(l * rows == rows * l && l2 * rows == rows * l2) by (nonlinear_arith);
    lemma_fundamental_div_mod_converse(q, rows, l, r);
    lemma_fundamental_div_mod_converse(q2, rows, l2, r2);
}

/// The place of a cell leads back to its column, row and layer.
pub proof fn places_lead_back(cols: int, rows: int, c: int, r: int, l: int)
    requires
        0 <= c < cols <= u32::MAX,
        0 <= r < rows <= u32::MAX,
        0 <= l <= u32::MAX,
    ensures
        cell_at(cols, rows, cell_index(cols, rows, c, r, l)) == (c as u32, r as u32, l as u32),
{
    let q = l * rows + r;
    let i = q * cols + c;
    assert(q * cols == cols * q) by (nonlinear_arith);
    lemma_fundamental_div_mod_converse(i, cols, q, c);
    let inner = r * cols + c;
    assert(0 <= inner < cols * rows) by (nonlinear_arith)
        requires
            0 <= c < cols,
            0 <= r < rows,
            inner == r * cols + c,
    ;
    assert(i == (cols * rows) * l + inner) by (nonlinear_arith)
        requires
            i == (l * rows + r) * cols + c,
            inner == r * cols + c,
    ;
    lemma_fundamental_div_mod_converse(i, cols * rows, l, inner);
    assert(r * cols == cols * r) by (nonlinear_arith);
    lemma_fundamental_div_mod_converse(inner, cols, r, c);
}

impl VoxelGrid {
    /// One entry for each cell.
    pub open spec fn wf(&self) -> bool {
        self@.len() == self.cols * self.rows * self.layers && self.cols * self.rows * self.layers
            <= usize::MAX
    }

    pub open spec fn inside(&self, c: u32, r: u32, l: u32) -> bool {
        c < self.cols && r < self.rows && l < self.layers
    }

    pub open spec fn place(&self, c: u32, r: u32, l: u32) -> int {
        cell_index(self.cols as int, self.rows as int, c as int, r as int, l as int)
    }

    /// The area of a cell; outside the grid, empty.
    pub open spec fn area_of(&self, c: u32, r: u32, l: u32) -> u8 {
        if self.inside(c, r, l) {
            self@[self.place(c, r, l)]
        } else {
            EMPTY
        }
    }

    /// A grid of the given size, all cells empty.
    pub fn new(cols: u32, rows: u32, layers: u32) -> (g: VoxelGrid)
        requires
            cols * rows * layers <= usize::MAX,
        ensures
            g.wf(),
            g.cols == cols && g.rows == rows && g.layers == layers,
            forall|i: int| 0 <= i < g@.len() ==> g@[i] == EMPTY,
    {
        let mut g = VoxelGrid { cols, rows, layers, area: Vec::new() };
        let total: usize = g.cell_count();
        let mut i: usize = 0;
        while i < total
            invariant
                i <= total,
                g@.len() == i,
                g.cols == cols && g.rows == rows && g.layers == layers,
                forall|k: int| 0 <= k < i ==> g@[k] == EMPTY,
            decreases total - i,
        {
            g.area.push(EMPTY);
            i += 1;
        }
        g
    }

    /// How many cells the grid has.
    pub fn cell_count(&self) -> (r: usize)
        requires
            self.cols * self.rows * self.layers <= usize::MAX,
        ensures
            r == self.cols * self.rows * self.layers,
    {
        if self.layers == 0 {
            assert(self.cols * self.rows * 0 == 0) by (nonlinear_arith);
            return 0;
        }
        proof {
            let (a, b, c) = (self.cols as int, self.rows as int, self.layers as int);
            assert(0 <= a * b <= a * b * c) by (nonlinear_arith)
                requires
                    a >= 0,
                    b >= 0,
                    c >= 1,
            ;
        }
        (self.cols as usize) * (self.rows as usize) * (self.layers as usize)
    }

    /// How many cells are not empty.
    pub fn occupied_count(&self) -> (r: usize)
        ensures
            r == occupied_in(self@, self@.len()),
    {
        let mut n: usize = 0;
        let mut i: usize = 0;
        while i < self.area.len()
            invariant
                i <= self@.len(),
                n <= i,
                n == occupied_in(self@, i as nat),
            decreases self.area.len() - i,
        {
            if self.area[i] != EMPTY {
                n += 1;
            }
            i += 1;
        }
        n
    }

    /// How many cells are walkable.
    pub fn walkable_count(&self) -> (r: usize)
        ensures
            r == walkable_in(self@, self@.len()),
    {
        let mut n: usize = 0;
        let mut i: usize = 0;
        while i < self.area.len()
            invariant
                i <= self@.len(),
                n <= i,
                n == walkable_in(self@, i as nat),
            decreases self.area.len() - i,
        {
            if self.area[i] == WALKABLE {
                n += 1;
            }
            i += 1;
        }
        n
    }

    /// Whether every cell is empty.
    pub fn is_empty_grid(&self) -> (r: bool)
        ensures
            r == forall|i: int| 0 <= i < self@.len() ==> self@[i] == EMPTY,
    {
        let mut i: usize = 0;
        while i < self.area.len()
            invariant
                i <= self@.len(),
                forall|k: int| 0 <= k < i ==> self@[k] == EMPTY,
            decreases self.area.len() - i,
        {
            if self.area[i] != EMPTY {
                assert(self@[i as int] != EMPTY);
                return false;
            }
            i += 1;
        }
        true
    }

    /// Make every cell empty.
    pub fn clear(&mut self)
        ensures
            final(self)@.len() == old(self)@.len(),
            final(self).cols == old(self).cols && final(self).rows == old(self).rows
                && final(self).layers == old(self).layers,
            forall|i: int| 0 <= i < final(self)@.len() ==> final(self)@[i] == EMPTY,
    {
        let n: usize = self.area.len();
        let mut i: usize = 0;
        while i < n
            invariant
                i <= n,
                n == self@.len(),
                n == old(self)@.len(),
                self.cols == old(self).cols && self.rows == old(self).rows && self.layers == old(
                    self,
                ).layers,
                forall|k: int| 0 <= k < i ==> self@[k] == EMPTY,
            decreases n - i,
        {
            self.area[i] = EMPTY;
            i += 1;
        }
    }

    fn in_range(&self, c: u32, r: u32, l: u32) -> (b: bool)
        ensures
            b == self.inside(c, r, l),
    {
        c < self.cols && r < self.rows && l < self.layers
    }

    fn linear_index(&self, c: u32, r: u32, l: u32) -> (i: usize)
        requires
            self.wf(),
            self.inside(c, r, l),
        ensures
            i == self.place(c, r, l),
            i < self@.len(),
    {
        proof {
            let (a, b, n) = (self.cols as int, self.rows as int, self.layers as int);
            lemma_index_bound(a, b, n, c as int, r as int, l as int);
            assert(0 <= l * b <= l * b + r);
            let q = l * b + r;
            assert(b * n <= a * b * n) by (nonlinear_arith)
                requires
                    a >= 1,
                    b >= 0,
                    n >= 0,
            ;
            assert(q * a >= 0) by (nonlinear_arith)
                requires
                    q >= 0,
                    a >= 0,
            ;
        }
        ((l as usize) * (self.rows as usize) + (r as usize)) * (self.cols as usize) + (c as usize)
    }

    /// The area of cell (`c`, `r`, `l`); outside the grid, empty.
    pub fn area_at(&self, c: u32, r: u32, l: u32) -> (a: u8)
        requires
            self.wf(),
        ensures
            a == self.area_of(c, r, l),
    {
        if !self.in_range(c, r, l) {
            return EMPTY;
        }
        self.area[self.linear_index(c, r, l)]
    }

    /// Whether the cell is not empty.
    pub fn is_occupied(&self, c: u32, r: u32, l: u32) -> (b: bool)
        requires
            self.wf(),
        ensures
            b == (self.area_of(c, r, l) != EMPTY),
    {
        self.area_at(c, r, l) != EMPTY
    }

    /// Overwrite the area of a cell; outside the grid, do nothing.
    pub fn set_area(&mut self, c: u32, r: u32, l: u32, area: u8)
        requires
            old(self).wf(),
        ensures
            final(self).wf(),
            final(self).cols == old(self).cols && final(self).rows == old(self).rows
                && final(self).layers == old(self).layers,
            final(self)@ == if old(self).inside(c, r, l) {
                old(self)@.update(old(self).place(c, r, l), area)
            } else {
                old(self)@
            },
    {
        if !self.in_range(c, r, l) {
            return;
        }
        let i: usize = self.linear_index(c, r, l);
        self.area[i] = area;
    }

    /// Raise the area of a cell to `area` where it is below; outside the grid,
    /// do nothing.
    pub fn merge_area(&mut self, c: u32, r: u32, l: u32, area: u8)
        requires
            old(self).wf(),
        ensures
            final(self).wf(),
            final(self).cols == old(self).cols && final(self).rows == old(self).rows
                && final(self).layers == old(self).layers,
            final(self)@ == if old(self).inside(c, r, l) && area > old(self).area_of(c, r, l) {
                old(self)@.update(old(self).place(c, r, l), area)
            } else {
                old(self)@
            },
    {
        if !self.in_range(c, r, l) {
            return;
        }
        let i: usize = self.linear_index(c, r, l);
        if area > self.area[i] {
            self.area[i] = area;
        }
    }

    /// Column, row, layer and area of every occupied cell, by layer, then row,
    /// then column.
    pub fn iter_with_area(&self) -> (out: Vec<(u32, u32, u32, u8)>)
        requires
            self.wf(),
        ensures
            out@ == occupied_cells(self@, self.cols as int, self.rows as int, self@.len()),
            lists_occupied(*self, out@),
    {
        let mut out: Vec<(u32, u32, u32, u8)> = Vec::new();
        let mut i: usize = 0;
        while i < self.area.len()
            invariant
                self.wf(),
                i <= self@.len(),
                out@ == occupied_cells(self@, self.cols as int, self.rows as int, i as nat),
            decreases self.area.len() - i,
        {
            let a: u8 = self.area[i];
            if a != EMPTY {
                proof {
                    self.lemma_place_in_bounds(i as int);
                }
                let cols: usize = self.cols as usize;
                let per_layer: usize = cols * (self.rows as usize);
                let l: u32 = (i / per_layer) as u32;
                let r: u32 = ((i % per_layer) / cols) as u32;
                let c: u32 = (i % cols) as u32;
                out.push((c, r, l, a));
            }
            i += 1;
        }
        proof {
            every_occupied_cell_is_listed(*self);
        }
        out
    }

    /// Column, row and layer of every occupied cell, in the same order.
    pub fn iter_occupied(&self) -> (out: Vec<(u32, u32, u32)>)
        requires
            self.wf(),
        ensures
            ({
                let cells = occupied_cells(
                    self@,
                    self.cols as int,
                    self.rows as int,
                    self@.len(),
                );
                &&& out@.len() == cells.len()
                &&& forall|k: int|
                    0 <= k < out@.len() ==> out@[k] == (cells[k].0, cells[k].1, cells[k].2)
            }),
    {
        let cells = self.iter_with_area();
        let mut out: Vec<(u32, u32, u32)> = Vec::new();
        let mut k: usize = 0;
        while k < cells.len()
            invariant
                k <= cells@.len(),
                out@.len() == k,
                forall|j: int|
                    0 <= j < k ==> out@[j] == (cells@[j].0, cells@[j].1, cells@[j].2),
            decreases cells.len() - k,
        {
            let (c, r, l, _) = cells[k];
            out.push((c, r, l));
            k += 1;
        }
        out
    }

    proof fn lemma_place_in_bounds(&self, i: int)
        requires
            self.wf(),
            0 <= i < self@.len(),
        ensures
            0 < self.cols && 0 < self.cols * self.rows <= usize::MAX,
            0 <= i / (self.cols * self.rows) < self.layers,
    {
        let (a, b, n) = (self.cols as int, self.rows as int, self.layers as int);
        assert(a >= 1 && b >= 1 && n >= 1) by (nonlinear_arith)
            requires
                a >= 0,
                b >= 0,
                n >= 0,
                a * b * n > 0,
        ;
        assert(0 < a * b <= a * b * n) by (nonlinear_arith)
            requires
                a >= 1,
                b >= 1,
                n >= 1,
        ;
        let p = a * b;
        lemma_fundamental_div_mod(i, p);
        let q = i / p;
        assert(0 <= q < n) by (nonlinear_arith)
            requires
                p > 0,
                0 <= i < p * n,
                i == p * q + i % p,
                0 <= i % p < p,
        ;
    }
}

/// Setting one cell leaves every other as it was.
pub proof fn setting_a_cell_leaves_the_others(
    g: VoxelGrid,
    h: VoxelGrid,
    c: u32,
    r: u32,
    l: u32,
    area: u8,
    c2: u32,
    r2: u32,
    l2: u32,
)
    requires
        g.wf(),
        g.inside(c, r, l),
        h.cols == g.cols && h.rows == g.rows && h.layers == g.layers,
        h@ == g@.update(g.place(c, r, l), area),
    ensures
        h.area_of(c, r, l) == area,
        (c, r, l) != (c2, r2, l2) ==> h.area_of(c2, r2, l2) == g.area_of(c2, r2, l2),
{
    let (a, b, n) = (g.cols as int, g.rows as int, g.layers as int);
    lemma_index_bound(a, b, n, c as int, r as int, l as int);
    if g.inside(c2, r2, l2) {
        lemma_index_bound(a, b, n, c2 as int, r2 as int, l2 as int);
        if g.place(c, r, l) == g.place(c2, r2, l2) {
            cells_are_apart(
                a,
                b,
                c as int,
                r as int,
                l as int,
                c2 as int,
                r2 as int,
                l2 as int,
            );
        }
    }
}

/// Whether `out` lists the occupied cells of a grid with their areas: none but
/// those, each of them, in the order of their places.
pub open spec fn lists_occupied(g: VoxelGrid, out: Seq<(u32, u32, u32, u8)>) -> bool {
    &&& forall|i: int|
        0 <= i < out.len() ==> {
            let (c, r, l, a) = #[trigger] out[i];
            g.inside(c, r, l) && a == g.area_of(c, r, l) && a != EMPTY
        }
    &&& forall|c: u32, r: u32, l: u32|
        #![trigger g.area_of(c, r, l)]
        g.area_of(c, r, l) != EMPTY ==> out.contains((c, r, l, g.area_of(c, r, l)))
    &&& forall|i: int, j: int|
        0 <= i < j < out.len() ==> g.place(out[i].0, out[i].1, out[i].2) < g.place(
            out[j].0,
            out[j].1,
            out[j].2,
        )
}

/// Where the entries of a list of occupied cells stand.
spec fn listed_at(g: VoxelGrid, out: Seq<(u32, u32, u32, u8)>, at: Seq<int>, n: int) -> bool {
    &&& at.len() == out.len()
    &&& forall|i: int|
        0 <= i < at.len() ==> {
            &&& 0 <= #[trigger] at[i] < n
            &&& g@[at[i]] != EMPTY
            &&& out[i].3 == g@[at[i]]
            &&& (out[i].0, out[i].1, out[i].2) == cell_at(g.cols as int, g.rows as int, at[i])
        }
    &&& forall|i: int, j: int| 0 <= i < j < at.len() ==> at[i] < at[j]
    &&& forall|p: int| 0 <= p < n && #[trigger] g@[p] != EMPTY ==> at.contains(p)
}

proof fn lemma_listed_at(g: VoxelGrid, n: nat) -> (at: Seq<int>)
    requires
        n <= g@.len(),
    ensures
        listed_at(g, occupied_cells(g@, g.cols as int, g.rows as int, n), at, n as int),
    decreases n,
{
    if n == 0 {
        Seq::empty()
    } else {
        let before = lemma_listed_at(g, (n - 1) as nat);
        let p = n - 1;
        if g@[p] == EMPTY {
            before
        } else {
            let at = before.push(p);
            assert(at[before.len() as int] == p);
            assert forall|q: int| 0 <= q < n && #[trigger] g@[q] != EMPTY implies at.contains(q) by {
                if q < p {
                    assert(before.contains(q));
                    assert(at[before.index_of(q)] == q);
                }
            }
            at
        }
    }
}

proof fn lemma_cell_at(g: VoxelGrid, i: int)
    requires
        g.wf(),
        0 <= i < g@.len(),
    ensures
        ({
            let (c, r, l) = cell_at(g.cols as int, g.rows as int, i);
            g.inside(c, r, l) && g.place(c, r, l) == i
        }),
{
    g.lemma_place_in_bounds(i);
    let (a, b) = (g.cols as int, g.rows as int);
    let p = a * b;
    let (q, m) = (i / p, i % p);
    lemma_fundamental_div_mod(i, p);
    assert(0 <= m < p);
    let (x, y) = (m % a, m / a);
    lemma_fundamental_div_mod(m, a);
    assert(0 <= y < b) by (nonlinear_arith)
        requires
            a > 0,
            0 <= m < a * b,
            m == a * y + x,
            0 <= x < a,
    ;
    assert(i == a * (b * q + y) + x) by (nonlinear_arith)
        requires
            i == (a * b) * q + m,
            m == a * y + x,
    ;
    assert(a * (b * q + y) == (b * q + y) * a) by (nonlinear_arith);
    lemma_fundamental_div_mod_converse(i, a, b * q + y, x);
    assert(b * q == q * b) by (nonlinear_arith);
}

/// The cells that a grid lists are its occupied cells, each once, with the
/// area that each has.
pub proof fn every_occupied_cell_is_listed(g: VoxelGrid)
    requires
        g.wf(),
    ensures
        lists_occupied(g, occupied_cells(g@, g.cols as int, g.rows as int, g@.len())),
        occupied_cells(g@, g.cols as int, g.rows as int, g@.len()).len() == occupied_in(
            g@,
            g@.len(),
        ),
{
    let out = occupied_cells(g@, g.cols as int, g.rows as int, g@.len());
    let at = lemma_listed_at(g, g@.len());
    assert forall|i: int| 0 <= i < out.len() implies {
        let (c, r, l, a) = #[trigger] out[i];
        g.inside(c, r, l) && a == g.area_of(c, r, l) && a != EMPTY && g.place(c, r, l) == at[i]
    } by {
        lemma_cell_at(g, at[i]);
    }
    assert forall|c: u32, r: u32, l: u32|
        #![trigger g.area_of(c, r, l)]
        g.area_of(c, r, l) != EMPTY implies out.contains((c, r, l, g.area_of(c, r, l))) by {
        let p = g.place(c, r, l);
        lemma_index_bound(
            g.cols as int,
            g.rows as int,
            g.layers as int,
            c as int,
            r as int,
            l as int,
        );
        assert(g@[p] != EMPTY);
        assert(at.contains(p));
        let i = at.index_of(p);
        let e = out[i];
        assert(g.place(e.0, e.1, e.2) == p);
        cells_are_apart(
            g.cols as int,
            g.rows as int,
            c as int,
            r as int,
            l as int,
            e.0 as int,
            e.1 as int,
            e.2 as int,
        );
        assert(out[i] == (c, r, l, g.area_of(c, r, l)));
    }
    assert forall|i: int, j: int| 0 <= i < j < out.len() implies g.place(
        out[i].0,
        out[i].1,
        out[i].2,
    ) < g.place(out[j].0, out[j].1, out[j].2) by {
        let (x, y) = (out[i], out[j]);
        assert(at[i] < at[j]);
    }
    lemma_listed_count(g@, g.cols as int, g.rows as int, g@.len());
}

proof fn lemma_listed_count(cells: Seq<u8>, cols: int, rows: int, n: nat)
    ensures
        occupied_cells(cells, cols, rows, n).len() == occupied_in(cells, n),
    decreases n,
{
    if n > 0 {
        lemma_listed_count(cells, cols, rows, (n - 1) as nat);
    }
}

/// The counts follow the cells: a change of one cell takes away what it
/// counted for and adds what it counts for now.
pub proof fn counts_follow_the_cells(cells: Seq<u8>, i: int, area: u8, n: nat)
    requires
        0 <= i < n <= cells.len(),
    ensures
        occupied_in(cells.update(i, area), n) + (if cells[i] != EMPTY {
            1int
        } else {
            0
        }) == occupied_in(cells, n) + (if area != EMPTY {
            1int
        } else {
            0
        }),
        walkable_in(cells.update(i, area), n) + (if cells[i] == WALKABLE {
            1int
        } else {
            0
        }) == walkable_in(cells, n) + (if area == WALKABLE {
            1int
        } else {
            0
        }),
    decreases n,
{
    let (m, to) = ((n - 1) as nat, cells.update(i, area));
    if i < m {
        counts_follow_the_cells(cells, i, area, m);
    } else {
        lemma_counts_agree(cells, to, m);
    }
}

proof fn lemma_counts_agree(a: Seq<u8>, b: Seq<u8>, n: nat)
    requires
        n <= a.len(),
        n <= b.len(),
        forall|i: int| 0 <= i < n ==> a[i] == b[i],
    ensures
        occupied_in(a, n) == occupied_in(b, n),
        walkable_in(a, n) == walkable_in(b, n),
    decreases n,
{
    if n > 0 {
        lemma_counts_agree(a, b, (n - 1) as nat);
    }
}

/// A grid of empty cells counts none.
pub proof fn empty_cells_are_not_counted(cells: Seq<u8>, n: nat)
    requires
        n <= cells.len(),
        forall|i: int| 0 <= i < n ==> cells[i] == EMPTY,
    ensures
        occupied_in(cells, n) == 0,
        walkable_in(cells, n) == 0,
    decreases n,
{
    if n > 0 {
        empty_cells_are_not_counted(cells, (n - 1) as nat);
    }
}

} // verus!
