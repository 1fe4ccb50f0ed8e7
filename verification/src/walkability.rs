//! Walkable surfaces of a voxel grid, column by column.
//!
//! A surface is a walkable cell with enough empty cells above it. Each
//! surface is linked, in each of the four directions, to the surface of the
//! next column that is nearest in height and within reach of a step.

use crate::grid::{VoxelGrid, EMPTY, WALKABLE};
use vstd::arithmetic::div_mod::{lemma_fundamental_div_mod, lemma_fundamental_div_mod_converse};
use vstd::prelude::*;

verus! {

/// One walkable surface of a column.
#[derive(Copy, Clone, Debug, PartialEq, Eq)]
pub struct WalkableCell {
    /// Layer of the cell in the voxel grid.
    pub layer: u32,
    /// For each direction the index of the linked surface in the next
    /// column: right, up, left, down.
    pub neighbors: [Option<u32>; 4],
}

/// Column and row steps of the four directions: right, up, left, down.
pub const NEIGHBOR_DELTAS: [(i32, i32); 4] = [(1, 0), (0, 1), (-1, 0), (0, -1)];

/// The column next to (`c`, `r`) in direction `k`.
pub open spec fn shifted(c: int, r: int, k: int) -> (int, int) {
    if k == 0 {
        (c + 1, r)
    } else if k == 1 {
        (c, r + 1)
    } else if k == 2 {
        (c - 1, r)
    } else {
        (c, r - 1)
    }
}

/// Where column (`c`, `r`) stands in row-major order.
pub open spec fn column_index(cols: int, c: int, r: int) -> int {
    r * cols + c
}

pub proof fn lemma_column_bound(cols: int, rows: int, c: int, r: int)
    requires
        0 <= c < cols,
        0 <= r < rows,
    ensures
        0 <= column_index(cols, c, r) < cols * rows,
        0 <= r * cols,
{
    assert(0 <= r * cols && 0 <= r * cols + c < cols * rows) by (nonlinear_arith)
        requires
            0 <= c < cols,
            0 <= r < rows,
    ;
}

/// Different columns stand at different places.
pub proof fn columns_are_apart(cols: int, c: int, r: int, c2: int, r2: int)
    requires
        0 <= c < cols,
        0 <= c2 < cols,
        column_index(cols, c, r) == column_index(cols, c2, r2),
    ensures
        c == c2 && r == r2,
{
    assert(r * cols == cols * r && r2 * cols == cols * r2) by (nonlinear_arith);
    lemma_fundamental_div_mod_converse(r * cols + c, cols, r, c);
    lemma_fundamental_div_mod_converse(r2 * cols + c2, cols, r2, c2);
}

pub proof fn lemma_column_of(cols: int, rows: int, i: int)
    requires
        0 <= i < cols * rows,
        0 <= cols,
        0 <= rows,
    ensures
        0 < cols,
        0 <= i % cols < cols,
        0 <= i / cols < rows,
        column_index(cols, i % cols, i / cols) == i,
{
    assert(cols > 0) by (nonlinear_arith)
        requires
            cols >= 0,
            rows >= 0,
            cols * rows > 0,
    ;
    lemma_fundamental_div_mod(i, cols);
    let q = i / cols;
    assert(q * cols == cols * q) by (nonlinear_arith);
    assert(0 <= q < rows) by (nonlinear_arith)
        requires
            cols > 0,
            0 <= i < cols * rows,
            i == cols * q + i % cols,
            0 <= i % cols < cols,
    ;
}

// --- Surfaces of one column -------------------------------------------------

/// Whether the cells from layer `first` on are empty, `clearance` of them.
pub open spec fn clear_above(g: VoxelGrid, c: u32, r: u32, first: int, clearance: int) -> bool {
    forall|l: u32|
        first <= l < first + clearance && l < g.layers ==> #[trigger] g.area_of(c, r, l) == EMPTY
}

/// The layer above the walkable cell at `l` and above a second one on it,
/// where there is one.
pub open spec fn strip_end(g: VoxelGrid, c: u32, r: u32, l: nat) -> nat {
    if l + 1 < g.layers && g.area_of(c, r, (l + 1) as u32) == WALKABLE {
        l + 2
    } else {
        l + 1
    }
}

/// The layers of the walkable surfaces of a column, from layer `l` up. Two
/// walkable cells on each other count as one surface.
pub open spec fn surface_layers(g: VoxelGrid, c: u32, r: u32, clearance: u32, l: nat) -> Seq<u32>
    decreases g.layers - l,
{
    if l >= g.layers {
        Seq::empty()
    } else if g.area_of(c, r, l as u32) != WALKABLE {
        surface_layers(g, c, r, clearance, l + 1)
    } else {
        let end = strip_end(g, c, r, l);
        let above = surface_layers(g, c, r, clearance, end);
        if clear_above(g, c, r, end as int, clearance as int) {
            seq![l as u32] + above
        } else {
            above
        }
    }
}

/// Are the `clearance` cells from layer `first` on empty?
fn has_clearance_from(g: &VoxelGrid, c: u32, r: u32, first: u32, clearance: u32) -> (b: bool)
    requires
        g.wf(),
        first <= g.layers,
    ensures
        b == clear_above(*g, c, r, first as int, clearance as int),
{
    let mut l: u32 = first;
    while l < g.layers && l - first < clearance
        invariant
            g.wf(),
            first <= l <= g.layers,
            l - first <= clearance,
            forall|k: u32| first <= k < l ==> #[trigger] g.area_of(c, r, k) == EMPTY,
        decreases g.layers - l,
    {
        if g.is_occupied(c, r, l) {
            assert(g.area_of(c, r, l) != EMPTY);
            return false;
        }
        l += 1;
    }
    true
}

/// The layers of the walkable surfaces of a column, bottom to top.
fn column_surfaces(g: &VoxelGrid, c: u32, r: u32, clearance: u32) -> (out: Vec<u32>)
    requires
        g.wf(),
    ensures
        out@ == surface_layers(*g, c, r, clearance, 0),
        out@.len() <= g.layers,
        forall|i: int, j: int| 0 <= i < j < out@.len() ==> out@[i] < out@[j],
{
    let mut out: Vec<u32> = Vec::new();
    let mut l: u32 = 0;
    while l < g.layers
        invariant
            g.wf(),
            l <= g.layers,
            out@.len() <= l,
            out@ + surface_layers(*g, c, r, clearance, l as nat) == surface_layers(
                *g,
                c,
                r,
                clearance,
                0,
            ),
            forall|i: int| 0 <= i < out@.len() ==> out@[i] < l,
            forall|i: int, j: int| 0 <= i < j < out@.len() ==> out@[i] < out@[j],
        decreases g.layers - l,
    {
        let ghost before = out@;
        if g.area_at(c, r, l) != WALKABLE {
            l += 1;
        } else {
            let start: u32 = l;
            l += 1;
            if l < g.layers && g.area_at(c, r, l) == WALKABLE {
                l += 1;
            }
            if has_clearance_from(g, c, r, l, clearance) {
                out.push(start);
                proof {
                    let above = surface_layers(*g, c, r, clearance, l as nat);
                    assert(out@ + above =~= before + (seq![start] + above));
                }
            }
        }
    }
    proof {
        assert(out@ + Seq::<u32>::empty() =~= out@);
    }
    out
}

// --- Links ------------------------------------------------------------------

/// The difference of two layers.
pub open spec fn layer_gap(a: u32, b: u32) -> int {
    if a < b {
        b - a
    } else {
        a - b
    }
}

/// Whether `n` is the index of the layer nearest to `mine` and at most
/// `max_step` away, the lower index where two are equally near; none where
/// none is within reach.
pub open spec fn is_nearest(layers: Seq<u32>, mine: u32, max_step: u32, n: Option<u32>) -> bool {
    match n {
        None => forall|j: int| 0 <= j < layers.len() ==> layer_gap(mine, #[trigger] layers[j]) > max_step,
        Some(i) => {
            &&& i < layers.len()
            &&& layer_gap(mine, layers[i as int]) <= max_step
            &&& forall|j: int|
                0 <= j < layers.len() ==> layer_gap(mine, layers[i as int]) <= layer_gap(
                    mine,
                    #[trigger] layers[j],
                )
            &&& forall|j: int|
                0 <= j < i ==> layer_gap(mine, layers[i as int]) < layer_gap(
                    mine,
                    #[trigger] layers[j],
                )
        },
    }
}

fn find_nearest(layers: &Vec<u32>, mine: u32, max_step: u32) -> (n: Option<u32>)
    requires
        layers@.len() <= u32::MAX,
    ensures
        is_nearest(layers@, mine, max_step, n),
{
    let mut best: Option<u32> = None;
    let mut best_gap: u32 = 0;
    let mut i: usize = 0;
    while i < layers.len()
        invariant
            i <= layers@.len() <= u32::MAX,
            match best {
                None => forall|j: int|
                    0 <= j < i ==> layer_gap(mine, #[trigger] layers@[j]) > max_step,
                Some(b) => {
                    &&& b < i
                    &&& best_gap == layer_gap(mine, layers@[b as int])
                    &&& best_gap <= max_step
                    &&& forall|j: int|
                        0 <= j < i ==> best_gap <= layer_gap(mine, #[trigger] layers@[j])
                    &&& forall|j: int|
                        0 <= j < b ==> best_gap < layer_gap(mine, #[trigger] layers@[j])
                },
            },
        decreases layers.len() - i,
    {
        let other: u32 = layers[i];
        let gap: u32 = if mine < other {
            other - mine
        } else {
            mine - other
        };
        let better = match best {
            None => true,
            Some(_) => gap < best_gap,
        };
        if gap <= max_step && better {
            best = Some(i as u32);
            best_gap = gap;
        }
        i += 1;
    }
    best
}

/// Whether `n` is the link of a surface at layer `mine` in column (`c`, `r`)
/// in direction `k`.
pub open spec fn is_link(
    g: VoxelGrid,
    clearance: u32,
    max_step: u32,
    c: u32,
    r: u32,
    mine: u32,
    k: int,
    n: Option<u32>,
) -> bool {
    let (nc, nr) = shifted(c as int, r as int, k);
    if 0 <= nc < g.cols && 0 <= nr < g.rows {
        is_nearest(surface_layers(g, nc as u32, nr as u32, clearance, 0), mine, max_step, n)
    } else {
        n is None
    }
}

/// The walkable surfaces of a grid, with links between neighboring columns.
#[derive(Clone, Debug)]
pub struct CompactHeightfield {
    pub cols: u32,
    pub rows: u32,
    /// The surfaces of each column, bottom to top; columns in row-major order.
    pub columns: Vec<Vec<WalkableCell>>,
}

/// Whether a field is the classification of a grid.
pub open spec fn classified(
    g: VoxelGrid,
    clearance: u32,
    max_step: u32,
    chf: CompactHeightfield,
) -> bool {
    &&& chf.cols == g.cols && chf.rows == g.rows
    &&& forall|c: u32, r: u32|
        c < g.cols && r < g.rows ==> column_classified(
            g,
            clearance,
            max_step,
            c,
            r,
            #[trigger] chf.surfaces(c, r),
        )
}

/// Whether a list of surfaces is that of a column.
pub open spec fn column_classified(
    g: VoxelGrid,
    clearance: u32,
    max_step: u32,
    c: u32,
    r: u32,
    list: Seq<WalkableCell>,
) -> bool {
    let layers = surface_layers(g, c, r, clearance, 0);
    &&& list.len() == layers.len()
    &&& forall|i: int| 0 <= i < list.len() ==> (#[trigger] list[i]).layer == layers[i]
    &&& forall|i: int, k: int|
        0 <= i < list.len() && 0 <= k < 4 ==> is_link(
            g,
            clearance,
            max_step,
            c,
            r,
            list[i].layer,
            k,
            #[trigger] list[i].neighbors[k],
        )
}

impl CompactHeightfield {
    /// The surfaces of column (`c`, `r`), bottom to top; outside the field,
    /// none.
    pub open spec fn surfaces(&self, c: u32, r: u32) -> Seq<WalkableCell> {
        if c < self.cols && r < self.rows {
            self.columns@[column_index(self.cols as int, c as int, r as int)]@
        } else {
            Seq::empty()
        }
    }

    /// Whether surface `si` of column (`c`, `r`) exists.
    pub open spec fn has(&self, c: u32, r: u32, si: u32) -> bool {
        c < self.cols && r < self.rows && si < self.surfaces(c, r).len()
    }

    /// One list for each column, layers ascending, links to surfaces that
    /// exist.
    pub open spec fn wf(&self) -> bool {
        &&& self.cols <= i32::MAX && self.rows <= i32::MAX
        &&& self.columns@.len() == self.cols * self.rows
        &&& self.cols * self.rows <= u32::MAX
        &&& forall|c: u32, r: u32| (#[trigger] self.surfaces(c, r)).len() <= u32::MAX
        &&& forall|c: u32, r: u32, i: int, j: int|
            0 <= i < j < self.surfaces(c, r).len() ==> (#[trigger] self.surfaces(c, r)[i]).layer < (
            #[trigger] self.surfaces(c, r)[j]).layer
        &&& forall|c: u32, r: u32, si: u32, k: int|
            self.has(c, r, si) && 0 <= k < 4 ==> self.link_fits(
                c,
                r,
                k,
                #[trigger] self.surfaces(c, r)[si as int].neighbors[k],
            )
    }

    /// Whether a link in direction `k` leads to a surface that exists.
    pub open spec fn link_fits(&self, c: u32, r: u32, k: int, n: Option<u32>) -> bool {
        match n {
            None => true,
            Some(i) => {
                let (nc, nr) = shifted(c as int, r as int, k);
                0 <= nc < self.cols && 0 <= nr < self.rows && self.has(nc as u32, nr as u32, i)
            },
        }
    }

    /// The surface linked to a surface in direction `k`.
    pub open spec fn neighbor(&self, c: u32, r: u32, si: u32, k: int) -> Option<(u32, u32, u32)> {
        if !self.has(c, r, si) {
            None
        } else {
            match self.surfaces(c, r)[si as int].neighbors[k] {
                None => None,
                Some(n) => {
                    let (nc, nr) = shifted(c as int, r as int, k);
                    if 0 <= nc < self.cols && 0 <= nr < self.rows {
                        Some((nc as u32, nr as u32, n))
                    } else {
                        None
                    }
                },
            }
        }
    }

    /// All walkable surfaces of column (`c`, `r`), bottom to top; none outside
    /// the field.
    pub fn surfaces_at(&self, c: u32, r: u32) -> (out: Vec<WalkableCell>)
        requires
            self.wf(),
        ensures
            out@ == self.surfaces(c, r),
    {
        if c >= self.cols || r >= self.rows {
            return Vec::new();
        }
        proof {
            lemma_column_bound(self.cols as int, self.rows as int, c as int, r as int);
        }
        let list = &self.columns[(r * self.cols + c) as usize];
        let mut out: Vec<WalkableCell> = Vec::new();
        let mut i: usize = 0;
        while i < list.len()
            invariant
                i <= list@.len(),
                out@ == list@.take(i as int),
            decreases list.len() - i,
        {
            out.push(list[i]);
            i += 1;
            assert(list@.take(i as int) =~= list@.take(i - 1).push(list@[i - 1]));
        }
        assert(list@.take(i as int) =~= list@);
        out
    }

    /// How many surfaces column (`c`, `r`) has.
    pub fn surface_count(&self, c: u32, r: u32) -> (n: usize)
        requires
            self.wf(),
        ensures
            n == self.surfaces(c, r).len(),
    {
        if c >= self.cols || r >= self.rows {
            return 0;
        }
        proof {
            lemma_column_bound(self.cols as int, self.rows as int, c as int, r as int);
        }
        self.columns[(r * self.cols + c) as usize].len()
    }

    /// Surface `si` of column (`c`, `r`).
    pub fn surface(&self, c: u32, r: u32, si: u32) -> (cell: Option<WalkableCell>)
        requires
            self.wf(),
        ensures
            self.has(c, r, si) ==> cell == Some(self.surfaces(c, r)[si as int]),
            !self.has(c, r, si) ==> cell is None,
    {
        if c >= self.cols || r >= self.rows {
            return None;
        }
        proof {
            lemma_column_bound(self.cols as int, self.rows as int, c as int, r as int);
        }
        let list = &self.columns[(r * self.cols + c) as usize];
        if (si as usize) < list.len() {
            Some(list[si as usize])
        } else {
            None
        }
    }

    /// Follow the link of a surface in direction `direction`.
    pub fn neighbor_cell(&self, c: u32, r: u32, surface_index: u32, direction: usize) -> (n: Option<
        (u32, u32, u32),
    >)
        requires
            self.wf(),
            direction < 4,
        ensures
            n == self.neighbor(c, r, surface_index, direction as int),
            n matches Some((nc, nr, ni)) ==> self.has(nc, nr, ni),
    {
        let cell = match self.surface(c, r, surface_index) {
            None => return None,
            Some(cell) => cell,
        };
        assert(self.link_fits(
            c,
            r,
            direction as int,
            self.surfaces(c, r)[surface_index as int].neighbors[direction as int],
        ));
        let n: u32 = match cell.neighbors[direction] {
            None => return None,
            Some(n) => n,
        };
        let (dc, dr) = NEIGHBOR_DELTAS[direction];
        let nc: i32 = c as i32 + dc;
        let nr: i32 = r as i32 + dr;
        if nc < 0 || nc >= self.cols as i32 || nr < 0 || nr >= self.rows as i32 {
            return None;
        }
        Some((nc as u32, nr as u32, n))
    }
}

// --- Classification ---------------------------------------------------------

fn find_link(
    g: &VoxelGrid,
    heights: &Vec<Vec<u32>>,
    clearance: u32,
    max_step: u32,
    c: u32,
    r: u32,
    mine: u32,
    k: usize,
) -> (n: Option<u32>)
    requires
        k < 4,
        c < g.cols <= i32::MAX,
        r < g.rows <= i32::MAX,
        heights@.len() == g.cols * g.rows,
        g.cols * g.rows <= u32::MAX,
        heights_of(*g, clearance, heights@, heights@.len() as int),
    ensures
        is_link(*g, clearance, max_step, c, r, mine, k as int, n),
{
    let (dc, dr) = NEIGHBOR_DELTAS[k];
    let nc: i32 = c as i32 + dc;
    let nr: i32 = r as i32 + dr;
    if nc < 0 || nc >= g.cols as i32 || nr < 0 || nr >= g.rows as i32 {
        return None;
    }
    proof {
        let cols = g.cols as int;
        let at = column_index(cols, nc as int, nr as int);
        lemma_column_bound(cols, g.rows as int, nc as int, nr as int);
        lemma_column_of(cols, g.rows as int, at);
        columns_are_apart(cols, nc as int, nr as int, at % cols, at / cols);
    }
    find_nearest(&heights[(nr as u32 * g.cols + nc as u32) as usize], mine, max_step)
}

/// The surfaces of column (`c`, `r`) with their links.
fn linked_column(
    g: &VoxelGrid,
    heights: &Vec<Vec<u32>>,
    clearance: u32,
    max_step: u32,
    c: u32,
    r: u32,
) -> (out: Vec<WalkableCell>)
    requires
        c < g.cols <= i32::MAX,
        r < g.rows <= i32::MAX,
        heights@.len() == g.cols * g.rows,
        g.cols * g.rows <= u32::MAX,
        heights_of(*g, clearance, heights@, heights@.len() as int),
    ensures
        column_classified(*g, clearance, max_step, c, r, out@),
        out@.len() <= g.layers,
        forall|i: int, j: int|
            0 <= i < j < out@.len() ==> (#[trigger] out@[i]).layer < (#[trigger] out@[j]).layer,
{
    proof {
        let cols = g.cols as int;
        let at = column_index(cols, c as int, r as int);
        lemma_column_bound(cols, g.rows as int, c as int, r as int);
        lemma_column_of(cols, g.rows as int, at);
        columns_are_apart(cols, c as int, r as int, at % cols, at / cols);
    }
    let layers = &heights[(r * g.cols + c) as usize];
    let mut out: Vec<WalkableCell> = Vec::new();
    let mut i: usize = 0;
    while i < layers.len()
        invariant
            i <= layers@.len(),
            c < g.cols <= i32::MAX,
            r < g.rows <= i32::MAX,
            heights@.len() == g.cols * g.rows,
            g.cols * g.rows <= u32::MAX,
            heights_of(*g, clearance, heights@, heights@.len() as int),
            out@.len() == i,
            forall|j: int| 0 <= j < i ==> (#[trigger] out@[j]).layer == layers@[j],
            forall|j: int, k: int|
                0 <= j < i && 0 <= k < 4 ==> is_link(
                    *g,
                    clearance,
                    max_step,
                    c,
                    r,
                    out@[j].layer,
                    k,
                    #[trigger] out@[j].neighbors[k],
                ),
        decreases layers.len() - i,
    {
        let mine: u32 = layers[i];
        let n0 = find_link(g, heights, clearance, max_step, c, r, mine, 0);
        let n1 = find_link(g, heights, clearance, max_step, c, r, mine, 1);
        let n2 = find_link(g, heights, clearance, max_step, c, r, mine, 2);
        let n3 = find_link(g, heights, clearance, max_step, c, r, mine, 3);
        let neighbors = [n0, n1, n2, n3];
        let ghost before = out@;
        out.push(WalkableCell { layer: mine, neighbors });
        proof {
            assert forall|j: int, k: int| 0 <= j < i + 1 && 0 <= k < 4 implies is_link(
                *g,
                clearance,
                max_step,
                c,
                r,
                out@[j].layer,
                k,
                #[trigger] out@[j].neighbors[k],
            ) by {
                if j < i {
                    assert(out@[j] == before[j]);
                    assert(is_link(
                        *g,
                        clearance,
                        max_step,
                        c,
                        r,
                        before[j].layer,
                        k,
                        before[j].neighbors[k],
                    ));
                }
            }
        }
        i += 1;
    }
    out
}

/// Find the walkable surfaces of a grid: walkable cells with `clearance`
/// empty cells above, linked across steps of at most `max_step` layers.
pub fn classify_walkability(g: &VoxelGrid, clearance: u32, max_step: u32) -> (chf:
    CompactHeightfield)
    requires
        g.wf(),
        g.cols <= i32::MAX,
        g.rows <= i32::MAX,
        g.cols * g.rows <= u32::MAX,
    ensures
        classified(*g, clearance, max_step, chf),
        chf.wf(),
{
    let n: u32 = g.cols * g.rows;
    let mut heights: Vec<Vec<u32>> = Vec::new();
    let mut i: u32 = 0;
    while i < n
        invariant
            g.wf(),
            i <= n,
            n == g.cols * g.rows,
            heights@.len() == i,
            heights_of(*g, clearance, heights@, i as int),
        decreases n - i,
    {
        proof {
            lemma_column_of(g.cols as int, g.rows as int, i as int);
        }
        let list = column_surfaces(g, i % g.cols, i / g.cols, clearance);
        heights.push(list);
        i += 1;
    }
    let mut columns: Vec<Vec<WalkableCell>> = Vec::new();
    let mut j: u32 = 0;
    while j < n
        invariant
            j <= n,
            n == g.cols * g.rows,
            g.cols <= i32::MAX,
            g.rows <= i32::MAX,
            g.cols * g.rows <= u32::MAX,
            heights@.len() == n,
            heights_of(*g, clearance, heights@, heights@.len() as int),
            columns@.len() == j,
            forall|m: int|
                0 <= m < j ==> column_classified(
                    *g,
                    clearance,
                    max_step,
                    (m % g.cols as int) as u32,
                    (m / g.cols as int) as u32,
                    (#[trigger] columns@[m])@,
                ) && columns@[m]@.len() <= g.layers && cells_ascend(columns@[m]@),
        decreases n - j,
    {
        proof {
            lemma_column_of(g.cols as int, g.rows as int, j as int);
        }
        let list = linked_column(g, &heights, clearance, max_step, j % g.cols, j / g.cols);
        columns.push(list);
        j += 1;
    }
    let chf = CompactHeightfield { cols: g.cols, rows: g.rows, columns };
    proof {
        let cols = g.cols as int;
        assert forall|c: u32, r: u32| c < g.cols && r < g.rows implies column_classified(
            *g,
            clearance,
            max_step,
            c,
            r,
            #[trigger] chf.surfaces(c, r),
        ) && chf.surfaces(c, r).len() <= g.layers && cells_ascend(chf.surfaces(c, r)) by {
            let at = column_index(cols, c as int, r as int);
            lemma_column_bound(cols, g.rows as int, c as int, r as int);
            lemma_column_of(cols, g.rows as int, at);
            columns_are_apart(cols, c as int, r as int, at % cols, at / cols);
            assert(chf.surfaces(c, r) == columns@[at]@);
        }
        assert forall|c: u32, r: u32, si: u32, k: int|
            chf.has(c, r, si) && 0 <= k < 4 implies chf.link_fits(
            c,
            r,
            k,
            #[trigger] chf.surfaces(c, r)[si as int].neighbors[k],
        ) by {
            let list = chf.surfaces(c, r);
            assert(column_classified(*g, clearance, max_step, c, r, list));
            assert(is_link(
                *g,
                clearance,
                max_step,
                c,
                r,
                list[si as int].layer,
                k,
                list[si as int].neighbors[k],
            ));
            let (nc, nr) = shifted(c as int, r as int, k);
            if 0 <= nc < g.cols && 0 <= nr < g.rows {
                assert(column_classified(
                    *g,
                    clearance,
                    max_step,
                    nc as u32,
                    nr as u32,
                    chf.surfaces(nc as u32, nr as u32),
                ));
            }
        }
    }
    chf
}

spec fn cells_ascend(s: Seq<WalkableCell>) -> bool {
    forall|i: int, j: int|
        0 <= i < j < s.len() ==> (#[trigger] s[i]).layer < (#[trigger] s[j]).layer
}

/// Whether the first `n` lists are the surface layers of the columns.
spec fn heights_of(g: VoxelGrid, clearance: u32, heights: Seq<Vec<u32>>, n: int) -> bool {
    forall|i: int|
        0 <= i < n ==> (#[trigger] heights[i])@ == surface_layers(
            g,
            (i % g.cols as int) as u32,
            (i / g.cols as int) as u32,
            clearance,
            0,
        ) && heights[i]@.len() <= g.layers && ascending_layers(heights[i]@)
}

spec fn ascending_layers(s: Seq<u32>) -> bool {
    forall|i: int, j: int| 0 <= i < j < s.len() ==> s[i] < s[j]
}

// --- Lists and counts -------------------------------------------------------

/// The entries of a column as (column, row, index, entry).
pub open spec fn column_listing<T>(list: Seq<T>, c: u32, r: u32) -> Seq<(u32, u32, u32, T)> {
    Seq::new(list.len(), |i: int| (c, r, i as u32, list[i]))
}

/// The entries of the first `n` columns, in order.
pub open spec fn listing<T>(columns: Seq<Vec<T>>, cols: int, n: nat) -> Seq<(u32, u32, u32, T)>
    decreases n,
{
    if n == 0 {
        Seq::empty()
    } else {
        let i = n - 1;
        listing(columns, cols, i as nat) + column_listing(
            columns[i]@,
            (i % cols) as u32,
            (i / cols) as u32,
        )
    }
}

/// The entries of all columns as (column, row, index, entry).
pub(crate) fn list_cells<T: Copy>(columns: &Vec<Vec<T>>, cols: u32, rows: u32) -> (out: Vec<
    (u32, u32, u32, T),
>)
    requires
        columns@.len() == cols * rows,
        cols * rows <= u32::MAX,
        forall|i: int| 0 <= i < columns@.len() ==> (#[trigger] columns@[i])@.len() <= u32::MAX,
    ensures
        out@ == listing(columns@, cols as int, columns@.len()),
        lists_entries(columns@, cols as int, out@),
{
    let mut out: Vec<(u32, u32, u32, T)> = Vec::new();
    let mut i: usize = 0;
    while i < columns.len()
        invariant
            i <= columns@.len(),
            columns@.len() == cols * rows,
            cols * rows <= u32::MAX,
            forall|i: int| 0 <= i < columns@.len() ==> (#[trigger] columns@[i])@.len() <= u32::MAX,
            out@ == listing(columns@, cols as int, i as nat),
        decreases columns.len() - i,
    {
        proof {
            lemma_column_of(cols as int, rows as int, i as int);
        }
        let list = &columns[i];
        let c: u32 = (i as u32) % cols;
        let r: u32 = (i as u32) / cols;
        let ghost before = out@;
        let mut j: usize = 0;
        while j < list.len()
            invariant
                j <= list@.len() <= u32::MAX,
                out@ == before + column_listing(list@, c, r).take(j as int),
            decreases list.len() - j,
        {
            out.push((c, r, j as u32, list[j]));
            j += 1;
            assert(column_listing(list@, c, r).take(j as int) =~= column_listing(list@, c, r).take(
                j - 1,
            ).push((c, r, (j - 1) as u32, list@[j - 1])));
        }
        assert(column_listing(list@, c, r).take(j as int) =~= column_listing(list@, c, r));
        i += 1;
    }
    proof {
        every_entry_is_listed(columns@, cols as int, rows as int, columns@.len());
        assert(columns@.take(columns@.len() as int) =~= columns@);
    }
    out
}

/// The number of entries of the first `n` columns.
pub open spec fn entry_count<T>(columns: Seq<Vec<T>>, n: nat) -> nat
    decreases n,
{
    if n == 0 {
        0
    } else {
        entry_count(columns, (n - 1) as nat) + columns[n - 1]@.len()
    }
}

/// The number of the first `n` columns that have an entry.
pub open spec fn filled_count<T>(columns: Seq<Vec<T>>, n: nat) -> nat
    decreases n,
{
    if n == 0 {
        0
    } else {
        filled_count(columns, (n - 1) as nat) + if columns[n - 1]@.len() > 0 {
            1nat
        } else {
            0
        }
    }
}

pub(crate) proof fn lemma_entry_count_grows<T>(columns: Seq<Vec<T>>, n: nat, m: nat)
    requires
        n <= m,
    ensures
        entry_count(columns, n) <= entry_count(columns, m),
    decreases m - n,
{
    if n < m {
        lemma_entry_count_grows(columns, n, (m - 1) as nat);
    }
}

impl CompactHeightfield {
    /// The number of walkable surfaces of all columns.
    pub fn walkable_count(&self) -> (n: usize)
        requires
            entry_count(self.columns@, self.columns@.len()) <= usize::MAX,
        ensures
            n == entry_count(self.columns@, self.columns@.len()),
    {
        let mut n: usize = 0;
        let mut i: usize = 0;
        while i < self.columns.len()
            invariant
                i <= self.columns@.len(),
                n == entry_count(self.columns@, i as nat),
                entry_count(self.columns@, self.columns@.len()) <= usize::MAX,
            decreases self.columns.len() - i,
        {
            proof {
                lemma_entry_count_grows(self.columns@, (i + 1) as nat, self.columns@.len());
            }
            n += self.columns[i].len();
            i += 1;
        }
        n
    }

    /// The number of columns with a walkable surface.
    pub fn walkable_column_count(&self) -> (n: usize)
        ensures
            n == filled_count(self.columns@, self.columns@.len()),
    {
        let mut n: usize = 0;
        let mut i: usize = 0;
        while i < self.columns.len()
            invariant
                i <= self.columns@.len(),
                n <= i,
                n == filled_count(self.columns@, i as nat),
            decreases self.columns.len() - i,
        {
            if self.columns[i].len() > 0 {
                n += 1;
            }
            i += 1;
        }
        n
    }

    /// Every walkable surface as (column, row, index, surface).
    pub fn iter(&self) -> (out: Vec<(u32, u32, u32, WalkableCell)>)
        requires
            self.wf(),
        ensures
            out@ == listing(self.columns@, self.cols as int, self.columns@.len()),
            lists_entries(self.columns@, self.cols as int, out@),
    {
        proof {
            self.lemma_columns_short();
        }
        list_cells(&self.columns, self.cols, self.rows)
    }

    pub proof fn lemma_columns_short(&self)
        requires
            self.wf(),
        ensures
            forall|i: int|
                0 <= i < self.columns@.len() ==> (#[trigger] self.columns@[i])@.len() <= u32::MAX,
    {
        assert forall|i: int| 0 <= i < self.columns@.len() implies (
        #[trigger] self.columns@[i])@.len() <= u32::MAX by {
            let cols = self.cols as int;
            lemma_column_of(cols, self.rows as int, i);
            let list = self.surfaces((i % cols) as u32, (i / cols) as u32);
            assert(list == self.columns@[i]@);
        }
    }
}

// --- Laws -------------------------------------------------------------------

/// Every surface of a column is a walkable cell with enough empty cells above
/// it (above a second walkable cell on it, where there is one).
pub proof fn surfaces_are_walkable(g: VoxelGrid, c: u32, r: u32, clearance: u32, l: nat, i: int)
    requires
        0 <= i < surface_layers(g, c, r, clearance, l).len(),
    ensures
        ({
            let layer = surface_layers(g, c, r, clearance, l)[i];
            &&& l <= layer < g.layers
            &&& g.area_of(c, r, layer) == WALKABLE
            &&& clear_above(
                g,
                c,
                r,
                strip_end(g, c, r, layer as nat) as int,
                clearance as int,
            )
        }),
    decreases g.layers - l,
{
    if g.area_of(c, r, l as u32) != WALKABLE {
        surfaces_are_walkable(g, c, r, clearance, l + 1, i);
    } else {
        let end = strip_end(g, c, r, l);
        if clear_above(g, c, r, end as int, clearance as int) {
            if i > 0 {
                surfaces_are_walkable(g, c, r, clearance, end, i - 1);
            }
        } else {
            surfaces_are_walkable(g, c, r, clearance, end, i);
        }
    }
}

/// A walkable cell with no walkable cell below it and enough empty cells above
/// is a surface.
pub proof fn walkable_cells_are_surfaces(
    g: VoxelGrid,
    c: u32,
    r: u32,
    clearance: u32,
    l: nat,
    layer: u32,
)
    requires
        l <= layer < g.layers,
        g.area_of(c, r, layer) == WALKABLE,
        layer > 0 ==> g.area_of(c, r, (layer - 1) as u32) != WALKABLE,
        clear_above(g, c, r, strip_end(g, c, r, layer as nat) as int, clearance as int),
    ensures
        surface_layers(g, c, r, clearance, l).contains(layer),
    decreases g.layers - l,
{
    let all = surface_layers(g, c, r, clearance, l);
    if l == layer {
        assert(all[0] == layer);
    } else if g.area_of(c, r, l as u32) != WALKABLE {
        walkable_cells_are_surfaces(g, c, r, clearance, l + 1, layer);
    } else {
        let end = strip_end(g, c, r, l);
        assert(end <= layer);
        walkable_cells_are_surfaces(g, c, r, clearance, end, layer);
        let above = surface_layers(g, c, r, clearance, end);
        let k = above.index_of(layer);
        if clear_above(g, c, r, end as int, clearance as int) {
            assert(all[k + 1] == layer);
        } else {
            assert(all[k] == layer);
        }
    }
}

/// Where a column has a single surface, every link from it leads back to it.
pub proof fn single_surfaces_link_back(
    g: VoxelGrid,
    clearance: u32,
    max_step: u32,
    chf: CompactHeightfield,
    c: u32,
    r: u32,
    k: int,
    nc: u32,
    nr: u32,
    ni: u32,
)
    requires
        classified(g, clearance, max_step, chf),
        chf.wf(),
        0 <= k < 4,
        chf.surfaces(c, r).len() == 1,
        chf.neighbor(c, r, 0, k) == Some((nc, nr, ni)),
    ensures
        chf.neighbor(nc, nr, ni, (k + 2) % 4) == Some((c, r, 0u32)),
{
    let here = chf.surfaces(c, r);
    let there = chf.surfaces(nc, nr);
    let back = (k + 2) % 4;
    assert(column_classified(g, clearance, max_step, c, r, here));
    assert(is_link(g, clearance, max_step, c, r, here[0].layer, k, here[0].neighbors[k]));
    assert(column_classified(g, clearance, max_step, nc, nr, there));
    let n = there[ni as int].neighbors[back];
    assert(is_link(g, clearance, max_step, nc, nr, there[ni as int].layer, back, n));
    let layers = surface_layers(g, c, r, clearance, 0);
    assert(here[0].layer == layers[0]);
    assert(is_nearest(layers, there[ni as int].layer, max_step, n));
    assert(layer_gap(there[ni as int].layer, layers[0]) <= max_step);
}

/// Entry `s` of the column (`c`, `r`), where there is one.
pub open spec fn entry_at<T>(columns: Seq<Vec<T>>, cols: int, c: u32, r: u32, s: u32) -> Option<T> {
    let i = r * cols + c;
    if c < cols && 0 <= i < columns.len() && s < columns[i]@.len() {
        Some(columns[i]@[s as int])
    } else {
        None
    }
}

/// Whether one place comes before another: in an earlier column, or earlier in
/// the same one.
pub open spec fn is_earlier(cols: int, c: u32, r: u32, s: u32, c2: u32, r2: u32, s2: u32) -> bool {
    ||| r * cols + c < r2 * cols + c2
    ||| c == c2 && r == r2 && s < s2
}

/// Whether `out` lists the entries of columns: none but those, each of them, by
/// column and then by index.
pub open spec fn lists_entries<T>(columns: Seq<Vec<T>>, cols: int, out: Seq<(u32, u32, u32, T)>) -> bool {
    &&& forall|i: int|
        0 <= i < out.len() ==> entry_at(
            columns,
            cols,
            (#[trigger] out[i]).0,
            out[i].1,
            out[i].2,
        ) == Some(out[i].3)
    &&& forall|c: u32, r: u32, s: u32|
        #![trigger entry_at(columns, cols, c, r, s)]
        entry_at(columns, cols, c, r, s) matches Some(v) ==> out.contains((c, r, s, v))
    &&& forall|i: int, j: int|
        0 <= i < j < out.len() ==> is_earlier(
            cols,
            (#[trigger] out[i]).0,
            out[i].1,
            out[i].2,
            (#[trigger] out[j]).0,
            out[j].1,
            out[j].2,
        )
}

/// A list of the entries of columns holds each of them once, and nothing else:
/// as many as are counted.
pub proof fn every_entry_is_listed<T>(columns: Seq<Vec<T>>, cols: int, rows: int, n: nat)
    requires
        0 <= cols,
        0 <= rows,
        columns.len() == cols * rows,
        cols * rows <= u32::MAX,
        n <= columns.len(),
        forall|i: int| 0 <= i < columns.len() ==> (#[trigger] columns[i])@.len() <= u32::MAX,
    ensures
        lists_entries(columns.take(n as int), cols, listing(columns, cols, n)),
        listing(columns, cols, n).len() == entry_count(columns, n),
    decreases n,
{
    let out = listing(columns, cols, n);
    let here = columns.take(n as int);
    if n > 0 {
        let k = n - 1;
        let (x, y) = (k % cols, k / cols);
        every_entry_is_listed(columns, cols, rows, k as nat);
        lemma_column_of(cols, rows, k);
        assert(rows <= u32::MAX && cols <= u32::MAX) by (nonlinear_arith)
            requires
                0 <= k < cols * rows,
                cols * rows <= u32::MAX,
                cols >= 0,
                rows >= 0,
        ;
        let before = listing(columns, cols, k as nat);
        let was = columns.take(k);
        let list = columns[k]@;
        let own = column_listing(list, x as u32, y as u32);
        assert(out == before + own);
        assert(y * cols + x == k);
        assert forall|i: int| 0 <= i < out.len() implies {
            let e = #[trigger] out[i];
            &&& entry_at(here, cols, e.0, e.1, e.2) == Some(e.3)
            &&& if i < before.len() {
                e.1 * cols + e.0 < k
            } else {
                e.0 == x && e.1 == y && e.2 == i - before.len()
            }
        } by {
            if i < before.len() {
                let e = before[i];
                assert(entry_at(was, cols, e.0, e.1, e.2) == Some(e.3));
            } else {
                assert(own[i - before.len()] == out[i]);
            }
        }
        assert forall|c: u32, r: u32, s: u32|
            #![trigger entry_at(here, cols, c, r, s)]
            entry_at(here, cols, c, r, s) matches Some(v) implies out.contains(
            (c, r, s, entry_at(here, cols, c, r, s)->0),
        ) by {
            let i = r * cols + c;
            let v = here[i]@[s as int];
            if i < k {
                assert(entry_at(was, cols, c, r, s) == Some(v));
                assert(before.contains((c, r, s, v)));
                let at = before.index_of((c, r, s, v));
                assert(out[at] == (c, r, s, v));
            } else {
                columns_are_apart(cols, c as int, r as int, x, y);
                assert(out[before.len() + s] == (c, r, s, v));
            }
        }
        assert forall|i: int, j: int| 0 <= i < j < out.len() implies is_earlier(
            cols,
            (#[trigger] out[i]).0,
            out[i].1,
            out[i].2,
            (#[trigger] out[j]).0,
            out[j].1,
            out[j].2,
        ) by {
            if j < before.len() {
                assert(before[i] == out[i] && before[j] == out[j]);
            }
        }
    }
}

/// A change of one column changes the counts by what the column counts for: its
/// entries, and whether it has any.
pub proof fn counts_follow_the_columns<T>(columns: Seq<Vec<T>>, i: int, list: Vec<T>, n: nat)
    requires
        0 <= i < n <= columns.len(),
    ensures
        entry_count(columns.update(i, list), n) + columns[i]@.len() == entry_count(columns, n)
            + list@.len(),
        filled_count(columns.update(i, list), n) + (if columns[i]@.len() > 0 {
            1int
        } else {
            0
        }) == filled_count(columns, n) + (if list@.len() > 0 {
            1int
        } else {
            0
        }),
    decreases n,
{
    let m = (n - 1) as nat;
    if i < m {
        counts_follow_the_columns(columns, i, list, m);
    } else {
        lemma_column_counts_agree(columns, columns.update(i, list), m);
    }
}

proof fn lemma_column_counts_agree<T>(a: Seq<Vec<T>>, b: Seq<Vec<T>>, n: nat)
    requires
        n <= a.len(),
        n <= b.len(),
        forall|i: int| 0 <= i < n ==> a[i] == b[i],
    ensures
        entry_count(a, n) == entry_count(b, n),
        filled_count(a, n) == filled_count(b, n),
    decreases n,
{
    if n > 0 {
        lemma_column_counts_agree(a, b, (n - 1) as nat);
    }
}

/// Columns without entries count for nothing.
pub proof fn empty_columns_are_not_counted<T>(columns: Seq<Vec<T>>, n: nat)
    requires
        n <= columns.len(),
        forall|i: int| 0 <= i < n ==> (#[trigger] columns[i])@.len() == 0,
    ensures
        entry_count(columns, n) == 0,
        filled_count(columns, n) == 0,
    decreases n,
{
    if n > 0 {
        empty_columns_are_not_counted(columns, (n - 1) as nat);
    }
}

// --- Surfaces told apart ----------------------------------------------------

/// Whether a cell of a column is walkable.
pub open spec fn is_ground(g: VoxelGrid, c: u32, r: u32, l: int) -> bool {
    0 <= l < g.layers && g.area_of(c, r, l as u32) == WALKABLE
}

/// Whether walkable cells follow each other from `base`, the lowest of them, up
/// to `l`.
pub open spec fn is_stack(g: VoxelGrid, c: u32, r: u32, base: int, l: int) -> bool {
    &&& 0 <= base <= l
    &&& !is_ground(g, c, r, base - 1)
    &&& forall|k: int| base <= k <= l ==> #[trigger] is_ground(g, c, r, k)
}

/// Whether the `clearance` cells from `first` on, as far as the grid has them,
/// are empty.
pub open spec fn has_headroom(g: VoxelGrid, c: u32, r: u32, first: int, clearance: int) -> bool {
    forall|l: int|
        first <= l < first + clearance && 0 <= l < g.layers ==> #[trigger] g.area_of(
            c,
            r,
            l as u32,
        ) == EMPTY
}

/// Whether a cell is a surface to stand on. Walkable cells on each other count
/// two by two from the lowest; the lower cell of each two stands for them, and
/// above them there is headroom.
pub open spec fn is_footing(g: VoxelGrid, c: u32, r: u32, clearance: int, l: int) -> bool {
    &&& exists|base: int| #[trigger] is_stack(g, c, r, base, l) && (l - base) % 2 == 0
    &&& has_headroom(
        g,
        c,
        r,
        if is_ground(g, c, r, l + 1) {
            l + 2
        } else {
            l + 1
        },
        clearance,
    )
}

/// Whether counting two by two, the cell at `l` begins with a new two.
spec fn is_even(g: VoxelGrid, c: u32, r: u32, l: int) -> bool {
    forall|base: int| #[trigger] is_stack(g, c, r, base, l) ==> (l - base) % 2 == 0
}

proof fn lemma_stack(g: VoxelGrid, c: u32, r: u32, l: int) -> (base: int)
    requires
        is_ground(g, c, r, l),
    ensures
        is_stack(g, c, r, base, l),
    decreases l,
{
    if is_ground(g, c, r, l - 1) {
        let base = lemma_stack(g, c, r, l - 1);
        assert(is_stack(g, c, r, base, l));
        base
    } else {
        l
    }
}


proof fn lemma_headroom(g: VoxelGrid, c: u32, r: u32, first: int, clearance: int)
    requires
        first >= 0,
    ensures
        clear_above(g, c, r, first, clearance) == has_headroom(g, c, r, first, clearance),
{
    if clear_above(g, c, r, first, clearance) {
        assert forall|l: int| first <= l < first + clearance && 0 <= l < g.layers implies
            #[trigger] g.area_of(c, r, l as u32) == EMPTY by {}
    }
    if has_headroom(g, c, r, first, clearance) {
        assert forall|l: u32| first <= l < first + clearance && l < g.layers implies
            #[trigger] g.area_of(c, r, l) == EMPTY by {
            assert(g.area_of(c, r, (l as int) as u32) == EMPTY);
        }
    }
}

proof fn lemma_footings(g: VoxelGrid, c: u32, r: u32, clearance: u32, l: nat)
    requires
        is_even(g, c, r, l as int),
    ensures
        ({
            let list = surface_layers(g, c, r, clearance, l);
            &&& forall|i: int|
                0 <= i < list.len() ==> l <= #[trigger] list[i] < g.layers && is_footing(
                    g,
                    c,
                    r,
                    clearance as int,
                    list[i] as int,
                )
            &&& forall|i: int, j: int| 0 <= i < j < list.len() ==> list[i] < list[j]
            &&& forall|m: u32|
                l <= m < g.layers && #[trigger] is_footing(g, c, r, clearance as int, m as int)
                    ==> list.contains(m)
        }),
    decreases g.layers - l,
{
    let list = surface_layers(g, c, r, clearance, l);
    if l < g.layers {
        let here = is_ground(g, c, r, l as int);
        if !here {
            assert forall|base: int| #[trigger] is_stack(g, c, r, base, (l + 1) as int) implies (l + 1
                - base) % 2 == 0 by {
                if base <= l {
                    assert(is_ground(g, c, r, l as int));
                }
            }
            lemma_footings(g, c, r, clearance, l + 1);
            assert(list == surface_layers(g, c, r, clearance, l + 1));
            assert(!is_footing(g, c, r, clearance as int, l as int)) by {
                assert forall|base: int| !(#[trigger] is_stack(g, c, r, base, l as int)) by {
                    if is_stack(g, c, r, base, l as int) {
                        assert(is_ground(g, c, r, l as int));
                    }
                }
            }
        } else {
            let double = is_ground(g, c, r, (l + 1) as int);
            let end = strip_end(g, c, r, l);
            assert(end == if double {
                l + 2
            } else {
                l + 1
            });
            assert forall|base: int| #[trigger] is_stack(g, c, r, base, end as int) implies (end
                - base) % 2 == 0 by {
                assert(is_ground(g, c, r, end as int));
                assert(double);
                if base > l {
                    assert(base == l + 1 || base == l + 2);
                    assert(is_ground(g, c, r, base - 1));
                    assert(false);
                }
                assert(is_stack(g, c, r, base, l as int));
            }
            lemma_footings(g, c, r, clearance, end);
            let above = surface_layers(g, c, r, clearance, end);
            lemma_headroom(g, c, r, end as int, clearance as int);
            let base = lemma_stack(g, c, r, l as int);
            assert((l - base) % 2 == 0);
            if double {
                assert forall|b: int| #[trigger] is_stack(g, c, r, b, (l + 1) as int) implies (l + 1 - b)
                    % 2 != 0 by {
                    if b > l {
                        assert(is_ground(g, c, r, b - 1));
                        assert(false);
                    }
                    assert(is_stack(g, c, r, b, l as int));
                }
                assert(!is_footing(g, c, r, clearance as int, (l + 1) as int));
            }
            let stands = clear_above(g, c, r, end as int, clearance as int);
            assert(is_footing(g, c, r, clearance as int, l as int) == stands);
            assert forall|m: u32|
                l <= m < g.layers && #[trigger] is_footing(
                    g,
                    c,
                    r,
                    clearance as int,
                    m as int,
                ) implies list.contains(m) by {
                if m == l {
                    assert(list[0] == m);
                } else {
                    assert(m >= end);
                    assert(above.contains(m));
                    let k = above.index_of(m);
                    assert(list[if stands {
                        k + 1
                    } else {
                        k
                    }] == m);
                }
            }
            assert(list == if stands {
                seq![l as u32] + above
            } else {
                above
            });
            if stands {
                assert forall|i: int| 0 <= i < list.len() implies l <= #[trigger] list[i] < g.layers
                    && is_footing(g, c, r, clearance as int, list[i] as int) by {
                    if i > 0 {
                        assert(list[i] == above[i - 1]);
                    }
                }
                assert forall|i: int, j: int| 0 <= i < j < list.len() implies list[i] < list[j] by {
                    assert(list[j] == above[j - 1]);
                    if i > 0 {
                        assert(list[i] == above[i - 1]);
                    }
                }
            }
        }
    }
}

/// The surfaces of a column are the cells to stand on, from the lowest up: each
/// of them, and no other cell.
pub proof fn every_footing_is_a_surface(g: VoxelGrid, c: u32, r: u32, clearance: u32)
    ensures
        ({
            let list = surface_layers(g, c, r, clearance, 0);
            &&& forall|i: int|
                0 <= i < list.len() ==> #[trigger] list[i] < g.layers && is_footing(
                    g,
                    c,
                    r,
                    clearance as int,
                    list[i] as int,
                )
            &&& forall|i: int, j: int| 0 <= i < j < list.len() ==> list[i] < list[j]
            &&& forall|m: u32|
                m < g.layers && #[trigger] is_footing(g, c, r, clearance as int, m as int)
                    ==> list.contains(m)
        }),
{
    assert forall|base: int| #[trigger] is_stack(g, c, r, base, 0) implies (0 - base) % 2 == 0 by {}
    lemma_footings(g, c, r, clearance, 0);
}

} // verus!
