//! Marking the cells of a grid that a triangle touches.

use crate::grid::{setting_a_cell_leaves_the_others, VoxelGrid, EMPTY};
use vstd::prelude::*;

verus! {

/// `i` held to the cells `0 .. n`.
pub open spec fn held(i: int, n: int) -> int {
    if i < 0 {
        0
    } else if i >= n {
        n - 1
    } else {
        i
    }
}

/// The cell of `0 .. n` closest to `i`.
pub fn clamp_cell(i: i64, n: u32) -> (c: u32)
    requires
        n > 0,
    ensures
        c == held(i as int, n as int),
        c < n,
{
    if i < 0 {
        0
    } else if i >= n as i64 {
        n - 1
    } else {
        i as u32
    }
}

/// A box of cells, both ends counted.
#[derive(Copy, Clone, Debug, PartialEq, Eq, Structural)]
pub struct CellBox {
    pub lo_col: u32,
    pub hi_col: u32,
    pub lo_row: u32,
    pub hi_row: u32,
    pub lo_layer: u32,
    pub hi_layer: u32,
}

impl CellBox {
    /// Whether a cell is in the box.
    pub open spec fn holds(&self, c: u32, r: u32, l: u32) -> bool {
        &&& self.lo_col <= c <= self.hi_col
        &&& self.lo_row <= r <= self.hi_row
        &&& self.lo_layer <= l <= self.hi_layer
    }

    /// Whether the box is inside a grid.
    pub open spec fn within(&self, g: VoxelGrid) -> bool {
        &&& self.lo_col <= self.hi_col < g.cols
        &&& self.lo_row <= self.hi_row < g.rows
        &&& self.lo_layer <= self.hi_layer < g.layers
    }
}

/// The box around cells that may lie outside a grid, held to the grid.
pub fn cell_box(g: &VoxelGrid, lo: [i64; 3], hi: [i64; 3]) -> (b: CellBox)
    requires
        g.cols > 0 && g.rows > 0 && g.layers > 0,
        lo@[0] <= hi@[0] && lo@[1] <= hi@[1] && lo@[2] <= hi@[2],
    ensures
        b.within(*g),
        b.lo_col == held(lo@[0] as int, g.cols as int),
        b.hi_col == held(hi@[0] as int, g.cols as int),
        b.lo_row == held(lo@[1] as int, g.rows as int),
        b.hi_row == held(hi@[1] as int, g.rows as int),
        b.lo_layer == held(lo@[2] as int, g.layers as int),
        b.hi_layer == held(hi@[2] as int, g.layers as int),
{
    CellBox {
        lo_col: clamp_cell(lo[0], g.cols),
        hi_col: clamp_cell(hi[0], g.cols),
        lo_row: clamp_cell(lo[1], g.rows),
        hi_row: clamp_cell(hi[1], g.rows),
        lo_layer: clamp_cell(lo[2], g.layers),
        hi_layer: clamp_cell(hi[2], g.layers),
    }
}

/// The area of a cell after a triangle of the given area: the greater one
/// stays.
pub open spec fn greater(old_area: u8, area: u8, touched: bool) -> u8 {
    if touched && area > old_area {
        area
    } else {
        old_area
    }
}

/// Whether a cell has the area it should have after a triangle: `overlap`
/// tells whether the triangle touches it.
pub open spec fn marked<F: Fn(u32, u32, u32) -> bool>(
    before: VoxelGrid,
    after: VoxelGrid,
    area: u8,
    overlap: F,
    c: u32,
    r: u32,
    l: u32,
) -> bool {
    exists|touched: bool| #[trigger]
        overlap.ensures((c, r, l), touched) && after.area_of(c, r, l) == greater(
            before.area_of(c, r, l),
            area,
            touched,
        )
}

/// Whether a cell comes before place (`c`, `r`, `l`) when layers, then rows,
/// then columns are walked.
pub open spec fn earlier(x: u32, y: u32, z: u32, c: int, r: int, l: int) -> bool {
    z < l || (z == l && (y < r || (y == r && x < c)))
}

/// Whether a cell is as it should be when the cells of a box before a place
/// have been marked.
pub open spec fn settled<F: Fn(u32, u32, u32) -> bool>(
    before: VoxelGrid,
    after: VoxelGrid,
    area: u8,
    overlap: F,
    marking: bool,
    x: u32,
    y: u32,
    z: u32,
) -> bool {
    if marking {
        marked(before, after, area, overlap, x, y, z)
    } else {
        after.area_of(x, y, z) == before.area_of(x, y, z)
    }
}

/// What holds of a grid when the cells of a box before a place have been
/// marked.
pub open spec fn marked_to<F: Fn(u32, u32, u32) -> bool>(
    before: VoxelGrid,
    after: VoxelGrid,
    area: u8,
    overlap: F,
    b: CellBox,
    c: int,
    r: int,
    l: int,
) -> bool {
    &&& after.wf()
    &&& after.cols == before.cols && after.rows == before.rows && after.layers == before.layers
    &&& forall|x: u32, y: u32, z: u32| #[trigger]
        before.inside(x, y, z) ==> settled(
            before,
            after,
            area,
            overlap,
            b.holds(x, y, z) && earlier(x, y, z, c, r, l),
            x,
            y,
            z,
        )
}

/// Mark the cells of a box that a triangle touches with its area; where a cell
/// has an area already, the greater one stays. A triangle without an area
/// marks nothing.
pub fn rasterize_triangle<F: Fn(u32, u32, u32) -> bool>(
    grid: &mut VoxelGrid,
    b: CellBox,
    area: u8,
    overlap: F,
)
    requires
        old(grid).wf(),
        b.within(*old(grid)),
        forall|c: u32, r: u32, l: u32| #[trigger] overlap.requires((c, r, l)),
    ensures
        final(grid).wf(),
        final(grid).cols == old(grid).cols && final(grid).rows == old(grid).rows
            && final(grid).layers == old(grid).layers,
        area == EMPTY ==> final(grid)@ == old(grid)@,
        area != EMPTY ==> forall|c: u32, r: u32, l: u32| #[trigger]
            b.holds(c, r, l) ==> marked(*old(grid), *final(grid), area, overlap, c, r, l),
        forall|c: u32, r: u32, l: u32|
            old(grid).inside(c, r, l) && !b.holds(c, r, l) ==> #[trigger] final(grid).area_of(
                c,
                r,
                l,
            ) == old(grid).area_of(c, r, l),
{
    if area == EMPTY {
        return;
    }
    let ghost before = *grid;
    let mut l: u32 = b.lo_layer;
    while l <= b.hi_layer
        invariant
            b.within(before),
            forall|c: u32, r: u32, l: u32| #[trigger] overlap.requires((c, r, l)),
            b.lo_layer <= l <= b.hi_layer + 1,
            marked_to(before, *grid, area, overlap, b, b.lo_col as int, b.lo_row as int, l as int),
        decreases b.hi_layer + 1 - l,
    {
        let mut r: u32 = b.lo_row;
        while r <= b.hi_row
            invariant
                b.within(before),
                forall|c: u32, r: u32, l: u32| #[trigger] overlap.requires((c, r, l)),
                b.lo_layer <= l <= b.hi_layer,
                b.lo_row <= r <= b.hi_row + 1,
                marked_to(before, *grid, area, overlap, b, b.lo_col as int, r as int, l as int),
            decreases b.hi_row + 1 - r,
        {
            let mut c: u32 = b.lo_col;
            while c <= b.hi_col
                invariant
                    b.within(before),
                    forall|c: u32, r: u32, l: u32| #[trigger] overlap.requires((c, r, l)),
                    b.lo_layer <= l <= b.hi_layer,
                    b.lo_row <= r <= b.hi_row,
                    b.lo_col <= c <= b.hi_col + 1,
                    marked_to(before, *grid, area, overlap, b, c as int, r as int, l as int),
                decreases b.hi_col + 1 - c,
            {
                let ghost mid = *grid;
                let touched = overlap(c, r, l);
                if touched {
                    grid.merge_area(c, r, l, area);
                }
                proof {
                    lemma_one_marked(before, mid, *grid, area, overlap, b, c, r, l, touched);
                }
                c += 1;
            }
            proof {
                lemma_place_carried(
                    before,
                    *grid,
                    area,
                    overlap,
                    b,
                    (c as int, r as int, l as int),
                    (b.lo_col as int, r + 1, l as int),
                );
            }
            r += 1;
        }
        proof {
            lemma_place_carried(
                before,
                *grid,
                area,
                overlap,
                b,
                (b.lo_col as int, r as int, l as int),
                (b.lo_col as int, b.lo_row as int, l + 1),
            );
        }
        l += 1;
    }
    proof {
        assert forall|c: u32, r: u32, l: u32| #[trigger] b.holds(c, r, l) implies marked(
            before,
            *grid,
            area,
            overlap,
            c,
            r,
            l,
        ) by {
            assert(before.inside(c, r, l));
        }
        assert forall|c: u32, r: u32, l: u32|
            before.inside(c, r, l) && !b.holds(c, r, l) implies #[trigger] grid.area_of(c, r, l)
            == before.area_of(c, r, l) by {
            assert(before.inside(c, r, l));
        }
    }
}

/// Two places that have the same cells of a box before them.
proof fn lemma_place_carried<F: Fn(u32, u32, u32) -> bool>(
    before: VoxelGrid,
    after: VoxelGrid,
    area: u8,
    overlap: F,
    b: CellBox,
    from: (int, int, int),
    to: (int, int, int),
)
    requires
        marked_to(before, after, area, overlap, b, from.0, from.1, from.2),
        forall|x: u32, y: u32, z: u32| #[trigger]
            b.holds(x, y, z) ==> earlier(x, y, z, from.0, from.1, from.2) == earlier(
                x,
                y,
                z,
                to.0,
                to.1,
                to.2,
            ),
    ensures
        marked_to(before, after, area, overlap, b, to.0, to.1, to.2),
{
    assert forall|x: u32, y: u32, z: u32| #[trigger] before.inside(x, y, z) implies settled(
        before,
        after,
        area,
        overlap,
        b.holds(x, y, z) && earlier(x, y, z, to.0, to.1, to.2),
        x,
        y,
        z,
    ) by {
        assert(settled(
            before,
            after,
            area,
            overlap,
            b.holds(x, y, z) && earlier(x, y, z, from.0, from.1, from.2),
            x,
            y,
            z,
        ));
        assert(b.holds(x, y, z) ==> earlier(x, y, z, from.0, from.1, from.2) == earlier(
            x,
            y,
            z,
            to.0,
            to.1,
            to.2,
        ));
    }
}

proof fn lemma_one_marked<F: Fn(u32, u32, u32) -> bool>(
    before: VoxelGrid,
    mid: VoxelGrid,
    after: VoxelGrid,
    area: u8,
    overlap: F,
    b: CellBox,
    c: u32,
    r: u32,
    l: u32,
    touched: bool,
)
    requires
        b.within(before),
        b.holds(c, r, l),
        marked_to(before, mid, area, overlap, b, c as int, r as int, l as int),
        overlap.ensures((c, r, l), touched),
        after.wf(),
        after.cols == mid.cols && after.rows == mid.rows && after.layers == mid.layers,
        after@ == if touched && area > mid.area_of(c, r, l) {
            mid@.update(mid.place(c, r, l), area)
        } else {
            mid@
        },
    ensures
        marked_to(before, after, area, overlap, b, c + 1, r as int, l as int),
{
    assert(before.inside(c, r, l));
    assert(mid.area_of(c, r, l) == before.area_of(c, r, l));
    assert forall|x: u32, y: u32, z: u32| #[trigger] before.inside(x, y, z) implies settled(
        before,
        after,
        area,
        overlap,
        b.holds(x, y, z) && earlier(x, y, z, c + 1, r as int, l as int),
        x,
        y,
        z,
    ) by {
        if touched && area > mid.area_of(c, r, l) {
            setting_a_cell_leaves_the_others(mid, after, c, r, l, area, x, y, z);
        }
        if x == c && y == r && z == l {
            assert(after.area_of(c, r, l) == greater(before.area_of(c, r, l), area, touched));
            assert(marked(before, after, area, overlap, x, y, z));
        } else {
            assert(after.area_of(x, y, z) == mid.area_of(x, y, z));
            if b.holds(x, y, z) && earlier(x, y, z, c + 1, r as int, l as int) {
                assert(marked(before, mid, area, overlap, x, y, z));
                let t = choose|t: bool| #[trigger]
                    overlap.ensures((x, y, z), t) && mid.area_of(x, y, z) == greater(
                        before.area_of(x, y, z),
                        area,
                        t,
                    );
                assert(overlap.ensures((x, y, z), t));
            }
        }
    }
}

} // verus!
