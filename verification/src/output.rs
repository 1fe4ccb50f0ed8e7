//! Identifiers and lookups shared by the stages of the pipeline.

use crate::contour::RegionContour;
use crate::portals::Portal;
use vstd::prelude::*;

verus! {

/// Identifier of a region within one pipeline run.
#[derive(Copy, Clone, Debug, PartialEq, Eq, Structural, PartialOrd, Ord, Hash)]
pub struct RegionId(pub u32);

/// The id that names no region.
pub open spec fn no_region() -> RegionId {
    RegionId(u32::MAX)
}

impl RegionId {
    /// The id that names no region.
    pub fn invalid() -> (r: RegionId)
        ensures
            r == no_region(),
    {
        RegionId(u32::MAX)
    }

    /// Position of the region in lists by id.
    pub fn index(self) -> (i: usize)
        ensures
            i == self.0,
    {
        self.0 as usize
    }
}

/// Heights over one region: a grid of cells, each with a level between the
/// region's lowest height (0) and its highest (`u16::MAX`).
#[derive(Clone, Debug)]
pub struct Heightfield {
    pub cols: u32,
    pub rows: u32,
    /// Row by row; none for a cell outside the region.
    pub data: Vec<Option<u16>>,
}

/// The number of cells among the first `n` that have a level.
pub open spec fn level_count(data: Seq<Option<u16>>, n: nat) -> nat
    decreases n,
{
    if n == 0 {
        0
    } else {
        level_count(data, (n - 1) as nat) + if data[n - 1] is Some {
            1nat
        } else {
            0
        }
    }
}

/// The sum of the levels of the first `n` cells.
pub open spec fn level_sum(data: Seq<Option<u16>>, n: nat) -> nat
    decreases n,
{
    if n == 0 {
        0
    } else {
        level_sum(data, (n - 1) as nat) + match data[n - 1] {
            Some(q) => q as nat,
            None => 0,
        }
    }
}

impl Heightfield {
    /// The level of cell (`col`, `row`); none outside the grid.
    pub open spec fn level(&self, col: u32, row: u32) -> Option<u16> {
        let i = row * self.cols + col;
        if col < self.cols && row < self.rows && i < self.data@.len() {
            self.data@[i]
        } else {
            None
        }
    }

    /// The level of cell (`col`, `row`); none outside the grid or the region.
    pub fn sample_cell(&self, col: u32, row: u32) -> (q: Option<u16>)
        ensures
            q == self.level(col, row),
    {
        if col >= self.cols || row >= self.rows {
            return None;
        }
        proof {
            let (r, c) = (row as int, self.cols as int);
            assert(0 <= r * c <= (u32::MAX - 1) * u32::MAX) by (nonlinear_arith)
                requires
                    0 <= r <= u32::MAX - 1,
                    0 <= c <= u32::MAX,
            ;
        }
        let i: u64 = row as u64 * self.cols as u64 + col as u64;
        if i < self.data.len() as u64 {
            self.data[i as usize]
        } else {
            None
        }
    }

    /// The sum of the levels and the number of cells that have one.
    pub fn level_mean(&self) -> (r: (u64, u64))
        requires
            self.data@.len() <= u32::MAX,
        ensures
            r.0 == level_sum(self.data@, self.data@.len()),
            r.1 == level_count(self.data@, self.data@.len()),
    {
        let mut sum: u64 = 0;
        let mut count: u64 = 0;
        let mut i: usize = 0;
        while i < self.data.len()
            invariant
                i <= self.data@.len() <= u32::MAX,
                sum == level_sum(self.data@, i as nat),
                count == level_count(self.data@, i as nat),
                sum <= i * u16::MAX,
                count <= i,
            decreases self.data.len() - i,
        {
            if let Some(q) = self.data[i] {
                sum = sum + q as u64;
                count = count + 1;
            }
            i += 1;
        }
        (sum, count)
    }
}

/// One region with its rings and heights.
#[derive(Clone, Debug)]
pub struct Region {
    pub id: RegionId,
    pub contour: RegionContour,
    pub heightfield: Heightfield,
}

impl Region {
    /// The mean level of the region as a fraction; none where no cell has a
    /// level.
    pub fn mean_height(&self) -> (r: Option<(u64, u64)>)
        requires
            self.heightfield.data@.len() <= u32::MAX,
        ensures
            match r {
                None => level_count(self.heightfield.data@, self.heightfield.data@.len()) == 0,
                Some((sum, count)) => {
                    &&& count > 0
                    &&& sum == level_sum(self.heightfield.data@, self.heightfield.data@.len())
                    &&& count == level_count(self.heightfield.data@, self.heightfield.data@.len())
                },
            },
    {
        let (sum, count) = self.heightfield.level_mean();
        if count == 0 {
            None
        } else {
            Some((sum, count))
        }
    }
}

/// What one run of the pipeline gives.
#[derive(Clone, Debug)]
pub struct PipelineOutput {
    /// All regions, by id.
    pub regions: Vec<Region>,
    /// All portals between regions.
    pub portals: Vec<Portal>,
}

/// Whether a portal has a region on one of its sides.
pub open spec fn touches(portal: Portal, id: RegionId) -> bool {
    portal.a == id || portal.b == id
}

/// The indices of the portals among the first `n` that touch a region.
pub open spec fn touching(portals: Seq<Portal>, id: RegionId, n: nat) -> Seq<usize>
    decreases n,
{
    if n == 0 {
        Seq::empty()
    } else if touches(portals[n - 1], id) {
        touching(portals, id, (n - 1) as nat).push((n - 1) as usize)
    } else {
        touching(portals, id, (n - 1) as nat)
    }
}

impl PipelineOutput {
    /// The region with an id.
    pub fn region(&self, id: RegionId) -> (r: Option<&Region>)
        ensures
            match r {
                None => id.0 >= self.regions@.len(),
                Some(x) => id.0 < self.regions@.len() && *x == self.regions@[id.0 as int],
            },
    {
        if id.index() < self.regions.len() {
            Some(&self.regions[id.index()])
        } else {
            None
        }
    }

    /// The indices of all portals that touch a region, ascending.
    pub fn portals_for(&self, id: RegionId) -> (out: Vec<usize>)
        ensures
            out@ == touching(self.portals@, id, self.portals@.len()),
            lists_touching(self.portals@, id, out@),
    {
        let mut out: Vec<usize> = Vec::new();
        let mut i: usize = 0;
        while i < self.portals.len()
            invariant
                i <= self.portals@.len(),
                out@ == touching(self.portals@, id, i as nat),
            decreases self.portals.len() - i,
        {
            if self.portals[i].a == id || self.portals[i].b == id {
                out.push(i);
            }
            i += 1;
        }
        proof {
            every_touching_portal_is_listed(self.portals@, id, self.portals@.len());
            assert(self.portals@.take(self.portals@.len() as int) =~= self.portals@);
        }
        out
    }
}

// --- Laws -------------------------------------------------------------------

/// Whether `list` is the indices of the portals that lead into or out of a
/// region: none but those, each of them, ascending.
pub open spec fn lists_touching(portals: Seq<Portal>, id: RegionId, list: Seq<usize>) -> bool {
    &&& forall|i: int|
        0 <= i < list.len() ==> #[trigger] list[i] < portals.len() && (portals[list[i] as int].a
            == id || portals[list[i] as int].b == id)
    &&& forall|i: int, j: int| 0 <= i < j < list.len() ==> list[i] < list[j]
    &&& forall|k: usize|
        k < portals.len() && (#[trigger] portals[k as int].a == id || portals[k as int].b == id)
            ==> list.contains(k)
}

/// The portals of a region are all those that have it on one of their sides.
pub proof fn every_touching_portal_is_listed(portals: Seq<Portal>, id: RegionId, n: nat)
    requires
        n <= portals.len() <= usize::MAX,
    ensures
        lists_touching(portals.take(n as int), id, touching(portals, id, n)),
    decreases n,
{
    if n > 0 {
        every_touching_portal_is_listed(portals, id, (n - 1) as nat);
        let (was, here) = (portals.take(n - 1), portals.take(n as int));
        let (before, list) = (touching(portals, id, (n - 1) as nat), touching(portals, id, n));
        assert(forall|k: int| 0 <= k < n - 1 ==> was[k] == here[k]);
        assert forall|k: usize|
            k < here.len() && (#[trigger] here[k as int].a == id || here[k as int].b
                == id) implies list.contains(k) by {
            if k < n - 1 {
                assert(was[k as int].a == id || was[k as int].b == id);
                assert(before.contains(k));
                assert(list[before.index_of(k)] == k);
            } else {
                assert(list[before.len() as int] == k);
            }
        }
    }
}

/// The mean follows the cells: a change of one cell takes away its level, where
/// it had one, and adds the new one.
pub proof fn means_follow_the_cells(data: Seq<Option<u16>>, i: int, q: Option<u16>, n: nat)
    requires
        0 <= i < n <= data.len(),
    ensures
        level_count(data.update(i, q), n) + (if data[i] is Some {
            1int
        } else {
            0
        }) == level_count(data, n) + (if q is Some {
            1int
        } else {
            0
        }),
        level_sum(data.update(i, q), n) + (if let Some(x) = data[i] {
            x as int
        } else {
            0
        }) == level_sum(data, n) + (if let Some(x) = q {
            x as int
        } else {
            0
        }),
    decreases n,
{
    let m = (n - 1) as nat;
    if i < m {
        means_follow_the_cells(data, i, q, m);
    } else {
        lemma_levels_agree(data, data.update(i, q), m);
    }
}

proof fn lemma_levels_agree(a: Seq<Option<u16>>, b: Seq<Option<u16>>, n: nat)
    requires
        n <= a.len(),
        n <= b.len(),
        forall|i: int| 0 <= i < n ==> a[i] == b[i],
    ensures
        level_count(a, n) == level_count(b, n),
        level_sum(a, n) == level_sum(b, n),
    decreases n,
{
    if n > 0 {
        lemma_levels_agree(a, b, (n - 1) as nat);
    }
}

/// Cells without a level count for nothing.
pub proof fn cells_without_levels_are_not_counted(data: Seq<Option<u16>>, n: nat)
    requires
        n <= data.len(),
        forall|i: int| 0 <= i < n ==> data[i] is None,
    ensures
        level_count(data, n) == 0,
        level_sum(data, n) == 0,
    decreases n,
{
    if n > 0 {
        cells_without_levels_are_not_counted(data, (n - 1) as nat);
    }
}

} // verus!
