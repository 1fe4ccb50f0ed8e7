//! Walkable surfaces gathered into regions.
//!
//! A region is flooded from its first surface along links. It takes at most
//! one surface of each column, and crosses a link only where the layers
//! differ little. Regions with too few surfaces are dropped and the rest
//! numbered anew.

use crate::config::WatershedConfig;
use crate::distance::{build_distance_field, single_storey, DistanceField};
use crate::output::{no_region, RegionId};
use crate::walkability::{
    column_index, entry_count, layer_gap, lemma_column_bound, lemma_column_of,
    lemma_entry_count_grows, list_cells, listing, lists_entries, CompactHeightfield,
};
use std::collections::VecDeque;
use vstd::prelude::*;

verus! {

/// A surface: column, row and index in the column.
pub type Cell = (u32, u32, u32);

/// The region of every surface, in the shape of a field's columns.
#[derive(Clone, Debug)]
pub struct RegionMap {
    pub cols: u32,
    pub rows: u32,
    pub columns: Vec<Vec<RegionId>>,
    pub region_count: u32,
}

/// Region ids by column and surface.
pub type Labels = Seq<Seq<RegionId>>;

/// Lists of ids as mathematics.
pub open spec fn labels(columns: Seq<Vec<RegionId>>) -> Labels {
    Seq::new(columns.len(), |i: int| columns[i]@)
}

/// One id for each surface.
pub open spec fn shaped(chf: CompactHeightfield, g: Labels) -> bool {
    &&& g.len() == chf.columns@.len()
    &&& forall|i: int| 0 <= i < g.len() ==> (#[trigger] g[i]).len() == chf.columns@[i]@.len()
}

/// The labels with those of surface `s` of column `i` changed.
pub open spec fn labelled(g: Labels, i: int, s: int, id: RegionId) -> Labels {
    g.update(i, g[i].update(s, id))
}

/// Where the column of a surface stands.
pub open spec fn place(chf: CompactHeightfield, cell: Cell) -> int {
    column_index(chf.cols as int, cell.0 as int, cell.1 as int)
}

/// The label of a surface.
pub open spec fn label_of(chf: CompactHeightfield, g: Labels, cell: Cell) -> RegionId {
    g[place(chf, cell)][cell.2 as int]
}

/// The layer of a surface.
pub open spec fn layer_of(chf: CompactHeightfield, cell: Cell) -> u32 {
    chf.surfaces(cell.0, cell.1)[cell.2 as int].layer
}

/// The neighbor that joins the region of `cell` in direction `k`: one without
/// a region, in a column without a surface of this one, at nearly the same
/// layer.
pub open spec fn joining(
    chf: CompactHeightfield,
    g: Labels,
    cell: Cell,
    k: int,
    max_step: u32,
) -> Option<Cell> {
    match chf.neighbor(cell.0, cell.1, cell.2, k) {
        None => None,
        Some(n) => if label_of(chf, g, n) != no_region() {
            None
        } else if g[place(chf, n)].contains(label_of(chf, g, cell)) {
            None
        } else if layer_gap(layer_of(chf, cell), layer_of(chf, n)) > max_step {
            None
        } else {
            Some(n)
        },
    }
}

/// The labels and the queue after `cell` has passed its region on in the
/// directions from `k` on.
pub open spec fn spread(
    chf: CompactHeightfield,
    g: Labels,
    queue: Seq<Cell>,
    cell: Cell,
    k: int,
    max_step: u32,
) -> (Labels, Seq<Cell>)
    decreases 4 - k,
{
    if k >= 4 {
        (g, queue)
    } else {
        match joining(chf, g, cell, k, max_step) {
            None => spread(chf, g, queue, cell, k + 1, max_step),
            Some(n) => spread(
                chf,
                labelled(g, place(chf, n), n.2 as int, label_of(chf, g, cell)),
                queue.push(n),
                cell,
                k + 1,
                max_step,
            ),
        }
    }
}

/// The labels after the surfaces in the queue, and those that they reach,
/// have passed their region on; at most `fuel` of them.
pub open spec fn flooded(
    chf: CompactHeightfield,
    g: Labels,
    queue: Seq<Cell>,
    max_step: u32,
    fuel: nat,
) -> Labels
    decreases fuel,
{
    if queue.len() == 0 || fuel == 0 {
        g
    } else {
        let (g1, q1) = spread(chf, g, queue.drop_first(), queue[0], 0, max_step);
        flooded(chf, g1, q1, max_step, (fuel - 1) as nat)
    }
}

/// The surface `s` of the `i`-th column.
pub open spec fn cell_of(chf: CompactHeightfield, i: int, s: int) -> Cell {
    ((i % chf.cols as int) as u32, (i / chf.cols as int) as u32, s as u32)
}

/// The labels and the next free id after every surface from `s` of column
/// `i` on that has no region by then has started one.
pub open spec fn seeded(
    chf: CompactHeightfield,
    g: Labels,
    next: nat,
    i: int,
    s: int,
    max_step: u32,
) -> (Labels, nat)
    decreases chf.columns@.len() - i, chf.columns@[i]@.len() - s,
{
    if i < 0 || i >= chf.columns@.len() {
        (g, next)
    } else if s < 0 || s >= chf.columns@[i]@.len() {
        seeded(chf, g, next, i + 1, 0, max_step)
    } else if g[i][s] != no_region() {
        seeded(chf, g, next, i, s + 1, max_step)
    } else {
        let g1 = labelled(g, i, s, RegionId(next as u32));
        let g2 = flooded(
            chf,
            g1,
            seq![cell_of(chf, i, s)],
            max_step,
            entry_count(chf.columns@, chf.columns@.len()),
        );
        seeded(chf, g2, next + 1, i, s + 1, max_step)
    }
}

/// No surface has a region.
pub open spec fn unlabelled(chf: CompactHeightfield) -> Labels {
    Seq::new(
        chf.columns@.len(),
        |i: int| Seq::new(chf.columns@[i]@.len(), |s: int| no_region()),
    )
}

/// The regions of a field and their number, before small ones are dropped.
pub open spec fn raw_regions(chf: CompactHeightfield, max_step: u32) -> (Labels, nat) {
    seeded(chf, unlabelled(chf), 0, 0, 0, max_step)
}

// --- Counting ---------------------------------------------------------------

/// How often an id occurs among the first `n` entries of a list.
pub open spec fn count_in(list: Seq<RegionId>, id: RegionId, n: nat) -> nat
    decreases n,
{
    if n == 0 {
        0
    } else {
        count_in(list, id, (n - 1) as nat) + if list[n - 1] == id {
            1nat
        } else {
            0
        }
    }
}

/// How often an id occurs in the first `n` columns.
pub open spec fn count_to(g: Labels, id: RegionId, n: nat) -> nat
    decreases n,
{
    if n == 0 {
        0
    } else {
        count_to(g, id, (n - 1) as nat) + count_in(g[n - 1], id, g[n - 1].len())
    }
}

/// How many surfaces have an id.
pub open spec fn count_of(g: Labels, id: RegionId) -> nat {
    count_to(g, id, g.len())
}

proof fn lemma_count_in_update(
    list: Seq<RegionId>,
    s: int,
    v: RegionId,
    id: RegionId,
    n: nat,
)
    requires
        0 <= s < list.len(),
        n <= list.len(),
        list[s] == id,
        v != id,
    ensures
        count_in(list, id, n) == count_in(list.update(s, v), id, n) + if s < n {
            1int
        } else {
            0
        },
    decreases n,
{
    if n > 0 {
        lemma_count_in_update(list, s, v, id, (n - 1) as nat);
    }
}

proof fn lemma_count_to_update(g: Labels, i: int, s: int, v: RegionId, id: RegionId, n: nat)
    requires
        0 <= i < g.len(),
        0 <= s < g[i].len(),
        n <= g.len(),
        g[i][s] == id,
        v != id,
    ensures
        count_to(g, id, n) == count_to(labelled(g, i, s, v), id, n) + if i < n {
            1int
        } else {
            0
        },
    decreases n,
{
    if n > 0 {
        lemma_count_to_update(g, i, s, v, id, (n - 1) as nat);
        if i == n - 1 {
            lemma_count_in_update(g[i], s, v, id, g[i].len());
        }
    }
}

proof fn lemma_count_in_bound(list: Seq<RegionId>, id: RegionId, n: nat)
    ensures
        count_in(list, id, n) <= n,
    decreases n,
{
    if n > 0 {
        lemma_count_in_bound(list, id, (n - 1) as nat);
    }
}

proof fn lemma_count_bound(chf: CompactHeightfield, g: Labels, id: RegionId, n: nat)
    requires
        shaped(chf, g),
        n <= g.len(),
    ensures
        count_to(g, id, n) <= entry_count(chf.columns@, n),
    decreases n,
{
    if n > 0 {
        lemma_count_bound(chf, g, id, (n - 1) as nat);
        lemma_count_in_bound(g[n - 1], id, g[n - 1].len());
    }
}

// --- Flooding ---------------------------------------------------------------

/// Whether a surface exists.
pub open spec fn cell_in(chf: CompactHeightfield, cell: Cell) -> bool {
    chf.has(cell.0, cell.1, cell.2)
}

proof fn lemma_cell_place(chf: CompactHeightfield, g: Labels, cell: Cell)
    requires
        chf.wf(),
        shaped(chf, g),
        cell_in(chf, cell),
    ensures
        0 <= place(chf, cell) < g.len(),
        cell.2 < g[place(chf, cell)].len(),
{
    lemma_column_bound(chf.cols as int, chf.rows as int, cell.0 as int, cell.1 as int);
}

fn contains_id(list: &Vec<RegionId>, id: RegionId) -> (b: bool)
    ensures
        b == list@.contains(id),
{
    let mut i: usize = 0;
    while i < list.len()
        invariant
            i <= list@.len(),
            forall|j: int| 0 <= j < i ==> list@[j] != id,
        decreases list.len() - i,
    {
        if list[i] == id {
            assert(list@[i as int] == id);
            return true;
        }
        i += 1;
    }
    false
}

fn find_joining(
    chf: &CompactHeightfield,
    regions: &Vec<Vec<RegionId>>,
    cell: Cell,
    k: usize,
    max_step: u32,
) -> (n: Option<Cell>)
    requires
        chf.wf(),
        shaped(*chf, labels(regions@)),
        cell_in(*chf, cell),
        k < 4,
    ensures
        n == joining(*chf, labels(regions@), cell, k as int, max_step),
        n matches Some(m) ==> cell_in(*chf, m),
{
    let ghost g = labels(regions@);
    let n = match chf.neighbor_cell(cell.0, cell.1, cell.2, k) {
        None => return None,
        Some(n) => n,
    };
    proof {
        lemma_cell_place(*chf, g, cell);
        lemma_cell_place(*chf, g, n);
    }
    let here: usize = (cell.1 * chf.cols + cell.0) as usize;
    let there: usize = (n.1 * chf.cols + n.0) as usize;
    let id = regions[here][cell.2 as usize];
    if regions[there][n.2 as usize] != RegionId::invalid() {
        return None;
    }
    if contains_id(&regions[there], id) {
        return None;
    }
    let mine: u32 = chf.columns[here][cell.2 as usize].layer;
    let other: u32 = chf.columns[there][n.2 as usize].layer;
    let gap: u32 = if mine < other {
        other - mine
    } else {
        mine - other
    };
    if gap > max_step {
        None
    } else {
        Some(n)
    }
}

/// Give surface `s` of column `i` a label.
fn set_label(regions: &mut Vec<Vec<RegionId>>, i: usize, s: usize, id: RegionId)
    requires
        i < old(regions)@.len(),
        s < old(regions)@[i as int]@.len(),
    ensures
        labels(final(regions)@) == labelled(labels(old(regions)@), i as int, s as int, id),
{
    let ghost before = regions@;
    regions[i][s] = id;
    proof {
        assert(regions@[i as int]@ =~= before[i as int]@.update(s as int, id));
        assert(labels(regions@) =~= labelled(labels(before), i as int, s as int, id));
    }
}

/// How many surfaces have no region.
pub open spec fn vacancies(g: Labels) -> nat {
    count_of(g, no_region())
}

/// Whether every surface in a queue exists and has a region.
pub open spec fn queue_fits(chf: CompactHeightfield, g: Labels, queue: Seq<Cell>) -> bool {
    forall|j: int|
        0 <= j < queue.len() ==> cell_in(chf, #[trigger] queue[j]) && label_of(chf, g, queue[j])
            != no_region()
}

proof fn lemma_labelling(chf: CompactHeightfield, g: Labels, n: Cell, id: RegionId)
    requires
        chf.wf(),
        shaped(chf, g),
        cell_in(chf, n),
        label_of(chf, g, n) == no_region(),
        id != no_region(),
    ensures
        ({
            let h = labelled(g, place(chf, n), n.2 as int, id);
            &&& shaped(chf, h)
            &&& vacancies(g) == vacancies(h) + 1
            &&& forall|q: Cell|
                cell_in(chf, q) && #[trigger] label_of(chf, g, q) != no_region() ==> label_of(
                    chf,
                    h,
                    q,
                ) == label_of(chf, g, q)
            &&& label_of(chf, h, n) == id
        }),
{
    lemma_cell_place(chf, g, n);
    lemma_count_to_update(g, place(chf, n), n.2 as int, id, no_region(), g.len());
    let h = labelled(g, place(chf, n), n.2 as int, id);
    assert forall|q: Cell|
        cell_in(chf, q) && #[trigger] label_of(chf, g, q) != no_region() implies label_of(chf, h, q)
        == label_of(chf, g, q) by {
        lemma_cell_place(chf, g, q);
    }
}

/// Let one surface pass its region on to its neighbors.
fn spread_from(
    chf: &CompactHeightfield,
    regions: &mut Vec<Vec<RegionId>>,
    queue: &mut VecDeque<Cell>,
    cell: Cell,
    max_step: u32,
)
    requires
        chf.wf(),
        shaped(*chf, labels(old(regions)@)),
        cell_in(*chf, cell),
        label_of(*chf, labels(old(regions)@), cell) != no_region(),
        queue_fits(*chf, labels(old(regions)@), old(queue)@),
    ensures
        (labels(final(regions)@), final(queue)@) == spread(
            *chf,
            labels(old(regions)@),
            old(queue)@,
            cell,
            0,
            max_step,
        ),
        shaped(*chf, labels(final(regions)@)),
        queue_fits(*chf, labels(final(regions)@), final(queue)@),
        vacancies(labels(final(regions)@)) + final(queue)@.len() == vacancies(
            labels(old(regions)@),
        ) + old(queue)@.len(),
        vacancies(labels(final(regions)@)) <= vacancies(labels(old(regions)@)),
{
    let ghost g0 = labels(regions@);
    let ghost q0 = queue@;
    let mut k: usize = 0;
    while k < 4
        invariant
            k <= 4,
            chf.wf(),
            cell_in(*chf, cell),
            shaped(*chf, labels(regions@)),
            label_of(*chf, labels(regions@), cell) != no_region(),
            queue_fits(*chf, labels(regions@), queue@),
            spread(*chf, labels(regions@), queue@, cell, k as int, max_step) == spread(
                *chf,
                g0,
                q0,
                cell,
                0,
                max_step,
            ),
            vacancies(labels(regions@)) + queue@.len() == vacancies(g0) + q0.len(),
            vacancies(labels(regions@)) <= vacancies(g0),
        decreases 4 - k,
    {
        let ghost g = labels(regions@);
        if let Some(n) = find_joining(chf, regions, cell, k, max_step) {
            proof {
                lemma_cell_place(*chf, g, cell);
                lemma_cell_place(*chf, g, n);
                lemma_labelling(*chf, g, n, label_of(*chf, g, cell));
            }
            let here: usize = (cell.1 * chf.cols + cell.0) as usize;
            let there: usize = (n.1 * chf.cols + n.0) as usize;
            let id = regions[here][cell.2 as usize];
            set_label(regions, there, n.2 as usize, id);
            queue.push_back(n);
        }
        k += 1;
    }
}

/// Let a surface pass its region on, as far as it goes.
fn flood(
    chf: &CompactHeightfield,
    regions: &mut Vec<Vec<RegionId>>,
    start: Cell,
    max_step: u32,
    limit: u32,
)
    requires
        chf.wf(),
        shaped(*chf, labels(old(regions)@)),
        cell_in(*chf, start),
        label_of(*chf, labels(old(regions)@), start) != no_region(),
        vacancies(labels(old(regions)@)) + 1 <= limit,
    ensures
        labels(final(regions)@) == flooded(
            *chf,
            labels(old(regions)@),
            seq![start],
            max_step,
            limit as nat,
        ),
        shaped(*chf, labels(final(regions)@)),
        vacancies(labels(final(regions)@)) <= vacancies(labels(old(regions)@)),
{
    let ghost g0 = labels(regions@);
    let mut queue: VecDeque<Cell> = VecDeque::new();
    queue.push_back(start);
    assert(queue@ =~= seq![start]);
    let mut fuel: u32 = limit;
    loop
        invariant
            chf.wf(),
            shaped(*chf, labels(regions@)),
            queue_fits(*chf, labels(regions@), queue@),
            g0 == labels(old(regions)@),
            vacancies(labels(regions@)) + queue@.len() <= fuel,
            vacancies(labels(regions@)) <= vacancies(g0),
            flooded(*chf, labels(regions@), queue@, max_step, fuel as nat) == flooded(
                *chf,
                g0,
                seq![start],
                max_step,
                limit as nat,
            ),
        decreases fuel,
    {
        let ghost before = queue@;
        let cell = match queue.pop_front() {
            None => return ,
            Some(cell) => cell,
        };
        proof {
            assert(cell == before[0]);
            assert(queue@ =~= before.drop_first());
        }
        spread_from(chf, regions, &mut queue, cell, max_step);
        fuel -= 1;
    }
}

// --- What labelling keeps ---------------------------------------------------

/// Whether every id is below `n`, or none.
pub open spec fn ids_below(g: Labels, n: nat) -> bool {
    forall|i: int, s: int|
        0 <= i < g.len() && 0 <= s < g[i].len() ==> (#[trigger] g[i][s]).0 < n || g[i][s]
            == no_region()
}

/// Whether no region has two surfaces in one column.
pub open spec fn one_per_column(g: Labels) -> bool {
    forall|i: int, s: int, t: int|
        0 <= i < g.len() && 0 <= s < t < g[i].len() && #[trigger] g[i][s] == #[trigger] g[i][t]
            ==> g[i][s] == no_region()
}

/// What holds of the labels at every step.
pub open spec fn tidy(chf: CompactHeightfield, g: Labels, n: nat) -> bool {
    shaped(chf, g) && ids_below(g, n) && one_per_column(g)
}

/// Whether every surface with a region keeps it.
pub open spec fn kept_labels(g: Labels, h: Labels) -> bool {
    &&& h.len() == g.len()
    &&& forall|i: int, s: int|
        0 <= i < g.len() && 0 <= s < g[i].len() && #[trigger] g[i][s] != no_region() ==> h[i][s]
            == g[i][s]
}

proof fn lemma_joined(chf: CompactHeightfield, g: Labels, cell: Cell, k: int, max_step: u32, n: nat)
    requires
        chf.wf(),
        tidy(chf, g, n),
        0 <= k < 4,
        cell_in(chf, cell),
        label_of(chf, g, cell) != no_region(),
        joining(chf, g, cell, k, max_step) is Some,
    ensures
        ({
            let m = joining(chf, g, cell, k, max_step).unwrap();
            let h = labelled(g, place(chf, m), m.2 as int, label_of(chf, g, cell));
            &&& cell_in(chf, m)
            &&& tidy(chf, h, n)
            &&& kept_labels(g, h)
            &&& label_of(chf, h, m) == label_of(chf, g, cell)
            &&& vacancies(g) == vacancies(h) + 1
        }),
{
    let m = joining(chf, g, cell, k, max_step).unwrap();
    let id = label_of(chf, g, cell);
    assert(chf.link_fits(cell.0, cell.1, k, chf.surfaces(cell.0, cell.1)[cell.2 as int].neighbors[k]));
    lemma_cell_place(chf, g, cell);
    lemma_cell_place(chf, g, m);
    lemma_labelling(chf, g, m, id);
    let h = labelled(g, place(chf, m), m.2 as int, id);
    assert forall|i: int, s: int, t: int|
        0 <= i < h.len() && 0 <= s < t < h[i].len() && #[trigger] h[i][s] == #[trigger] h[i][t]
        implies h[i][s] == no_region() by {
        if i == place(chf, m) {
            if s == m.2 {
                assert(g[i][t] == id);
            } else if t == m.2 {
                assert(g[i][s] == id);
            } else {
                assert(g[i][s] == h[i][s] && g[i][t] == h[i][t]);
            }
        } else {
            assert(g[i][s] == h[i][s] && g[i][t] == h[i][t]);
        }
    }
    assert forall|i: int, s: int| 0 <= i < h.len() && 0 <= s < h[i].len() implies (
    #[trigger] h[i][s]).0 < n || h[i][s] == no_region() by {
        if i == place(chf, m) && s == m.2 {
            assert(g[place(chf, cell)][cell.2 as int] == id);
        } else {
            assert(h[i][s] == g[i][s]);
        }
    }
}

proof fn lemma_kept_queue(chf: CompactHeightfield, g: Labels, h: Labels, queue: Seq<Cell>)
    requires
        chf.wf(),
        shaped(chf, g),
        kept_labels(g, h),
        queue_fits(chf, g, queue),
    ensures
        queue_fits(chf, h, queue),
{
    assert forall|j: int| 0 <= j < queue.len() implies cell_in(chf, #[trigger] queue[j])
        && label_of(chf, h, queue[j]) != no_region() by {
        lemma_cell_place(chf, g, queue[j]);
        let (i, s) = (place(chf, queue[j]), queue[j].2 as int);
        assert(g[i][s] != no_region());
    }
}

proof fn lemma_spread(
    chf: CompactHeightfield,
    g: Labels,
    queue: Seq<Cell>,
    cell: Cell,
    k: int,
    max_step: u32,
    n: nat,
)
    requires
        chf.wf(),
        tidy(chf, g, n),
        0 <= k,
        cell_in(chf, cell),
        label_of(chf, g, cell) != no_region(),
        queue_fits(chf, g, queue),
    ensures
        ({
            let (h, q) = spread(chf, g, queue, cell, k, max_step);
            &&& tidy(chf, h, n)
            &&& kept_labels(g, h)
            &&& queue_fits(chf, h, q)
            &&& vacancies(h) + q.len() == vacancies(g) + queue.len()
        }),
    decreases 4 - k,
{
    if k < 4 {
        match joining(chf, g, cell, k, max_step) {
            None => lemma_spread(chf, g, queue, cell, k + 1, max_step, n),
            Some(m) => {
                lemma_joined(chf, g, cell, k, max_step, n);
                let h = labelled(g, place(chf, m), m.2 as int, label_of(chf, g, cell));
                lemma_cell_place(chf, g, cell);
                assert(g[place(chf, cell)][cell.2 as int] != no_region());
                lemma_kept_queue(chf, g, h, queue);
                lemma_spread(chf, h, queue.push(m), cell, k + 1, max_step, n);
            },
        }
    }
}

proof fn lemma_flooded(
    chf: CompactHeightfield,
    g: Labels,
    queue: Seq<Cell>,
    max_step: u32,
    fuel: nat,
    n: nat,
)
    requires
        chf.wf(),
        tidy(chf, g, n),
        queue_fits(chf, g, queue),
    ensures
        tidy(chf, flooded(chf, g, queue, max_step, fuel), n),
        kept_labels(g, flooded(chf, g, queue, max_step, fuel)),
        vacancies(flooded(chf, g, queue, max_step, fuel)) <= vacancies(g),
    decreases fuel,
{
    if queue.len() > 0 && fuel > 0 {
        assert(cell_in(chf, queue[0]));
        assert(queue_fits(chf, g, queue.drop_first())) by {
            assert forall|j: int| 0 <= j < queue.drop_first().len() implies cell_in(
                chf,
                #[trigger] queue.drop_first()[j],
            ) && label_of(chf, g, queue.drop_first()[j]) != no_region() by {
                assert(queue.drop_first()[j] == queue[j + 1]);
            }
        }
        lemma_spread(chf, g, queue.drop_first(), queue[0], 0, max_step, n);
        lemma_spread_grows(chf, g, queue.drop_first(), queue[0], 0, max_step);
        let (h, q) = spread(chf, g, queue.drop_first(), queue[0], 0, max_step);
        lemma_flooded(chf, h, q, max_step, (fuel - 1) as nat, n);
    }
}

proof fn lemma_seed(chf: CompactHeightfield, g: Labels, i: int, s: int, n: nat)
    requires
        chf.wf(),
        tidy(chf, g, n),
        n < u32::MAX,
        0 <= i < g.len(),
        0 <= s < g[i].len(),
        g[i][s] == no_region(),
    ensures
        cell_in(chf, cell_of(chf, i, s)),
        place(chf, cell_of(chf, i, s)) == i,
        cell_of(chf, i, s).2 == s,
        tidy(chf, labelled(g, i, s, RegionId(n as u32)), n + 1),
        kept_labels(g, labelled(g, i, s, RegionId(n as u32))),
        vacancies(g) == vacancies(labelled(g, i, s, RegionId(n as u32))) + 1,
{
    let cols = chf.cols as int;
    lemma_column_of(cols, chf.rows as int, i);
    let cell = cell_of(chf, i, s);
    assert(chf.surfaces(cell.0, cell.1) == chf.columns@[i]@);
    let id = RegionId(n as u32);
    let h = labelled(g, i, s, id);
    lemma_labelling(chf, g, cell, id);
    assert forall|j: int, a: int, b: int|
        0 <= j < h.len() && 0 <= a < b < h[j].len() && #[trigger] h[j][a] == #[trigger] h[j][b]
        implies h[j][a] == no_region() by {
        assert(g[j][a].0 < n || g[j][a] == no_region());
        assert(g[j][b].0 < n || g[j][b] == no_region());
    }
    assert forall|j: int, a: int| 0 <= j < h.len() && 0 <= a < h[j].len() implies (
    #[trigger] h[j][a]).0 < n + 1 || h[j][a] == no_region() by {
        assert(g[j][a].0 < n || g[j][a] == no_region());
    }
}

/// Whether every surface before surface `s` of column `i` has a region.
pub open spec fn labelled_before(g: Labels, i: int, s: int) -> bool {
    forall|j: int, t: int|
        0 <= j < g.len() && 0 <= t < g[j].len() && (j < i || (j == i && t < s))
            ==> #[trigger] g[j][t] != no_region()
}

proof fn lemma_seeded(
    chf: CompactHeightfield,
    g: Labels,
    next: nat,
    i: int,
    s: int,
    max_step: u32,
)
    requires
        chf.wf(),
        tidy(chf, g, next),
        next + vacancies(g) < u32::MAX,
        0 <= i,
        0 <= s,
        labelled_before(g, i, s),
    ensures
        ({
            let (h, n) = seeded(chf, g, next, i, s, max_step);
            &&& tidy(chf, h, n)
            &&& n < u32::MAX
            &&& next <= n
            &&& labelled_before(h, h.len() as int, 0)
        }),
    decreases chf.columns@.len() - i, chf.columns@[i]@.len() - s,
{
    if i >= chf.columns@.len() {
        assert(labelled_before(g, g.len() as int, 0));
    } else if s >= chf.columns@[i]@.len() {
        lemma_seeded(chf, g, next, i + 1, 0, max_step);
    } else if g[i][s] != no_region() {
        lemma_seeded(chf, g, next, i, s + 1, max_step);
    } else {
        lemma_seed(chf, g, i, s, next);
        let g1 = labelled(g, i, s, RegionId(next as u32));
        let total = entry_count(chf.columns@, chf.columns@.len());
        let queue = seq![cell_of(chf, i, s)];
        assert(queue_fits(chf, g1, queue));
        lemma_flooded(chf, g1, queue, max_step, total, next + 1);
        let g2 = flooded(chf, g1, queue, max_step, total);
        assert forall|j: int, t: int|
            0 <= j < g2.len() && 0 <= t < g2[j].len() && (j < i || (j == i && t < s + 1))
            implies #[trigger] g2[j][t] != no_region() by {
            if j == i && t == s {
                assert(g1[j][t] != no_region());
            } else {
                assert(g[j][t] != no_region());
                assert(g1[j][t] != no_region());
            }
        }
        lemma_seeded(chf, g2, next + 1, i, s + 1, max_step);
    }
}

proof fn lemma_spread_grows(
    chf: CompactHeightfield,
    g: Labels,
    queue: Seq<Cell>,
    cell: Cell,
    k: int,
    max_step: u32,
)
    ensures
        spread(chf, g, queue, cell, k, max_step).1.len() >= queue.len(),
    decreases 4 - k,
{
    if k < 4 {
        match joining(chf, g, cell, k, max_step) {
            None => lemma_spread_grows(chf, g, queue, cell, k + 1, max_step),
            Some(m) => lemma_spread_grows(
                chf,
                labelled(g, place(chf, m), m.2 as int, label_of(chf, g, cell)),
                queue.push(m),
                cell,
                k + 1,
                max_step,
            ),
        }
    }
}

proof fn lemma_unlabelled(chf: CompactHeightfield)
    ensures
        tidy(chf, unlabelled(chf), 0),
        labelled_before(unlabelled(chf), 0, 0),
{
}

// --- Dropping small regions -------------------------------------------------

/// Whether a region is large enough to stay.
pub open spec fn stays(g: Labels, min: u32, id: nat) -> bool {
    count_of(g, RegionId(id as u32)) >= min
}

/// How many regions below `n` stay.
pub open spec fn rank(g: Labels, min: u32, n: nat) -> nat
    decreases n,
{
    if n == 0 {
        0
    } else {
        rank(g, min, (n - 1) as nat) + if stays(g, min, (n - 1) as nat) {
            1nat
        } else {
            0
        }
    }
}

/// The new id of a region that stays, none for one that does not.
pub open spec fn renamed(g: Labels, min: u32, id: RegionId) -> RegionId {
    if id != no_region() && stays(g, min, id.0 as nat) {
        RegionId(rank(g, min, id.0 as nat) as u32)
    } else {
        no_region()
    }
}

/// The labels with small regions dropped and the rest numbered from zero.
pub open spec fn filtered(g: Labels, min: u32) -> Labels {
    Seq::new(
        g.len(),
        |i: int| Seq::new(g[i].len(), |s: int| renamed(g, min, g[i][s])),
    )
}

/// The regions of a field and their number.
pub open spec fn regions_of(chf: CompactHeightfield, config: WatershedConfig) -> (Labels, nat) {
    let (g, n) = raw_regions(chf, config.max_layer_step);
    (filtered(g, config.min_region_cells), rank(g, config.min_region_cells, n))
}

proof fn lemma_rank_bound(g: Labels, min: u32, n: nat)
    ensures
        rank(g, min, n) <= n,
    decreases n,
{
    if n > 0 {
        lemma_rank_bound(g, min, (n - 1) as nat);
    }
}

proof fn lemma_rank_grows(g: Labels, min: u32, a: nat, b: nat)
    requires
        a <= b,
    ensures
        rank(g, min, a) <= rank(g, min, b),
        a < b && stays(g, min, a) ==> rank(g, min, a) < rank(g, min, b),
    decreases b - a,
{
    if a < b {
        lemma_rank_grows(g, min, a, (b - 1) as nat);
    }
}

/// Gather the surfaces into regions, before small ones are dropped.
fn flood_regions(chf: &CompactHeightfield, max_step: u32, total: u32) -> (r: (
    Vec<Vec<RegionId>>,
    u32,
))
    requires
        chf.wf(),
        total == entry_count(chf.columns@, chf.columns@.len()),
        total < u32::MAX,
    ensures
        (labels(r.0@), r.1 as nat) == raw_regions(*chf, max_step),
        tidy(*chf, labels(r.0@), r.1 as nat),
        r.1 <= total,
{
    let n: usize = chf.columns.len();
    let mut regions: Vec<Vec<RegionId>> = Vec::new();
    let mut i: usize = 0;
    while i < n
        invariant
            i <= n,
            n == chf.columns@.len(),
            regions@.len() == i,
            forall|j: int| 0 <= j < i ==> (#[trigger] regions@[j])@ == unlabelled(*chf)[j],
        decreases n - i,
    {
        let mut list: Vec<RegionId> = Vec::new();
        let len: usize = chf.columns[i].len();
        let mut s: usize = 0;
        while s < len
            invariant
                s <= len,
                list@.len() == s,
                forall|t: int| 0 <= t < s ==> list@[t] == no_region(),
            decreases len - s,
        {
            list.push(RegionId::invalid());
            s += 1;
        }
        assert(list@ =~= unlabelled(*chf)[i as int]);
        regions.push(list);
        i += 1;
    }
    assert(labels(regions@) =~= unlabelled(*chf));
    proof {
        lemma_unlabelled(*chf);
        lemma_count_bound(*chf, unlabelled(*chf), no_region(), unlabelled(*chf).len());
    }
    let mut next: u32 = 0;
    let mut c: usize = 0;
    while c < n
        invariant
            chf.wf(),
            c <= n,
            n == chf.columns@.len(),
            total == entry_count(chf.columns@, chf.columns@.len()),
            total < u32::MAX,
            tidy(*chf, labels(regions@), next as nat),
            next + vacancies(labels(regions@)) <= total,
            seeded(*chf, labels(regions@), next as nat, c as int, 0, max_step) == raw_regions(
                *chf,
                max_step,
            ),
        decreases n - c,
    {
        let len: usize = chf.columns[c].len();
        let mut s: usize = 0;
        while s < len
            invariant
                chf.wf(),
                c < n,
                n == chf.columns@.len(),
                len == chf.columns@[c as int]@.len(),
                s <= len,
                total == entry_count(chf.columns@, chf.columns@.len()),
                total < u32::MAX,
                tidy(*chf, labels(regions@), next as nat),
                next + vacancies(labels(regions@)) <= total,
                seeded(*chf, labels(regions@), next as nat, c as int, s as int, max_step)
                    == raw_regions(*chf, max_step),
            decreases len - s,
        {
            let ghost g = labels(regions@);
            assert(g[c as int].len() == len);
            if regions[c][s] == RegionId::invalid() {
                proof {
                    lemma_seed(*chf, g, c as int, s as int, next as nat);
                    lemma_column_of(chf.cols as int, chf.rows as int, c as int);
                }
                set_label(&mut regions, c, s, RegionId(next));
                let cell: Cell = ((c as u32) % chf.cols, (c as u32) / chf.cols, s as u32);
                assert(cell == cell_of(*chf, c as int, s as int));
                proof {
                    let g1 = labels(regions@);
                    let queue = seq![cell];
                    assert(queue_fits(*chf, g1, queue));
                    lemma_flooded(
                        *chf,
                        g1,
                        queue,
                        max_step,
                        total as nat,
                        (next + 1) as nat,
                    );
                }
                flood(chf, &mut regions, cell, max_step, total);
                next += 1;
            }
            s += 1;
        }
        c += 1;
    }
    (regions, next)
}

/// How many surfaces each region has.
fn count_regions(chf: &CompactHeightfield, regions: &Vec<Vec<RegionId>>, n: u32) -> (counts: Vec<
    u32,
>)
    requires
        tidy(*chf, labels(regions@), n as nat),
        n < u32::MAX,
        entry_count(chf.columns@, chf.columns@.len()) < u32::MAX,
    ensures
        counts@.len() == n,
        forall|j: int|
            0 <= j < n ==> #[trigger] counts@[j] == count_of(
                labels(regions@),
                RegionId(j as u32),
            ),
{
    let ghost g = labels(regions@);
    let mut counts: Vec<u32> = Vec::new();
    let mut j: u32 = 0;
    while j < n
        invariant
            j <= n,
            counts@.len() == j,
            forall|k: int| 0 <= k < j ==> counts@[k] == 0,
        decreases n - j,
    {
        counts.push(0);
        j += 1;
    }
    let mut i: usize = 0;
    while i < regions.len()
        invariant
            i <= regions@.len(),
            g == labels(regions@),
            tidy(*chf, g, n as nat),
            n < u32::MAX,
            entry_count(chf.columns@, chf.columns@.len()) < u32::MAX,
            counts@.len() == n,
            forall|k: int|
                0 <= k < n ==> #[trigger] counts@[k] == count_to(g, RegionId(k as u32), i as nat),
        decreases regions.len() - i,
    {
        let list = &regions[i];
        let mut s: usize = 0;
        while s < list.len()
            invariant
                i < regions@.len(),
                g == labels(regions@),
                *list == regions@[i as int],
                list@ == g[i as int],
                tidy(*chf, g, n as nat),
                n < u32::MAX,
                entry_count(chf.columns@, chf.columns@.len()) < u32::MAX,
                s <= list@.len(),
                counts@.len() == n,
                forall|k: int|
                    0 <= k < n ==> #[trigger] counts@[k] == count_to(
                        g,
                        RegionId(k as u32),
                        i as nat,
                    ) + count_in(g[i as int], RegionId(k as u32), s as nat),
            decreases list.len() - s,
        {
            let id = list[s];
            assert(g[i as int][s as int] == id);
            if id != RegionId::invalid() {
                proof {
                    lemma_count_partial(*chf, g, id, i as nat, (s + 1) as nat);
                }
                let before: u32 = counts[id.index()];
                counts.set(id.index(), before + 1);
            }
            s += 1;
        }
        i += 1;
    }
    counts
}

proof fn lemma_count_partial(chf: CompactHeightfield, g: Labels, id: RegionId, i: nat, s: nat)
    requires
        shaped(chf, g),
        i < g.len(),
        s <= g[i as int].len(),
    ensures
        count_to(g, id, i) + count_in(g[i as int], id, s) <= entry_count(
            chf.columns@,
            chf.columns@.len(),
        ),
{
    lemma_count_bound(chf, g, id, i);
    lemma_count_in_bound(g[i as int], id, s);
    lemma_entry_count_grows(chf.columns@, i + 1, chf.columns@.len());
}

/// Gather the walkable surfaces of a field into regions.
///
/// The distance field plays no part.
pub fn assign_regions(chf: &CompactHeightfield, _df: &DistanceField, config: &WatershedConfig) -> (
    rm: RegionMap)
    requires
        chf.wf(),
        entry_count(chf.columns@, chf.columns@.len()) < u32::MAX,
    ensures
        rm.cols == chf.cols && rm.rows == chf.rows,
        (labels(rm.columns@), rm.region_count as nat) == regions_of(*chf, *config),
        rm.wf(),
        shaped(*chf, labels(rm.columns@)),
{
    let total: u32 = chf.walkable_count() as u32;
    let (regions, n) = flood_regions(chf, config.max_layer_step, total);
    let counts = count_regions(chf, &regions, n);
    let ghost g = labels(regions@);
    let min: u32 = config.min_region_cells;
    let mut remap: Vec<RegionId> = Vec::new();
    let mut kept: u32 = 0;
    let mut j: u32 = 0;
    while j < n
        invariant
            j <= n,
            n < u32::MAX,
            kept <= j,
            counts@.len() == n,
            forall|k: int| 0 <= k < n ==> #[trigger] counts@[k] == count_of(g, RegionId(k as u32)),
            kept == rank(g, min, j as nat),
            remap@.len() == j,
            forall|k: int|
                0 <= k < j ==> #[trigger] remap@[k] == renamed(g, min, RegionId(k as u32)),
        decreases n - j,
    {
        assert(counts@[j as int] == count_of(g, RegionId(j)));
        if counts[j as usize] >= min {
            remap.push(RegionId(kept));
            kept += 1;
        } else {
            remap.push(RegionId::invalid());
        }
        j += 1;
    }
    let mut columns: Vec<Vec<RegionId>> = Vec::new();
    let mut i: usize = 0;
    while i < regions.len()
        invariant
            i <= regions@.len(),
            g == labels(regions@),
            tidy(*chf, g, n as nat),
            remap@.len() == n,
            forall|k: int|
                0 <= k < n ==> #[trigger] remap@[k] == renamed(g, min, RegionId(k as u32)),
            columns@.len() == i,
            forall|k: int| 0 <= k < i ==> (#[trigger] columns@[k])@ == filtered(g, min)[k],
        decreases regions.len() - i,
    {
        let list = &regions[i];
        let mut out: Vec<RegionId> = Vec::new();
        let mut s: usize = 0;
        while s < list.len()
            invariant
                i < regions@.len(),
                g == labels(regions@),
                list@ == g[i as int],
                tidy(*chf, g, n as nat),
                remap@.len() == n,
                forall|k: int|
                    0 <= k < n ==> #[trigger] remap@[k] == renamed(g, min, RegionId(k as u32)),
                s <= list@.len(),
                out@.len() == s,
                forall|t: int| 0 <= t < s ==> #[trigger] out@[t] == renamed(g, min, list@[t]),
            decreases list.len() - s,
        {
            let id = list[s];
            assert(g[i as int][s as int] == id);
            if id != RegionId::invalid() {
                assert(remap@[id.0 as int] == renamed(g, min, id));
                out.push(remap[id.index()]);
            } else {
                out.push(RegionId::invalid());
            }
            s += 1;
        }
        assert(out@ =~= filtered(g, min)[i as int]);
        columns.push(out);
        i += 1;
    }
    assert(labels(columns@) =~= filtered(g, min));
    proof {
        chf.lemma_columns_short();
        assert forall|k: int| 0 <= k < columns@.len() implies (#[trigger] columns@[k])@.len()
            <= u32::MAX by {
            assert(columns@[k]@ == filtered(g, min)[k]);
            assert(g[k].len() == chf.columns@[k]@.len());
        }
    }
    RegionMap { cols: chf.cols, rows: chf.rows, columns, region_count: kept }
}

/// Compute the distance field and gather the surfaces into regions.
pub fn segment(chf: &CompactHeightfield, config: &WatershedConfig) -> (rm: RegionMap)
    requires
        chf.wf(),
        entry_count(chf.columns@, chf.columns@.len()) < u32::MAX,
    ensures
        rm.cols == chf.cols && rm.rows == chf.rows,
        (labels(rm.columns@), rm.region_count as nat) == regions_of(*chf, *config),
        rm.wf(),
        shaped(*chf, labels(rm.columns@)),
{
    let df = build_distance_field(chf);
    assign_regions(chf, &df, config)
}

impl RegionMap {
    /// One list for each column.
    pub open spec fn wf(&self) -> bool {
        &&& self.columns@.len() == self.cols * self.rows
        &&& self.cols * self.rows <= u32::MAX
        &&& forall|i: int|
            0 <= i < self.columns@.len() ==> (#[trigger] self.columns@[i])@.len() <= u32::MAX
    }

    /// The region of a surface; none where it does not exist.
    pub open spec fn region_of(&self, c: u32, r: u32, s: u32) -> RegionId {
        if c < self.cols && r < self.rows {
            let list = self.columns@[column_index(self.cols as int, c as int, r as int)]@;
            if s < list.len() {
                list[s as int]
            } else {
                no_region()
            }
        } else {
            no_region()
        }
    }

    /// The region of a surface; the invalid id where it does not exist.
    pub fn at(&self, c: u32, r: u32, surface_index: u32) -> (id: RegionId)
        requires
            self.wf(),
        ensures
            id == self.region_of(c, r, surface_index),
    {
        if c >= self.cols || r >= self.rows {
            return RegionId::invalid();
        }
        proof {
            lemma_column_bound(self.cols as int, self.rows as int, c as int, r as int);
        }
        let list = &self.columns[(r * self.cols + c) as usize];
        if (surface_index as usize) < list.len() {
            list[surface_index as usize]
        } else {
            RegionId::invalid()
        }
    }

    /// Every surface's region as (column, row, index, region).
    pub fn iter(&self) -> (out: Vec<(u32, u32, u32, RegionId)>)
        requires
            self.wf(),
        ensures
            out@ == listing(self.columns@, self.cols as int, self.columns@.len()),
            lists_entries(self.columns@, self.cols as int, out@),
    {
        list_cells(&self.columns, self.cols, self.rows)
    }

    /// How many surfaces a region has; zero for the invalid id.
    pub fn cell_count(&self, rid: RegionId) -> (n: usize)
        requires
            entry_count(self.columns@, self.columns@.len()) <= usize::MAX,
        ensures
            rid == no_region() ==> n == 0,
            rid != no_region() ==> n == count_of(labels(self.columns@), rid),
    {
        if rid == RegionId::invalid() {
            return 0;
        }
        let ghost g = labels(self.columns@);
        let mut n: usize = 0;
        let mut i: usize = 0;
        while i < self.columns.len()
            invariant
                i <= self.columns@.len(),
                g == labels(self.columns@),
                n == count_to(g, rid, i as nat),
                n <= entry_count(self.columns@, i as nat),
                entry_count(self.columns@, self.columns@.len()) <= usize::MAX,
            decreases self.columns.len() - i,
        {
            let list = &self.columns[i];
            let ghost base = n as nat;
            proof {
                lemma_entry_count_grows(self.columns@, (i + 1) as nat, self.columns@.len());
            }
            let mut s: usize = 0;
            while s < list.len()
                invariant
                    i < self.columns@.len(),
                    g == labels(self.columns@),
                    list@ == g[i as int],
                    s <= list@.len(),
                    n == base + count_in(g[i as int], rid, s as nat),
                    n <= base + s,
                    base + list@.len() <= usize::MAX,
                decreases list.len() - s,
            {
                if list[s] == rid {
                    n += 1;
                }
                s += 1;
            }
            i += 1;
        }
        n
    }
}

// --- Laws -------------------------------------------------------------------

proof fn lemma_raw(chf: CompactHeightfield, max_step: u32)
    requires
        chf.wf(),
        entry_count(chf.columns@, chf.columns@.len()) < u32::MAX,
    ensures
        ({
            let (g, n) = raw_regions(chf, max_step);
            &&& tidy(chf, g, n)
            &&& n < u32::MAX
            &&& labelled_before(g, g.len() as int, 0)
        }),
{
    lemma_unlabelled(chf);
    lemma_count_bound(chf, unlabelled(chf), no_region(), unlabelled(chf).len());
    lemma_seeded(chf, unlabelled(chf), 0, 0, 0, max_step);
}

proof fn lemma_renaming(g: Labels, min: u32, n: nat, a: RegionId, b: RegionId)
    requires
        n < u32::MAX,
        a.0 < n,
        b.0 < n,
        renamed(g, min, a) == renamed(g, min, b),
        renamed(g, min, a) != no_region(),
    ensures
        a == b,
        renamed(g, min, a).0 < rank(g, min, n),
{
    lemma_rank_bound(g, min, a.0 as nat);
    lemma_rank_bound(g, min, b.0 as nat);
    lemma_rank_grows(g, min, a.0 as nat, n);
    if a.0 < b.0 {
        lemma_rank_grows(g, min, a.0 as nat, b.0 as nat);
    } else if b.0 < a.0 {
        lemma_rank_grows(g, min, b.0 as nat, a.0 as nat);
    }
}

/// No region has two surfaces in one column, so each is a surface over the
/// plane.
pub proof fn regions_have_one_surface_per_column(chf: CompactHeightfield, config: WatershedConfig)
    requires
        chf.wf(),
        entry_count(chf.columns@, chf.columns@.len()) < u32::MAX,
    ensures
        one_per_column(regions_of(chf, config).0),
{
    lemma_raw(chf, config.max_layer_step);
    let (g, n) = raw_regions(chf, config.max_layer_step);
    let min = config.min_region_cells;
    let h = filtered(g, min);
    assert forall|i: int, s: int, t: int|
        0 <= i < h.len() && 0 <= s < t < h[i].len() && #[trigger] h[i][s] == #[trigger] h[i][t]
        implies h[i][s] == no_region() by {
        if h[i][s] != no_region() {
            assert(g[i][s].0 < n || g[i][s] == no_region());
            assert(g[i][t].0 < n || g[i][t] == no_region());
            lemma_renaming(g, min, n, g[i][s], g[i][t]);
            assert(g[i][s] == g[i][t]);
        }
    }
}

/// Every surface has a region below the region count, or none.
pub proof fn region_ids_are_below_the_count(chf: CompactHeightfield, config: WatershedConfig)
    requires
        chf.wf(),
        entry_count(chf.columns@, chf.columns@.len()) < u32::MAX,
    ensures
        ids_below(regions_of(chf, config).0, regions_of(chf, config).1),
{
    lemma_raw(chf, config.max_layer_step);
    let (g, n) = raw_regions(chf, config.max_layer_step);
    let min = config.min_region_cells;
    let h = filtered(g, min);
    assert forall|i: int, s: int| 0 <= i < h.len() && 0 <= s < h[i].len() implies (
    #[trigger] h[i][s]).0 < rank(g, min, n) || h[i][s] == no_region() by {
        if h[i][s] != no_region() {
            assert(g[i][s].0 < n || g[i][s] == no_region());
            lemma_renaming(g, min, n, g[i][s], g[i][s]);
        }
    }
}

proof fn lemma_count_in_renamed(g: Labels, min: u32, n: nat, i: int, id: RegionId, k: nat)
    requires
        ids_below(g, n),
        n < u32::MAX,
        id.0 < n,
        stays(g, min, id.0 as nat),
        0 <= i < g.len(),
        k <= g[i].len(),
    ensures
        count_in(filtered(g, min)[i], renamed(g, min, id), k) == count_in(g[i], id, k),
    decreases k,
{
    lemma_rank_bound(g, min, id.0 as nat);
    if k > 0 {
        lemma_count_in_renamed(g, min, n, i, id, (k - 1) as nat);
        let other = g[i][k - 1];
        assert(other.0 < n || other == no_region());
        if renamed(g, min, other) == renamed(g, min, id) {
            lemma_renaming(g, min, n, id, other);
        }
    }
}

proof fn lemma_count_to_renamed(g: Labels, min: u32, n: nat, id: RegionId, k: nat)
    requires
        ids_below(g, n),
        n < u32::MAX,
        id.0 < n,
        stays(g, min, id.0 as nat),
        k <= g.len(),
    ensures
        count_to(filtered(g, min), renamed(g, min, id), k) == count_to(g, id, k),
    decreases k,
{
    if k > 0 {
        lemma_count_to_renamed(g, min, n, id, (k - 1) as nat);
        lemma_count_in_renamed(g, min, n, k - 1, id, g[k - 1].len());
    }
}

proof fn lemma_rank_hit(g: Labels, min: u32, n: nat, k: nat) -> (id: nat)
    requires
        k < rank(g, min, n),
    ensures
        id < n,
        stays(g, min, id),
        rank(g, min, id) == k,
    decreases n,
{
    let m = (n - 1) as nat;
    if k < rank(g, min, m) {
        lemma_rank_hit(g, min, m, k)
    } else {
        m
    }
}

/// Every region has at least the least number of surfaces asked for.
pub proof fn regions_are_large_enough(chf: CompactHeightfield, config: WatershedConfig, k: nat)
    requires
        chf.wf(),
        entry_count(chf.columns@, chf.columns@.len()) < u32::MAX,
        k < regions_of(chf, config).1,
    ensures
        count_of(regions_of(chf, config).0, RegionId(k as u32)) >= config.min_region_cells,
{
    lemma_raw(chf, config.max_layer_step);
    let (g, n) = raw_regions(chf, config.max_layer_step);
    let min = config.min_region_cells;
    let id = lemma_rank_hit(g, min, n, k);
    lemma_rank_bound(g, min, n);
    lemma_count_to_renamed(g, min, n, RegionId(id as u32), g.len());
    assert(filtered(g, min).len() == g.len());
}

/// Whether the neighbor of a surface in direction `k` has its region, where
/// it is at nearly the same layer.
pub open spec fn agrees(
    chf: CompactHeightfield,
    g: Labels,
    cell: Cell,
    k: int,
    max_step: u32,
) -> bool {
    match chf.neighbor(cell.0, cell.1, cell.2, k) {
        None => true,
        Some(n) => layer_gap(layer_of(chf, cell), layer_of(chf, n)) <= max_step ==> label_of(
            chf,
            g,
            n,
        ) == label_of(chf, g, cell),
    }
}

/// Whether every surface with a region that is not queued, `busy` set aside,
/// agrees with its neighbors.
spec fn calm(
    chf: CompactHeightfield,
    g: Labels,
    queue: Seq<Cell>,
    busy: Option<Cell>,
    max_step: u32,
) -> bool {
    forall|cell: Cell, k: int|
        cell_in(chf, cell) && label_of(chf, g, cell) != no_region() && !queue.contains(cell)
            && busy != Some(cell) && 0 <= k < 4 ==> #[trigger] agrees(chf, g, cell, k, max_step)
}

spec fn queue_of(chf: CompactHeightfield, g: Labels, queue: Seq<Cell>, id: RegionId) -> bool {
    forall|j: int|
        0 <= j < queue.len() ==> cell_in(chf, #[trigger] queue[j]) && label_of(chf, g, queue[j])
            == id
}

proof fn lemma_flat(chf: CompactHeightfield, cell: Cell, k: int)
    requires
        chf.wf(),
        single_storey(chf),
        cell_in(chf, cell),
        0 <= k < 4,
    ensures
        cell.2 == 0,
        chf.neighbor(cell.0, cell.1, cell.2, k) matches Some(n) ==> {
            &&& cell_in(chf, n)
            &&& n.2 == 0
            &&& chf.surfaces(n.0, n.1).len() == 1
            &&& chf.neighbor(n.0, n.1, n.2, (k + 2) % 4) == Some(cell)
        },
{
    assert(chf.surfaces(cell.0, cell.1).len() <= 1);
    if let Some(n) = chf.neighbor(cell.0, cell.1, cell.2, k) {
        assert(chf.link_fits(
            cell.0,
            cell.1,
            k,
            chf.surfaces(cell.0, cell.1)[cell.2 as int].neighbors[k],
        ));
        assert(chf.surfaces(n.0, n.1).len() <= 1);
        assert(chf.neighbor(cell.0, cell.1, 0, k) == Some((n.0, n.1, 0u32)));
    }
}

/// A label given to a surface without one upsets no surface that agreed.
proof fn lemma_still_calm(
    chf: CompactHeightfield,
    g: Labels,
    queue: Seq<Cell>,
    busy: Option<Cell>,
    n: Cell,
    id: RegionId,
    max_step: u32,
)
    requires
        chf.wf(),
        shaped(chf, g),
        cell_in(chf, n),
        label_of(chf, g, n) == no_region(),
        id != no_region(),
        calm(chf, g, queue, busy, max_step),
    ensures
        calm(chf, labelled(g, place(chf, n), n.2 as int, id), queue.push(n), busy, max_step),
{
    let h = labelled(g, place(chf, n), n.2 as int, id);
    let q = queue.push(n);
    assert(q[queue.len() as int] == n);
    assert forall|cell: Cell, k: int|
        cell_in(chf, cell) && label_of(chf, h, cell) != no_region() && !q.contains(cell) && busy
            != Some(cell) && 0 <= k < 4 implies #[trigger] agrees(chf, h, cell, k, max_step) by {
        assert(cell != n);
        lemma_cell_place(chf, g, cell);
        lemma_cell_place(chf, g, n);
        if place(chf, cell) == place(chf, n) && cell.2 == n.2 {
            crate::walkability::columns_are_apart(
                chf.cols as int,
                cell.0 as int,
                cell.1 as int,
                n.0 as int,
                n.1 as int,
            );
        }
        assert(label_of(chf, h, cell) == label_of(chf, g, cell));
        assert(!queue.contains(cell)) by {
            if queue.contains(cell) {
                let j = queue.index_of(cell);
                assert(q[j] == cell);
            }
        }
        assert(agrees(chf, g, cell, k, max_step));
        if let Some(m) = chf.neighbor(cell.0, cell.1, cell.2, k) {
            assert(chf.link_fits(
                cell.0,
                cell.1,
                k,
                chf.surfaces(cell.0, cell.1)[cell.2 as int].neighbors[k],
            ));
            lemma_cell_place(chf, g, m);
            if layer_gap(layer_of(chf, cell), layer_of(chf, m)) <= max_step {
                assert(label_of(chf, g, m) != no_region());
                assert(label_of(chf, h, m) == label_of(chf, g, m));
            }
        }
    }
}

proof fn lemma_spread_calm(
    chf: CompactHeightfield,
    g: Labels,
    queue: Seq<Cell>,
    cell: Cell,
    k: int,
    max_step: u32,
    n: nat,
)
    requires
        chf.wf(),
        single_storey(chf),
        tidy(chf, g, n),
        0 <= k <= 4,
        cell_in(chf, cell),
        label_of(chf, g, cell) != no_region(),
        queue_of(chf, g, queue, label_of(chf, g, cell)),
        calm(chf, g, queue, Some(cell), max_step),
        forall|j: int| 0 <= j < k ==> #[trigger] agrees(chf, g, cell, j, max_step),
    ensures
        ({
            let (h, q) = spread(chf, g, queue, cell, k, max_step);
            &&& calm(chf, h, q, None, max_step)
            &&& queue_of(chf, h, q, label_of(chf, g, cell))
        }),
    decreases 4 - k,
{
    let id = label_of(chf, g, cell);
    if k < 4 {
        lemma_flat(chf, cell, k);
        match joining(chf, g, cell, k, max_step) {
            None => {
                if let Some(m) = chf.neighbor(cell.0, cell.1, cell.2, k) {
                    lemma_cell_place(chf, g, m);
                    let there = g[place(chf, m)];
                    if there.contains(id) {
                        assert(there[there.index_of(id)] == id);
                    }
                    if label_of(chf, g, m) != no_region() {
                        if queue.contains(m) {
                            assert(queue[queue.index_of(m)] == m);
                        } else if m != cell {
                            assert(agrees(chf, g, m, (k + 2) % 4, max_step));
                        }
                    }
                }
                assert(agrees(chf, g, cell, k, max_step));
                lemma_spread_calm(chf, g, queue, cell, k + 1, max_step, n);
            },
            Some(m) => {
                lemma_joined(chf, g, cell, k, max_step, n);
                lemma_still_calm(chf, g, queue, Some(cell), m, id, max_step);
                let h = labelled(g, place(chf, m), m.2 as int, id);
                lemma_cell_place(chf, g, cell);
                assert(g[place(chf, cell)][cell.2 as int] != no_region());
                assert(label_of(chf, h, cell) == id);
                assert forall|j: int| 0 <= j < k + 1 implies #[trigger] agrees(
                    chf,
                    h,
                    cell,
                    j,
                    max_step,
                ) by {
                    lemma_flat(chf, cell, j);
                    if j < k {
                        assert(agrees(chf, g, cell, j, max_step));
                        if let Some(o) = chf.neighbor(cell.0, cell.1, cell.2, j) {
                            lemma_cell_place(chf, g, o);
                            if layer_gap(layer_of(chf, cell), layer_of(chf, o)) <= max_step {
                                assert(g[place(chf, o)][o.2 as int] != no_region());
                            }
                        }
                    }
                }
                assert forall|j: int| 0 <= j < queue.push(m).len() implies cell_in(
                    chf,
                    #[trigger] queue.push(m)[j],
                ) && label_of(chf, h, queue.push(m)[j]) == id by {
                    if j < queue.len() {
                        assert(queue.push(m)[j] == queue[j]);
                        lemma_cell_place(chf, g, queue[j]);
                        assert(g[place(chf, queue[j])][queue[j].2 as int] != no_region());
                    }
                }
                lemma_spread_calm(chf, h, queue.push(m), cell, k + 1, max_step, n);
            },
        }
    } else {
        assert forall|x: Cell, j: int|
            cell_in(chf, x) && label_of(chf, g, x) != no_region() && !queue.contains(x) && 0 <= j
                < 4 implies #[trigger] agrees(chf, g, x, j, max_step) by {
            if x != cell {
                assert(Some(cell) != Some(x));
            }
        }
    }
}

proof fn lemma_flooded_calm(
    chf: CompactHeightfield,
    g: Labels,
    queue: Seq<Cell>,
    max_step: u32,
    fuel: nat,
    n: nat,
    id: RegionId,
)
    requires
        chf.wf(),
        single_storey(chf),
        tidy(chf, g, n),
        id != no_region(),
        queue_of(chf, g, queue, id),
        calm(chf, g, queue, None, max_step),
        vacancies(g) + queue.len() <= fuel,
    ensures
        calm(chf, flooded(chf, g, queue, max_step, fuel), Seq::empty(), None, max_step),
    decreases fuel,
{
    if queue.len() == 0 {
        assert(queue =~= Seq::empty());
    } else {
        let cell = queue[0];
        let rest = queue.drop_first();
        assert(cell_in(chf, queue[0]));
        assert forall|j: int| 0 <= j < rest.len() implies cell_in(chf, #[trigger] rest[j])
            && label_of(chf, g, rest[j]) == id by {
            assert(rest[j] == queue[j + 1]);
        }
        assert forall|x: Cell, j: int|
            cell_in(chf, x) && label_of(chf, g, x) != no_region() && !rest.contains(x) && Some(cell)
                != Some(x) && 0 <= j < 4 implies #[trigger] agrees(chf, g, x, j, max_step) by {
            if queue.contains(x) {
                let a = queue.index_of(x);
                assert(a > 0);
                assert(rest[a - 1] == x);
            }
        }
        lemma_spread(chf, g, rest, cell, 0, max_step, n);
        lemma_spread_calm(chf, g, rest, cell, 0, max_step, n);
        let (h, q) = spread(chf, g, rest, cell, 0, max_step);
        lemma_flooded_calm(chf, h, q, max_step, (fuel - 1) as nat, n, id);
    }
}

proof fn lemma_seeded_calm(
    chf: CompactHeightfield,
    g: Labels,
    next: nat,
    i: int,
    s: int,
    max_step: u32,
)
    requires
        chf.wf(),
        single_storey(chf),
        tidy(chf, g, next),
        next + vacancies(g) <= entry_count(chf.columns@, chf.columns@.len()),
        entry_count(chf.columns@, chf.columns@.len()) < u32::MAX,
        0 <= i,
        0 <= s,
        calm(chf, g, Seq::empty(), None, max_step),
    ensures
        calm(chf, seeded(chf, g, next, i, s, max_step).0, Seq::empty(), None, max_step),
    decreases chf.columns@.len() - i, chf.columns@[i]@.len() - s,
{
    if i >= chf.columns@.len() {
    } else if s >= chf.columns@[i]@.len() {
        lemma_seeded_calm(chf, g, next, i + 1, 0, max_step);
    } else if g[i][s] != no_region() {
        lemma_seeded_calm(chf, g, next, i, s + 1, max_step);
    } else {
        lemma_seed(chf, g, i, s, next);
        let cell = cell_of(chf, i, s);
        let id = RegionId(next as u32);
        let g1 = labelled(g, i, s, id);
        let total = entry_count(chf.columns@, chf.columns@.len());
        let queue = seq![cell];
        lemma_still_calm(chf, g, Seq::empty(), None, cell, id, max_step);
        assert(Seq::empty().push(cell) =~= queue);
        assert(queue_fits(chf, g1, queue));
        lemma_flooded(chf, g1, queue, max_step, total, next + 1);
        lemma_flooded_calm(chf, g1, queue, max_step, total, next + 1, id);
        let g2 = flooded(chf, g1, queue, max_step, total);
        lemma_seeded_calm(chf, g2, next + 1, i, s + 1, max_step);
    }
}

/// Where every column has at most one surface, linked surfaces at nearly the
/// same layer are in the same region.
pub proof fn level_neighbors_share_a_region(
    chf: CompactHeightfield,
    config: WatershedConfig,
    cell: Cell,
    k: int,
    n: Cell,
)
    requires
        chf.wf(),
        single_storey(chf),
        entry_count(chf.columns@, chf.columns@.len()) < u32::MAX,
        0 <= k < 4,
        chf.neighbor(cell.0, cell.1, cell.2, k) == Some(n),
        layer_gap(layer_of(chf, cell), layer_of(chf, n)) <= config.max_layer_step,
    ensures
        label_of(chf, regions_of(chf, config).0, cell) == label_of(
            chf,
            regions_of(chf, config).0,
            n,
        ),
{
    let max_step = config.max_layer_step;
    let empty = unlabelled(chf);
    lemma_unlabelled(chf);
    lemma_count_bound(chf, empty, no_region(), empty.len());
    assert(calm(chf, empty, Seq::empty(), None, max_step)) by {
        assert forall|x: Cell, j: int|
            cell_in(chf, x) && label_of(chf, empty, x) != no_region() && 0 <= j
                < 4 implies #[trigger] agrees(chf, empty, x, j, max_step) by {
            lemma_cell_place(chf, empty, x);
        }
    }
    lemma_seeded_calm(chf, empty, 0, 0, 0, max_step);
    lemma_raw(chf, max_step);
    let (g, m) = raw_regions(chf, max_step);
    assert(cell_in(chf, cell));
    lemma_flat(chf, cell, k);
    lemma_cell_place(chf, g, cell);
    lemma_cell_place(chf, g, n);
    assert(g[place(chf, cell)][cell.2 as int] != no_region());
    assert(agrees(chf, g, cell, k, max_step));
}

// --- Order and connection ---------------------------------------------------

/// Whether place (`i`, `s`) comes before place (`j`, `t`), row by row.
pub open spec fn comes_before(a: (int, int), b: (int, int)) -> bool {
    a.0 < b.0 || (a.0 == b.0 && a.1 < b.1)
}

/// Whether there is a surface at place (`i`, `s`).
pub open spec fn has_place(g: Labels, a: (int, int)) -> bool {
    0 <= a.0 < g.len() && 0 <= a.1 < g[a.0].len()
}

/// Whether a surface links to another at nearly the same layer.
pub open spec fn steps_to(chf: CompactHeightfield, max_step: u32, a: Cell, b: Cell) -> bool {
    &&& exists|k: int| 0 <= k < 4 && #[trigger] chf.neighbor(a.0, a.1, a.2, k) == Some(b)
    &&& layer_gap(layer_of(chf, a), layer_of(chf, b)) <= max_step
}

/// Whether a list of surfaces with the id `id` goes from each to the next by
/// small steps.
pub open spec fn is_walk(
    chf: CompactHeightfield,
    g: Labels,
    max_step: u32,
    id: RegionId,
    walk: Seq<Cell>,
) -> bool {
    &&& walk.len() > 0
    &&& forall|i: int|
        0 <= i < walk.len() ==> cell_in(chf, #[trigger] walk[i]) && label_of(chf, g, walk[i]) == id
    &&& forall|i: int|
        0 <= i < walk.len() - 1 ==> steps_to(chf, max_step, #[trigger] walk[i], walk[i + 1])
}

/// Whether a walk through the surfaces with the id `id` leads from `a` to `b`.
pub open spec fn walks_to(
    chf: CompactHeightfield,
    g: Labels,
    max_step: u32,
    id: RegionId,
    a: Cell,
    b: Cell,
) -> bool {
    exists|walk: Seq<Cell>| #[trigger]
        is_walk(chf, g, max_step, id, walk) && walk[0] == a && walk.last() == b
}

/// Whether a walk leads from `seed` to every surface with the id `id`.
pub open spec fn is_grown(
    chf: CompactHeightfield,
    g: Labels,
    max_step: u32,
    id: RegionId,
    seed: Cell,
) -> bool {
    forall|cell: Cell| #[trigger]
        cell_in(chf, cell) && label_of(chf, g, cell) == id ==> walks_to(
            chf,
            g,
            max_step,
            id,
            seed,
            cell,
        )
}

/// Whether the only change from `g` to `h` is that surfaces without a region
/// got the id `id`.
spec fn only_adds(g: Labels, h: Labels, id: RegionId) -> bool {
    &&& h.len() == g.len()
    &&& forall|a: (int, int)|
        #![trigger has_place(g, a)]
        has_place(g, a) ==> has_place(h, a) && (h[a.0][a.1] == g[a.0][a.1] || (g[a.0][a.1]
            == no_region() && h[a.0][a.1] == id))
    &&& forall|i: int| 0 <= i < g.len() ==> (#[trigger] h[i]).len() == g[i].len()
}

/// Whether every surface in a queue has the id `id`.
spec fn all_of(chf: CompactHeightfield, g: Labels, queue: Seq<Cell>, id: RegionId) -> bool {
    forall|j: int|
        0 <= j < queue.len() ==> cell_in(chf, #[trigger] queue[j]) && label_of(chf, g, queue[j])
            == id
}

proof fn lemma_label_lasts(chf: CompactHeightfield, g: Labels, h: Labels, id: RegionId, cell: Cell)
    requires
        chf.wf(),
        shaped(chf, g),
        only_adds(g, h, id),
        cell_in(chf, cell),
    ensures
        label_of(chf, g, cell) != no_region() ==> label_of(chf, h, cell) == label_of(chf, g, cell),
        label_of(chf, h, cell) != id ==> label_of(chf, h, cell) == label_of(chf, g, cell),
{
    lemma_cell_place(chf, g, cell);
    assert(has_place(g, (place(chf, cell), cell.2 as int)));
}

proof fn lemma_walk_lasts(
    chf: CompactHeightfield,
    g: Labels,
    h: Labels,
    max_step: u32,
    new: RegionId,
    id: RegionId,
    a: Cell,
    b: Cell,
)
    requires
        chf.wf(),
        shaped(chf, g),
        only_adds(g, h, new),
        id != no_region(),
        walks_to(chf, g, max_step, id, a, b),
    ensures
        walks_to(chf, h, max_step, id, a, b),
{
    let walk = choose|walk: Seq<Cell>| #[trigger]
        is_walk(chf, g, max_step, id, walk) && walk[0] == a && walk.last() == b;
    assert forall|i: int| 0 <= i < walk.len() implies cell_in(chf, #[trigger] walk[i]) && label_of(
        chf,
        h,
        walk[i],
    ) == id by {
        lemma_label_lasts(chf, g, h, new, walk[i]);
    }
    assert(is_walk(chf, h, max_step, id, walk));
}

proof fn lemma_spread_grown(
    chf: CompactHeightfield,
    g: Labels,
    queue: Seq<Cell>,
    cell: Cell,
    k: int,
    max_step: u32,
    n: nat,
    id: RegionId,
    seed: Cell,
)
    requires
        chf.wf(),
        tidy(chf, g, n),
        0 <= k,
        id != no_region(),
        cell_in(chf, cell),
        label_of(chf, g, cell) == id,
        all_of(chf, g, queue, id),
        is_grown(chf, g, max_step, id, seed),
    ensures
        ({
            let (h, q) = spread(chf, g, queue, cell, k, max_step);
            &&& tidy(chf, h, n)
            &&& only_adds(g, h, id)
            &&& all_of(chf, h, q, id)
            &&& is_grown(chf, h, max_step, id, seed)
        }),
    decreases 4 - k,
{
    if k < 4 {
        match joining(chf, g, cell, k, max_step) {
            None => {
                lemma_spread_grown(chf, g, queue, cell, k + 1, max_step, n, id, seed);
            },
            Some(m) => {
                lemma_joined(chf, g, cell, k, max_step, n);
                let h = labelled(g, place(chf, m), m.2 as int, id);
                lemma_cell_place(chf, g, cell);
                lemma_cell_place(chf, g, m);
                assert(only_adds(g, h, id));
                lemma_label_lasts(chf, g, h, id, cell);
                assert forall|j: int| 0 <= j < queue.push(m).len() implies cell_in(
                    chf,
                    #[trigger] queue.push(m)[j],
                ) && label_of(chf, h, queue.push(m)[j]) == id by {
                    if j < queue.len() {
                        assert(queue.push(m)[j] == queue[j]);
                        lemma_label_lasts(chf, g, h, id, queue[j]);
                    }
                }
                assert forall|c: Cell| #[trigger]
                    cell_in(chf, c) && label_of(chf, h, c) == id implies walks_to(
                    chf,
                    h,
                    max_step,
                    id,
                    seed,
                    c,
                ) by {
                    lemma_cell_place(chf, g, c);
                    lemma_walk_lasts(chf, g, h, max_step, id, id, seed, cell);
                    if place(chf, c) == place(chf, m) && c.2 == m.2 {
                        lemma_same_place(chf, c, m);
                        let walk = choose|walk: Seq<Cell>| #[trigger]
                            is_walk(chf, h, max_step, id, walk) && walk[0] == seed && walk.last()
                                == cell;
                        let longer = walk.push(m);
                        assert(chf.neighbor(cell.0, cell.1, cell.2, k) == Some(m));
                        assert(steps_to(chf, max_step, cell, m));
                        assert forall|i: int| 0 <= i < longer.len() - 1 implies steps_to(
                            chf,
                            max_step,
                            #[trigger] longer[i],
                            longer[i + 1],
                        ) by {
                            if i < walk.len() - 1 {
                                assert(steps_to(chf, max_step, walk[i], walk[i + 1]));
                            } else {
                                assert(longer[i] == walk.last());
                            }
                        }
                        assert(is_walk(chf, h, max_step, id, longer));
                    } else {
                        assert(label_of(chf, g, c) == id);
                        lemma_walk_lasts(chf, g, h, max_step, id, id, seed, c);
                    }
                }
                lemma_spread_grown(chf, h, queue.push(m), cell, k + 1, max_step, n, id, seed);
                let (h2, _) = spread(chf, h, queue.push(m), cell, k + 1, max_step);
                lemma_adds_goes_on(g, h, h2, id);
            },
        }
    }
}

proof fn lemma_same_place(chf: CompactHeightfield, a: Cell, b: Cell)
    requires
        chf.wf(),
        cell_in(chf, a),
        cell_in(chf, b),
        place(chf, a) == place(chf, b),
        a.2 == b.2,
    ensures
        a == b,
{
    crate::walkability::columns_are_apart(
        chf.cols as int,
        a.0 as int,
        a.1 as int,
        b.0 as int,
        b.1 as int,
    );
}

proof fn lemma_adds_goes_on(g: Labels, h: Labels, x: Labels, id: RegionId)
    requires
        only_adds(g, h, id),
        only_adds(h, x, id),
    ensures
        only_adds(g, x, id),
{
    assert forall|a: (int, int)| #![trigger has_place(g, a)] has_place(g, a) implies has_place(x, a)
        && (x[a.0][a.1] == g[a.0][a.1] || (g[a.0][a.1] == no_region() && x[a.0][a.1] == id)) by {
        assert(has_place(h, a));
    }
    assert forall|i: int| 0 <= i < g.len() implies (#[trigger] x[i]).len() == g[i].len() by {
        assert(h[i].len() == g[i].len());
    }
}

proof fn lemma_flooded_grown(
    chf: CompactHeightfield,
    g: Labels,
    queue: Seq<Cell>,
    max_step: u32,
    fuel: nat,
    n: nat,
    id: RegionId,
    seed: Cell,
)
    requires
        chf.wf(),
        tidy(chf, g, n),
        id != no_region(),
        all_of(chf, g, queue, id),
        is_grown(chf, g, max_step, id, seed),
    ensures
        ({
            let h = flooded(chf, g, queue, max_step, fuel);
            &&& only_adds(g, h, id)
            &&& is_grown(chf, h, max_step, id, seed)
        }),
    decreases fuel,
{
    if queue.len() > 0 && fuel > 0 {
        let rest = queue.drop_first();
        assert(cell_in(chf, queue[0]));
        assert forall|j: int| 0 <= j < rest.len() implies cell_in(chf, #[trigger] rest[j])
            && label_of(chf, g, rest[j]) == id by {
            assert(rest[j] == queue[j + 1]);
        }
        lemma_spread_grown(chf, g, rest, queue[0], 0, max_step, n, id, seed);
        let (h, q) = spread(chf, g, rest, queue[0], 0, max_step);
        lemma_flooded_grown(chf, h, q, max_step, (fuel - 1) as nat, n, id, seed);
        lemma_adds_goes_on(g, h, flooded(chf, h, q, max_step, (fuel - 1) as nat), id);
    }
}

/// Whether `seeds` are the first places of the regions, in order: a walk leads
/// from each to all surfaces of its region, and none of these comes before it.
pub open spec fn is_sown(
    chf: CompactHeightfield,
    g: Labels,
    max_step: u32,
    seeds: Seq<(int, int)>,
) -> bool {
    &&& forall|a: int|
        0 <= a < seeds.len() ==> has_place(g, #[trigger] seeds[a]) && g[seeds[a].0][seeds[a].1]
            == RegionId(a as u32) && is_grown(
            chf,
            g,
            max_step,
            RegionId(a as u32),
            cell_of(chf, seeds[a].0, seeds[a].1),
        )
    &&& forall|a: int, b: int|
        0 <= a < b < seeds.len() ==> comes_before(#[trigger] seeds[a], #[trigger] seeds[b])
    &&& forall|p: (int, int)| #[trigger]
        has_place(g, p) && g[p.0][p.1] != no_region() ==> g[p.0][p.1].0 < seeds.len()
            && !comes_before(p, seeds[g[p.0][p.1].0 as int])
}

proof fn lemma_seeded_sown(
    chf: CompactHeightfield,
    g: Labels,
    next: nat,
    i: int,
    s: int,
    max_step: u32,
    seeds: Seq<(int, int)>,
) -> (all: Seq<(int, int)>)
    requires
        chf.wf(),
        tidy(chf, g, next),
        next + vacancies(g) < u32::MAX,
        0 <= i,
        0 <= s,
        labelled_before(g, i, s),
        seeds.len() == next,
        is_sown(chf, g, max_step, seeds),
        forall|a: int| 0 <= a < seeds.len() ==> comes_before(#[trigger] seeds[a], (i, s)),
    ensures
        ({
            let (h, n) = seeded(chf, g, next, i, s, max_step);
            is_sown(chf, h, max_step, all) && all.len() == n
        }),
    decreases chf.columns@.len() - i, chf.columns@[i]@.len() - s,
{
    if i >= chf.columns@.len() {
        seeds
    } else if s >= chf.columns@[i]@.len() {
        lemma_seeded_sown(chf, g, next, i + 1, 0, max_step, seeds)
    } else if g[i][s] != no_region() {
        lemma_seeded_sown(chf, g, next, i, s + 1, max_step, seeds)
    } else {
        lemma_seed(chf, g, i, s, next);
        let id = RegionId(next as u32);
        let seed = cell_of(chf, i, s);
        let g1 = labelled(g, i, s, id);
        let total = entry_count(chf.columns@, chf.columns@.len());
        let queue = seq![seed];
        assert(queue_fits(chf, g1, queue));
        lemma_flooded(chf, g1, queue, max_step, total, next + 1);
        let g2 = flooded(chf, g1, queue, max_step, total);
        assert(only_adds(g, g1, id));
        assert(is_grown(chf, g1, max_step, id, seed)) by {
            assert forall|c: Cell| #[trigger]
                cell_in(chf, c) && label_of(chf, g1, c) == id implies walks_to(
                chf,
                g1,
                max_step,
                id,
                seed,
                c,
            ) by {
                lemma_cell_place(chf, g, c);
                let p = (place(chf, c), c.2 as int);
                assert(has_place(g, p));
                if p == (i, s) {
                    lemma_same_place(chf, c, seed);
                    assert(is_walk(chf, g1, max_step, id, seq![seed]));
                } else {
                    assert(g[p.0][p.1] == id);
                }
            }
        }
        lemma_flooded_grown(chf, g1, queue, max_step, total, next + 1, id, seed);
        lemma_adds_goes_on(g, g1, g2, id);
        let more = seeds.push((i, s));
        assert(is_sown(chf, g2, max_step, more)) by {
            assert forall|a: int| 0 <= a < more.len() implies has_place(g2, #[trigger] more[a])
                && g2[more[a].0][more[a].1] == RegionId(a as u32) && is_grown(
                chf,
                g2,
                max_step,
                RegionId(a as u32),
                cell_of(chf, more[a].0, more[a].1),
            ) by {
                if a < seeds.len() {
                    assert(more[a] == seeds[a]);
                    assert(has_place(g, seeds[a]));
                    let old_id = RegionId(a as u32);
                    let old_seed = cell_of(chf, seeds[a].0, seeds[a].1);
                    assert forall|c: Cell| #[trigger]
                        cell_in(chf, c) && label_of(chf, g2, c) == old_id implies walks_to(
                        chf,
                        g2,
                        max_step,
                        old_id,
                        old_seed,
                        c,
                    ) by {
                        lemma_label_lasts(chf, g, g2, id, c);
                        lemma_walk_lasts(chf, g, g2, max_step, id, old_id, old_seed, c);
                    }
                } else {
                    assert(has_place(g1, (i, s)));
                }
            }
            assert forall|p: (int, int)| #[trigger]
                has_place(g2, p) && g2[p.0][p.1] != no_region() implies g2[p.0][p.1].0 < more.len()
                && !comes_before(p, more[g2[p.0][p.1].0 as int]) by {
                assert(g2[p.0].len() == g[p.0].len());
                assert(has_place(g, p));
                if g[p.0][p.1] == no_region() {
                    assert(g2[p.0][p.1] == id);
                } else {
                    assert(more[g[p.0][p.1].0 as int] == seeds[g[p.0][p.1].0 as int]);
                }
            }
        }
        assert forall|j: int, t: int|
            0 <= j < g2.len() && 0 <= t < g2[j].len() && (j < i || (j == i && t < s + 1))
            implies #[trigger] g2[j][t] != no_region() by {
            assert(g2[j].len() == g[j].len());
            assert(has_place(g, (j, t)) && has_place(g1, (j, t)));
            if j == i && t == s {
                assert(g1[j][t] != no_region());
            } else {
                assert(g[j][t] != no_region());
            }
        }
        lemma_seeded_sown(chf, g2, next + 1, i, s + 1, max_step, more)
    }
}

/// The id that the `k`-th region that stays had before.
spec fn kept_id(g: Labels, min: u32, n: nat, k: int) -> nat {
    choose|id: nat| id < n && stays(g, min, id) && #[trigger] rank(g, min, id) == k
}

proof fn lemma_kept_id(g: Labels, min: u32, n: nat, k: int)
    requires
        0 <= k < rank(g, min, n),
    ensures
        kept_id(g, min, n, k) < n,
        stays(g, min, kept_id(g, min, n, k)),
        rank(g, min, kept_id(g, min, n, k)) == k,
{
    let hit = lemma_rank_hit(g, min, n, k as nat);
    assert(rank(g, min, hit) == k);
}

/// Regions are connected and numbered in the order of their first surfaces,
/// row by row: each has a first surface from which walks by small steps, all
/// within the region, lead to its other surfaces.
pub proof fn regions_grow_from_their_first_surface(
    chf: CompactHeightfield,
    config: WatershedConfig,
) -> (kept: Seq<(int, int)>)
    requires
        chf.wf(),
        entry_count(chf.columns@, chf.columns@.len()) < u32::MAX,
    ensures
        kept.len() == regions_of(chf, config).1,
        is_sown(chf, regions_of(chf, config).0, config.max_layer_step, kept),
{
    let max_step = config.max_layer_step;
    let min = config.min_region_cells;
    lemma_raw(chf, max_step);
    lemma_unlabelled(chf);
    lemma_count_bound(chf, unlabelled(chf), no_region(), unlabelled(chf).len());
    assert(is_sown(chf, unlabelled(chf), max_step, Seq::empty())) by {
        let g = unlabelled(chf);
        assert forall|p: (int, int)| #[trigger] has_place(g, p) implies g[p.0][p.1]
            == no_region() by {}
    }
    let seeds = lemma_seeded_sown(chf, unlabelled(chf), 0, 0, 0, max_step, Seq::empty());
    let (g, n) = raw_regions(chf, max_step);
    let h = filtered(g, min);
    let kept = Seq::new(rank(g, min, n), |k: int| seeds[kept_id(g, min, n, k) as int]);
    assert forall|k: int| 0 <= k < kept.len() implies has_place(h, #[trigger] kept[k])
        && h[kept[k].0][kept[k].1] == RegionId(k as u32) && is_grown(
        chf,
        h,
        max_step,
        RegionId(k as u32),
        cell_of(chf, kept[k].0, kept[k].1),
    ) by {
        lemma_kept_id(g, min, n, k);
        let id = kept_id(g, min, n, k) as int;
        assert(has_place(g, seeds[id]));
        let old_id = RegionId(id as u32);
        assert(renamed(g, min, old_id) == RegionId(k as u32));
        let seed = cell_of(chf, kept[k].0, kept[k].1);
        assert forall|c: Cell| #[trigger]
            cell_in(chf, c) && label_of(chf, h, c) == RegionId(k as u32) implies walks_to(
            chf,
            h,
            max_step,
            RegionId(k as u32),
            seed,
            c,
        ) by {
            lemma_cell_place(chf, g, c);
            let was = g[place(chf, c)][c.2 as int];
            assert(was.0 < n || was == no_region());
            lemma_rank_bound(g, min, n);
            lemma_renaming(g, min, n, was, old_id);
            let walk = choose|walk: Seq<Cell>| #[trigger]
                is_walk(chf, g, max_step, old_id, walk) && walk[0] == seed && walk.last() == c;
            assert(walks_to(chf, g, max_step, old_id, seed, c));
            assert forall|j: int| 0 <= j < walk.len() implies cell_in(chf, #[trigger] walk[j])
                && label_of(chf, h, walk[j]) == RegionId(k as u32) by {
                lemma_cell_place(chf, g, walk[j]);
            }
            assert(is_walk(chf, h, max_step, RegionId(k as u32), walk));
        }
    }
    assert forall|a: int, b: int| 0 <= a < b < kept.len() implies comes_before(
        #[trigger] kept[a],
        #[trigger] kept[b],
    ) by {
        lemma_kept_id(g, min, n, a);
        let x = kept_id(g, min, n, a) as int;
        lemma_kept_id(g, min, n, b);
        let y = kept_id(g, min, n, b) as int;
        if y <= x {
            lemma_rank_grows(g, min, y as nat, x as nat);
        }
    }
    assert forall|p: (int, int)| #[trigger]
        has_place(h, p) && h[p.0][p.1] != no_region() implies h[p.0][p.1].0 < kept.len()
        && !comes_before(p, kept[h[p.0][p.1].0 as int]) by {
        assert(has_place(g, p));
        let was = g[p.0][p.1];
        assert(was.0 < n || was == no_region());
        lemma_renaming(g, min, n, was, was);
        let k = h[p.0][p.1].0 as int;
        lemma_kept_id(g, min, n, k);
        let id = kept_id(g, min, n, k) as int;
        lemma_rank_bound(g, min, was.0 as nat);
        if id < was.0 {
            lemma_rank_grows(g, min, id as nat, was.0 as nat);
        } else if was.0 < id {
            lemma_rank_grows(g, min, was.0 as nat, id as nat);
        }
    }
    kept
}

// --- Which surfaces have a region -------------------------------------------

/// Counting an id: a list or a column more adds its occurrences.
pub proof fn counts_grow_with_lists(g: Labels, list: Seq<RegionId>, last: RegionId, id: RegionId)
    ensures
        count_of(Seq::empty(), id) == 0,
        count_in(Seq::empty(), id, 0) == 0,
        count_of(g.push(list), id) == count_of(g, id) + count_in(list, id, list.len()),
        count_in(list.push(last), id, list.len() + 1) == count_in(list, id, list.len()) + if last
            == id {
            1nat
        } else {
            0
        },
{
    lemma_count_to_prefix(g, list, id, g.len());
    lemma_count_in_prefix(list, last, id, list.len());
}

proof fn lemma_count_to_prefix(g: Labels, list: Seq<RegionId>, id: RegionId, n: nat)
    requires
        n <= g.len(),
    ensures
        count_to(g.push(list), id, n) == count_to(g, id, n),
    decreases n,
{
    if n > 0 {
        lemma_count_to_prefix(g, list, id, (n - 1) as nat);
    }
}

proof fn lemma_count_in_prefix(list: Seq<RegionId>, last: RegionId, id: RegionId, n: nat)
    requires
        n <= list.len(),
    ensures
        count_in(list.push(last), id, n) == count_in(list, id, n),
    decreases n,
{
    if n > 0 {
        lemma_count_in_prefix(list, last, id, (n - 1) as nat);
    }
}

/// The regions of a field when none is too small.
pub open spec fn all_regions_of(chf: CompactHeightfield, config: WatershedConfig) -> Labels {
    regions_of(chf, WatershedConfig { min_region_cells: 0, ..config }).0
}

/// Every surface has a region when none is too small. With a least number of
/// surfaces asked for, the regions that have as many stay as they are, numbered in
/// the same order, and the surfaces of the others have none.
pub proof fn only_small_regions_are_dropped(
    chf: CompactHeightfield,
    config: WatershedConfig,
    p: (int, int),
    q: (int, int),
)
    requires
        chf.wf(),
        entry_count(chf.columns@, chf.columns@.len()) < u32::MAX,
        0 <= p.0 < chf.columns@.len() && 0 <= p.1 < chf.columns@[p.0]@.len(),
        0 <= q.0 < chf.columns@.len() && 0 <= q.1 < chf.columns@[q.0]@.len(),
    ensures
        ({
            let (all, some) = (all_regions_of(chf, config), regions_of(chf, config).0);
            let (a, b) = (all[p.0][p.1], all[q.0][q.1]);
            let (x, y) = (some[p.0][p.1], some[q.0][q.1]);
            &&& a != no_region()
            &&& x != no_region() <==> count_of(all, a) >= config.min_region_cells
            &&& x != no_region() && y != no_region() ==> (a == b <==> x == y) && (a.0 < b.0
                <==> x.0 < y.0)
        }),
{
    let step = config.max_layer_step;
    lemma_raw(chf, step);
    let (g, n) = raw_regions(chf, step);
    let min = config.min_region_cells;
    lemma_nothing_dropped(g, n);
    assert(labelled_before(g, g.len() as int, 0));
    assert(g[p.0][p.1] != no_region() && g[q.0][q.1] != no_region());
    let (a, b) = (g[p.0][p.1], g[q.0][q.1]);
    assert(a.0 < n && b.0 < n);
    assert(filtered(g, 0) =~= g);
    lemma_rank_bound(g, min, a.0 as nat);
    lemma_rank_bound(g, min, b.0 as nat);
    if a.0 < b.0 {
        lemma_rank_grows(g, min, a.0 as nat, b.0 as nat);
    } else if b.0 < a.0 {
        lemma_rank_grows(g, min, b.0 as nat, a.0 as nat);
    }
}

proof fn lemma_nothing_dropped(g: Labels, n: nat)
    requires
        ids_below(g, n),
        n < u32::MAX,
    ensures
        filtered(g, 0) == g,
{
    assert forall|i: int, s: int| 0 <= i < g.len() && 0 <= s < g[i].len() implies renamed(
        g,
        0,
        g[i][s],
    ) == #[trigger] g[i][s] by {
        lemma_rank_all(g, g[i][s].0 as nat);
    }
    assert forall|i: int| 0 <= i < g.len() implies filtered(g, 0)[i] =~= #[trigger] g[i] by {}
    assert(filtered(g, 0) =~= g);
}

proof fn lemma_rank_all(g: Labels, n: nat)
    ensures
        rank(g, 0, n) == n,
    decreases n,
{
    if n > 0 {
        lemma_rank_all(g, (n - 1) as nat);
    }
}

/// Whether the neighbor of a surface in direction `k`, where it is at nearly the
/// same layer, is in its region, or beside another surface of its region in the
/// same column, or in a region with a lower id.
pub open spec fn is_joined_or_taken(
    chf: CompactHeightfield,
    g: Labels,
    cell: Cell,
    k: int,
    max_step: u32,
) -> bool {
    let id = label_of(chf, g, cell);
    match chf.neighbor(cell.0, cell.1, cell.2, k) {
        None => true,
        Some(n) => layer_gap(layer_of(chf, cell), layer_of(chf, n)) <= max_step ==> {
            ||| g[place(chf, n)].contains(id)
            ||| label_of(chf, g, n) != no_region() && label_of(chf, g, n).0 < id.0
        },
    }
}

proof fn lemma_link_in(chf: CompactHeightfield, cell: Cell, k: int)
    requires
        chf.wf(),
        cell_in(chf, cell),
        0 <= k < 4,
    ensures
        chf.neighbor(cell.0, cell.1, cell.2, k) matches Some(n) ==> cell_in(chf, n),
{
    assert(chf.link_fits(cell.0, cell.1, k, chf.surfaces(cell.0, cell.1)[cell.2 as int].neighbors[k]));
}

/// Labels that are kept keep what was joined or taken.
proof fn lemma_still_joined(
    chf: CompactHeightfield,
    g: Labels,
    h: Labels,
    cell: Cell,
    k: int,
    max_step: u32,
)
    requires
        chf.wf(),
        shaped(chf, g),
        shaped(chf, h),
        kept_labels(g, h),
        cell_in(chf, cell),
        0 <= k < 4,
        label_of(chf, g, cell) != no_region(),
        is_joined_or_taken(chf, g, cell, k, max_step),
    ensures
        is_joined_or_taken(chf, h, cell, k, max_step),
        label_of(chf, h, cell) == label_of(chf, g, cell),
{
    lemma_cell_place(chf, g, cell);
    assert(g[place(chf, cell)][cell.2 as int] != no_region());
    lemma_link_in(chf, cell, k);
    if let Some(n) = chf.neighbor(cell.0, cell.1, cell.2, k) {
        lemma_cell_place(chf, g, n);
        let id = label_of(chf, g, cell);
        let i = place(chf, n);
        if g[i].contains(id) {
            let s = g[i].index_of(id);
            assert(g[i][s] != no_region());
            assert(h[i].len() == chf.columns@[i]@.len() && g[i].len() == chf.columns@[i]@.len());
            assert(h[i][s] == id);
        }
        if label_of(chf, g, n) != no_region() {
            assert(g[i][n.2 as int] != no_region());
        }
    }
}

/// What passing a region on leaves behind.
proof fn lemma_spread_joins(
    chf: CompactHeightfield,
    g: Labels,
    queue: Seq<Cell>,
    cell: Cell,
    k: int,
    max_step: u32,
    n: nat,
)
    requires
        chf.wf(),
        tidy(chf, g, n),
        0 <= k <= 4,
        cell_in(chf, cell),
        label_of(chf, g, cell) != no_region(),
        label_of(chf, g, cell).0 + 1 == n,
        queue_fits(chf, g, queue),
    ensures
        ({
            let (h, q) = spread(chf, g, queue, cell, k, max_step);
            &&& forall|j: int|
                k <= j < 4 ==> #[trigger] is_joined_or_taken(chf, h, cell, j, max_step)
            &&& forall|x: Cell| #[trigger] queue.contains(x) ==> q.contains(x)
            &&& forall|x: Cell|
                cell_in(chf, x) && label_of(chf, g, x) == no_region() && #[trigger] label_of(
                    chf,
                    h,
                    x,
                ) != no_region() ==> q.contains(x)
            &&& forall|j: int|
                0 <= j < q.len() ==> queue.contains(#[trigger] q[j]) || label_of(chf, h, q[j])
                    == label_of(chf, g, cell)
        }),
    decreases 4 - k,
{
    let id = label_of(chf, g, cell);
    if k < 4 {
        lemma_link_in(chf, cell, k);
        lemma_cell_place(chf, g, cell);
        match joining(chf, g, cell, k, max_step) {
            None => {
                if let Some(m) = chf.neighbor(cell.0, cell.1, cell.2, k) {
                    lemma_cell_place(chf, g, m);
                    let there = label_of(chf, g, m);
                    assert(there == g[place(chf, m)][m.2 as int]);
                    assert(there.0 < n || there == no_region());
                    if there == id {
                        assert(g[place(chf, m)].contains(id));
                    }
                }
                assert(is_joined_or_taken(chf, g, cell, k, max_step));
                lemma_spread(chf, g, queue, cell, k + 1, max_step, n);
                lemma_spread_joins(chf, g, queue, cell, k + 1, max_step, n);
                let h = spread(chf, g, queue, cell, k + 1, max_step).0;
                lemma_still_joined(chf, g, h, cell, k, max_step);
            },
            Some(m) => {
                lemma_joined(chf, g, cell, k, max_step, n);
                let g1 = labelled(g, place(chf, m), m.2 as int, id);
                let q1 = queue.push(m);
                assert(g[place(chf, cell)][cell.2 as int] != no_region());
                lemma_cell_place(chf, g, m);
                assert(g1[place(chf, m)][m.2 as int] == id);
                assert(g1[place(chf, m)].contains(id));
                assert(is_joined_or_taken(chf, g1, cell, k, max_step));
                lemma_kept_queue(chf, g, g1, queue);
                lemma_spread(chf, g1, q1, cell, k + 1, max_step, n);
                lemma_spread_joins(chf, g1, q1, cell, k + 1, max_step, n);
                let (h, q) = spread(chf, g1, q1, cell, k + 1, max_step);
                lemma_still_joined(chf, g1, h, cell, k, max_step);
                assert(q1[queue.len() as int] == m);
                assert forall|x: Cell| #[trigger] queue.contains(x) implies q.contains(x) by {
                    let j = queue.index_of(x);
                    assert(q1[j] == x);
                    assert(q1.contains(x));
                }
                assert forall|x: Cell|
                    cell_in(chf, x) && label_of(chf, g, x) == no_region() && #[trigger] label_of(
                        chf,
                        h,
                        x,
                    ) != no_region() implies q.contains(x) by {
                    if x == m {
                        assert(q1.contains(m));
                    } else {
                        lemma_cell_place(chf, g, x);
                        if place(chf, x) == place(chf, m) && x.2 == m.2 {
                            crate::walkability::columns_are_apart(
                                chf.cols as int,
                                x.0 as int,
                                x.1 as int,
                                m.0 as int,
                                m.1 as int,
                            );
                        }
                        assert(label_of(chf, g1, x) == no_region());
                    }
                }
                assert forall|j: int| 0 <= j < q.len() implies queue.contains(#[trigger] q[j])
                    || label_of(chf, h, q[j]) == id by {
                    if q1.contains(q[j]) && !queue.contains(q[j]) {
                        let a = q1.index_of(q[j]);
                        if a < queue.len() {
                            assert(queue[a] == q[j]);
                        }
                        assert(q[j] == m);
                        assert(g1[place(chf, m)][m.2 as int] != no_region());
                    }
                }
            },
        }
    }
}

/// Whether every surface with a region that is not queued is joined to its
/// neighbors, as far as they are not taken.
spec fn is_filled(chf: CompactHeightfield, g: Labels, queue: Seq<Cell>, max_step: u32) -> bool {
    forall|x: Cell, k: int|
        cell_in(chf, x) && label_of(chf, g, x) != no_region() && !queue.contains(x) && 0 <= k < 4
            ==> #[trigger] is_joined_or_taken(chf, g, x, k, max_step)
}

proof fn lemma_flooded_filled(
    chf: CompactHeightfield,
    g: Labels,
    queue: Seq<Cell>,
    max_step: u32,
    fuel: nat,
    n: nat,
    id: RegionId,
)
    requires
        chf.wf(),
        tidy(chf, g, n),
        id != no_region(),
        id.0 + 1 == n,
        queue_of(chf, g, queue, id),
        is_filled(chf, g, queue, max_step),
        vacancies(g) + queue.len() <= fuel,
    ensures
        is_filled(chf, flooded(chf, g, queue, max_step, fuel), Seq::empty(), max_step),
    decreases fuel,
{
    if queue.len() == 0 {
        assert(queue =~= Seq::empty());
    } else {
        let cell = queue[0];
        let rest = queue.drop_first();
        assert(cell_in(chf, queue[0]) && label_of(chf, g, queue[0]) == id);
        assert forall|j: int| 0 <= j < rest.len() implies cell_in(chf, #[trigger] rest[j])
            && label_of(chf, g, rest[j]) == id by {
            assert(rest[j] == queue[j + 1]);
        }
        lemma_spread(chf, g, rest, cell, 0, max_step, n);
        lemma_spread_joins(chf, g, rest, cell, 0, max_step, n);
        let (h, q) = spread(chf, g, rest, cell, 0, max_step);
        assert forall|x: Cell, k: int|
            cell_in(chf, x) && label_of(chf, h, x) != no_region() && !q.contains(x) && 0 <= k
                < 4 implies #[trigger] is_joined_or_taken(chf, h, x, k, max_step) by {
            if x != cell {
                assert(label_of(chf, g, x) != no_region());
                if queue.contains(x) {
                    let a = queue.index_of(x);
                    assert(rest[a - 1] == x);
                    assert(rest.contains(x));
                }
                assert(is_joined_or_taken(chf, g, x, k, max_step));
                lemma_still_joined(chf, g, h, x, k, max_step);
            }
        }
        assert forall|j: int| 0 <= j < q.len() implies cell_in(chf, #[trigger] q[j]) && label_of(
            chf,
            h,
            q[j],
        ) == id by {
            if rest.contains(q[j]) {
                let a = rest.index_of(q[j]);
                assert(label_of(chf, g, rest[a]) == id);
                lemma_cell_place(chf, g, rest[a]);
                assert(g[place(chf, rest[a])][rest[a].2 as int] != no_region());
            }
        }
        lemma_flooded_filled(chf, h, q, max_step, (fuel - 1) as nat, n, id);
    }
}

proof fn lemma_seeded_filled(
    chf: CompactHeightfield,
    g: Labels,
    next: nat,
    i: int,
    s: int,
    max_step: u32,
)
    requires
        chf.wf(),
        tidy(chf, g, next),
        next + vacancies(g) <= entry_count(chf.columns@, chf.columns@.len()),
        entry_count(chf.columns@, chf.columns@.len()) < u32::MAX,
        0 <= i,
        0 <= s,
        is_filled(chf, g, Seq::empty(), max_step),
    ensures
        is_filled(chf, seeded(chf, g, next, i, s, max_step).0, Seq::empty(), max_step),
    decreases chf.columns@.len() - i, chf.columns@[i]@.len() - s,
{
    if i >= chf.columns@.len() {
    } else if s >= chf.columns@[i]@.len() {
        lemma_seeded_filled(chf, g, next, i + 1, 0, max_step);
    } else if g[i][s] != no_region() {
        lemma_seeded_filled(chf, g, next, i, s + 1, max_step);
    } else {
        lemma_seed(chf, g, i, s, next);
        let cell = cell_of(chf, i, s);
        let id = RegionId(next as u32);
        let g1 = labelled(g, i, s, id);
        let total = entry_count(chf.columns@, chf.columns@.len());
        let queue = seq![cell];
        lemma_cell_place(chf, g, cell);
        assert(label_of(chf, g1, cell) == id);
        assert(queue_of(chf, g1, queue, id));
        assert forall|x: Cell, k: int|
            cell_in(chf, x) && label_of(chf, g1, x) != no_region() && !queue.contains(x) && 0 <= k
                < 4 implies #[trigger] is_joined_or_taken(chf, g1, x, k, max_step) by {
            assert(queue[0] == cell);
            assert(x != cell);
            lemma_cell_place(chf, g, x);
            if place(chf, x) == place(chf, cell) && x.2 == cell.2 {
                crate::walkability::columns_are_apart(
                    chf.cols as int,
                    x.0 as int,
                    x.1 as int,
                    cell.0 as int,
                    cell.1 as int,
                );
            }
            assert(label_of(chf, g, x) != no_region());
            assert(!Seq::<Cell>::empty().contains(x));
            assert(is_joined_or_taken(chf, g, x, k, max_step));
            lemma_still_joined(chf, g, g1, x, k, max_step);
        }
        assert(queue_fits(chf, g1, queue));
        lemma_flooded(chf, g1, queue, max_step, total, next + 1);
        lemma_flooded_filled(chf, g1, queue, max_step, total, next + 1, id);
        let g2 = flooded(chf, g1, queue, max_step, total);
        lemma_seeded_filled(chf, g2, next + 1, i, s + 1, max_step);
    }
}

/// A region takes every linked surface at nearly the same layer, unless it has
/// another one in that column already, or the surface is in a region that came
/// before or was too small.
pub proof fn regions_take_what_they_can(
    chf: CompactHeightfield,
    config: WatershedConfig,
    cell: Cell,
    k: int,
    n: Cell,
)
    requires
        chf.wf(),
        entry_count(chf.columns@, chf.columns@.len()) < u32::MAX,
        cell_in(chf, cell),
        0 <= k < 4,
        chf.neighbor(cell.0, cell.1, cell.2, k) == Some(n),
        layer_gap(layer_of(chf, cell), layer_of(chf, n)) <= config.max_layer_step,
        label_of(chf, regions_of(chf, config).0, cell) != no_region(),
    ensures
        ({
            let g = regions_of(chf, config).0;
            let id = label_of(chf, g, cell);
            ||| g[place(chf, n)].contains(id)
            ||| label_of(chf, g, n) == no_region()
            ||| label_of(chf, g, n).0 < id.0
        }),
{
    let max_step = config.max_layer_step;
    let min = config.min_region_cells;
    let empty = unlabelled(chf);
    lemma_unlabelled(chf);
    lemma_count_bound(chf, empty, no_region(), empty.len());
    assert forall|x: Cell, j: int|
        cell_in(chf, x) && label_of(chf, empty, x) != no_region() && 0 <= j
            < 4 implies #[trigger] is_joined_or_taken(chf, empty, x, j, max_step) by {
        lemma_cell_place(chf, empty, x);
    }
    assert(is_filled(chf, empty, Seq::empty(), max_step));
    lemma_seeded_filled(chf, empty, 0, 0, 0, max_step);
    lemma_raw(chf, max_step);
    let (g, m) = raw_regions(chf, max_step);
    let h = filtered(g, min);
    lemma_link_in(chf, cell, k);
    lemma_cell_place(chf, g, cell);
    lemma_cell_place(chf, g, n);
    let id = label_of(chf, g, cell);
    assert(id == g[place(chf, cell)][cell.2 as int]);
    assert(label_of(chf, h, cell) == renamed(g, min, id));
    assert(!Seq::<Cell>::empty().contains(cell));
    assert(is_joined_or_taken(chf, g, cell, k, max_step));
    let i = place(chf, n);
    if g[i].contains(id) {
        let s = g[i].index_of(id);
        assert(h[i][s] == renamed(g, min, id));
        assert(h[i].contains(renamed(g, min, id)));
    } else {
        let there = label_of(chf, g, n);
        assert(there == g[i][n.2 as int]);
        assert(label_of(chf, h, n) == renamed(g, min, there));
        assert(id.0 < m || id == no_region());
        lemma_rank_grows(g, min, there.0 as nat, id.0 as nat);
        lemma_rank_bound(g, min, id.0 as nat);
    }
}

} // verus!
