//! Routes across regions, and the heights along them.
//!
//! Regions are the nodes of a graph and portals are its links. Whether a point
//! lies inside a ring, and how far a region's height is from a point, is told
//! from outside; distances come as keys that order as they do.

use crate::cheapest::{cost_along, found_routes_cost_least, is_orderly};
use crate::contour::{ContourVertex, RegionContour, RegionContours};
use crate::output::{no_region, RegionId};
use crate::portals::Portal;
use crate::search::{
    affordable, find_route, is_found, is_missed, is_route, linked, links_fit, Link,
};
use crate::walkability::CompactHeightfield;
use crate::watershed::RegionMap;
use vstd::prelude::*;

verus! {

// --- The region at a point --------------------------------------------------

/// Which rings of one region a point lies inside.
#[derive(Clone, Debug)]
pub struct RingHits {
    pub outer: bool,
    /// One entry for each hole.
    pub holes: Vec<bool>,
}

/// Whether a point that lies inside the given rings stands in a region: inside
/// the outer ring and in no hole. Rings of fewer than three vertices do not
/// count.
pub open spec fn stands_in(contour: RegionContour, hits: RingHits) -> bool {
    &&& contour.outer@.len() >= 3
    &&& hits.outer
    &&& forall|h: int|
        0 <= h < contour.holes@.len() && h < hits.holes@.len() && (
        #[trigger] contour.holes@[h])@.len() >= 3 ==> !hits.holes@[h]
}

fn does_stand_in(contour: &RegionContour, hits: &RingHits) -> (r: bool)
    ensures
        r == stands_in(*contour, *hits),
{
    if contour.outer.len() < 3 || !hits.outer {
        return false;
    }
    let mut h: usize = 0;
    while h < contour.holes.len() && h < hits.holes.len()
        invariant
            h <= contour.holes@.len(),
            h <= hits.holes@.len(),
            contour.outer@.len() >= 3,
            hits.outer,
            forall|k: int|
                0 <= k < h && (#[trigger] contour.holes@[k])@.len() >= 3 ==> !hits.holes@[k],
        decreases contour.holes.len() - h,
    {
        if contour.holes[h].len() >= 3 && hits.holes[h] {
            assert(contour.holes@[h as int]@.len() >= 3);
            return false;
        }
        h += 1;
    }
    true
}

/// Whether region `i` stands under a point.
pub open spec fn under(contours: RegionContours, hits: Seq<RingHits>, i: int) -> bool {
    &&& 0 <= i < contours.contours@.len()
    &&& i < hits.len()
    &&& stands_in(contours.contours@[i], hits[i])
}

/// The first region that a point stands in.
pub fn find_region_at_xy(contours: &RegionContours, hits: &Vec<RingHits>) -> (r: Option<RegionId>)
    requires
        contours.contours@.len() <= u32::MAX,
    ensures
        match r {
            None => forall|i: int| !(#[trigger] under(*contours, hits@, i)),
            Some(id) => under(*contours, hits@, id.0 as int) && forall|i: int|
                0 <= i < id.0 ==> !(#[trigger] under(*contours, hits@, i)),
        },
{
    let mut i: usize = 0;
    while i < contours.contours.len() && i < hits.len()
        invariant
            i <= contours.contours@.len() <= u32::MAX,
            i <= hits@.len(),
            forall|k: int| 0 <= k < i ==> !(#[trigger] under(*contours, hits@, k)),
        decreases contours.contours.len() - i,
    {
        if does_stand_in(&contours.contours[i], &hits[i]) {
            return Some(RegionId(i as u32));
        }
        i += 1;
    }
    None
}

/// What is known of a point: the rings it lies inside, and for each region the
/// key of its distance in height.
#[derive(Clone, Debug)]
pub struct Standing {
    pub hits: Vec<RingHits>,
    pub gaps: Vec<u64>,
}

impl Standing {
    /// One entry for each region.
    pub open spec fn fits(&self, contours: RegionContours) -> bool {
        &&& self.hits@.len() == contours.contours@.len()
        &&& self.gaps@.len() == contours.contours@.len()
    }
}

/// Whether `r` is the region under a point that is closest in height, the
/// first of equals.
pub open spec fn is_standing_at(
    contours: RegionContours,
    at: Standing,
    r: Option<RegionId>,
) -> bool {
    match r {
        None => forall|i: int| !(#[trigger] under(contours, at.hits@, i)),
        Some(id) => {
            &&& under(contours, at.hits@, id.0 as int)
            &&& forall|i: int| #[trigger]
                under(contours, at.hits@, i) ==> at.gaps@[id.0 as int] <= at.gaps@[i] && (i < id.0
                    ==> at.gaps@[id.0 as int] < at.gaps@[i])
        },
    }
}

/// Of the regions that a point stands in, the one closest in height, the first
/// of equals.
pub fn find_region_at_xyz(contours: &RegionContours, at: &Standing) -> (r: Option<RegionId>)
    requires
        contours.contours@.len() <= u32::MAX,
        at.fits(*contours),
    ensures
        is_standing_at(*contours, *at, r),
{
    let mut best: Option<RegionId> = None;
    let mut best_gap: u64 = 0;
    let mut i: usize = 0;
    while i < contours.contours.len()
        invariant
            i <= contours.contours@.len() <= u32::MAX,
            at.fits(*contours),
            match best {
                None => forall|k: int| 0 <= k < i ==> !(#[trigger] under(*contours, at.hits@, k)),
                Some(id) => {
                    &&& id.0 < i
                    &&& under(*contours, at.hits@, id.0 as int)
                    &&& best_gap == at.gaps@[id.0 as int]
                    &&& forall|k: int|
                        0 <= k < i && #[trigger] under(*contours, at.hits@, k) ==> best_gap
                            <= at.gaps@[k] && (k < id.0 ==> best_gap < at.gaps@[k])
                },
            },
        decreases contours.contours.len() - i,
    {
        if does_stand_in(&contours.contours[i], &at.hits[i]) {
            let gap: u64 = at.gaps[i];
            let better = match best {
                None => true,
                Some(_) => gap < best_gap,
            };
            if better {
                best = Some(RegionId(i as u32));
                best_gap = gap;
            }
        }
        i += 1;
    }
    best
}

/// The sum of the heights of the first `n` vertices, in half cells.
pub open spec fn height_sum(ring: Seq<ContourVertex>, n: nat) -> nat
    decreases n,
{
    if n == 0 {
        0
    } else {
        height_sum(ring, (n - 1) as nat) + ring[n - 1].height2 as nat
    }
}

/// The mean height of a region's outer ring as a fraction: the sum of the
/// heights in half cells, and twice the number of vertices. The fraction is
/// 0 / 1 for a region without an outer ring.
pub fn region_mean_z(contour: &RegionContour) -> (r: (u128, u64))
    requires
        contour.outer@.len() <= u32::MAX,
    ensures
        contour.outer@.len() == 0 ==> r.0 == 0 && r.1 == 1,
        contour.outer@.len() > 0 ==> r.0 == height_sum(contour.outer@, contour.outer@.len())
            && r.1 == 2 * contour.outer@.len(),
{
    if contour.outer.len() == 0 {
        return (0, 1);
    }
    let mut sum: u128 = 0;
    let mut i: usize = 0;
    while i < contour.outer.len()
        invariant
            i <= contour.outer@.len() <= u32::MAX,
            sum == height_sum(contour.outer@, i as nat),
            sum <= i * u64::MAX,
        decreases contour.outer.len() - i,
    {
        proof {
            let (k, m) = (i as int, u64::MAX as int);
            assert((k + 1) * m == k * m + m) by (nonlinear_arith);
            assert(k * m <= u32::MAX * m) by (nonlinear_arith)
                requires
                    k <= u32::MAX,
                    m >= 0,
            ;
        }
        sum = sum + contour.outer[i].height2 as u128;
        i += 1;
    }
    (sum, 2 * contour.outer.len() as u64)
}

// --- Routes across regions --------------------------------------------------

/// A point that a path goes through.
#[derive(Copy, Clone, Debug, PartialEq, Eq, Structural)]
pub enum Waypoint {
    /// Where the path begins.
    Source,
    /// The midpoint of a portal.
    Portal(u32),
    /// Where the path ends.
    Target,
}

/// A path: its waypoints, and the region of each stretch between them.
#[derive(Clone, Debug)]
pub struct Path {
    pub waypoints: Vec<Waypoint>,
    pub regions: Vec<RegionId>,
}

/// Whether portal `k` joins two regions.
pub open spec fn portal_joins(portals: Seq<Portal>, k: int, a: int, b: int) -> bool {
    &&& 0 <= k < portals.len()
    &&& ((portals[k].a.0 == a && portals[k].b.0 == b) || (portals[k].a.0 == b && portals[k].b.0
        == a))
}

/// Whether a path leads from region `a` to region `b`: it begins at the
/// source, ends at the target, and goes from each region to the next through
/// the midpoint of a portal that joins them.
pub open spec fn is_path(portals: Seq<Portal>, path: Path, a: RegionId, b: RegionId) -> bool {
    let (w, r) = (path.waypoints@, path.regions@);
    &&& r.len() > 0
    &&& w.len() == r.len() + 1
    &&& r[0] == a
    &&& r.last() == b
    &&& w[0] == Waypoint::Source
    &&& w.last() == Waypoint::Target
    &&& forall|i: int|
        0 < i < r.len() ==> ((#[trigger] w[i]) matches Waypoint::Portal(k) && portal_joins(
            portals,
            k as int,
            r[i - 1].0 as int,
            r[i].0 as int,
        ))
}

/// Whether some portal joins two regions.
pub open spec fn joined(portals: Seq<Portal>, a: int, b: int) -> bool {
    exists|k: int| #[trigger] portal_joins(portals, k, a, b)
}

/// Whether regions form a chain in which a portal joins each to the next.
pub open spec fn is_chain(portals: Seq<Portal>, chain: Seq<int>, a: int, b: int) -> bool {
    &&& chain.len() > 0
    &&& chain[0] == a
    &&& chain.last() == b
    &&& forall|i: int|
        0 <= i < chain.len() - 1 ==> joined(portals, #[trigger] chain[i], chain[i + 1])
}

/// Add a link to a node.
fn push_link(links: &mut Vec<Vec<Link>>, node: usize, link: Link)
    requires
        node < old(links)@.len(),
        link.to < old(links)@.len(),
        links_fit(old(links)@),
    ensures
        final(links)@.len() == old(links)@.len(),
        links_fit(final(links)@),
        forall|a: int, b: int, tag: u32| #[trigger]
            linked(final(links)@, a, b, tag) == (linked(old(links)@, a, b, tag) || (a == node && b
                == link.to && tag == link.tag)),
{
    let ghost before = links@;
    links[node].push(link);
    proof {
        assert(links@[node as int]@ =~= before[node as int]@.push(link));
        assert forall|a: int| 0 <= a < before.len() && a != node implies (
        #[trigger] links@[a])@ == before[a]@ by {}
        assert forall|a: int, j: int|
            0 <= a < links@.len() && 0 <= j < links@[a]@.len() implies (
        #[trigger] links@[a]@[j]).to < links@.len() by {
            if a != node {
                assert(links@[a]@[j] == before[a]@[j]);
            } else if j < before[a]@.len() {
                assert(links@[a]@[j] == before[a]@[j]);
            }
        }
        assert forall|a: int, b: int, tag: u32| #[trigger]
            linked(links@, a, b, tag) == (linked(before, a, b, tag) || (a == node && b == link.to
                && tag == link.tag)) by {
            if linked(before, a, b, tag) {
                let j = choose|j: int|
                    0 <= j < before[a]@.len() && (#[trigger] before[a]@[j]).to == b
                        && before[a]@[j].tag == tag;
                assert(links@[a]@[j] == before[a]@[j]);
            }
            if a == node && b == link.to && tag == link.tag {
                let j = before[a]@.len() as int;
                assert(links@[a]@[j] == link);
            }
            if linked(links@, a, b, tag) {
                let j = choose|j: int|
                    0 <= j < links@[a]@.len() && (#[trigger] links@[a]@[j]).to == b
                        && links@[a]@[j].tag == tag;
                if a != node || j < before[a]@.len() {
                    assert(links@[a]@[j] == before[a]@[j]);
                    assert(linked(before, a, b, tag));
                }
            }
        }
    }
}

/// Whether every portal joins regions with ids below `n`.
pub open spec fn ids_fit(portals: Seq<Portal>, n: int) -> bool {
    forall|k: int| 0 <= k < portals.len() ==> (#[trigger] portals[k]).a.0 < n && portals[k].b.0 < n
}

/// One more than the greatest id in use, at least `least`.
fn id_bound(portals: &Vec<Portal>, least: usize) -> (n: usize)
    requires
        least <= u32::MAX,
        ids_fit(portals@, u32::MAX as int),
    ensures
        least <= n <= u32::MAX,
        ids_fit(portals@, n as int),
{
    let mut n: usize = least;
    let mut k: usize = 0;
    while k < portals.len()
        invariant
            k <= portals@.len(),
            least <= n <= u32::MAX,
            ids_fit(portals@, u32::MAX as int),
            forall|j: int|
                0 <= j < k ==> (#[trigger] portals@[j]).a.0 < n && portals@[j].b.0 < n,
        decreases portals.len() - k,
    {
        let p = &portals[k];
        assert(portals@[k as int].a.0 < u32::MAX);
        if p.a.index() >= n {
            n = p.a.index() + 1;
        }
        if p.b.index() >= n {
            n = p.b.index() + 1;
        }
        k += 1;
    }
    n
}

/// The graph of regions: each portal is a link both ways, tagged with its
/// index.
pub fn region_links(portals: &Vec<Portal>, n: usize) -> (links: Vec<Vec<Link>>)
    requires
        portals@.len() <= u32::MAX,
        ids_fit(portals@, n as int),
    ensures
        links@.len() == n,
        links_fit(links@),
        forall|a: int, b: int, tag: u32| #[trigger]
            linked(links@, a, b, tag) == portal_joins(portals@, tag as int, a, b),
{
    let mut links: Vec<Vec<Link>> = Vec::new();
    let mut i: usize = 0;
    while i < n
        invariant
            i <= n,
            links@.len() == i,
            forall|j: int| 0 <= j < i ==> (#[trigger] links@[j])@.len() == 0,
        decreases n - i,
    {
        links.push(Vec::new());
        i += 1;
    }
    let mut k: usize = 0;
    while k < portals.len()
        invariant
            k <= portals@.len() <= u32::MAX,
            links@.len() == n,
            ids_fit(portals@, n as int),
            links_fit(links@),
            forall|a: int, b: int, tag: u32| #[trigger]
                linked(links@, a, b, tag) == (tag < k && portal_joins(portals@, tag as int, a, b)),
        decreases portals.len() - k,
    {
        let (a, b): (usize, usize) = (portals[k].a.index(), portals[k].b.index());
        assert(portals@[k as int].a.0 < n && portals@[k as int].b.0 < n);
        push_link(&mut links, a, Link { to: b, tag: k as u32 });
        push_link(&mut links, b, Link { to: a, tag: k as u32 });
        k += 1;
    }
    links
}

proof fn lemma_chain_is_route(
    portals: Seq<Portal>,
    links: Seq<Vec<Link>>,
    chain: Seq<int>,
    a: int,
    b: int,
)
    requires
        is_chain(portals, chain, a, b),
        portals.len() <= u32::MAX,
        0 <= a < links.len(),
        0 <= b < links.len(),
        links.len() <= u32::MAX,
        ids_fit(portals, links.len() as int),
        forall|x: int, y: int, tag: u32| #[trigger]
            linked(links, x, y, tag) == portal_joins(portals, tag as int, x, y),
    ensures
        exists|nodes: Seq<usize>, tags: Seq<u32>| #[trigger] is_route(links, nodes, tags, a, b),
{
    let joint = |i: int| choose|k: int| #[trigger] portal_joins(portals, k, chain[i], chain[i + 1]);
    let nodes = Seq::new(chain.len(), |i: int| chain[i] as usize);
    let tags = Seq::new((chain.len() - 1) as nat, |i: int| joint(i) as u32);
    assert forall|i: int| 0 <= i < chain.len() implies 0 <= #[trigger] chain[i] < links.len() by {
        if i < chain.len() - 1 {
            assert(joined(portals, chain[i], chain[i + 1]));
            let k = joint(i);
            assert(portal_joins(portals, k, chain[i], chain[i + 1]));
            assert(portals[k].a.0 < links.len());
        }
    }
    assert forall|i: int| 0 <= i < tags.len() implies linked(
        links,
        nodes[i] as int,
        nodes[i + 1] as int,
        #[trigger] tags[i],
    ) by {
        let k = joint(i);
        assert(joined(portals, chain[i], chain[i + 1]));
        assert(portal_joins(portals, k, chain[i], chain[i + 1]));
        assert(0 <= chain[i] < links.len() && 0 <= chain[i + 1] < links.len());
        assert(tags[i] == k);
        assert(linked(links, chain[i], chain[i + 1], tags[i]));
    }
    assert(is_route(links, nodes, tags, a, b));
}

/// Whether two points stand in the regions `a` and `b`.
pub open spec fn stand_at(
    contours: RegionContours,
    src: Standing,
    dst: Standing,
    a: RegionId,
    b: RegionId,
) -> bool {
    is_standing_at(contours, src, Some(a)) && is_standing_at(contours, dst, Some(b))
}

/// Whether `links` joins regions by the portals between them.
pub open spec fn joins_regions(links: Seq<Vec<Link>>, portals: Seq<Portal>) -> bool {
    forall|x: int, y: int, tag: u32| #[trigger]
        linked(links, x, y, tag) == portal_joins(portals, tag as int, x, y)
}

/// The regions of a path, as nodes.
pub open spec fn region_nodes(path: Path) -> Seq<usize> {
    Seq::new(path.regions@.len(), |i: int| path.regions@[i].0 as usize)
}

/// The portals of a path from region to region, as tags.
pub open spec fn portal_tags(path: Path) -> Seq<u32> {
    Seq::new(
        (path.regions@.len() - 1) as nat,
        |i: int|
            match path.waypoints@[i + 1] {
                Waypoint::Portal(k) => k,
                _ => 0,
            },
    )
}

/// Whether a search from region to region, steered by `price`, finds a path.
pub open spec fn route_found<F: Fn(u64, usize, u32, usize, u32) -> (u64, u64)>(
    portals: Seq<Portal>,
    price: F,
    a: RegionId,
    b: RegionId,
    path: Path,
) -> bool {
    exists|links: Seq<Vec<Link>>|
        links.len() <= u32::MAX && joins_regions(links, portals) && #[trigger] is_found(
            links,
            price,
            false,
            a.0 as int,
            b.0 as int,
            region_nodes(path),
            portal_tags(path),
        )
}

/// Whether a search from region to region, steered by `price`, finds none.
pub open spec fn route_missed<F: Fn(u64, usize, u32, usize, u32) -> (u64, u64)>(
    portals: Seq<Portal>,
    price: F,
    a: RegionId,
    b: RegionId,
) -> bool {
    exists|links: Seq<Vec<Link>>|
        joins_regions(links, portals) && #[trigger] is_missed(
            links,
            price,
            false,
            a.0 as int,
            b.0 as int,
        )
}

/// Find a path across regions. There is none where a point stands in no
/// region, or where no chain of portals leads from the one region to the
/// other. Between points of one region it goes straight.
///
/// `price` gives the cost of going on to a region through a portal, from a
/// region that was entered through a portal, and an estimate of what is still
/// ahead.
pub fn find_path<F: Fn(u64, usize, u32, usize, u32) -> (u64, u64)>(
    contours: &RegionContours,
    portals: &Vec<Portal>,
    src: &Standing,
    dst: &Standing,
    price: F,
) -> (r: Option<Path>)
    requires
        contours.contours@.len() <= u32::MAX,
        portals@.len() <= u32::MAX,
        ids_fit(portals@, u32::MAX as int),
        src.fits(*contours),
        dst.fits(*contours),
        forall|g: u64, a: usize, t: u32, b: usize, u: u32| #[trigger]
            price.requires((g, a, t, b, u)),
    ensures
        match r {
            None => {
                ||| is_standing_at(*contours, *src, None)
                ||| is_standing_at(*contours, *dst, None)
                ||| exists|a: RegionId, b: RegionId| #[trigger]
                    stand_at(*contours, *src, *dst, a, b) && route_missed(portals@, price, a, b)
                        && (affordable(price) ==> forall|chain: Seq<int>|
                        !(#[trigger] is_chain(portals@, chain, a.0 as int, b.0 as int)))
            },
            Some(path) => exists|a: RegionId, b: RegionId| #[trigger]
                stand_at(*contours, *src, *dst, a, b) && is_path(portals@, path, a, b)
                    && path.regions@.no_duplicates() && (if a == b {
                    path.regions@.len() == 1
                } else {
                    route_found(portals@, price, a, b, path)
                }),
        },
{
    let a = match find_region_at_xyz(contours, src) {
        None => return None,
        Some(x) => x,
    };
    let b = match find_region_at_xyz(contours, dst) {
        None => return None,
        Some(x) => x,
    };
    assert(stand_at(*contours, *src, *dst, a, b));
    let mut waypoints: Vec<Waypoint> = Vec::new();
    let mut regions: Vec<RegionId> = Vec::new();
    waypoints.push(Waypoint::Source);
    regions.push(a);
    if a == b {
        waypoints.push(Waypoint::Target);
        let path = Path { waypoints, regions };
        assert(is_path(portals@, path, a, b));
        return Some(path);
    }
    let n: usize = id_bound(portals, contours.contours.len());
    let links = region_links(portals, n);
    let (nodes, tags) = match find_route(&links, a.index(), b.index(), false, price) {
        None => {
            proof {
                assert(joins_regions(links@, portals@));
                assert(route_missed(portals@, price, a, b));
                assert forall|chain: Seq<int>| affordable(price) implies !(#[trigger] is_chain(
                    portals@,
                    chain,
                    a.0 as int,
                    b.0 as int,
                )) by {
                    if is_chain(portals@, chain, a.0 as int, b.0 as int) {
                        lemma_chain_is_route(portals@, links@, chain, a.0 as int, b.0 as int);
                    }
                }
            }
            return None;
        },
        Some(x) => x,
    };
    let mut i: usize = 0;
    while i < tags.len()
        invariant
            i <= tags@.len(),
            links@.len() == n <= u32::MAX,
            links_fit(links@),
            is_route(links@, nodes@, tags@, a.0 as int, b.0 as int),
            forall|x: int, y: int, tag: u32| #[trigger]
                linked(links@, x, y, tag) == portal_joins(portals@, tag as int, x, y),
            ids_fit(portals@, n as int),
            waypoints@.len() == i + 1,
            regions@.len() == i + 1,
            waypoints@[0] == Waypoint::Source,
            forall|j: int| 0 <= j <= i ==> (#[trigger] regions@[j]).0 == nodes@[j],
            forall|j: int|
                0 < j <= i ==> #[trigger] waypoints@[j] == Waypoint::Portal(tags@[j - 1]),
        decreases tags.len() - i,
    {
        proof {
            assert(linked(links@, nodes@[i as int] as int, nodes@[i + 1] as int, tags@[i as int]));
            assert(portal_joins(
                portals@,
                tags@[i as int] as int,
                nodes@[i as int] as int,
                nodes@[i + 1] as int,
            ));
            assert(portals@[tags@[i as int] as int].a.0 < n);
        }
        waypoints.push(Waypoint::Portal(tags[i]));
        regions.push(RegionId(nodes[i + 1] as u32));
        i += 1;
    }
    waypoints.push(Waypoint::Target);
    let path = Path { waypoints, regions };
    proof {
        assert forall|j: int| 0 < j < regions@.len() implies ((
        #[trigger] waypoints@[j]) matches Waypoint::Portal(k) && portal_joins(
            portals@,
            k as int,
            regions@[j - 1].0 as int,
            regions@[j].0 as int,
        )) by {
            assert(linked(
                links@,
                nodes@[j - 1] as int,
                nodes@[j - 1 + 1] as int,
                tags@[j - 1],
            ));
        }
        assert(is_path(portals@, path, a, b));
        assert(region_nodes(path) =~= nodes@);
        assert(portal_tags(path) =~= tags@);
        assert(joins_regions(links@, portals@));
        assert(route_found(portals@, price, a, b, path));
        assert forall|i: int, j: int|
            0 <= i < regions@.len() && 0 <= j < regions@.len() && i != j implies regions@[i]
            != regions@[j] by {
            assert(nodes@[i] != nodes@[j]);
        }
    }
    Some(path)
}

// --- Heights along a path ---------------------------------------------------

/// The region of the stretch after waypoint `i`: the last region of the path
/// stands for stretches beyond its list.
pub open spec fn stretch_region(regions: Seq<RegionId>, i: int) -> RegionId {
    if i < regions.len() {
        regions[i]
    } else if regions.len() > 0 {
        regions.last()
    } else {
        no_region()
    }
}

impl Path {
    /// The region of the stretch after waypoint `i`; the invalid id for a path
    /// without regions.
    pub fn segment_region(&self, i: usize) -> (r: RegionId)
        ensures
            r == stretch_region(self.regions@, i as int),
    {
        if i < self.regions.len() {
            self.regions[i]
        } else if self.regions.len() > 0 {
            self.regions[self.regions.len() - 1]
        } else {
            RegionId::invalid()
        }
    }
}

/// The layer of the first surface of a column, from surface `s` up, that
/// belongs to a region.
pub open spec fn surface_layer(
    chf: CompactHeightfield,
    rm: RegionMap,
    region: RegionId,
    c: u32,
    r: u32,
    s: nat,
) -> Option<u32>
    decreases chf.surfaces(c, r).len() - s,
{
    if s >= chf.surfaces(c, r).len() {
        None
    } else if rm.region_of(c, r, s as u32) == region {
        Some(chf.surfaces(c, r)[s as int].layer)
    } else {
        surface_layer(chf, rm, region, c, r, s + 1)
    }
}

/// The layer of the lowest surface of column (`c`, `r`) that belongs to a
/// region.
pub fn surface_z_in_region(
    chf: &CompactHeightfield,
    rm: &RegionMap,
    region: RegionId,
    c: u32,
    r: u32,
) -> (layer: Option<u32>)
    requires
        chf.wf(),
        rm.wf(),
    ensures
        layer == surface_layer(*chf, *rm, region, c, r, 0),
        match layer {
            Some(l) => is_lowest(*chf, *rm, region, c, r, l),
            None => !has_surface_of(*chf, *rm, region, c, r),
        },
{
    let surfaces = chf.surfaces_at(c, r);
    let mut s: usize = 0;
    assert(chf.surfaces(c, r).len() <= u32::MAX);
    while s < surfaces.len()
        invariant
            chf.wf(),
            rm.wf(),
            surfaces@ == chf.surfaces(c, r),
            s <= surfaces@.len() <= u32::MAX,
            surface_layer(*chf, *rm, region, c, r, 0) == surface_layer(
                *chf,
                *rm,
                region,
                c,
                r,
                s as nat,
            ),
        decreases surfaces.len() - s,
    {
        if rm.at(c, r, s as u32) == region {
            proof {
                lowest_surfaces_are_found(*chf, *rm, region, c, r);
            }
            return Some(surfaces[s].layer);
        }
        s += 1;
    }
    proof {
        lowest_surfaces_are_found(*chf, *rm, region, c, r);
    }
    None
}

/// The four columns beside (`c`, `r`), in the order in which they are probed.
pub open spec fn beside(c: int, r: int, k: int) -> (int, int) {
    if k == 0 {
        (c - 1, r)
    } else if k == 1 {
        (c + 1, r)
    } else if k == 2 {
        (c, r - 1)
    } else {
        (c, r + 1)
    }
}

/// The layers of a region's surfaces in the first `n` columns beside
/// (`c`, `r`).
pub open spec fn layers_beside(
    chf: CompactHeightfield,
    rm: RegionMap,
    region: RegionId,
    c: u32,
    r: u32,
    n: nat,
) -> Seq<u32>
    decreases n,
{
    if n == 0 {
        Seq::empty()
    } else {
        let before = layers_beside(chf, rm, region, c, r, (n - 1) as nat);
        let (bc, br) = beside(c as int, r as int, n - 1);
        if 0 <= bc < chf.cols && 0 <= br < chf.rows {
            match surface_layer(chf, rm, region, bc as u32, br as u32, 0) {
                None => before,
                Some(l) => before.push(l),
            }
        } else {
            before
        }
    }
}

/// The layers at which a path through a region may pass column (`c`, `r`): that
/// of the region's surface in the column, or where it has none there, those of
/// its surfaces in the four columns beside it.
pub open spec fn passing_layers(
    chf: CompactHeightfield,
    rm: RegionMap,
    region: RegionId,
    c: u32,
    r: u32,
) -> Seq<u32> {
    if region == no_region() || c >= chf.cols || r >= chf.rows {
        Seq::empty()
    } else {
        match surface_layer(chf, rm, region, c, r, 0) {
            Some(l) => seq![l],
            None => layers_beside(chf, rm, region, c, r, 4),
        }
    }
}

/// The layers at which a path through a region may pass column (`c`, `r`).
///
/// Surfaces of other regions never count: where the list is empty the path
/// holds its height.
pub fn sample_hf_layers(
    chf: &CompactHeightfield,
    rm: &RegionMap,
    region: RegionId,
    c: u32,
    r: u32,
) -> (out: Vec<u32>)
    requires
        chf.wf(),
        rm.wf(),
    ensures
        out@ == passing_layers(*chf, *rm, region, c, r),
        is_sampled(*chf, *rm, region, c, r, out@),
{
    proof {
        samples_are_complete(*chf, *rm, region, c, r);
    }
    let mut out: Vec<u32> = Vec::new();
    if region == RegionId::invalid() || c >= chf.cols || r >= chf.rows {
        return out;
    }
    if let Some(l) = surface_z_in_region(chf, rm, region, c, r) {
        out.push(l);
        assert(out@ =~= seq![l]);
        return out;
    }
    let mut k: usize = 0;
    while k < 4
        invariant
            chf.wf(),
            rm.wf(),
            c < chf.cols,
            r < chf.rows,
            k <= 4,
            out@ == layers_beside(*chf, *rm, region, c, r, k as nat),
        decreases 4 - k,
    {
        let (bc, br): (i64, i64) = if k == 0 {
            (c as i64 - 1, r as i64)
        } else if k == 1 {
            (c as i64 + 1, r as i64)
        } else if k == 2 {
            (c as i64, r as i64 - 1)
        } else {
            (c as i64, r as i64 + 1)
        };
        if 0 <= bc && bc < chf.cols as i64 && 0 <= br && br < chf.rows as i64 {
            if let Some(l) = surface_z_in_region(chf, rm, region, bc as u32, br as u32) {
                out.push(l);
            }
        }
        k += 1;
    }
    out
}

/// The place of the least key, the first of equals; none in an empty list.
pub fn closest_sample(gaps: &Vec<u64>) -> (r: Option<usize>)
    ensures
        match r {
            None => gaps@.len() == 0,
            Some(i) => {
                &&& i < gaps@.len()
                &&& forall|j: int| 0 <= j < gaps@.len() ==> gaps@[i as int] <= #[trigger] gaps@[j]
                &&& forall|j: int| 0 <= j < i ==> gaps@[i as int] < #[trigger] gaps@[j]
            },
        },
{
    if gaps.len() == 0 {
        return None;
    }
    let mut best: usize = 0;
    let mut i: usize = 1;
    while i < gaps.len()
        invariant
            1 <= i <= gaps@.len(),
            best < i,
            forall|j: int| 0 <= j < i ==> gaps@[best as int] <= #[trigger] gaps@[j],
            forall|j: int| 0 <= j < best ==> gaps@[best as int] < #[trigger] gaps@[j],
        decreases gaps.len() - i,
    {
        if gaps[i] < gaps[best] {
            best = i;
        }
        i += 1;
    }
    Some(best)
}

// --- Laws -------------------------------------------------------------------

/// Whether surface `s` of a column belongs to a region.
pub open spec fn is_surface_of(
    chf: CompactHeightfield,
    rm: RegionMap,
    region: RegionId,
    c: u32,
    r: u32,
    s: u32,
) -> bool {
    chf.has(c, r, s) && rm.region_of(c, r, s) == region
}

/// Whether a column has a surface of a region.
pub open spec fn has_surface_of(
    chf: CompactHeightfield,
    rm: RegionMap,
    region: RegionId,
    c: u32,
    r: u32,
) -> bool {
    exists|s: u32| is_surface_of(chf, rm, region, c, r, s)
}

/// Whether `l` is the layer of a surface of a region in a column, and none of
/// its surfaces there is lower.
pub open spec fn is_lowest(
    chf: CompactHeightfield,
    rm: RegionMap,
    region: RegionId,
    c: u32,
    r: u32,
    l: u32,
) -> bool {
    &&& exists|s: u32| #[trigger]
        is_surface_of(chf, rm, region, c, r, s) && chf.surfaces(c, r)[s as int].layer == l
    &&& forall|s: u32| #[trigger]
        is_surface_of(chf, rm, region, c, r, s) ==> l <= chf.surfaces(c, r)[s as int].layer
}

proof fn lemma_lowest_from(
    chf: CompactHeightfield,
    rm: RegionMap,
    region: RegionId,
    c: u32,
    r: u32,
    s: nat,
)
    requires
        chf.wf(),
        forall|t: u32| t < s ==> !#[trigger] is_surface_of(chf, rm, region, c, r, t),
    ensures
        match surface_layer(chf, rm, region, c, r, s) {
            Some(l) => is_lowest(chf, rm, region, c, r, l),
            None => !has_surface_of(chf, rm, region, c, r),
        },
    decreases chf.surfaces(c, r).len() - s,
{
    let all = chf.surfaces(c, r);
    assert(all.len() <= u32::MAX);
    if s < all.len() {
        let here = s as u32;
        assert(chf.has(c, r, here));
        if rm.region_of(c, r, here) == region {
            assert(is_surface_of(chf, rm, region, c, r, here));
            assert forall|t: u32| #[trigger] is_surface_of(chf, rm, region, c, r, t) implies all[s as int].layer
                <= all[t as int].layer by {
                if t > here {
                    assert(all[here as int].layer < all[t as int].layer);
                }
            }
        } else {
            lemma_lowest_from(chf, rm, region, c, r, s + 1);
        }
    }
}

/// Wherever a column has a surface of a region, the layer found there is that
/// of the lowest one; where it has none, nothing is found.
pub proof fn lowest_surfaces_are_found(
    chf: CompactHeightfield,
    rm: RegionMap,
    region: RegionId,
    c: u32,
    r: u32,
)
    requires
        chf.wf(),
    ensures
        match surface_layer(chf, rm, region, c, r, 0) {
            Some(l) => is_lowest(chf, rm, region, c, r, l),
            None => !has_surface_of(chf, rm, region, c, r),
        },
{
    lemma_lowest_from(chf, rm, region, c, r, 0);
}

/// Whether `part` holds the layer of a region's lowest surface in column (`c`,
/// `r`), and nothing where there is none.
pub open spec fn is_part_sample(
    chf: CompactHeightfield,
    rm: RegionMap,
    region: RegionId,
    c: int,
    r: int,
    part: Seq<u32>,
) -> bool {
    if 0 <= c < chf.cols && 0 <= r < chf.rows && has_surface_of(
        chf,
        rm,
        region,
        c as u32,
        r as u32,
    ) {
        part.len() == 1 && is_lowest(chf, rm, region, c as u32, r as u32, part[0])
    } else {
        part.len() == 0
    }
}

/// Whether `out` are the layers of a region at column (`c`, `r`): that of its
/// lowest surface there, or else those in the columns to the left, to the right,
/// below and above, as far as it has surfaces there.
pub open spec fn is_sampled(
    chf: CompactHeightfield,
    rm: RegionMap,
    region: RegionId,
    c: u32,
    r: u32,
    out: Seq<u32>,
) -> bool {
    if region == no_region() || c >= chf.cols || r >= chf.rows {
        out.len() == 0
    } else if has_surface_of(chf, rm, region, c, r) {
        out.len() == 1 && is_lowest(chf, rm, region, c, r, out[0])
    } else {
        exists|left: Seq<u32>, right: Seq<u32>, below: Seq<u32>, above: Seq<u32>| #[trigger]
            joined_parts(left, right, below, above) == out && is_part_sample(
                chf,
                rm,
                region,
                c - 1,
                r as int,
                left,
            ) && is_part_sample(chf, rm, region, c + 1, r as int, right) && is_part_sample(
                chf,
                rm,
                region,
                c as int,
                r - 1,
                below,
            ) && is_part_sample(chf, rm, region, c as int, r + 1, above)
    }
}

/// Four lists one after the other.
pub open spec fn joined_parts(a: Seq<u32>, b: Seq<u32>, c: Seq<u32>, d: Seq<u32>) -> Seq<u32> {
    a + b + c + d
}

/// The layers found in one of the columns beside.
spec fn part_beside(
    chf: CompactHeightfield,
    rm: RegionMap,
    region: RegionId,
    c: int,
    r: int,
) -> Seq<u32> {
    if 0 <= c < chf.cols && 0 <= r < chf.rows {
        match surface_layer(chf, rm, region, c as u32, r as u32, 0) {
            None => Seq::empty(),
            Some(l) => seq![l],
        }
    } else {
        Seq::empty()
    }
}

proof fn lemma_part_beside(
    chf: CompactHeightfield,
    rm: RegionMap,
    region: RegionId,
    c: int,
    r: int,
)
    requires
        chf.wf(),
    ensures
        is_part_sample(chf, rm, region, c, r, part_beside(chf, rm, region, c, r)),
{
    if 0 <= c < chf.cols && 0 <= r < chf.rows {
        lowest_surfaces_are_found(chf, rm, region, c as u32, r as u32);
        if let Some(l) = surface_layer(chf, rm, region, c as u32, r as u32, 0) {
            let s = choose|s: u32| #[trigger]
                is_surface_of(chf, rm, region, c as u32, r as u32, s) && chf.surfaces(
                    c as u32,
                    r as u32,
                )[s as int].layer == l;
            assert(is_surface_of(chf, rm, region, c as u32, r as u32, s));
        }
    }
}

/// All the surfaces of a region that a path may pass at are sampled, the lowest
/// in each column.
pub proof fn samples_are_complete(
    chf: CompactHeightfield,
    rm: RegionMap,
    region: RegionId,
    c: u32,
    r: u32,
)
    requires
        chf.wf(),
    ensures
        is_sampled(chf, rm, region, c, r, passing_layers(chf, rm, region, c, r)),
{
    if region != no_region() && c < chf.cols && r < chf.rows {
        lemma_part_beside(chf, rm, region, c as int, r as int);
        lowest_surfaces_are_found(chf, rm, region, c, r);
        if surface_layer(chf, rm, region, c, r, 0) is None {
            let (x, y) = (c as int, r as int);
            lemma_part_beside(chf, rm, region, x - 1, y);
            lemma_part_beside(chf, rm, region, x + 1, y);
            lemma_part_beside(chf, rm, region, x, y - 1);
            lemma_part_beside(chf, rm, region, x, y + 1);
            reveal_with_fuel(layers_beside, 5);
            let (left, right) = (
                part_beside(chf, rm, region, x - 1, y),
                part_beside(chf, rm, region, x + 1, y),
            );
            let (below, above) = (
                part_beside(chf, rm, region, x, y - 1),
                part_beside(chf, rm, region, x, y + 1),
            );
            assert(joined_parts(left, right, below, above) =~= layers_beside(
                chf,
                rm,
                region,
                c,
                r,
                4,
            ));
        }
    }
}

/// A sampled height never leaves its region: every layer that a path may pass
/// at is that of a surface of the region, in the column or in one beside it.
pub proof fn samples_stay_in_their_region(
    chf: CompactHeightfield,
    rm: RegionMap,
    region: RegionId,
    c: u32,
    r: u32,
    i: int,
)
    requires
        chf.wf(),
        0 <= i < passing_layers(chf, rm, region, c, r).len(),
    ensures
        exists|bc: u32, br: u32, s: u32| #[trigger]
            chf.has(bc, br, s) && rm.region_of(bc, br, s) == region && chf.surfaces(
                bc,
                br,
            )[s as int].layer == passing_layers(chf, rm, region, c, r)[i] && near(c, r, bc, br),
{
    match surface_layer(chf, rm, region, c, r, 0) {
        Some(l) => {
            lemma_surface_found(chf, rm, region, c, r, 0);
        },
        None => {
            lemma_beside_found(chf, rm, region, c, r, 4, i);
        },
    }
}

/// Whether two columns are the same or share a side.
pub open spec fn near(c: u32, r: u32, bc: u32, br: u32) -> bool {
    let (dc, dr) = (bc - c, br - r);
    (dc == 0 && -1 <= dr <= 1) || (dr == 0 && -1 <= dc <= 1)
}

proof fn lemma_surface_found(
    chf: CompactHeightfield,
    rm: RegionMap,
    region: RegionId,
    c: u32,
    r: u32,
    s: nat,
)
    requires
        chf.wf(),
        surface_layer(chf, rm, region, c, r, s) is Some,
    ensures
        exists|t: u32| #[trigger]
            chf.has(c, r, t) && rm.region_of(c, r, t) == region && Some(
                chf.surfaces(c, r)[t as int].layer,
            ) == surface_layer(chf, rm, region, c, r, s),
    decreases chf.surfaces(c, r).len() - s,
{
    assert(chf.surfaces(c, r).len() <= u32::MAX);
    if rm.region_of(c, r, s as u32) == region {
        assert(chf.has(c, r, s as u32));
    } else {
        lemma_surface_found(chf, rm, region, c, r, s + 1);
    }
}

proof fn lemma_beside_found(
    chf: CompactHeightfield,
    rm: RegionMap,
    region: RegionId,
    c: u32,
    r: u32,
    n: nat,
    i: int,
)
    requires
        chf.wf(),
        n <= 4,
        0 <= i < layers_beside(chf, rm, region, c, r, n).len(),
    ensures
        exists|bc: u32, br: u32, s: u32| #[trigger]
            chf.has(bc, br, s) && rm.region_of(bc, br, s) == region && chf.surfaces(
                bc,
                br,
            )[s as int].layer == layers_beside(chf, rm, region, c, r, n)[i] && near(c, r, bc, br),
    decreases n,
{
    let before = layers_beside(chf, rm, region, c, r, (n - 1) as nat);
    if i < before.len() {
        lemma_beside_found(chf, rm, region, c, r, (n - 1) as nat, i);
    } else {
        let (bc, br) = beside(c as int, r as int, n - 1);
        lemma_surface_found(chf, rm, region, bc as u32, br as u32, 0);
        assert(near(c, r, bc as u32, br as u32));
    }
}

// --- Mean heights -----------------------------------------------------------

/// The mean height of a ring is none below its lowest vertex and none above its
/// highest.
pub proof fn means_lie_between(ring: Seq<ContourVertex>, lo: nat, hi: nat, n: nat)
    requires
        n <= ring.len(),
        forall|i: int| 0 <= i < n ==> lo <= (#[trigger] ring[i]).height2 <= hi,
    ensures
        lo * n <= height_sum(ring, n) <= hi * n,
    decreases n,
{
    if n > 0 {
        means_lie_between(ring, lo, hi, (n - 1) as nat);
        let v = ring[n - 1];
        assert(lo * n == lo * (n - 1) + lo && hi * n == hi * (n - 1) + hi) by (nonlinear_arith);
    } else {
        assert(lo * n == 0 && hi * n == 0) by (nonlinear_arith)
            requires
                n == 0,
        ;
    }
}

/// A vertex that is raised raises the sum of the heights by as much.
pub proof fn heights_follow_the_vertices(ring: Seq<ContourVertex>, i: int, v: ContourVertex, n: nat)
    requires
        0 <= i < n <= ring.len(),
    ensures
        height_sum(ring.update(i, v), n) + ring[i].height2 == height_sum(ring, n) + v.height2,
    decreases n,
{
    let m = (n - 1) as nat;
    if i < m {
        heights_follow_the_vertices(ring, i, v, m);
    } else {
        lemma_heights_agree(ring, ring.update(i, v), m);
    }
}

proof fn lemma_heights_agree(a: Seq<ContourVertex>, b: Seq<ContourVertex>, n: nat)
    requires
        n <= a.len(),
        n <= b.len(),
        forall|i: int| 0 <= i < n ==> a[i] == b[i],
    ensures
        height_sum(a, n) == height_sum(b, n),
    decreases n,
{
    if n > 0 {
        lemma_heights_agree(a, b, (n - 1) as nat);
    }
}

// --- Cost of a path ---------------------------------------------------------

/// Where prices are orderly, no path between two regions costs less than the
/// one that is found.
pub proof fn found_paths_cost_least<F: Fn(u64, usize, u32, usize, u32) -> (u64, u64)>(
    portals: Seq<Portal>,
    price: F,
    a: RegionId,
    b: RegionId,
    path: Path,
    step: spec_fn(u64, usize, usize, u32) -> u64,
    key: spec_fn(usize, u64) -> u64,
    other: Path,
)
    requires
        a != b,
        is_orderly(price, step, key),
        route_found(portals, price, a, b, path),
        is_path(portals, other, a, b),
    ensures
        cost_along(step, region_nodes(path), portal_tags(path), portal_tags(path).len() as int)
            <= cost_along(
            step,
            region_nodes(other),
            portal_tags(other),
            portal_tags(other).len() as int,
        ),
{
    let links = choose|links: Seq<Vec<Link>>|
        links.len() <= u32::MAX && joins_regions(links, portals) && #[trigger] is_found(
            links,
            price,
            false,
            a.0 as int,
            b.0 as int,
            region_nodes(path),
            portal_tags(path),
        );
    assert forall|x: int, j: int|
        0 <= x < links.len() && 0 <= j < links[x]@.len() implies (#[trigger] links[x]@[j]).to
        < links.len() by {
        let l = links[x]@[j];
        assert(linked(links, x, l.to as int, l.tag));
        assert(portal_joins(portals, l.tag as int, l.to as int, x));
        assert(linked(links, l.to as int, x, l.tag));
    }
    let (nodes, tags) = (region_nodes(other), portal_tags(other));
    let (w, r) = (other.waypoints@, other.regions@);
    assert forall|i: int| 0 <= i < tags.len() implies linked(
        links,
        nodes[i] as int,
        nodes[i + 1] as int,
        #[trigger] tags[i],
    ) by {
        assert(w[i + 1] matches Waypoint::Portal(k) && portal_joins(
            portals,
            k as int,
            r[i + 1 - 1].0 as int,
            r[i + 1].0 as int,
        ));
        assert(linked(links, nodes[i] as int, nodes[i + 1] as int, tags[i]) == portal_joins(
            portals,
            tags[i] as int,
            nodes[i] as int,
            nodes[i + 1] as int,
        ));
    }
    assert(is_route(links, nodes, tags, a.0 as int, b.0 as int));
    assert(r.len() > 1);
    let n = tags.len() - 1;
    assert(linked(links, nodes[0] as int, nodes[0int + 1] as int, tags[0]));
    assert(linked(links, nodes[n] as int, nodes[n + 1] as int, tags[n]));
    assert(portal_joins(portals, tags[n] as int, nodes[n + 1] as int, nodes[n] as int));
    assert(linked(links, nodes[n + 1] as int, nodes[n] as int, tags[n]));
    found_routes_cost_least(
        links,
        price,
        false,
        a.0 as int,
        b.0 as int,
        region_nodes(path),
        portal_tags(path),
        step,
        key,
        nodes,
        tags,
    );
}

} // verus!
