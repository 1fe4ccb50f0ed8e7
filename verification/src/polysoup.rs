//! Triangle soups: a pool of vertices and triangles that index it, with no
//! promise about winding or topology.

use crate::coord::{coord_less, value};
use crate::world::Point3;
use vstd::prelude::*;

verus! {

/// A pool of vertices and the triangles among them.
#[derive(Clone, Debug, PartialEq)]
pub struct PolySoup {
    pub vertices: Vec<Point3>,
    pub triangles: Vec<[u32; 3]>,
}

/// Why a soup is refused.
#[derive(Copy, Clone, Debug, PartialEq, Eq, Structural)]
pub enum PolySoupError {
    /// A triangle has a corner past the end of the pool.
    OutOfRangeIndex { triangle: u32, vertex: u32 },
    /// Two corners of a triangle are the same vertex.
    DegenerateTriangle { triangle: u32 },
}

/// What is wrong with one triangle of a soup with `n` vertices: the first
/// corner past the end, or two equal corners.
pub open spec fn fault_of(t: [u32; 3], at: u32, n: nat) -> Option<PolySoupError> {
    if t@[0] >= n {
        Some(PolySoupError::OutOfRangeIndex { triangle: at, vertex: t@[0] })
    } else if t@[1] >= n {
        Some(PolySoupError::OutOfRangeIndex { triangle: at, vertex: t@[1] })
    } else if t@[2] >= n {
        Some(PolySoupError::OutOfRangeIndex { triangle: at, vertex: t@[2] })
    } else if t@[0] == t@[1] || t@[1] == t@[2] || t@[0] == t@[2] {
        Some(PolySoupError::DegenerateTriangle { triangle: at })
    } else {
        None
    }
}

/// A triangle whose corners are moved up by `offset`.
pub open spec fn moved_up(t: [u32; 3], offset: int) -> [u32; 3] {
    [(t@[0] + offset) as u32, (t@[1] + offset) as u32, (t@[2] + offset) as u32]
}

/// All triangles with their corners moved up by `offset`.
pub open spec fn all_moved_up(ts: Seq<[u32; 3]>, offset: int) -> Seq<[u32; 3]> {
    Seq::new(ts.len(), |i: int| moved_up(ts[i], offset))
}

/// Whether every corner stays an index when moved up by `offset`.
pub open spec fn room_above(ts: Seq<[u32; 3]>, offset: int) -> bool {
    forall|i: int, k: int|
        0 <= i < ts.len() && 0 <= k < 3 ==> (#[trigger] ts[i]@[k]) + offset <= u32::MAX
}

/// Whether `p` is in the box from `lo` to `hi`.
pub open spec fn is_within(lo: Point3, hi: Point3, p: Point3) -> bool {
    &&& value(lo.x) <= value(p.x) <= value(hi.x)
    &&& value(lo.y) <= value(p.y) <= value(hi.y)
    &&& value(lo.z) <= value(p.z) <= value(hi.z)
}

fn lesser(a: u64, b: u64) -> (r: u64)
    ensures
        r == a || r == b,
        value(r) <= value(a) && value(r) <= value(b),
{
    if coord_less(b, a) {
        b
    } else {
        a
    }
}

fn greater(a: u64, b: u64) -> (r: u64)
    ensures
        r == a || r == b,
        value(r) >= value(a) && value(r) >= value(b),
{
    if coord_less(a, b) {
        b
    } else {
        a
    }
}

fn low_corner(a: Point3, b: Point3) -> (r: Point3)
    ensures
        r.x == a.x || r.x == b.x,
        r.y == a.y || r.y == b.y,
        r.z == a.z || r.z == b.z,
        value(r.x) <= value(a.x) && value(r.x) <= value(b.x),
        value(r.y) <= value(a.y) && value(r.y) <= value(b.y),
        value(r.z) <= value(a.z) && value(r.z) <= value(b.z),
{
    Point3 { x: lesser(a.x, b.x), y: lesser(a.y, b.y), z: lesser(a.z, b.z) }
}

fn high_corner(a: Point3, b: Point3) -> (r: Point3)
    ensures
        r.x == a.x || r.x == b.x,
        r.y == a.y || r.y == b.y,
        r.z == a.z || r.z == b.z,
        value(r.x) >= value(a.x) && value(r.x) >= value(b.x),
        value(r.y) >= value(a.y) && value(r.y) >= value(b.y),
        value(r.z) >= value(a.z) && value(r.z) >= value(b.z),
{
    Point3 { x: greater(a.x, b.x), y: greater(a.y, b.y), z: greater(a.z, b.z) }
}

impl Default for PolySoup {
    fn default() -> (s: PolySoup)
        ensures
            s.vertices@.len() == 0,
            s.triangles@.len() == 0,
    {
        PolySoup { vertices: Vec::new(), triangles: Vec::new() }
    }
}

impl PolySoup {
    /// A soup without triangles.
    pub fn new() -> (s: PolySoup)
        ensures
            s.vertices@.len() == 0,
            s.triangles@.len() == 0,
    {
        PolySoup { vertices: Vec::new(), triangles: Vec::new() }
    }

    /// A soup without triangles that has room for some.
    pub fn with_capacity(vertices: usize, triangles: usize) -> (s: PolySoup)
        ensures
            s.vertices@.len() == 0,
            s.triangles@.len() == 0,
    {
        PolySoup {
            vertices: Vec::with_capacity(vertices),
            triangles: Vec::with_capacity(triangles),
        }
    }

    /// The number of vertices.
    pub fn vertex_count(&self) -> (n: usize)
        ensures
            n == self.vertices@.len(),
    {
        self.vertices.len()
    }

    /// The number of triangles.
    pub fn triangle_count(&self) -> (n: usize)
        ensures
            n == self.triangles@.len(),
    {
        self.triangles.len()
    }

    /// Whether there are no triangles.
    pub fn is_empty(&self) -> (b: bool)
        ensures
            b == (self.triangles@.len() == 0),
    {
        self.triangles.len() == 0
    }

    /// Whether vertex `v` is a corner of a triangle.
    pub open spec fn references(&self, v: int) -> bool {
        &&& 0 <= v < self.vertices@.len()
        &&& exists|i: int, k: int|
            0 <= i < self.triangles@.len() && 0 <= k < 3 && (#[trigger] self.triangles@[i]@[k])
                == v
    }

    /// Whether the box from `lo` to `hi` holds every corner of every triangle
    /// and is no larger than that asks for.
    pub open spec fn is_bounds(&self, lo: Point3, hi: Point3) -> bool {
        let at = self.vertices@;
        &&& forall|v: int| #[trigger] self.references(v) ==> is_within(lo, hi, at[v])
        &&& exists|v: int| #[trigger] self.references(v) && at[v].x == lo.x
        &&& exists|v: int| #[trigger] self.references(v) && at[v].y == lo.y
        &&& exists|v: int| #[trigger] self.references(v) && at[v].z == lo.z
        &&& exists|v: int| #[trigger] self.references(v) && at[v].x == hi.x
        &&& exists|v: int| #[trigger] self.references(v) && at[v].y == hi.y
        &&& exists|v: int| #[trigger] self.references(v) && at[v].z == hi.z
    }

    /// The least and the greatest coordinates of the corners of all triangles:
    /// none where no triangle has a corner in the pool.
    pub fn bounds(&self) -> (b: Option<(Point3, Point3)>)
        ensures
            match b {
                None => forall|v: int| !#[trigger] self.references(v),
                Some((lo, hi)) => self.is_bounds(lo, hi),
            },
    {
        let mut b: Option<(Point3, Point3)> = None;
        let mut i: usize = 0;
        while i < self.triangles.len()
            invariant
                i <= self.triangles@.len(),
                self.bounds_first(b, i as int, 0),
            decreases self.triangles.len() - i,
        {
            let mut k: usize = 0;
            while k < 3
                invariant
                    i < self.triangles@.len(),
                    k <= 3,
                    self.bounds_first(b, i as int, k as int),
                decreases 3 - k,
            {
                let v: usize = self.triangles[i][k] as usize;
                if v < self.vertices.len() {
                    assert(self.triangles@[i as int]@[k as int] == v);
                    assert(self.references(v as int));
                    let p = self.vertices[v];
                    b = Some(
                        match b {
                            None => (p, p),
                            Some((lo, hi)) => (low_corner(lo, p), high_corner(hi, p)),
                        },
                    );
                }
                k += 1;
            }
            i += 1;
        }
        b
    }

    /// Whether `b` bounds the corners of the first `i` triangles and the first
    /// `k` of the next.
    spec fn bounds_first(&self, b: Option<(Point3, Point3)>, i: int, k: int) -> bool {
        let at = self.vertices@;
        &&& forall|j: int, e: int|
            #![trigger self.triangles@[j]@[e]]
            0 <= j < self.triangles@.len() && 0 <= e < 3 && (j < i || j == i && e < k)
                && self.triangles@[j]@[e] < at.len() ==> (b matches Some((lo, hi)) && is_within(
                lo,
                hi,
                at[self.triangles@[j]@[e] as int],
            ))
        &&& b matches Some((lo, hi)) ==> {
            &&& exists|v: int| #[trigger] self.references(v) && at[v].x == lo.x
            &&& exists|v: int| #[trigger] self.references(v) && at[v].y == lo.y
            &&& exists|v: int| #[trigger] self.references(v) && at[v].z == lo.z
            &&& exists|v: int| #[trigger] self.references(v) && at[v].x == hi.x
            &&& exists|v: int| #[trigger] self.references(v) && at[v].y == hi.y
            &&& exists|v: int| #[trigger] self.references(v) && at[v].z == hi.z
        }
    }

    /// What is wrong with triangle `i`.
    pub open spec fn fault_at(&self, i: int) -> Option<PolySoupError> {
        fault_of(self.triangles@[i], i as u32, self.vertices@.len())
    }

    /// Whether every triangle has three different corners in the pool.
    pub open spec fn valid(&self) -> bool {
        forall|i: int| 0 <= i < self.triangles@.len() ==> #[trigger] self.fault_at(i) is None
    }

    /// Check that every triangle has three different corners in the pool. The
    /// first triangle that does not decides the error.
    pub fn validate(&self) -> (r: Result<(), PolySoupError>)
        requires
            self.vertices@.len() <= u32::MAX,
            self.triangles@.len() <= u32::MAX,
        ensures
            match r {
                Ok(_) => self.valid(),
                Err(e) => exists|i: int|
                    0 <= i < self.triangles@.len() && (#[trigger] self.fault_at(i)) == Some(e)
                        && forall|j: int| 0 <= j < i ==> #[trigger] self.fault_at(j) is None,
            },
    {
        let n: u32 = self.vertices.len() as u32;
        let mut i: usize = 0;
        while i < self.triangles.len()
            invariant
                n == self.vertices@.len(),
                i <= self.triangles@.len() <= u32::MAX,
                forall|j: int| 0 <= j < i ==> #[trigger] self.fault_at(j) is None,
            decreases self.triangles.len() - i,
        {
            let t = self.triangles[i];
            let at: u32 = i as u32;
            assert(self.fault_at(i as int) == fault_of(t, at, n as nat));
            if t[0] >= n {
                return Err(PolySoupError::OutOfRangeIndex { triangle: at, vertex: t[0] });
            }
            if t[1] >= n {
                return Err(PolySoupError::OutOfRangeIndex { triangle: at, vertex: t[1] });
            }
            if t[2] >= n {
                return Err(PolySoupError::OutOfRangeIndex { triangle: at, vertex: t[2] });
            }
            if t[0] == t[1] || t[1] == t[2] || t[0] == t[2] {
                return Err(PolySoupError::DegenerateTriangle { triangle: at });
            }
            i += 1;
        }
        Ok(())
    }

    /// Whether every corner is in the pool.
    pub open spec fn indexed(&self) -> bool {
        forall|i: int, k: int|
            0 <= i < self.triangles@.len() && 0 <= k < 3 ==> (#[trigger] self.triangles@[i]@[k])
                < self.vertices@.len()
    }

    /// The corners of every triangle.
    pub fn triangle_positions(&self) -> (out: Vec<[Point3; 3]>)
        requires
            self.indexed(),
        ensures
            out@.len() == self.triangles@.len(),
            forall|i: int, k: int|
                0 <= i < out@.len() && 0 <= k < 3 ==> (#[trigger] out@[i]@[k])
                    == self.vertices@[self.triangles@[i]@[k] as int],
    {
        let mut out: Vec<[Point3; 3]> = Vec::new();
        let mut i: usize = 0;
        while i < self.triangles.len()
            invariant
                i <= self.triangles@.len(),
                self.indexed(),
                out@.len() == i,
                forall|j: int, k: int|
                    0 <= j < i && 0 <= k < 3 ==> (#[trigger] out@[j]@[k])
                        == self.vertices@[self.triangles@[j]@[k] as int],
            decreases self.triangles.len() - i,
        {
            let t = self.triangles[i];
            proof {
                let g = self.triangles@[i as int];
                assert(g@[0] < self.vertices@.len() && g@[1] < self.vertices@.len() && g@[2]
                    < self.vertices@.len());
            }
            out.push(
                [
                    self.vertices[t[0] as usize],
                    self.vertices[t[1] as usize],
                    self.vertices[t[2] as usize],
                ],
            );
            i += 1;
        }
        out
    }

    /// Add vertices, and triangles whose corners count from the first of them.
    pub(crate) fn extend(&mut self, positions: &Vec<Point3>, triangles: &Vec<[u32; 3]>)
        requires
            old(self).vertices@.len() <= u32::MAX,
            room_above(triangles@, old(self).vertices@.len() as int),
        ensures
            final(self).vertices@ == old(self).vertices@ + positions@,
            final(self).triangles@ == old(self).triangles@ + all_moved_up(
                triangles@,
                old(self).vertices@.len() as int,
            ),
    {
        let offset: u32 = self.vertices.len() as u32;
        let ghost before = *self;
        let mut i: usize = 0;
        while i < positions.len()
            invariant
                i <= positions@.len(),
                self.vertices@ == before.vertices@ + positions@.take(i as int),
                self.triangles == before.triangles,
            decreases positions.len() - i,
        {
            self.vertices.push(positions[i]);
            proof {
                assert(positions@.take(i + 1) =~= positions@.take(i as int).push(
                    positions@[i as int],
                ));
            }
            i += 1;
        }
        assert(positions@.take(positions@.len() as int) =~= positions@);
        let mut j: usize = 0;
        while j < triangles.len()
            invariant
                j <= triangles@.len(),
                offset == before.vertices@.len(),
                room_above(triangles@, offset as int),
                self.vertices@ == before.vertices@ + positions@,
                self.triangles@ == before.triangles@ + all_moved_up(
                    triangles@,
                    offset as int,
                ).take(j as int),
            decreases triangles.len() - j,
        {
            let t = triangles[j];
            proof {
                let g = triangles@[j as int];
                assert(g@[0] + offset <= u32::MAX && g@[1] + offset <= u32::MAX && g@[2] + offset
                    <= u32::MAX);
            }
            let up = [t[0] + offset, t[1] + offset, t[2] + offset];
            self.triangles.push(up);
            proof {
                let all = all_moved_up(triangles@, offset as int);
                assert(up@ =~= all[j as int]@);
                assert(up == all[j as int]);
                assert(all.take(j + 1) =~= all.take(j as int).push(all[j as int]));
            }
            j += 1;
        }
        assert(all_moved_up(triangles@, offset as int).take(triangles@.len() as int)
            =~= all_moved_up(triangles@, offset as int));
    }

    /// Append another soup: its vertices come after those here, and its
    /// triangles keep their corners.
    pub fn append(&mut self, other: &PolySoup)
        requires
            old(self).vertices@.len() <= u32::MAX,
            room_above(other.triangles@, old(self).vertices@.len() as int),
        ensures
            final(self).vertices@ == old(self).vertices@ + other.vertices@,
            final(self).triangles@ == old(self).triangles@ + all_moved_up(
                other.triangles@,
                old(self).vertices@.len() as int,
            ),
    {
        self.extend(&other.vertices, &other.triangles);
    }
}

/// Appending a valid soup to a valid soup gives a valid soup.
pub proof fn appending_keeps_soups_valid(a: PolySoup, b: PolySoup, joined: PolySoup)
    requires
        a.valid(),
        b.valid(),
        room_above(b.triangles@, a.vertices@.len() as int),
        joined.vertices@ == a.vertices@ + b.vertices@,
        joined.triangles@ == a.triangles@ + all_moved_up(b.triangles@, a.vertices@.len() as int),
    ensures
        joined.valid(),
{
    assert forall|i: int| 0 <= i < joined.triangles@.len() implies #[trigger] joined.fault_at(
        i,
    ) is None by {
        if i < a.triangles@.len() {
            assert(a.fault_at(i) is None);
            assert(joined.triangles@[i] == a.triangles@[i]);
        } else {
            let j = i - a.triangles@.len();
            assert(b.fault_at(j) is None);
            assert(joined.triangles@[i] == moved_up(b.triangles@[j], a.vertices@.len() as int));
            let t = b.triangles@[j];
            assert(t@[0] + a.vertices@.len() <= u32::MAX && t@[1] + a.vertices@.len() <= u32::MAX
                && t@[2] + a.vertices@.len() <= u32::MAX);
        }
    }
}

/// A triangle of an appended soup has the corners that it had before.
pub proof fn appended_triangles_keep_their_corners(
    a: PolySoup,
    b: PolySoup,
    joined: PolySoup,
    i: int,
    k: int,
)
    requires
        b.indexed(),
        room_above(b.triangles@, a.vertices@.len() as int),
        joined.vertices@ == a.vertices@ + b.vertices@,
        joined.triangles@ == a.triangles@ + all_moved_up(b.triangles@, a.vertices@.len() as int),
        0 <= i < b.triangles@.len(),
        0 <= k < 3,
    ensures
        joined.vertices@[joined.triangles@[a.triangles@.len() + i]@[k] as int]
            == b.vertices@[b.triangles@[i]@[k] as int],
{
    let t = b.triangles@[i];
    assert(t@[k] + a.vertices@.len() <= u32::MAX);
    assert(t@[k] < b.vertices@.len());
    assert(joined.triangles@[a.triangles@.len() + i] == moved_up(t, a.vertices@.len() as int));
}

/// Whether triangle `i` of a soup joins three different vertices of it.
pub open spec fn is_proper(s: PolySoup, i: int) -> bool {
    forall|j: int, k: int|
        #![trigger s.triangles@[i]@[j], s.triangles@[i]@[k]]
        0 <= j < 3 && 0 <= k < 3 ==> s.triangles@[i]@[j] < s.vertices@.len() && (j != k
            ==> s.triangles@[i]@[j] != s.triangles@[i]@[k])
}

/// What is found wrong with a triangle is so: it is named, and a vertex that is
/// named is a corner of it and none of the soup; nothing is found only where
/// the triangle joins three different vertices of the soup.
pub proof fn faults_are_of_improper_triangles(s: PolySoup, i: int)
    requires
        0 <= i < s.triangles@.len() <= u32::MAX,
    ensures
        s.fault_at(i) is None <==> is_proper(s, i),
        s.fault_at(i) matches Some(PolySoupError::OutOfRangeIndex { triangle, vertex }) ==> triangle
            == i && vertex >= s.vertices@.len() && exists|k: int|
            0 <= k < 3 && #[trigger] s.triangles@[i]@[k] == vertex,
        s.fault_at(i) matches Some(PolySoupError::DegenerateTriangle { triangle }) ==> triangle == i
            && forall|k: int| 0 <= k < 3 ==> #[trigger] s.triangles@[i]@[k] < s.vertices@.len(),
{
    let t = s.triangles@[i]@;
    assert(t.len() == 3);
    assert(s.triangles@[i]@[0] == t[0] && s.triangles@[i]@[1] == t[1] && s.triangles@[i]@[2]
        == t[2]);
    if is_proper(s, i) {
        assert(t[0] < s.vertices@.len() && t[0] != t[1]);
        assert(t[1] < s.vertices@.len() && t[1] != t[2]);
        assert(t[2] < s.vertices@.len() && t[2] != t[0]);
    }
    if s.fault_at(i) is None {
        assert forall|j: int, k: int|
            #![trigger s.triangles@[i]@[j], s.triangles@[i]@[k]]
            0 <= j < 3 && 0 <= k < 3 implies s.triangles@[i]@[j] < s.vertices@.len() && (j != k
            ==> s.triangles@[i]@[j] != s.triangles@[i]@[k]) by {
            assert(j == 0 || j == 1 || j == 2);
            assert(k == 0 || k == 1 || k == 2);
        }
    }
}

} // verus!
