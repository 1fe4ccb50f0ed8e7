//! The triangulation: vertex, triangle and subsegment pools with half-edge
//! handles.
//!
//! Slot 0 of the triangle pool and slot 0 of the subsegment pool are dummies:
//! "no neighbour here" is a handle into slot 0, so links never need a null
//! test.

use crate::predicates::Vertex;
use vstd::prelude::*;

verus! {

/// Successor of each edge number around a triangle.
pub const PLUS1_MOD3: [u8; 3] = [1, 2, 0];

/// Predecessor of each edge number around a triangle.
pub const MINUS1_MOD3: [u8; 3] = [2, 0, 1];

/// Index of the dummy triangle.
pub const DUMMY_TRI: u32 = 0;

/// Index of the dummy subsegment.
pub const DUMMY_SUB: u32 = 0;

/// Triangle flag: marked for removal.
pub const TRI_INFECTED: u8 = 1;

/// Triangle flag: the slot is recycled.
pub const TRI_DEAD: u8 = 2;

/// Subsegment flag: the slot is recycled.
pub const SUB_DEAD: u8 = 1;

/// Number of triangle slots that a packed reference can address.
pub const TRI_LIMIT: u32 = 0x4000_0000;

/// Number of subsegment slots that a packed reference can address.
pub const SUB_LIMIT: u32 = 0x8000_0000;

/// The handle on the dummy triangle.
pub open spec fn no_tri() -> Otri {
    Otri { tri: 0, orient: 0 }
}

/// The handle on the dummy subsegment.
pub open spec fn no_sub() -> Osub {
    Osub { sub: 0, orient: 0 }
}

/// The id that names no vertex.
pub open spec fn no_vertex() -> VertexId {
    VertexId(u32::MAX)
}

/// Index of a vertex, or the invalid id.
#[derive(Copy, Clone, Debug, PartialEq, Eq, Structural, Hash)]
pub struct VertexId(pub u32);

impl VertexId {
    /// The id that names no vertex.
    pub fn invalid() -> (r: VertexId)
        ensures
            r == no_vertex(),
    {
        VertexId(u32::MAX)
    }

    pub fn new(id: u32) -> (r: VertexId)
        ensures
            r.0 == id,
    {
        VertexId(id)
    }

    pub fn get(self) -> (r: u32)
        ensures
            r == self.0,
    {
        self.0
    }

    pub fn index(self) -> (r: usize)
        ensures
            r == self.0,
    {
        self.0 as usize
    }

    pub open spec fn valid(self) -> bool {
        self.0 != u32::MAX
    }

    pub fn is_valid(self) -> (r: bool)
        ensures
            r == self.valid(),
    {
        self.0 != u32::MAX
    }
}

/// Handle on one edge of one triangle; edges run counter-clockwise.
#[derive(Copy, Clone, Debug, PartialEq, Eq, Structural, Hash)]
pub struct Otri {
    pub tri: u32,
    pub orient: u8,
}

/// Handle on one side of one subsegment.
#[derive(Copy, Clone, Debug, PartialEq, Eq, Structural, Hash)]
pub struct Osub {
    pub sub: u32,
    pub orient: u8,
}

/// Triangle index and edge number packed into one word, the edge number in
/// the low two bits.
#[derive(Copy, Clone, Debug, PartialEq, Eq, Structural, Hash)]
pub struct EncodedTri(pub u32);

/// Subsegment index and side packed into one word, the side in the low bit.
#[derive(Copy, Clone, Debug, PartialEq, Eq, Structural, Hash)]
pub struct EncodedSub(pub u32);

impl EncodedTri {
    /// Reference to the dummy triangle.
    pub fn dummy() -> (r: EncodedTri)
        ensures
            r == EncodedTri(0),
            r.handle() == no_tri(),
    {
        EncodedTri(0)
    }

    /// The handle that the word stands for.
    pub open spec fn handle(self) -> Otri {
        Otri { tri: self.0 / 4, orient: (self.0 % 4) as u8 }
    }

    pub fn pack(tri: u32, orient: u8) -> (r: EncodedTri)
        requires
            orient < 3,
            tri < TRI_LIMIT,
        ensures
            r.handle() == (Otri { tri, orient }),
            r.0 == 4 * tri + orient,
    {
        EncodedTri(tri * 4 + orient as u32)
    }

    pub fn tri(self) -> (r: u32)
        ensures
            r == self.handle().tri,
    {
        self.0 / 4
    }

    pub fn orient(self) -> (r: u8)
        ensures
            r == self.handle().orient,
    {
        (self.0 % 4) as u8
    }

    pub fn to_otri(self) -> (r: Otri)
        ensures
            r == self.handle(),
    {
        Otri { tri: self.tri(), orient: self.orient() }
    }
}

impl EncodedSub {
    /// Reference to the dummy subsegment.
    pub fn dummy() -> (r: EncodedSub)
        ensures
            r == EncodedSub(0),
            r.handle() == no_sub(),
    {
        EncodedSub(0)
    }

    /// The handle that the word stands for.
    pub open spec fn handle(self) -> Osub {
        Osub { sub: self.0 / 2, orient: (self.0 % 2) as u8 }
    }

    pub fn pack(sub: u32, orient: u8) -> (r: EncodedSub)
        requires
            orient < 2,
            sub < SUB_LIMIT,
        ensures
            r.handle() == (Osub { sub, orient }),
            r.0 == 2 * sub + orient,
    {
        EncodedSub(sub * 2 + orient as u32)
    }

    pub fn sub(self) -> (r: u32)
        ensures
            r == self.handle().sub,
    {
        self.0 / 2
    }

    pub fn orient(self) -> (r: u8)
        ensures
            r == self.handle().orient,
    {
        (self.0 % 2) as u8
    }

    pub fn to_osub(self) -> (r: Osub)
        ensures
            r == self.handle(),
    {
        Osub { sub: self.sub(), orient: self.orient() }
    }
}

impl Otri {
    /// Handle on the dummy triangle.
    pub fn dummy() -> (r: Otri)
        ensures
            r == no_tri(),
    {
        Otri { tri: DUMMY_TRI, orient: 0 }
    }

    pub fn new(tri: u32, orient: u8) -> (r: Otri)
        requires
            orient < 3,
        ensures
            r == (Otri { tri, orient }),
    {
        Otri { tri, orient }
    }

    pub fn encode(self) -> (r: EncodedTri)
        requires
            self.orient < 3,
            self.tri < TRI_LIMIT,
        ensures
            r.handle() == self,
    {
        EncodedTri::pack(self.tri, self.orient)
    }

    /// The next edge counter-clockwise around the same triangle.
    pub open spec fn next(self) -> Otri {
        Otri {
            tri: self.tri,
            orient: if self.orient == 0 {
                1
            } else if self.orient == 1 {
                2
            } else {
                0
            },
        }
    }

    /// The previous edge around the same triangle.
    pub open spec fn prev(self) -> Otri {
        Otri {
            tri: self.tri,
            orient: if self.orient == 0 {
                2
            } else if self.orient == 1 {
                0
            } else {
                1
            },
        }
    }

    pub fn lnext(self) -> (r: Otri)
        requires
            self.orient < 3,
        ensures
            r == self.next(),
    {
        Otri { tri: self.tri, orient: PLUS1_MOD3[self.orient as usize] }
    }

    pub fn lprev(self) -> (r: Otri)
        requires
            self.orient < 3,
        ensures
            r == self.prev(),
    {
        Otri { tri: self.tri, orient: MINUS1_MOD3[self.orient as usize] }
    }
}

impl Osub {
    /// Handle on the dummy subsegment.
    pub fn dummy() -> (r: Osub)
        ensures
            r == no_sub(),
    {
        Osub { sub: DUMMY_SUB, orient: 0 }
    }

    pub fn new(sub: u32, orient: u8) -> (r: Osub)
        requires
            orient < 2,
        ensures
            r == (Osub { sub, orient }),
    {
        Osub { sub, orient }
    }

    pub fn encode(self) -> (r: EncodedSub)
        requires
            self.orient < 2,
            self.sub < SUB_LIMIT,
        ensures
            r.handle() == self,
    {
        EncodedSub::pack(self.sub, self.orient)
    }

    /// The other side of the same subsegment.
    pub open spec fn other(self) -> Osub {
        Osub { sub: self.sub, orient: (1 - self.orient) as u8 }
    }

    pub fn ssym(self) -> (r: Osub)
        requires
            self.orient < 2,
        ensures
            r == self.other(),
    {
        Osub { sub: self.sub, orient: 1 - self.orient }
    }
}

/// Packing a handle and unpacking the word gives the handle back, and
/// unpacking a word loses nothing.
pub proof fn tri_words_are_handles(a: EncodedTri, b: EncodedTri)
    ensures
        a.handle() == b.handle() <==> a == b,
{
}

/// Unpacking a subsegment word loses nothing.
pub proof fn sub_words_are_handles(a: EncodedSub, b: EncodedSub)
    ensures
        a.handle() == b.handle() <==> a == b,
{
}

/// `lnext` and `lprev` undo each other, and three steps come back.
pub proof fn edges_cycle(o: Otri)
    requires
        o.orient < 3,
    ensures
        o.next().prev() == o,
        o.prev().next() == o,
        o.next().next().next() == o,
        o.prev().prev().prev() == o,
        o.next().next() == o.prev(),
        o.prev().prev() == o.next(),
        o.next() != o,
        o.prev() != o,
        o.next() != o.prev(),
{
}

/// `ssym` is an involution without fixed points.
pub proof fn sides_swap(s: Osub)
    requires
        s.orient < 2,
    ensures
        s.other().other() == s,
        s.other() != s,
{
}

/// One triangle. `neighbors[k]` is the edge glued to edge `k`, `vertices[k]`
/// the corner opposite edge `k`, `subsegs[k]` the subsegment on edge `k`.
#[derive(Copy, Clone, Debug, PartialEq)]
pub struct TriangleSlot {
    pub neighbors: [EncodedTri; 3],
    pub vertices: [VertexId; 3],
    pub subsegs: [EncodedSub; 3],
    pub flags: u8,
}

/// Whether a triangle's flags say it is dead.
pub open spec fn flags_dead(flags: u8) -> bool {
    flags & 2 != 0
}

/// Whether a triangle's flags say it is infected.
pub open spec fn flags_infected(flags: u8) -> bool {
    flags & 1 != 0
}

/// Whether a subsegment's flags say it is dead.
pub open spec fn sub_flags_dead(flags: u8) -> bool {
    flags & 1 != 0
}

impl TriangleSlot {
    /// A triangle with no neighbours, no subsegments, no corners and no flags.
    pub open spec fn is_fresh(self) -> bool {
        &&& forall|k: int| 0 <= k < 3 ==> self.neighbors@[k] == EncodedTri(0)
        &&& forall|k: int| 0 <= k < 3 ==> self.vertices@[k] == VertexId(u32::MAX)
        &&& forall|k: int| 0 <= k < 3 ==> self.subsegs@[k] == EncodedSub(0)
        &&& self.flags == 0
    }

    pub fn fresh() -> (r: TriangleSlot)
        ensures
            r.is_fresh(),
    {
        let e = EncodedTri(0);
        let v = VertexId(u32::MAX);
        let s = EncodedSub(0);
        TriangleSlot { neighbors: [e, e, e], vertices: [v, v, v], subsegs: [s, s, s], flags: 0 }
    }

    pub fn is_dead(self) -> (r: bool)
        ensures
            r == flags_dead(self.flags),
    {
        self.flags & TRI_DEAD != 0
    }

    pub fn is_infected(self) -> (r: bool)
        ensures
            r == flags_infected(self.flags),
    {
        self.flags & TRI_INFECTED != 0
    }
}

/// One subsegment. `triangles[k]` is the triangle edge on side `k`,
/// `sub_vertices[k]` the origin seen from side `k`, `seg_vertices[k]` the
/// origin of the whole inserted segment, `next[k]` the neighbour along the
/// chain.
#[derive(Copy, Clone, Debug, PartialEq)]
pub struct SubsegSlot {
    pub next: [EncodedSub; 2],
    pub sub_vertices: [VertexId; 2],
    pub seg_vertices: [VertexId; 2],
    pub triangles: [EncodedTri; 2],
    pub marker: i32,
    pub flags: u8,
}

impl SubsegSlot {
    /// A subsegment glued to nothing.
    pub open spec fn is_fresh(self) -> bool {
        &&& forall|k: int| 0 <= k < 2 ==> self.next@[k] == EncodedSub(0)
        &&& forall|k: int| 0 <= k < 2 ==> self.sub_vertices@[k] == VertexId(u32::MAX)
        &&& forall|k: int| 0 <= k < 2 ==> self.seg_vertices@[k] == VertexId(u32::MAX)
        &&& forall|k: int| 0 <= k < 2 ==> self.triangles@[k] == EncodedTri(0)
        &&& self.marker == 0
        &&& self.flags == 0
    }

    pub fn fresh() -> (r: SubsegSlot)
        ensures
            r.is_fresh(),
    {
        let e = EncodedTri(0);
        let v = VertexId(u32::MAX);
        let s = EncodedSub(0);
        SubsegSlot {
            next: [s, s],
            sub_vertices: [v, v],
            seg_vertices: [v, v],
            triangles: [e, e],
            marker: 0,
            flags: 0,
        }
    }

    pub fn is_dead(self) -> (r: bool)
        ensures
            r == sub_flags_dead(self.flags),
    {
        self.flags & SUB_DEAD != 0
    }
}

/// What a vertex is to the triangulation.
#[derive(Copy, Clone, Debug, PartialEq, Eq, Structural)]
pub enum VertexType {
    Input,
    Segment,
    Free,
    Dead,
    Undead,
}

/// One vertex: position, marker, type and one incident triangle edge.
#[derive(Copy, Clone, Debug, PartialEq, Eq, Structural)]
pub struct VertexSlot {
    pub position: Vertex,
    pub marker: i32,
    pub vtype: VertexType,
    pub triangle: EncodedTri,
}

impl VertexSlot {
    pub fn new(position: Vertex, marker: i32) -> (r: VertexSlot)
        ensures
            r == (VertexSlot {
                position,
                marker,
                vtype: VertexType::Input,
                triangle: EncodedTri(0),
            }),
    {
        VertexSlot { position, marker, vtype: VertexType::Input, triangle: EncodedTri(0) }
    }
}

/// The triangulation as mathematics: every link is a map from handles.
#[verifier::ext_equal]
pub struct MeshView {
    pub vertices: Seq<VertexSlot>,
    /// Number of triangle slots, dummy counted.
    pub tri_count: nat,
    /// The edge glued to each edge.
    pub nbr: Map<Otri, Otri>,
    /// The corner opposite each edge.
    pub corner: Map<Otri, VertexId>,
    /// The subsegment side on each edge.
    pub tsub: Map<Otri, Osub>,
    /// The flags of each triangle.
    pub tflags: Seq<u8>,
    /// Number of subsegment slots, dummy counted.
    pub sub_count: nat,
    /// The chain neighbour at each side.
    pub snext: Map<Osub, Osub>,
    /// The origin seen from each side.
    pub svert: Map<Osub, VertexId>,
    /// The origin of the whole segment seen from each side.
    pub segvert: Map<Osub, VertexId>,
    /// The triangle edge on each side.
    pub stri: Map<Osub, Otri>,
    /// The marker of each subsegment.
    pub smark: Seq<i32>,
    /// The flags of each subsegment.
    pub sflags: Seq<u8>,
    pub hull_size: u32,
    /// Recycled triangle slots, the next to be reused last.
    pub free_tris: Seq<u32>,
    /// Recycled subsegment slots, the next to be reused last.
    pub free_subs: Seq<u32>,
}

impl MeshView {
    /// Whether `o` is a handle on a triangle slot.
    pub open spec fn has(self, o: Otri) -> bool {
        o.tri < self.tri_count && o.orient < 3
    }

    /// Whether `s` is a handle on a subsegment slot.
    pub open spec fn has_sub(self, s: Osub) -> bool {
        s.sub < self.sub_count && s.orient < 2
    }

    /// Whether `v` names a vertex.
    pub open spec fn has_vertex(self, v: VertexId) -> bool {
        v.0 < self.vertices.len()
    }

    /// Every stored link leads to an existing slot.
    pub open spec fn wf(self) -> bool {
        &&& 1 <= self.tri_count <= TRI_LIMIT
        &&& 1 <= self.sub_count <= SUB_LIMIT
        &&& self.vertices.len() <= u32::MAX
        &&& self.tflags.len() == self.tri_count
        &&& self.smark.len() == self.sub_count
        &&& self.sflags.len() == self.sub_count
        &&& forall|o: Otri| self.has(o) <==> #[trigger] self.nbr.contains_key(o)
        &&& forall|o: Otri| self.has(o) <==> #[trigger] self.corner.contains_key(o)
        &&& forall|o: Otri| self.has(o) <==> #[trigger] self.tsub.contains_key(o)
        &&& forall|s: Osub| self.has_sub(s) <==> #[trigger] self.snext.contains_key(s)
        &&& forall|s: Osub| self.has_sub(s) <==> #[trigger] self.svert.contains_key(s)
        &&& forall|s: Osub| self.has_sub(s) <==> #[trigger] self.segvert.contains_key(s)
        &&& forall|s: Osub| self.has_sub(s) <==> #[trigger] self.stri.contains_key(s)
        &&& forall|o: Otri| self.has(o) ==> self.has(#[trigger] self.nbr[o])
        &&& forall|o: Otri| self.has(o) ==> self.has_sub(#[trigger] self.tsub[o])
        &&& forall|s: Osub| self.has_sub(s) ==> self.has(#[trigger] self.stri[s])
        &&& forall|s: Osub| self.has_sub(s) ==> self.has_sub(#[trigger] self.snext[s])
        &&& forall|i: int|
            0 <= i < self.vertices.len() ==> self.has(
                (#[trigger] self.vertices[i]).triangle.handle(),
            )
        &&& forall|i: int|
            0 <= i < self.free_tris.len() ==> 0 < #[trigger] self.free_tris[i] < self.tri_count
        &&& forall|i: int|
            0 <= i < self.free_subs.len() ==> 0 < #[trigger] self.free_subs[i] < self.sub_count
    }

    /// Origin of an edge.
    pub open spec fn org(self, o: Otri) -> VertexId {
        self.corner[o.next()]
    }

    /// Destination of an edge.
    pub open spec fn dest(self, o: Otri) -> VertexId {
        self.corner[o.prev()]
    }

    /// Corner opposite an edge.
    pub open spec fn apex(self, o: Otri) -> VertexId {
        self.corner[o]
    }

    /// The same edge seen from the neighbouring triangle.
    pub open spec fn sym(self, o: Otri) -> Otri {
        self.nbr[o]
    }

    pub open spec fn pos(self, v: VertexId) -> Vertex {
        self.vertices[v.0 as int].position
    }

    pub open spec fn dead(self, t: u32) -> bool {
        flags_dead(self.tflags[t as int])
    }

    pub open spec fn infected(self, t: u32) -> bool {
        flags_infected(self.tflags[t as int])
    }

    pub open spec fn sub_dead(self, s: u32) -> bool {
        sub_flags_dead(self.sflags[s as int])
    }

    pub open spec fn with_nbr(self, o: Otri, v: Otri) -> MeshView {
        MeshView { nbr: self.nbr.insert(o, v), ..self }
    }

    pub open spec fn with_corner(self, o: Otri, v: VertexId) -> MeshView {
        MeshView { corner: self.corner.insert(o, v), ..self }
    }

    pub open spec fn with_tsub(self, o: Otri, s: Osub) -> MeshView {
        MeshView { tsub: self.tsub.insert(o, s), ..self }
    }

    pub open spec fn with_stri(self, s: Osub, o: Otri) -> MeshView {
        MeshView { stri: self.stri.insert(s, o), ..self }
    }

    pub open spec fn with_org(self, o: Otri, v: VertexId) -> MeshView {
        self.with_corner(o.next(), v)
    }

    pub open spec fn with_dest(self, o: Otri, v: VertexId) -> MeshView {
        self.with_corner(o.prev(), v)
    }

    pub open spec fn with_corners(
        self,
        o: Otri,
        org: VertexId,
        dest: VertexId,
        apex: VertexId,
    ) -> MeshView {
        self.with_org(o, org).with_dest(o, dest).with_corner(o, apex)
    }

    /// Two edges glued together.
    pub open spec fn bonded(self, a: Otri, b: Otri) -> MeshView {
        self.with_nbr(a, b).with_nbr(b, a)
    }

    /// A triangle edge glued to a subsegment side.
    pub open spec fn ts_bonded(self, o: Otri, s: Osub) -> MeshView {
        self.with_tsub(o, s).with_stri(s, o)
    }

    /// The slot that the next triangle takes.
    pub open spec fn next_tri(self) -> u32 {
        if self.free_tris.len() > 0 {
            self.free_tris.last()
        } else {
            self.tri_count as u32
        }
    }

    /// Whether another triangle can be made.
    pub open spec fn tri_room(self) -> bool {
        self.free_tris.len() > 0 || self.tri_count < TRI_LIMIT
    }

    /// A triangle made in the slot `next_tri()`, glued to nothing.
    pub open spec fn with_triangle(self) -> MeshView {
        let t = self.next_tri();
        let (o0, o1, o2) = (
            Otri { tri: t, orient: 0 },
            Otri { tri: t, orient: 1 },
            Otri { tri: t, orient: 2 },
        );
        MeshView {
            tri_count: if self.free_tris.len() > 0 {
                self.tri_count
            } else {
                self.tri_count + 1
            },
            nbr: self.nbr.insert(o0, no_tri()).insert(o1, no_tri()).insert(o2, no_tri()),
            corner: self.corner.insert(o0, no_vertex()).insert(o1, no_vertex()).insert(
                o2,
                no_vertex(),
            ),
            tsub: self.tsub.insert(o0, no_sub()).insert(o1, no_sub()).insert(o2, no_sub()),
            tflags: if self.free_tris.len() > 0 {
                self.tflags.update(t as int, 0)
            } else {
                self.tflags.push(0)
            },
            free_tris: if self.free_tris.len() > 0 {
                self.free_tris.drop_last()
            } else {
                self.free_tris
            },
            ..self
        }
    }

    /// A triangle marked dead, its slot put up for reuse.
    pub open spec fn without_triangle(self, t: u32) -> MeshView {
        MeshView {
            tflags: self.tflags.update(t as int, self.tflags[t as int] | 2),
            free_tris: self.free_tris.push(t),
            ..self
        }
    }

    pub open spec fn with_flags(self, t: u32, flags: u8) -> MeshView {
        MeshView { tflags: self.tflags.update(t as int, flags), ..self }
    }

    /// The slot that the next subsegment takes.
    pub open spec fn next_sub(self) -> u32 {
        if self.free_subs.len() > 0 {
            self.free_subs.last()
        } else {
            self.sub_count as u32
        }
    }

    /// Whether another subsegment can be made.
    pub open spec fn sub_room(self) -> bool {
        self.free_subs.len() > 0 || self.sub_count < SUB_LIMIT
    }

    /// A subsegment made in the slot `next_sub()`, glued to nothing.
    pub open spec fn with_subseg(self) -> MeshView {
        let s = self.next_sub();
        let (s0, s1) = (Osub { sub: s, orient: 0 }, Osub { sub: s, orient: 1 });
        MeshView {
            sub_count: if self.free_subs.len() > 0 {
                self.sub_count
            } else {
                self.sub_count + 1
            },
            snext: self.snext.insert(s0, no_sub()).insert(s1, no_sub()),
            svert: self.svert.insert(s0, no_vertex()).insert(s1, no_vertex()),
            segvert: self.segvert.insert(s0, no_vertex()).insert(s1, no_vertex()),
            stri: self.stri.insert(s0, no_tri()).insert(s1, no_tri()),
            smark: if self.free_subs.len() > 0 {
                self.smark.update(s as int, 0)
            } else {
                self.smark.push(0)
            },
            sflags: if self.free_subs.len() > 0 {
                self.sflags.update(s as int, 0)
            } else {
                self.sflags.push(0)
            },
            free_subs: if self.free_subs.len() > 0 {
                self.free_subs.drop_last()
            } else {
                self.free_subs
            },
            ..self
        }
    }

    /// A subsegment marked dead, its slot put up for reuse.
    pub open spec fn without_subseg(self, s: u32) -> MeshView {
        MeshView {
            sflags: self.sflags.update(s as int, self.sflags[s as int] | 1),
            free_subs: self.free_subs.push(s),
            ..self
        }
    }

    pub open spec fn with_svert(self, s: Osub, v: VertexId) -> MeshView {
        MeshView { svert: self.svert.insert(s, v), ..self }
    }

    pub open spec fn with_segvert(self, s: Osub, v: VertexId) -> MeshView {
        MeshView { segvert: self.segvert.insert(s, v), ..self }
    }

    pub open spec fn with_snext(self, s: Osub, v: Osub) -> MeshView {
        MeshView { snext: self.snext.insert(s, v), ..self }
    }

    pub open spec fn with_smark(self, s: u32, marker: i32) -> MeshView {
        MeshView { smark: self.smark.update(s as int, marker), ..self }
    }

    /// The mesh with a triangle slot replaced.
    pub open spec fn with_tri_slot(self, tri: u32, slot: TriangleSlot) -> MeshView {
        MeshView {
            nbr: Map::new(
                |o: Otri| self.nbr.contains_key(o),
                |o: Otri|
                    if o.tri == tri {
                        slot.neighbors@[o.orient as int].handle()
                    } else {
                        self.nbr[o]
                    },
            ),
            corner: Map::new(
                |o: Otri| self.corner.contains_key(o),
                |o: Otri|
                    if o.tri == tri {
                        slot.vertices@[o.orient as int]
                    } else {
                        self.corner[o]
                    },
            ),
            tsub: Map::new(
                |o: Otri| self.tsub.contains_key(o),
                |o: Otri|
                    if o.tri == tri {
                        slot.subsegs@[o.orient as int].handle()
                    } else {
                        self.tsub[o]
                    },
            ),
            tflags: self.tflags.update(tri as int, slot.flags),
            ..self
        }
    }

    /// The mesh with a subsegment slot replaced.
    pub open spec fn with_sub_slot(self, sub: u32, slot: SubsegSlot) -> MeshView {
        MeshView {
            snext: Map::new(
                |o: Osub| self.snext.contains_key(o),
                |o: Osub|
                    if o.sub == sub {
                        slot.next@[o.orient as int].handle()
                    } else {
                        self.snext[o]
                    },
            ),
            svert: Map::new(
                |o: Osub| self.svert.contains_key(o),
                |o: Osub|
                    if o.sub == sub {
                        slot.sub_vertices@[o.orient as int]
                    } else {
                        self.svert[o]
                    },
            ),
            segvert: Map::new(
                |o: Osub| self.segvert.contains_key(o),
                |o: Osub|
                    if o.sub == sub {
                        slot.seg_vertices@[o.orient as int]
                    } else {
                        self.segvert[o]
                    },
            ),
            stri: Map::new(
                |o: Osub| self.stri.contains_key(o),
                |o: Osub|
                    if o.sub == sub {
                        slot.triangles@[o.orient as int].handle()
                    } else {
                        self.stri[o]
                    },
            ),
            smark: self.smark.update(sub as int, slot.marker),
            sflags: self.sflags.update(sub as int, slot.flags),
            ..self
        }
    }

    /// The mesh with a vertex slot replaced.
    pub open spec fn with_vertex_slot(self, v: VertexId, slot: VertexSlot) -> MeshView {
        MeshView { vertices: self.vertices.update(v.0 as int, slot), ..self }
    }
}

pub(crate) fn copy_slots<T: Copy>(slots: &Vec<T>) -> (r: Vec<T>)
    ensures
        r@ == slots@,
{
    let mut r: Vec<T> = Vec::with_capacity(slots.len());
    let mut i: usize = 0;
    while i < slots.len()
        invariant
            i <= slots@.len(),
            r@ == slots@.take(i as int),
        decreases slots.len() - i,
    {
        r.push(slots[i]);
        i += 1;
        assert(slots@.take(i as int) =~= slots@.take(i - 1).push(slots@[i - 1]));
    }
    assert(slots@.take(slots@.len() as int) =~= slots@);
    r
}

/// The triangulation. Slot 0 of `triangles` and of `subsegs` is the dummy.
#[derive(Clone, Debug)]
pub struct CdtMesh {
    pub vertices: Vec<VertexSlot>,
    pub triangles: Vec<TriangleSlot>,
    pub subsegs: Vec<SubsegSlot>,
    /// Number of triangles on the convex hull, set by triangulation.
    pub hull_size: u32,
    free_tris: Vec<u32>,
    free_subs: Vec<u32>,
}

impl View for CdtMesh {
    type V = MeshView;

    closed spec fn view(&self) -> MeshView {
        let t = self.triangles@;
        let s = self.subsegs@;
        MeshView {
            vertices: self.vertices@,
            tri_count: t.len(),
            nbr: Map::new(
                |o: Otri| o.tri < t.len() && o.orient < 3,
                |o: Otri| t[o.tri as int].neighbors@[o.orient as int].handle(),
            ),
            corner: Map::new(
                |o: Otri| o.tri < t.len() && o.orient < 3,
                |o: Otri| t[o.tri as int].vertices@[o.orient as int],
            ),
            tsub: Map::new(
                |o: Otri| o.tri < t.len() && o.orient < 3,
                |o: Otri| t[o.tri as int].subsegs@[o.orient as int].handle(),
            ),
            tflags: t.map_values(|x: TriangleSlot| x.flags),
            sub_count: s.len(),
            snext: Map::new(
                |o: Osub| o.sub < s.len() && o.orient < 2,
                |o: Osub| s[o.sub as int].next@[o.orient as int].handle(),
            ),
            svert: Map::new(
                |o: Osub| o.sub < s.len() && o.orient < 2,
                |o: Osub| s[o.sub as int].sub_vertices@[o.orient as int],
            ),
            segvert: Map::new(
                |o: Osub| o.sub < s.len() && o.orient < 2,
                |o: Osub| s[o.sub as int].seg_vertices@[o.orient as int],
            ),
            stri: Map::new(
                |o: Osub| o.sub < s.len() && o.orient < 2,
                |o: Osub| s[o.sub as int].triangles@[o.orient as int].handle(),
            ),
            smark: s.map_values(|x: SubsegSlot| x.marker),
            sflags: s.map_values(|x: SubsegSlot| x.flags),
            hull_size: self.hull_size,
            free_tris: self.free_tris@,
            free_subs: self.free_subs@,
        }
    }
}

impl Default for CdtMesh {
    fn default() -> (m: CdtMesh)
        ensures
            m@.wf(),
            m@.vertices.len() == 0,
            m@.tri_count == 1,
            m@.sub_count == 1,
            m@.hull_size == 0,
            m@.free_tris.len() == 0,
            m@.free_subs.len() == 0,
            forall|o: Otri| m@.has(o) ==> m@.nbr[o] == no_tri() && m@.corner[o] == no_vertex()
                && m@.tsub[o] == no_sub(),
            forall|s: Osub| m@.has_sub(s) ==> m@.stri[s] == no_tri() && m@.snext[s] == no_sub()
                && m@.svert[s] == no_vertex() && m@.segvert[s] == no_vertex(),
            m@.tflags == seq![0u8],
            m@.sflags == seq![0u8],
            m@.smark == seq![0i32],
    {
        CdtMesh::new()
    }
}

impl CdtMesh {
    /// An empty mesh: only the two dummies.
    pub fn new() -> (m: CdtMesh)
        ensures
            m@.wf(),
            m@.vertices.len() == 0,
            m@.tri_count == 1,
            m@.sub_count == 1,
            m@.hull_size == 0,
            m@.free_tris.len() == 0,
            m@.free_subs.len() == 0,
            forall|o: Otri| m@.has(o) ==> m@.nbr[o] == no_tri() && m@.corner[o] == no_vertex()
                && m@.tsub[o] == no_sub(),
            forall|s: Osub| m@.has_sub(s) ==> m@.stri[s] == no_tri() && m@.snext[s] == no_sub()
                && m@.svert[s] == no_vertex() && m@.segvert[s] == no_vertex(),
            m@.tflags == seq![0u8],
            m@.sflags == seq![0u8],
            m@.smark == seq![0i32],
    {
        let mut triangles: Vec<TriangleSlot> = Vec::new();
        triangles.push(TriangleSlot::fresh());
        let mut subsegs: Vec<SubsegSlot> = Vec::new();
        subsegs.push(SubsegSlot::fresh());
        CdtMesh {
            vertices: Vec::new(),
            triangles,
            subsegs,
            hull_size: 0,
            free_tris: Vec::new(),
            free_subs: Vec::new(),
        }
    }

    pub(crate) fn put_nbr(&mut self, o: Otri, v: Otri)
        requires
            old(self)@.wf(),
            old(self)@.has(o),
            old(self)@.has(v),
        ensures
            final(self)@ == old(self)@.with_nbr(o, v),
            final(self)@.wf(),
    {
        let mut slot = self.triangles[o.tri as usize];
        slot.neighbors[o.orient as usize] = v.encode();
        self.triangles[o.tri as usize] = slot;
        assert(self@ =~= old(self)@.with_nbr(o, v));
    }

    fn put_corner(&mut self, o: Otri, v: VertexId)
        requires
            old(self)@.wf(),
            old(self)@.has(o),
        ensures
            final(self)@ == old(self)@.with_corner(o, v),
            final(self)@.wf(),
    {
        let mut slot = self.triangles[o.tri as usize];
        slot.vertices[o.orient as usize] = v;
        self.triangles[o.tri as usize] = slot;
        assert(self@ =~= old(self)@.with_corner(o, v));
    }

    fn put_tsub(&mut self, o: Otri, v: Osub)
        requires
            old(self)@.wf(),
            old(self)@.has(o),
            old(self)@.has_sub(v),
        ensures
            final(self)@ == old(self)@.with_tsub(o, v),
            final(self)@.wf(),
    {
        let mut slot = self.triangles[o.tri as usize];
        slot.subsegs[o.orient as usize] = v.encode();
        self.triangles[o.tri as usize] = slot;
        assert(self@ =~= old(self)@.with_tsub(o, v));
    }

    fn put_stri(&mut self, o: Osub, v: Otri)
        requires
            old(self)@.wf(),
            old(self)@.has_sub(o),
            old(self)@.has(v),
        ensures
            final(self)@ == old(self)@.with_stri(o, v),
            final(self)@.wf(),
    {
        let mut slot = self.subsegs[o.sub as usize];
        slot.triangles[o.orient as usize] = v.encode();
        self.subsegs[o.sub as usize] = slot;
        assert(self@ =~= old(self)@.with_stri(o, v));
    }

    fn put_svert(&mut self, o: Osub, v: VertexId)
        requires
            old(self)@.wf(),
            old(self)@.has_sub(o),
        ensures
            final(self)@ == old(self)@.with_svert(o, v),
            final(self)@.wf(),
    {
        let mut slot = self.subsegs[o.sub as usize];
        slot.sub_vertices[o.orient as usize] = v;
        self.subsegs[o.sub as usize] = slot;
        assert(self@ =~= old(self)@.with_svert(o, v));
    }

    fn put_segvert(&mut self, o: Osub, v: VertexId)
        requires
            old(self)@.wf(),
            old(self)@.has_sub(o),
        ensures
            final(self)@ == old(self)@.with_segvert(o, v),
            final(self)@.wf(),
    {
        let mut slot = self.subsegs[o.sub as usize];
        slot.seg_vertices[o.orient as usize] = v;
        self.subsegs[o.sub as usize] = slot;
        assert(self@ =~= old(self)@.with_segvert(o, v));
    }

    fn put_snext(&mut self, o: Osub, v: Osub)
        requires
            old(self)@.wf(),
            old(self)@.has_sub(o),
            old(self)@.has_sub(v),
        ensures
            final(self)@ == old(self)@.with_snext(o, v),
            final(self)@.wf(),
    {
        let mut slot = self.subsegs[o.sub as usize];
        slot.next[o.orient as usize] = v.encode();
        self.subsegs[o.sub as usize] = slot;
        assert(self@ =~= old(self)@.with_snext(o, v));
    }

    /// Reserve room in the three pools.
    pub fn reserve(&mut self, vertex_cap: usize, triangle_cap: usize, subseg_cap: usize)
        ensures
            final(self)@ == old(self)@,
    {
        self.vertices.reserve(vertex_cap);
        self.triangles.reserve(triangle_cap);
        self.subsegs.reserve(subseg_cap);
        assert(self@ =~= old(self)@);
    }

    /// Add a vertex; ids count up from 0.
    pub fn push_vertex(&mut self, slot: VertexSlot) -> (id: VertexId)
        requires
            old(self)@.wf(),
            old(self)@.vertices.len() < u32::MAX,
            old(self)@.has(slot.triangle.handle()),
        ensures
            id.0 == old(self)@.vertices.len(),
            final(self)@ == (MeshView { vertices: old(self)@.vertices.push(slot), ..old(self)@ }),
            final(self)@.wf(),
    {
        let id = VertexId::new(self.vertices.len() as u32);
        self.vertices.push(slot);
        assert(self@ =~= (MeshView { vertices: old(self)@.vertices.push(slot), ..old(self)@ }));
        id
    }

    pub fn vertex(&self, id: VertexId) -> (r: &VertexSlot)
        requires
            self@.has_vertex(id),
        ensures
            *r == self@.vertices[id.0 as int],
    {
        &self.vertices[id.index()]
    }

    pub fn vertex_mut(&mut self, id: VertexId) -> (r: &mut VertexSlot)
        requires
            old(self)@.has_vertex(id),
        ensures
            *r == old(self)@.vertices[id.0 as int],
            final(self)@ == old(self)@.with_vertex_slot(id, *final(r)),
    {
        &mut self.vertices[id.index()]
    }

    /// Replace a vertex slot.
    pub fn set_vertex(&mut self, id: VertexId, slot: VertexSlot)
        requires
            old(self)@.wf(),
            old(self)@.has_vertex(id),
            old(self)@.has(slot.triangle.handle()),
        ensures
            final(self)@ == old(self)@.with_vertex_slot(id, slot),
            final(self)@.wf(),
    {
        self.vertices[id.index()] = slot;
        assert(self@ =~= old(self)@.with_vertex_slot(id, slot));
    }

    pub fn vertex_pos(&self, id: VertexId) -> (r: Vertex)
        requires
            self@.has_vertex(id),
        ensures
            r == self@.pos(id),
    {
        self.vertices[id.index()].position
    }

    /// How many triangle slots wait to be used again.
    pub(crate) fn free_tri_count(&self) -> (r: usize)
        ensures
            r == self@.free_tris.len(),
    {
        self.free_tris.len()
    }

    /// How many subsegment slots wait to be used again.
    pub(crate) fn free_sub_count(&self) -> (r: usize)
        ensures
            r == self@.free_subs.len(),
    {
        self.free_subs.len()
    }

    /// A subsegment slot that waits to be used again.
    pub(crate) fn free_sub(&self, i: usize) -> (r: u32)
        requires
            i < self@.free_subs.len(),
        ensures
            r == self@.free_subs[i as int],
    {
        self.free_subs[i]
    }

    /// Whether no triangle slot waits to be used again.
    pub fn is_packed(&self) -> (r: bool)
        ensures
            r == (self@.free_tris.len() == 0),
    {
        self.free_tris.len() == 0
    }

    /// A mesh with the same contents.
    pub fn copied(&self) -> (r: CdtMesh)
        ensures
            r@ == self@,
    {
        CdtMesh {
            vertices: copy_slots(&self.vertices),
            triangles: copy_slots(&self.triangles),
            subsegs: copy_slots(&self.subsegs),
            hull_size: self.hull_size,
            free_tris: copy_slots(&self.free_tris),
            free_subs: copy_slots(&self.free_subs),
        }
    }

    /// Number of vertices.
    pub fn vertex_count(&self) -> (r: usize)
        ensures
            r == self@.vertices.len(),
    {
        self.vertices.len()
    }

    /// Number of triangle slots, dummy counted.
    pub fn tri_slots(&self) -> (r: usize)
        ensures
            r == self@.tri_count,
    {
        self.triangles.len()
    }

    /// Number of subsegment slots, dummy counted.
    pub fn sub_slots(&self) -> (r: usize)
        ensures
            r == self@.sub_count,
    {
        self.subsegs.len()
    }

    /// Whether another triangle can be made.
    pub fn has_tri_room(&self) -> (r: bool)
        requires
            self@.wf(),
        ensures
            r == self@.tri_room(),
    {
        self.free_tris.len() > 0 || self.triangles.len() < TRI_LIMIT as usize
    }

    /// Whether another subsegment can be made.
    pub fn has_sub_room(&self) -> (r: bool)
        requires
            self@.wf(),
        ensures
            r == self@.sub_room(),
    {
        self.free_subs.len() > 0 || self.subsegs.len() < SUB_LIMIT as usize
    }

    /// Make a triangle, reusing the slot recycled last where there is one.
    pub fn make_triangle(&mut self) -> (o: Otri)
        requires
            old(self)@.wf(),
            old(self)@.tri_room(),
        ensures
            o == (Otri { tri: old(self)@.next_tri(), orient: 0 }),
            final(self)@ == old(self)@.with_triangle(),
            final(self)@.wf(),
            final(self)@.has(o),
            final(self)@.tri_count >= old(self)@.tri_count,
            final(self)@.vertices == old(self)@.vertices,
    {
        let tri: u32 = if let Some(idx) = self.free_tris.pop() {
            self.triangles[idx as usize] = TriangleSlot::fresh();
            idx
        } else {
            let idx: u32 = self.triangles.len() as u32;
            self.triangles.push(TriangleSlot::fresh());
            idx
        };
        assert(self@ =~= old(self)@.with_triangle());
        Otri { tri, orient: 0 }
    }

    /// Mark a triangle dead and recycle its slot.
    pub fn kill_triangle(&mut self, tri: u32)
        requires
            old(self)@.wf(),
            0 < tri < old(self)@.tri_count,
        ensures
            final(self)@ == old(self)@.without_triangle(tri),
            final(self)@.wf(),
    {
        let mut slot = self.triangles[tri as usize];
        slot.flags = slot.flags | TRI_DEAD;
        self.triangles[tri as usize] = slot;
        self.free_tris.push(tri);
        assert(self@ =~= old(self)@.without_triangle(tri));
    }

    /// Overwrite a triangle's flags.
    pub fn set_flags(&mut self, tri: u32, flags: u8)
        requires
            old(self)@.wf(),
            tri < old(self)@.tri_count,
        ensures
            final(self)@ == old(self)@.with_flags(tri, flags),
            final(self)@.wf(),
    {
        let mut slot = self.triangles[tri as usize];
        slot.flags = flags;
        self.triangles[tri as usize] = slot;
        assert(self@ =~= old(self)@.with_flags(tri, flags));
    }

    /// A triangle's flags.
    pub fn flags(&self, tri: u32) -> (r: u8)
        requires
            tri < self@.tri_count,
        ensures
            r == self@.tflags[tri as int],
    {
        self.triangles[tri as usize].flags
    }

    /// Whether triangle `tri` is dead.
    pub fn is_dead(&self, tri: u32) -> (r: bool)
        requires
            tri < self@.tri_count,
        ensures
            r == self@.dead(tri),
    {
        self.triangles[tri as usize].is_dead()
    }

    /// Whether triangle `tri` is infected.
    pub fn is_infected(&self, tri: u32) -> (r: bool)
        requires
            tri < self@.tri_count,
        ensures
            r == self@.infected(tri),
    {
        self.triangles[tri as usize].is_infected()
    }

    /// A triangle slot to write.
    pub fn triangle_mut(&mut self, tri: u32) -> (r: &mut TriangleSlot)
        requires
            tri < old(self)@.tri_count,
        ensures
            final(self)@.nbr =~= old(self)@.with_tri_slot(tri, *final(r)).nbr,
            final(self)@.corner =~= old(self)@.with_tri_slot(tri, *final(r)).corner,
            final(self)@.tsub =~= old(self)@.with_tri_slot(tri, *final(r)).tsub,
            final(self)@.tflags =~= old(self)@.with_tri_slot(tri, *final(r)).tflags,
            final(self)@ == (MeshView {
                nbr: final(self)@.nbr,
                corner: final(self)@.corner,
                tsub: final(self)@.tsub,
                tflags: final(self)@.tflags,
                ..old(self)@
            }),
            forall|k: u8| k < 3 ==> (#[trigger] r.neighbors@[k as int]).handle() == old(self)@.nbr[
                Otri { tri, orient: k }
            ],
            forall|k: u8| k < 3 ==> #[trigger] r.vertices@[k as int] == old(self)@.corner[
                Otri { tri, orient: k }
            ],
            forall|k: u8| k < 3 ==> (#[trigger] r.subsegs@[k as int]).handle() == old(self)@.tsub[
                Otri { tri, orient: k }
            ],
            r.flags == old(self)@.tflags[tri as int],
    {
        &mut self.triangles[tri as usize]
    }

    /// A subsegment slot to write.
    pub fn subseg_mut(&mut self, sub: u32) -> (r: &mut SubsegSlot)
        requires
            sub < old(self)@.sub_count,
        ensures
            final(self)@.snext =~= old(self)@.with_sub_slot(sub, *final(r)).snext,
            final(self)@.svert =~= old(self)@.with_sub_slot(sub, *final(r)).svert,
            final(self)@.segvert =~= old(self)@.with_sub_slot(sub, *final(r)).segvert,
            final(self)@.stri =~= old(self)@.with_sub_slot(sub, *final(r)).stri,
            final(self)@.smark =~= old(self)@.with_sub_slot(sub, *final(r)).smark,
            final(self)@.sflags =~= old(self)@.with_sub_slot(sub, *final(r)).sflags,
            final(self)@ == (MeshView {
                snext: final(self)@.snext,
                svert: final(self)@.svert,
                segvert: final(self)@.segvert,
                stri: final(self)@.stri,
                smark: final(self)@.smark,
                sflags: final(self)@.sflags,
                ..old(self)@
            }),
            r.marker == old(self)@.smark[sub as int],
            r.flags == old(self)@.sflags[sub as int],
            forall|k: u8| k < 2 ==> (#[trigger] r.next@[k as int]).handle() == old(self)@.snext[
                Osub { sub, orient: k }
            ],
            forall|k: u8| k < 2 ==> #[trigger] r.sub_vertices@[k as int] == old(self)@.svert[
                Osub { sub, orient: k }
            ],
            forall|k: u8| k < 2 ==> #[trigger] r.seg_vertices@[k as int] == old(self)@.segvert[
                Osub { sub, orient: k }
            ],
            forall|k: u8| k < 2 ==> (#[trigger] r.triangles@[k as int]).handle() == old(
                self,
            )@.stri[Osub { sub, orient: k }],
    {
        &mut self.subsegs[sub as usize]
    }

    pub fn triangle(&self, tri: u32) -> (r: &TriangleSlot)
        requires
            tri < self@.tri_count,
        ensures
            forall|k: u8| k < 3 ==> (#[trigger] r.neighbors@[k as int]).handle() == self@.nbr[
                Otri { tri, orient: k }
            ],
            forall|k: u8| k < 3 ==> #[trigger] r.vertices@[k as int] == self@.corner[
                Otri { tri, orient: k }
            ],
            forall|k: u8| k < 3 ==> (#[trigger] r.subsegs@[k as int]).handle() == self@.tsub[
                Otri { tri, orient: k }
            ],
            r.flags == self@.tflags[tri as int],
    {
        &self.triangles[tri as usize]
    }

    /// Live triangles: slots, less the dummy, less the recycled ones.
    pub fn live_triangle_count(&self) -> (r: usize)
        requires
            self@.wf(),
        ensures
            self@.free_tris.len() < self@.tri_count ==> r == self@.tri_count - 1
                - self@.free_tris.len(),
            self@.free_tris.len() >= self@.tri_count ==> r == 0,
    {
        self.triangles.len().saturating_sub(1).saturating_sub(self.free_tris.len())
    }

    /// Make a subsegment, reusing the slot recycled last where there is one.
    pub fn make_subseg(&mut self) -> (o: Osub)
        requires
            old(self)@.wf(),
            old(self)@.sub_room(),
        ensures
            o == (Osub { sub: old(self)@.next_sub(), orient: 0 }),
            final(self)@ == old(self)@.with_subseg(),
            final(self)@.wf(),
            final(self)@.has_sub(o),
    {
        let sub: u32 = if let Some(idx) = self.free_subs.pop() {
            self.subsegs[idx as usize] = SubsegSlot::fresh();
            idx
        } else {
            let idx: u32 = self.subsegs.len() as u32;
            self.subsegs.push(SubsegSlot::fresh());
            idx
        };
        assert(self@ =~= old(self)@.with_subseg());
        Osub { sub, orient: 0 }
    }

    /// Mark a subsegment dead and recycle its slot.
    pub fn kill_subseg(&mut self, sub: u32)
        requires
            old(self)@.wf(),
            0 < sub < old(self)@.sub_count,
        ensures
            final(self)@ == old(self)@.without_subseg(sub),
            final(self)@.wf(),
    {
        let mut slot = self.subsegs[sub as usize];
        slot.flags = slot.flags | SUB_DEAD;
        self.subsegs[sub as usize] = slot;
        self.free_subs.push(sub);
        assert(self@ =~= old(self)@.without_subseg(sub));
    }

    pub fn subseg(&self, sub: u32) -> (r: &SubsegSlot)
        requires
            sub < self@.sub_count,
        ensures
            forall|k: u8| k < 2 ==> (#[trigger] r.next@[k as int]).handle() == self@.snext[
                Osub { sub, orient: k }
            ],
            forall|k: u8| k < 2 ==> #[trigger] r.sub_vertices@[k as int] == self@.svert[
                Osub { sub, orient: k }
            ],
            forall|k: u8| k < 2 ==> #[trigger] r.seg_vertices@[k as int] == self@.segvert[
                Osub { sub, orient: k }
            ],
            forall|k: u8| k < 2 ==> (#[trigger] r.triangles@[k as int]).handle() == self@.stri[
                Osub { sub, orient: k }
            ],
            r.marker == self@.smark[sub as int],
            r.flags == self@.sflags[sub as int],
    {
        &self.subsegs[sub as usize]
    }

    /// Whether subsegment `sub` is dead.
    pub fn is_sub_dead(&self, sub: u32) -> (r: bool)
        requires
            sub < self@.sub_count,
        ensures
            r == self@.sub_dead(sub),
    {
        self.subsegs[sub as usize].is_dead()
    }

    /// The marker of subsegment `sub`.
    pub fn sub_marker(&self, sub: u32) -> (r: i32)
        requires
            sub < self@.sub_count,
        ensures
            r == self@.smark[sub as int],
    {
        self.subsegs[sub as usize].marker
    }

    /// Overwrite the marker of subsegment `sub`.
    pub fn set_sub_marker(&mut self, sub: u32, marker: i32)
        requires
            old(self)@.wf(),
            sub < old(self)@.sub_count,
        ensures
            final(self)@ == old(self)@.with_smark(sub, marker),
            final(self)@.wf(),
    {
        let mut slot = self.subsegs[sub as usize];
        slot.marker = marker;
        self.subsegs[sub as usize] = slot;
        assert(self@ =~= old(self)@.with_smark(sub, marker));
    }

    /// Live subsegments: slots, less the dummy, less the recycled ones.
    pub fn live_subseg_count(&self) -> (r: usize)
        requires
            self@.wf(),
        ensures
            self@.free_subs.len() < self@.sub_count ==> r == self@.sub_count - 1
                - self@.free_subs.len(),
            self@.free_subs.len() >= self@.sub_count ==> r == 0,
    {
        self.subsegs.len().saturating_sub(1).saturating_sub(self.free_subs.len())
    }

    /// Overwrite the hull size.
    pub fn set_hull_size(&mut self, n: u32)
        requires
            old(self)@.wf(),
        ensures
            final(self)@ == (MeshView { hull_size: n, ..old(self)@ }),
            final(self)@.wf(),
    {
        self.hull_size = n;
        assert(self@ =~= (MeshView { hull_size: n, ..old(self)@ }));
    }

    pub fn org(&self, o: Otri) -> (r: VertexId)
        requires
            self@.has(o),
        ensures
            r == self@.org(o),
    {
        self.triangles[o.tri as usize].vertices[PLUS1_MOD3[o.orient as usize] as usize]
    }

    pub fn dest(&self, o: Otri) -> (r: VertexId)
        requires
            self@.has(o),
        ensures
            r == self@.dest(o),
    {
        self.triangles[o.tri as usize].vertices[MINUS1_MOD3[o.orient as usize] as usize]
    }

    pub fn apex(&self, o: Otri) -> (r: VertexId)
        requires
            self@.has(o),
        ensures
            r == self@.apex(o),
    {
        self.triangles[o.tri as usize].vertices[o.orient as usize]
    }

    pub fn set_org(&mut self, o: Otri, v: VertexId)
        requires
            old(self)@.wf(),
            old(self)@.has(o),
        ensures
            final(self)@ == old(self)@.with_org(o, v),
            final(self)@.wf(),
    {
        self.put_corner(o.lnext(), v);
    }

    pub fn set_dest(&mut self, o: Otri, v: VertexId)
        requires
            old(self)@.wf(),
            old(self)@.has(o),
        ensures
            final(self)@ == old(self)@.with_dest(o, v),
            final(self)@.wf(),
    {
        self.put_corner(o.lprev(), v);
    }

    pub fn set_apex(&mut self, o: Otri, v: VertexId)
        requires
            old(self)@.wf(),
            old(self)@.has(o),
        ensures
            final(self)@ == old(self)@.with_corner(o, v),
            final(self)@.wf(),
    {
        self.put_corner(o, v);
    }

    /// Set the three corners seen from edge `o`.
    pub fn set_corners(&mut self, o: Otri, org: VertexId, dest: VertexId, apex: VertexId)
        requires
            old(self)@.wf(),
            old(self)@.has(o),
        ensures
            final(self)@ == old(self)@.with_corners(o, org, dest, apex),
            final(self)@.wf(),
    {
        self.set_org(o, org);
        self.set_dest(o, dest);
        self.set_apex(o, apex);
    }

    /// The same edge seen from the neighbouring triangle, or the dummy.
    pub fn sym(&self, o: Otri) -> (r: Otri)
        requires
            self@.wf(),
            self@.has(o),
        ensures
            r == self@.nbr[o],
            self@.has(r),
    {
        self.triangles[o.tri as usize].neighbors[o.orient as usize].to_otri()
    }

    /// Glue two edges together.
    pub fn bond(&mut self, a: Otri, b: Otri)
        requires
            old(self)@.wf(),
            old(self)@.has(a),
            old(self)@.has(b),
        ensures
            final(self)@ == old(self)@.bonded(a, b),
            final(self)@.wf(),
    {
        self.put_nbr(a, b);
        self.put_nbr(b, a);
    }

    /// Unglue one side of an edge.
    pub fn dissolve(&mut self, o: Otri)
        requires
            old(self)@.wf(),
            old(self)@.has(o),
        ensures
            final(self)@ == old(self)@.with_nbr(o, no_tri()),
            final(self)@.wf(),
    {
        self.put_nbr(o, Otri::dummy());
    }

    /// The subsegment side on an edge, or the dummy.
    pub fn tspivot(&self, o: Otri) -> (r: Osub)
        requires
            self@.wf(),
            self@.has(o),
        ensures
            r == self@.tsub[o],
            self@.has_sub(r),
    {
        self.triangles[o.tri as usize].subsegs[o.orient as usize].to_osub()
    }

    /// Glue a triangle edge to a subsegment side.
    pub fn tsbond(&mut self, o: Otri, s: Osub)
        requires
            old(self)@.wf(),
            old(self)@.has(o),
            old(self)@.has_sub(s),
        ensures
            final(self)@ == old(self)@.ts_bonded(o, s),
            final(self)@.wf(),
    {
        self.put_tsub(o, s);
        self.put_stri(s, o);
    }

    /// Take the subsegment off a triangle edge.
    pub fn ts_dissolve(&mut self, o: Otri)
        requires
            old(self)@.wf(),
            old(self)@.has(o),
        ensures
            final(self)@ == old(self)@.with_tsub(o, no_sub()),
            final(self)@.wf(),
    {
        self.put_tsub(o, Osub::dummy());
    }

    /// Take the triangle off a subsegment side.
    pub fn st_dissolve(&mut self, s: Osub)
        requires
            old(self)@.wf(),
            old(self)@.has_sub(s),
        ensures
            final(self)@ == old(self)@.with_stri(s, no_tri()),
            final(self)@.wf(),
    {
        self.put_stri(s, Otri::dummy());
    }

    /// The triangle edge on a subsegment side, or the dummy.
    pub fn stpivot(&self, s: Osub) -> (r: Otri)
        requires
            self@.wf(),
            self@.has_sub(s),
        ensures
            r == self@.stri[s],
            self@.has(r),
    {
        self.subsegs[s.sub as usize].triangles[s.orient as usize].to_otri()
    }

    pub fn sorg(&self, s: Osub) -> (r: VertexId)
        requires
            self@.has_sub(s),
        ensures
            r == self@.svert[s],
    {
        self.subsegs[s.sub as usize].sub_vertices[s.orient as usize]
    }

    pub fn sdest(&self, s: Osub) -> (r: VertexId)
        requires
            self@.has_sub(s),
        ensures
            r == self@.svert[s.other()],
    {
        self.subsegs[s.sub as usize].sub_vertices[1 - s.orient as usize]
    }

    pub fn set_sorg(&mut self, s: Osub, v: VertexId)
        requires
            old(self)@.wf(),
            old(self)@.has_sub(s),
        ensures
            final(self)@ == old(self)@.with_svert(s, v),
            final(self)@.wf(),
    {
        self.put_svert(s, v);
    }

    pub fn set_sdest(&mut self, s: Osub, v: VertexId)
        requires
            old(self)@.wf(),
            old(self)@.has_sub(s),
        ensures
            final(self)@ == old(self)@.with_svert(s.other(), v),
            final(self)@.wf(),
    {
        self.put_svert(s.ssym(), v);
    }

    pub fn segorg(&self, s: Osub) -> (r: VertexId)
        requires
            self@.has_sub(s),
        ensures
            r == self@.segvert[s],
    {
        self.subsegs[s.sub as usize].seg_vertices[s.orient as usize]
    }

    pub fn segdest(&self, s: Osub) -> (r: VertexId)
        requires
            self@.has_sub(s),
        ensures
            r == self@.segvert[s.other()],
    {
        self.subsegs[s.sub as usize].seg_vertices[1 - s.orient as usize]
    }

    pub fn set_segorg(&mut self, s: Osub, v: VertexId)
        requires
            old(self)@.wf(),
            old(self)@.has_sub(s),
        ensures
            final(self)@ == old(self)@.with_segvert(s, v),
            final(self)@.wf(),
    {
        self.put_segvert(s, v);
    }

    pub fn set_segdest(&mut self, s: Osub, v: VertexId)
        requires
            old(self)@.wf(),
            old(self)@.has_sub(s),
        ensures
            final(self)@ == old(self)@.with_segvert(s.other(), v),
            final(self)@.wf(),
    {
        self.put_segvert(s.ssym(), v);
    }

    /// Link two subsegment sides into a chain.
    pub fn sbond(&mut self, a: Osub, b: Osub)
        requires
            old(self)@.wf(),
            old(self)@.has_sub(a),
            old(self)@.has_sub(b),
        ensures
            final(self)@ == old(self)@.with_snext(a, b).with_snext(b, a),
            final(self)@.wf(),
    {
        self.put_snext(a, b);
        self.put_snext(b, a);
    }

    /// The next subsegment side on the chain.
    pub fn spivot(&self, s: Osub) -> (r: Osub)
        requires
            self@.wf(),
            self@.has_sub(s),
        ensures
            r == self@.snext[s],
            self@.has_sub(r),
    {
        self.subsegs[s.sub as usize].next[s.orient as usize].to_osub()
    }
}

/// After two edges are glued each is the other's `sym`.
pub proof fn bond_is_symmetric(m: MeshView, a: Otri, b: Otri)
    requires
        m.wf(),
        m.has(a),
        m.has(b),
    ensures
        m.bonded(a, b).sym(a) == b,
        m.bonded(a, b).sym(b) == a,
        forall|o: Otri| o != a && o != b ==> m.bonded(a, b).sym(o) == m.sym(o),
{
}

/// After a triangle edge is glued to a subsegment side each leads to the other.
pub proof fn tsbond_is_symmetric(m: MeshView, o: Otri, s: Osub)
    requires
        m.wf(),
        m.has(o),
        m.has_sub(s),
    ensures
        m.ts_bonded(o, s).tsub[o] == s,
        m.ts_bonded(o, s).stri[s] == o,
{
}

/// The corners set from one edge are read back around the triangle in
/// counter-clockwise order.
pub proof fn corners_cycle(m: MeshView, o: Otri, a: VertexId, b: VertexId, c: VertexId)
    requires
        m.wf(),
        m.has(o),
    ensures
        ({
            let w = m.with_corners(o, a, b, c);
            &&& w.org(o) == a && w.dest(o) == b && w.apex(o) == c
            &&& w.org(o.next()) == b && w.dest(o.next()) == c && w.apex(o.next()) == a
            &&& w.org(o.prev()) == c && w.dest(o.prev()) == a && w.apex(o.prev()) == b
        }),
{
}

/// A recycled slot is the next one handed out, alive again and with the live
/// count back where it was.
pub proof fn killed_triangle_is_reused(m: MeshView, t: u32)
    requires
        m.wf(),
        0 < t < m.tri_count,
    ensures
        m.without_triangle(t).dead(t),
        m.without_triangle(t).next_tri() == t,
        !m.without_triangle(t).with_triangle().dead(t),
        m.without_triangle(t).with_triangle().free_tris == m.free_tris,
        m.without_triangle(t).with_triangle().tri_count == m.tri_count,
{
    let f = m.tflags[t as int];
    assert((f | 2) & 2 != 0) by (bit_vector);
    assert(0u8 & 2 == 0) by (bit_vector);
    assert(m.free_tris.push(t).drop_last() =~= m.free_tris);
}

} // verus!
