//! Edge flips: turning the diagonal of the quadrilateral formed by two
//! neighbouring triangles.

use crate::mesh::{no_sub, no_tri, CdtMesh, MeshView, Osub, Otri, DUMMY_SUB};
use vstd::prelude::*;

verus! {

/// Subsegment side `s` moved onto edge `o`; the dummy clears the edge.
pub open spec fn rebound(m: MeshView, o: Otri, s: Osub) -> MeshView {
    if s.sub == 0 {
        m.with_tsub(o, no_sub())
    } else {
        m.ts_bonded(o, s)
    }
}

/// The mesh after the diagonal `e` of its quadrilateral is turned a quarter
/// counter-clockwise: each outer neighbour and its subsegment moves one side
/// on, and the two triangles take the other diagonal's corners.
#[verifier::opaque]
pub open spec fn flipped(m: MeshView, e: Otri) -> MeshView {
    let top = m.sym(e);
    let (tl, tr, bl, br) = (top.prev(), top.next(), e.next(), e.prev());
    let (a, b, c, d) = (m.org(e), m.dest(e), m.apex(e), m.apex(top));
    let g = m.bonded(tl, m.sym(bl)).bonded(bl, m.sym(br)).bonded(br, m.sym(tr)).bonded(
        tr,
        m.sym(tl),
    );
    let h = rebound(
        rebound(rebound(rebound(g, tr, m.tsub[tl]), tl, m.tsub[bl]), bl, m.tsub[br]),
        br,
        m.tsub[tr],
    );
    h.with_corners(e, d, c, a).with_corners(top, c, d, b)
}

/// The mesh after the diagonal `e` is turned a quarter clockwise.
#[verifier::opaque]
pub open spec fn unflipped(m: MeshView, e: Otri) -> MeshView {
    let top = m.sym(e);
    let (tl, tr, bl, br) = (top.prev(), top.next(), e.next(), e.prev());
    let (a, b, c, d) = (m.org(e), m.dest(e), m.apex(e), m.apex(top));
    let g = m.bonded(tl, m.sym(tr)).bonded(bl, m.sym(tl)).bonded(br, m.sym(bl)).bonded(
        tr,
        m.sym(br),
    );
    let h = rebound(
        rebound(rebound(rebound(g, tl, m.tsub[tr]), bl, m.tsub[tl]), br, m.tsub[bl]),
        tr,
        m.tsub[br],
    );
    h.with_corners(e, c, d, b).with_corners(top, d, c, a)
}

fn rebind(m: &mut CdtMesh, o: Otri, s: Osub)
    requires
        old(m)@.wf(),
        old(m)@.has(o),
        old(m)@.has_sub(s),
    ensures
        final(m)@ == rebound(old(m)@, o, s),
        final(m)@.wf(),
{
    if s.sub == DUMMY_SUB {
        m.ts_dissolve(o);
    } else {
        m.tsbond(o, s);
    }
}

/// Flip the edge held by `flipedge` counter-clockwise within its
/// quadrilateral. With corners `a`, `b` on the diagonal, `c` the apex on this
/// side and `d` the apex beyond, the handle holds edge `d -> c` afterwards.
pub fn flip(m: &mut CdtMesh, flipedge: &mut Otri)
    requires
        old(m)@.wf(),
        old(m)@.has(*old(flipedge)),
        old(m)@.sym(*old(flipedge)) != no_tri(),
    ensures
        *final(flipedge) == *old(flipedge),
        final(m)@ == flipped(old(m)@, *old(flipedge)),
        final(m)@.wf(),
        final(m)@.tri_count == old(m)@.tri_count,
        final(m)@.sub_count == old(m)@.sub_count,
        final(m)@.vertices == old(m)@.vertices,
        final(m)@.svert == old(m)@.svert,
        final(m)@.sflags == old(m)@.sflags,
        final(m)@.free_subs == old(m)@.free_subs,
{
    reveal(flipped);
    let e = *flipedge;
    let right = m.org(e);
    let left = m.dest(e);
    let bot = m.apex(e);
    let top = m.sym(e);
    let far = m.apex(top);
    let topleft = top.lprev();
    let toplcasing = m.sym(topleft);
    let topright = top.lnext();
    let toprcasing = m.sym(topright);
    let botleft = e.lnext();
    let botlcasing = m.sym(botleft);
    let botright = e.lprev();
    let botrcasing = m.sym(botright);
    m.bond(topleft, botlcasing);
    m.bond(botleft, botrcasing);
    m.bond(botright, toprcasing);
    m.bond(topright, toplcasing);
    let toplsub = m.tspivot(topleft);
    let botlsub = m.tspivot(botleft);
    let botrsub = m.tspivot(botright);
    let toprsub = m.tspivot(topright);
    rebind(m, topright, toplsub);
    rebind(m, topleft, botlsub);
    rebind(m, botleft, botrsub);
    rebind(m, botright, toprsub);
    m.set_corners(e, far, bot, right);
    m.set_corners(top, bot, far, left);
}

/// Flip the edge held by `flipedge` clockwise: the inverse of [`flip`].
pub fn unflip(m: &mut CdtMesh, flipedge: &mut Otri)
    requires
        old(m)@.wf(),
        old(m)@.has(*old(flipedge)),
        old(m)@.sym(*old(flipedge)) != no_tri(),
    ensures
        *final(flipedge) == *old(flipedge),
        final(m)@ == unflipped(old(m)@, *old(flipedge)),
        final(m)@.wf(),
        final(m)@.tri_count == old(m)@.tri_count,
        final(m)@.sub_count == old(m)@.sub_count,
        final(m)@.vertices == old(m)@.vertices,
{
    reveal(unflipped);
    let e = *flipedge;
    let right = m.org(e);
    let left = m.dest(e);
    let bot = m.apex(e);
    let top = m.sym(e);
    let far = m.apex(top);
    let topleft = top.lprev();
    let toplcasing = m.sym(topleft);
    let topright = top.lnext();
    let toprcasing = m.sym(topright);
    let botleft = e.lnext();
    let botlcasing = m.sym(botleft);
    let botright = e.lprev();
    let botrcasing = m.sym(botright);
    m.bond(topleft, toprcasing);
    m.bond(botleft, toplcasing);
    m.bond(botright, botlcasing);
    m.bond(topright, botrcasing);
    let toplsub = m.tspivot(topleft);
    let botlsub = m.tspivot(botleft);
    let botrsub = m.tspivot(botright);
    let toprsub = m.tspivot(topright);
    rebind(m, topleft, toprsub);
    rebind(m, botleft, toplsub);
    rebind(m, botright, botlsub);
    rebind(m, topright, botrsub);
    m.set_corners(e, bot, far, left);
    m.set_corners(top, far, bot, right);
}

/// Whether edge `o` is glued both ways, or to the dummy.
pub open spec fn glued(m: MeshView, o: Otri) -> bool {
    m.sym(o).tri == 0 || m.sym(m.sym(o)) == o
}

/// Whether the subsegment on edge `o` leads back to it, or is the dummy.
pub open spec fn sub_glued(m: MeshView, o: Otri) -> bool {
    if m.tsub[o].sub == 0 {
        m.tsub[o] == no_sub()
    } else {
        m.stri[m.tsub[o]] == o
    }
}

/// Edge `o` is glued to a triangle off the quadrilateral of `e`, and to a
/// subsegment that leads back.
pub open spec fn is_side(m: MeshView, e: Otri, o: Otri) -> bool {
    &&& glued(m, o)
    &&& sub_glued(m, o)
    &&& m.sym(o).tri != e.tri
    &&& m.sym(o).tri != m.sym(e).tri
}

/// The two triangles on edge `e` form a quadrilateral: they are distinct and
/// real, glued to each other along the same two corners, and its four sides are glued to other triangles
/// and to subsegments that lead back.
pub open spec fn is_quad(m: MeshView, e: Otri) -> bool {
    let top = m.sym(e);
    &&& m.has(e)
    &&& e.tri != 0
    &&& top.tri != 0
    &&& top.tri != e.tri
    &&& m.sym(top) == e
    &&& m.org(top) == m.dest(e)
    &&& m.dest(top) == m.org(e)
    &&& is_side(m, e, e.next())
    &&& is_side(m, e, e.prev())
    &&& is_side(m, e, top.next())
    &&& is_side(m, e, top.prev())
}

/// Two meshes that differ at most in the dummy triangle's links.
pub open spec fn same_but_dummy(m: MeshView, w: MeshView) -> bool {
    &&& w == (MeshView { nbr: w.nbr, ..m })
    &&& forall|o: Otri| o.tri != 0 ==> (w.nbr.contains_key(o) <==> m.nbr.contains_key(o))
    &&& forall|o: Otri| o.tri != 0 ==> #[trigger] w.nbr[o] == m.nbr[o]
}

proof fn lemma_six_edges(e: Otri, top: Otri)
    requires
        e.orient < 3,
        top.orient < 3,
        e.tri != top.tri,
    ensures
        e.next() != e,
        e.prev() != e,
        e.next() != e.prev(),
        top.next() != top,
        top.prev() != top,
        top.next() != top.prev(),
        e.next().tri == e.tri,
        e.prev().tri == e.tri,
        top.next().tri == top.tri,
        top.prev().tri == top.tri,
        e.next().next() == e.prev(),
        e.prev().prev() == e.next(),
        e.next().prev() == e,
        e.prev().next() == e,
        top.next().next() == top.prev(),
        top.prev().prev() == top.next(),
        top.next().prev() == top,
        top.prev().next() == top,
{
}

/// A flip puts the edge on the other diagonal: with `a`, `b`, `c`, `d` the
/// corners before, the handle holds `d -> c` with apex `a` and its neighbour
/// holds `c -> d` with apex `b`; both are still glued to each other.
pub proof fn flip_turns_the_diagonal(m: MeshView, e: Otri)
    requires
        m.wf(),
        is_quad(m, e),
    ensures
        ({
            let w = flipped(m, e);
            let top = m.sym(e);
            &&& w.tri_count == m.tri_count
            &&& w.sym(e) == top
            &&& w.sym(top) == e
            &&& w.org(e) == m.apex(top)
            &&& w.dest(e) == m.apex(e)
            &&& w.apex(e) == m.org(e)
            &&& w.org(top) == m.apex(e)
            &&& w.dest(top) == m.apex(top)
            &&& w.apex(top) == m.dest(e)
        }),
{
    reveal(flipped);
    let top = m.sym(e);
    assert(m.has(top));
    lemma_six_edges(e, top);
    let (tl, tr, bl, br) = (top.prev(), top.next(), e.next(), e.prev());
}

/// A flip leaves the quadrilateral glued: the four sides and the diagonal are
/// glued both ways again, and each side's subsegment leads back to it.
pub proof fn flip_keeps_the_quad(m: MeshView, e: Otri)
    requires
        m.wf(),
        is_quad(m, e),
    ensures
        is_quad(flipped(m, e), e),
{
    let top = m.sym(e);
    assert(m.has(top));
    lemma_six_edges(e, top);
    let (tl, tr, bl, br) = (top.prev(), top.next(), e.next(), e.prev());
    let w = flipped(m, e);
    flip_turns_the_diagonal(m, e);
    lemma_flip_sides(m, e);
}

/// Where the four sides and their subsegments go in a flip.
proof fn lemma_flip_sides(m: MeshView, e: Otri)
    requires
        m.wf(),
        is_quad(m, e),
    ensures
        ({
            let w = flipped(m, e);
            let top = m.sym(e);
            let (tl, tr, bl, br) = (top.prev(), top.next(), e.next(), e.prev());
            &&& w.nbr[tl] == m.nbr[bl]
            &&& w.nbr[bl] == m.nbr[br]
            &&& w.nbr[br] == m.nbr[tr]
            &&& w.nbr[tr] == m.nbr[tl]
            &&& m.nbr[bl].tri != 0 ==> w.nbr[m.nbr[bl]] == tl
            &&& m.nbr[br].tri != 0 ==> w.nbr[m.nbr[br]] == bl
            &&& m.nbr[tr].tri != 0 ==> w.nbr[m.nbr[tr]] == br
            &&& m.nbr[tl].tri != 0 ==> w.nbr[m.nbr[tl]] == tr
            &&& w.tsub[tl] == m.tsub[bl]
            &&& w.tsub[bl] == m.tsub[br]
            &&& w.tsub[br] == m.tsub[tr]
            &&& w.tsub[tr] == m.tsub[tl]
            &&& m.tsub[bl].sub != 0 ==> w.stri[m.tsub[bl]] == tl
            &&& m.tsub[br].sub != 0 ==> w.stri[m.tsub[br]] == bl
            &&& m.tsub[tr].sub != 0 ==> w.stri[m.tsub[tr]] == br
            &&& m.tsub[tl].sub != 0 ==> w.stri[m.tsub[tl]] == tr
        }),
{
    reveal(flipped);
    let top = m.sym(e);
    assert(m.has(top));
    lemma_six_edges(e, top);
    let (tl, tr, bl, br) = (top.prev(), top.next(), e.next(), e.prev());
}

/// `unflip` undoes `flip`: everything is as before, except that the dummy
/// triangle's own links, which mean nothing, may have been overwritten.
pub proof fn unflip_undoes_flip(m: MeshView, e: Otri)
    requires
        m.wf(),
        is_quad(m, e),
    ensures
        same_but_dummy(m, unflipped(flipped(m, e), e)),
{
    reveal(flipped);
    reveal(unflipped);
    let top = m.sym(e);
    assert(m.has(top));
    lemma_six_edges(e, top);
    let (tl, tr, bl, br) = (top.prev(), top.next(), e.next(), e.prev());
    let f = flipped(m, e);
    flip_turns_the_diagonal(m, e);
    lemma_flip_sides(m, e);
    let w = unflipped(f, e);
    assert(m.corner.contains_key(e) && m.corner.contains_key(bl) && m.corner.contains_key(br));
    assert(m.corner.contains_key(top) && m.corner.contains_key(tl) && m.corner.contains_key(tr));
    assert(w.corner =~= m.corner);
    assert(w.tsub =~= m.tsub);
    assert(w.stri =~= m.stri);
    assert forall|o: Otri| o.tri != 0 implies #[trigger] w.nbr[o] == m.nbr[o] by {}
}

} // verus!
