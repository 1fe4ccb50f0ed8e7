//! Writing graphs and triangles as text.

use crate::io::{graph_of, row_of, rows_of, Graph, VertexRow};
use crate::pslg::{Pslg, PslgHole, PslgSegment, PslgVertex};
use crate::text::{
    decimal, padded, push_decimal, push_padded, push_signed, signed_decimal, spaces,
};
use vstd::prelude::*;
use vstd::string::StringExecFns;

verus! {

/// How text is written.
#[derive(Copy, Clone, Debug, PartialEq, Eq, Structural)]
pub struct WriteOptions {
    /// The first id.
    pub index_base: u32,
    /// Whether vertices are written with their markers.
    pub emit_vertex_markers: bool,
    /// Whether segments are written with their markers.
    pub emit_segment_markers: bool,
}

impl Default for WriteOptions {
    fn default() -> (o: WriteOptions)
        ensures
            o.index_base == 1,
            o.emit_vertex_markers,
            o.emit_segment_markers,
    {
        WriteOptions { index_base: 1, emit_vertex_markers: true, emit_segment_markers: true }
    }
}

/// Append spaces.
fn push_spaces(s: &mut String, n: u64)
    ensures
        final(s)@ == old(s)@ + spaces(n as nat),
{
    let ghost before = s@;
    let mut i: u64 = 0;
    assert(s@ =~= before + spaces(0));
    while i < n
        invariant
            i <= n,
            s@ == before + spaces(i as nat),
        decreases n - i,
    {
        s.push(' ');
        assert(s@ =~= before + spaces((i + 1) as nat));
        i += 1;
    }
}

// --- Triangles --------------------------------------------------------------

/// The row of a triangle: its id and the ids of its corners.
pub open spec fn ele_row(t: [u32; 3], i: int, base: int) -> Seq<char> {
    padded((i + base) as nat) + spaces(4) + decimal((t@[0] + base) as nat) + spaces(4) + decimal(
        (t@[1] + base) as nat,
    ) + spaces(4) + decimal((t@[2] + base) as nat) + seq!['\n']
}

/// The rows of the first `n` triangles.
pub open spec fn ele_rows(ts: Seq<[u32; 3]>, base: int, n: nat) -> Seq<char>
    decreases n,
{
    if n == 0 {
        Seq::empty()
    } else {
        ele_rows(ts, base, (n - 1) as nat) + ele_row(ts[n - 1], n - 1, base)
    }
}

/// The text of triangles: their number, the corners of each, no attributes,
/// and a row for each.
pub open spec fn ele_text(ts: Seq<[u32; 3]>, base: int) -> Seq<char> {
    decimal(ts.len()) + seq![' ', ' ', '3', ' ', ' ', '0', '\n'] + ele_rows(ts, base, ts.len())
}

/// Whether every id fits.
pub open spec fn ids_fit(ts: Seq<[u32; 3]>, base: int) -> bool {
    &&& ts.len() + base <= u32::MAX
    &&& forall|i: int, k: int|
        0 <= i < ts.len() && 0 <= k < 3 ==> (#[trigger] ts[i]@[k]) + base <= u32::MAX
}

/// Write triangles.
pub fn format_ele(triangles: &Vec<[u32; 3]>, opts: WriteOptions) -> (s: String)
    requires
        ids_fit(triangles@, opts.index_base as int),
    ensures
        s@ == ele_text(triangles@, opts.index_base as int),
{
    let base: u32 = opts.index_base;
    let mut s = String::new();
    push_decimal(&mut s, triangles.len() as u64);
    s.append("  3  0\n");
    proof {
        reveal_strlit("  3  0\n");
        assert("  3  0\n"@ =~= seq![' ', ' ', '3', ' ', ' ', '0', '\n']);
    }
    let ghost head = s@;
    let mut i: usize = 0;
    assert(head =~= head + ele_rows(triangles@, base as int, 0));
    while i < triangles.len()
        invariant
            i <= triangles@.len(),
            base == opts.index_base,
            ids_fit(triangles@, base as int),
            s@ == head + ele_rows(triangles@, base as int, i as nat),
        decreases triangles.len() - i,
    {
        let t = triangles[i];
        let ghost before = s@;
        proof {
            let g = triangles@[i as int];
            assert(g@[0] + base <= u32::MAX && g@[1] + base <= u32::MAX && g@[2] + base <= u32::MAX);
        }
        push_padded(&mut s, i as u64 + base as u64);
        push_spaces(&mut s, 4);
        push_decimal(&mut s, t[0] as u64 + base as u64);
        push_spaces(&mut s, 4);
        push_decimal(&mut s, t[1] as u64 + base as u64);
        push_spaces(&mut s, 4);
        push_decimal(&mut s, t[2] as u64 + base as u64);
        s.push('\n');
        proof {
            assert(s@ =~= before + ele_row(t, i as int, base as int));
            assert(s@ =~= head + ele_rows(triangles@, base as int, (i + 1) as nat));
        }
        i += 1;
    }
    assert(s@ =~= ele_text(triangles@, opts.index_base as int));
    s
}

// --- Graphs -----------------------------------------------------------------

/// Whether a number with a fraction is written as a text.
pub open spec fn writes<W: Fn(u64) -> String>(writer: W, bits: u64, text: Seq<char>) -> bool {
    exists|out: String| out@ == text && #[trigger] writer.ensures((bits,), out)
}

/// Whether `writer` writes every number, always the same number the same way.
pub open spec fn writes_steadily<W: Fn(u64) -> String>(writer: W) -> bool {
    &&& forall|bits: u64| #[trigger] writer.requires((bits,))
    &&& forall|bits: u64, a: Seq<char>, b: Seq<char>| #[trigger]
        writes(writer, bits, a) && #[trigger] writes(writer, bits, b) ==> a == b
}

/// What `writer` writes for numbers.
pub open spec fn renderings<W: Fn(u64) -> String>(writer: W) -> spec_fn(u64) -> Seq<char> {
    |bits: u64| choose|text: Seq<char>| writes(writer, bits, text)
}

pub(crate) fn push_real<W: Fn(u64) -> String>(s: &mut String, writer: &W, bits: u64)
    requires
        writes_steadily(*writer),
    ensures
        final(s)@ == old(s)@ + renderings(*writer)(bits),
{
    let out = writer(bits);
    proof {
        assert(writes(*writer, bits, out@));
        let c = choose|c: Seq<char>| writes(*writer, bits, c);
        assert(writes(*writer, bits, c));
        assert(renderings(*writer)(bits) == c);
    }
    s.append(out.as_str());
}

/// The first `n` attributes of a vertex.
pub open spec fn attribute_words(r: spec_fn(u64) -> Seq<char>, list: Seq<u64>, n: nat) -> Seq<char>
    decreases n,
{
    if n == 0 {
        Seq::empty()
    } else {
        attribute_words(r, list, (n - 1) as nat) + spaces(2) + r(list[n - 1])
    }
}

/// The row of a vertex: its id, its position, its attributes and its marker.
pub open spec fn vertex_row(
    r: spec_fn(u64) -> Seq<char>,
    v: VertexRow,
    id: nat,
    markers: bool,
) -> Seq<char> {
    padded(id) + spaces(4) + r(v.position.x) + spaces(2) + r(v.position.y) + attribute_words(
        r,
        v.attributes,
        v.attributes.len(),
    ) + (if markers {
        spaces(4) + signed_decimal(v.marker as int)
    } else {
        Seq::empty()
    }) + seq!['\n']
}

/// The rows of the first `n` vertices.
pub open spec fn vertex_rows(
    r: spec_fn(u64) -> Seq<char>,
    rows: Seq<VertexRow>,
    opts: WriteOptions,
    n: nat,
) -> Seq<char>
    decreases n,
{
    if n == 0 {
        Seq::empty()
    } else {
        vertex_rows(r, rows, opts, (n - 1) as nat) + vertex_row(
            r,
            rows[n - 1],
            (n - 1 + opts.index_base) as nat,
            opts.emit_vertex_markers,
        )
    }
}

/// One where something is written, zero where not.
pub open spec fn flag(b: bool) -> char {
    if b {
        '1'
    } else {
        '0'
    }
}

/// The attributes of each vertex, as the first has them.
pub open spec fn attribute_count(rows: Seq<VertexRow>) -> nat {
    if rows.len() == 0 {
        0
    } else {
        rows[0].attributes.len()
    }
}

/// The header of vertices: their number, the dimension, the attributes of each
/// and whether each has a marker.
pub open spec fn vertex_head(rows: Seq<VertexRow>, opts: WriteOptions) -> Seq<char> {
    decimal(rows.len()) + spaces(2) + seq!['2'] + spaces(2) + decimal(attribute_count(rows))
        + spaces(2) + seq![flag(opts.emit_vertex_markers), '\n']
}

/// The text of vertices.
pub open spec fn node_text(
    r: spec_fn(u64) -> Seq<char>,
    rows: Seq<VertexRow>,
    opts: WriteOptions,
) -> Seq<char> {
    vertex_head(rows, opts) + vertex_rows(r, rows, opts, rows.len())
}

/// The row of a segment: its id, the ids of its ends and its marker.
pub open spec fn segment_row(s: PslgSegment, i: int, opts: WriteOptions) -> Seq<char> {
    padded((i + opts.index_base) as nat) + spaces(1) + decimal((s.a + opts.index_base) as nat)
        + spaces(1) + decimal((s.b + opts.index_base) as nat) + (if opts.emit_segment_markers {
        spaces(1) + signed_decimal(s.marker as int)
    } else {
        Seq::empty()
    }) + seq!['\n']
}

/// The rows of the first `n` segments.
pub open spec fn segment_rows(list: Seq<PslgSegment>, opts: WriteOptions, n: nat) -> Seq<char>
    decreases n,
{
    if n == 0 {
        Seq::empty()
    } else {
        segment_rows(list, opts, (n - 1) as nat) + segment_row(list[n - 1], n - 1, opts)
    }
}

/// The header of segments: their number and whether each has a marker.
pub open spec fn segment_head(list: Seq<PslgSegment>, opts: WriteOptions) -> Seq<char> {
    decimal(list.len()) + spaces(1) + seq![flag(opts.emit_segment_markers), '\n']
}

/// The row of a hole: its id and its position.
pub open spec fn hole_row(
    r: spec_fn(u64) -> Seq<char>,
    h: PslgHole,
    i: int,
    opts: WriteOptions,
) -> Seq<char> {
    decimal((i + opts.index_base) as nat) + spaces(1) + r(h.point.x) + spaces(1) + r(h.point.y)
        + seq!['\n']
}

/// The rows of the first `n` holes.
pub open spec fn hole_rows(
    r: spec_fn(u64) -> Seq<char>,
    list: Seq<PslgHole>,
    opts: WriteOptions,
    n: nat,
) -> Seq<char>
    decreases n,
{
    if n == 0 {
        Seq::empty()
    } else {
        hole_rows(r, list, opts, (n - 1) as nat) + hole_row(r, list[n - 1], n - 1, opts)
    }
}

/// The text of a graph: its vertices, its segments and its holes.
pub open spec fn poly_text(r: spec_fn(u64) -> Seq<char>, g: Graph, opts: WriteOptions) -> Seq<char> {
    node_text(r, g.vertices, opts) + segment_head(g.segments, opts) + segment_rows(
        g.segments,
        opts,
        g.segments.len(),
    ) + decimal(g.holes.len()) + seq!['\n'] + hole_rows(r, g.holes, opts, g.holes.len())
}

/// Whether every id of a graph fits.
pub open spec fn graph_ids_fit(p: Pslg, base: int) -> bool {
    &&& p.vertices@.len() + base <= u32::MAX
    &&& p.segments@.len() + base <= u32::MAX
    &&& p.holes@.len() + base <= u32::MAX
    &&& forall|i: int|
        0 <= i < p.segments@.len() ==> (#[trigger] p.segments@[i]).a + base <= u32::MAX
            && p.segments@[i].b + base <= u32::MAX
}

fn push_vertex<W: Fn(u64) -> String>(
    s: &mut String,
    writer: &W,
    v: &PslgVertex,
    id: u64,
    markers: bool,
)
    requires
        writes_steadily(*writer),
    ensures
        final(s)@ == old(s)@ + vertex_row(renderings(*writer), row_of(*v), id as nat, markers),
{
    let ghost before = s@;
    let ghost r = renderings(*writer);
    push_padded(s, id);
    push_spaces(s, 4);
    push_real(s, writer, v.position.x);
    push_spaces(s, 2);
    push_real(s, writer, v.position.y);
    let ghost head = s@;
    let mut k: usize = 0;
    assert(head =~= head + attribute_words(r, v.attributes@, 0));
    while k < v.attributes.len()
        invariant
            writes_steadily(*writer),
            r == renderings(*writer),
            k <= v.attributes@.len(),
            s@ == head + attribute_words(r, v.attributes@, k as nat),
        decreases v.attributes.len() - k,
    {
        push_spaces(s, 2);
        push_real(s, writer, v.attributes[k]);
        assert(s@ =~= head + attribute_words(r, v.attributes@, (k + 1) as nat));
        k += 1;
    }
    if markers {
        push_spaces(s, 4);
        push_signed(s, v.marker as i64);
    }
    s.push('\n');
    assert(s@ =~= before + vertex_row(r, row_of(*v), id as nat, markers));
}

/// Write the vertices of a graph.
pub fn format_node<W: Fn(u64) -> String>(writer: &W, pslg: &Pslg, opts: WriteOptions) -> (s: String)
    requires
        writes_steadily(*writer),
        pslg.vertices@.len() + opts.index_base <= u32::MAX,
    ensures
        s@ == node_text(renderings(*writer), rows_of(pslg.vertices@), opts),
{
    let ghost r = renderings(*writer);
    let ghost rows = rows_of(pslg.vertices@);
    let mut s = String::new();
    push_decimal(&mut s, pslg.vertices.len() as u64);
    push_spaces(&mut s, 2);
    s.push('2');
    push_spaces(&mut s, 2);
    push_decimal(&mut s, pslg.vertex_attribute_count() as u64);
    push_spaces(&mut s, 2);
    if opts.emit_vertex_markers {
        s.push('1');
    } else {
        s.push('0');
    }
    s.push('\n');
    assert(s@ =~= vertex_head(rows, opts));
    let ghost head = s@;
    let mut i: usize = 0;
    assert(head =~= head + vertex_rows(r, rows, opts, 0));
    while i < pslg.vertices.len()
        invariant
            writes_steadily(*writer),
            r == renderings(*writer),
            rows == rows_of(pslg.vertices@),
            pslg.vertices@.len() + opts.index_base <= u32::MAX,
            i <= pslg.vertices@.len(),
            s@ == head + vertex_rows(r, rows, opts, i as nat),
        decreases pslg.vertices.len() - i,
    {
        push_vertex(
            &mut s,
            writer,
            &pslg.vertices[i],
            i as u64 + opts.index_base as u64,
            opts.emit_vertex_markers,
        );
        assert(s@ =~= head + vertex_rows(r, rows, opts, (i + 1) as nat));
        i += 1;
    }
    s
}

fn push_segments(s: &mut String, list: &Vec<PslgSegment>, opts: WriteOptions)
    requires
        list@.len() + opts.index_base <= u32::MAX,
        forall|i: int|
            0 <= i < list@.len() ==> (#[trigger] list@[i]).a + opts.index_base <= u32::MAX
                && list@[i].b + opts.index_base <= u32::MAX,
    ensures
        final(s)@ == old(s)@ + segment_head(list@, opts) + segment_rows(list@, opts, list@.len()),
{
    let ghost before = s@;
    push_decimal(s, list.len() as u64);
    push_spaces(s, 1);
    if opts.emit_segment_markers {
        s.push('1');
    } else {
        s.push('0');
    }
    s.push('\n');
    assert(s@ =~= before + segment_head(list@, opts));
    let ghost head = s@;
    let mut i: usize = 0;
    assert(head =~= head + segment_rows(list@, opts, 0));
    while i < list.len()
        invariant
            list@.len() + opts.index_base <= u32::MAX,
            forall|i: int|
                0 <= i < list@.len() ==> (#[trigger] list@[i]).a + opts.index_base <= u32::MAX
                    && list@[i].b + opts.index_base <= u32::MAX,
            i <= list@.len(),
            s@ == head + segment_rows(list@, opts, i as nat),
        decreases list.len() - i,
    {
        let ghost mid = s@;
        let seg = list[i];
        push_padded(s, i as u64 + opts.index_base as u64);
        push_spaces(s, 1);
        push_decimal(s, seg.a as u64 + opts.index_base as u64);
        push_spaces(s, 1);
        push_decimal(s, seg.b as u64 + opts.index_base as u64);
        if opts.emit_segment_markers {
            push_spaces(s, 1);
            push_signed(s, seg.marker as i64);
        }
        s.push('\n');
        assert(s@ =~= mid + segment_row(seg, i as int, opts));
        assert(s@ =~= head + segment_rows(list@, opts, (i + 1) as nat));
        i += 1;
    }
}

fn push_holes<W: Fn(u64) -> String>(
    s: &mut String,
    writer: &W,
    list: &Vec<PslgHole>,
    opts: WriteOptions,
)
    requires
        writes_steadily(*writer),
        list@.len() + opts.index_base <= u32::MAX,
    ensures
        final(s)@ == old(s)@ + decimal(list@.len()) + seq!['\n'] + hole_rows(
            renderings(*writer),
            list@,
            opts,
            list@.len(),
        ),
{
    let ghost before = s@;
    let ghost r = renderings(*writer);
    push_decimal(s, list.len() as u64);
    s.push('\n');
    assert(s@ =~= before + decimal(list@.len()) + seq!['\n']);
    let ghost head = s@;
    let mut i: usize = 0;
    assert(head =~= head + hole_rows(r, list@, opts, 0));
    while i < list.len()
        invariant
            writes_steadily(*writer),
            r == renderings(*writer),
            list@.len() + opts.index_base <= u32::MAX,
            i <= list@.len(),
            s@ == head + hole_rows(r, list@, opts, i as nat),
        decreases list.len() - i,
    {
        let ghost mid = s@;
        let h = list[i];
        push_decimal(s, i as u64 + opts.index_base as u64);
        push_spaces(s, 1);
        push_real(s, writer, h.point.x);
        push_spaces(s, 1);
        push_real(s, writer, h.point.y);
        s.push('\n');
        assert(s@ =~= mid + hole_row(r, h, i as int, opts));
        assert(s@ =~= head + hole_rows(r, list@, opts, (i + 1) as nat));
        i += 1;
    }
}

/// Write a graph: its vertices, its segments and its holes.
pub fn format_poly<W: Fn(u64) -> String>(writer: &W, pslg: &Pslg, opts: WriteOptions) -> (s: String)
    requires
        writes_steadily(*writer),
        graph_ids_fit(*pslg, opts.index_base as int),
    ensures
        s@ == poly_text(renderings(*writer), graph_of(*pslg), opts),
{
    let mut s = format_node(writer, pslg, opts);
    push_segments(&mut s, &pslg.segments, opts);
    push_holes(&mut s, writer, &pslg.holes, opts);
    s
}

} // verus!
