//! Reading gives back what was written.

use crate::io::{
    attributes_read, count_read, first_header, graph_rest, header_read, hole_rows_read, holes_read,
    int_read, node_read, poly_read, segment_header_read, segments_read, vertex_read, vertices_read,
    Graph, IoFault, VertexHeader, VertexRow,
};
use crate::pslg::{PslgHole, PslgSegment};
use crate::text::{
    decimal, decimals_are_read_back, is_digit, is_space, lemma_first_at_is, lemma_word_end,
    lemma_word_end_is, lines_of, numbers_are_read_back, padded, signed_decimal, spaces, word_end,
    words_of, Line,
};
use crate::write::{
    attribute_count, attribute_words, flag, hole_row, hole_rows, node_text, poly_text,
    segment_head, segment_row, segment_rows, vertex_head, vertex_row, vertex_rows, WriteOptions,
};
use vstd::prelude::*;

verus! {

// --- Words in lines ---------------------------------------------------------

/// Whether a text is one word and no comment.
pub open spec fn is_word(w: Seq<char>) -> bool {
    &&& w.len() > 0
    &&& forall|k: int| 0 <= k < w.len() ==> !is_space(#[trigger] w[k]) && w[k] != '#'
}

/// Whether a text is one line without a comment that has the given words.
pub open spec fn spells(body: Seq<char>, words: Seq<Seq<char>>) -> bool {
    &&& forall|k: int| 0 <= k < body.len() ==> #[trigger] body[k] != '\n' && body[k] != '#'
    &&& words_of(body) == words
}

proof fn lemma_words_joined(a: Seq<char>, t: Seq<char>)
    requires
        t.len() > 0,
        is_space(t[0]),
    ensures
        words_of(a + t) == words_of(a) + words_of(t),
    decreases a.len(),
{
    let s = a + t;
    if a.len() == 0 {
        assert(s =~= t);
        assert(words_of(a) + words_of(t) =~= words_of(t));
    } else if is_space(a[0]) {
        assert(s[0] == a[0]);
        assert(s.skip(1) =~= a.skip(1) + t);
        lemma_words_joined(a.skip(1), t);
    } else {
        let n = word_end(a);
        lemma_word_end(a);
        assert(s[0] == a[0]);
        assert forall|k: int| 0 <= k < n implies !is_space(#[trigger] s[k]) by {
            assert(s[k] == a[k]);
        }
        if n < a.len() {
            assert(s[n as int] == a[n as int]);
        } else {
            assert(s[n as int] == t[0]);
        }
        lemma_word_end_is(s, n);
        assert(s.take(n as int) =~= a.take(n as int));
        assert(s.skip(n as int) =~= a.skip(n as int) + t);
        lemma_words_joined(a.skip(n as int), t);
        assert(seq![a.take(n as int)] + (words_of(a.skip(n as int)) + words_of(t)) =~= (
        seq![a.take(n as int)] + words_of(a.skip(n as int))) + words_of(t));
    }
}

proof fn lemma_words_after_spaces(n: nat, s: Seq<char>)
    ensures
        words_of(spaces(n) + s) == words_of(s),
    decreases n,
{
    if n == 0 {
        assert(spaces(0) + s =~= s);
    } else {
        let t = spaces(n) + s;
        assert(t[0] == ' ');
        assert(t.skip(1) =~= spaces((n - 1) as nat) + s);
        lemma_words_after_spaces((n - 1) as nat, s);
    }
}

proof fn lemma_one_word(w: Seq<char>)
    requires
        is_word(w),
    ensures
        words_of(w) == seq![w],
{
    assert(!is_space(w[0]));
    lemma_word_end_is(w, w.len());
    assert(w.take(w.len() as int) =~= w);
    assert(w.skip(w.len() as int) =~= Seq::empty());
    assert(words_of(w.skip(w.len() as int)) =~= Seq::<Seq<char>>::empty());
    assert(seq![w] + words_of(w.skip(w.len() as int)) =~= seq![w]);
}

proof fn lemma_first_word(n: nat, w: Seq<char>)
    requires
        is_word(w),
    ensures
        spells(spaces(n) + w, seq![w]),
{
    lemma_words_after_spaces(n, w);
    lemma_one_word(w);
    let b = spaces(n) + w;
    assert forall|k: int| 0 <= k < b.len() implies #[trigger] b[k] != '\n' && b[k] != '#' by {
        if k < n {
            assert(b[k] == ' ');
        } else {
            assert(b[k] == w[k - n]);
            assert(!is_space(w[k - n]));
        }
    }
}

proof fn lemma_next_word(body: Seq<char>, words: Seq<Seq<char>>, n: nat, w: Seq<char>)
    requires
        spells(body, words),
        n > 0,
        is_word(w),
    ensures
        spells(body + spaces(n) + w, words.push(w)),
{
    let t = spaces(n) + w;
    assert(t[0] == ' ');
    lemma_first_word(n, w);
    lemma_words_joined(body, t);
    let b = body + spaces(n) + w;
    assert(b =~= body + t);
    assert(words + seq![w] =~= words.push(w));
    assert forall|k: int| 0 <= k < b.len() implies #[trigger] b[k] != '\n' && b[k] != '#' by {
        if k < body.len() {
            assert(b[k] == body[k]);
        } else {
            assert(b[k] == t[k - body.len()]);
        }
    }
}

/// The first line of a text.
proof fn lemma_line(body: Seq<char>, words: Seq<Seq<char>>, rest: Seq<char>, number: nat)
    requires
        spells(body, words),
        words.len() > 0,
    ensures
        lines_of(body + seq!['\n'] + rest, number) == seq![Line { number, words }] + lines_of(
            rest,
            number + 1,
        ),
{
    let s = body + seq!['\n'] + rest;
    let n = body.len();
    assert forall|k: int| 0 <= k < n implies #[trigger] s[k] != '\n' by {
        assert(s[k] == body[k]);
    }
    lemma_first_at_is(s, '\n', n);
    assert(s.take(n as int) =~= body);
    lemma_first_at_is(body, '#', n);
    assert(body.take(n as int) =~= body);
    assert(s.skip(n as int + 1) =~= rest);
}

proof fn lemma_decimal_word(n: nat)
    ensures
        is_word(decimal(n)),
{
    decimals_are_read_back(n);
    let w = decimal(n);
    assert forall|k: int| 0 <= k < w.len() implies !is_space(#[trigger] w[k]) && w[k] != '#' by {
        assert(is_digit(w[k]));
    }
}

proof fn lemma_signed_word(n: int)
    ensures
        is_word(signed_decimal(n)),
{
    if n < 0 {
        lemma_decimal_word((-n) as nat);
        let (w, d) = (signed_decimal(n), decimal((-n) as nat));
        assert forall|k: int| 0 <= k < w.len() implies !is_space(#[trigger] w[k]) && w[k]
            != '#' by {
            if k > 0 {
                assert(w[k] == d[k - 1]);
            }
        }
    } else {
        lemma_decimal_word(n as nat);
    }
}

proof fn lemma_padded_spells(n: nat)
    ensures
        spells(padded(n), seq![decimal(n)]),
{
    lemma_decimal_word(n);
    let d = decimal(n);
    if d.len() < 4 {
        lemma_first_word((4 - d.len()) as nat, d);
    } else {
        lemma_first_word(0, d);
        assert(spaces(0) + d =~= d);
    }
}

proof fn lemma_decimal_spells(n: nat)
    ensures
        spells(decimal(n), seq![decimal(n)]),
{
    lemma_decimal_word(n);
    lemma_first_word(0, decimal(n));
    assert(spaces(0) + decimal(n) =~= decimal(n));
}

proof fn lemma_count_back(n: nat, line: nat, context: Seq<char>)
    requires
        n <= u32::MAX,
    ensures
        count_read(decimal(n), line, context) == Ok::<usize, IoFault>(n as usize),
        int_read(decimal(n), line, context) == Ok::<i64, IoFault>(n as i64),
{
    numbers_are_read_back(n as i64);
}

// --- Lines of a graph -------------------------------------------------------

/// Whether a number with a fraction is written as a word that reads back as
/// the same number.
pub open spec fn faithful(
    f: spec_fn(Seq<char>) -> Option<u64>,
    r: spec_fn(u64) -> Seq<char>,
    bits: u64,
) -> bool {
    is_word(r(bits)) && f(r(bits)) == Some(bits)
}

/// Whether all numbers of a vertex are written faithfully.
pub open spec fn faithful_vertex(
    f: spec_fn(Seq<char>) -> Option<u64>,
    r: spec_fn(u64) -> Seq<char>,
    v: VertexRow,
) -> bool {
    &&& faithful(f, r, v.position.x)
    &&& faithful(f, r, v.position.y)
    &&& forall|k: int| 0 <= k < v.attributes.len() ==> faithful(f, r, #[trigger] v.attributes[k])
}

/// The words of the first `n` attributes.
spec fn attribute_list(r: spec_fn(u64) -> Seq<char>, list: Seq<u64>, n: nat) -> Seq<Seq<char>> {
    Seq::new(n, |i: int| r(list[i]))
}

/// The words in the row of a vertex.
spec fn vertex_list(r: spec_fn(u64) -> Seq<char>, v: VertexRow, id: nat, markers: bool) -> Seq<
    Seq<char>,
> {
    let words = seq![decimal(id), r(v.position.x), r(v.position.y)] + attribute_list(
        r,
        v.attributes,
        v.attributes.len(),
    );
    if markers {
        words.push(signed_decimal(v.marker as int))
    } else {
        words
    }
}

proof fn lemma_attributes_spell(
    r: spec_fn(u64) -> Seq<char>,
    body: Seq<char>,
    words: Seq<Seq<char>>,
    list: Seq<u64>,
    n: nat,
)
    requires
        spells(body, words),
        n <= list.len(),
        forall|k: int| 0 <= k < list.len() ==> is_word(r(#[trigger] list[k])),
    ensures
        spells(body + attribute_words(r, list, n), words + attribute_list(r, list, n)),
    decreases n,
{
    if n == 0 {
        assert(body + attribute_words(r, list, 0) =~= body);
        assert(words + attribute_list(r, list, 0) =~= words);
    } else {
        let m = (n - 1) as nat;
        lemma_attributes_spell(r, body, words, list, m);
        let b = body + attribute_words(r, list, m);
        let w = words + attribute_list(r, list, m);
        assert(is_word(r(list[n - 1])));
        lemma_next_word(b, w, 2, r(list[n - 1]));
        assert(body + attribute_words(r, list, n) =~= b + spaces(2) + r(list[n - 1]));
        assert(words + attribute_list(r, list, n) =~= w.push(r(list[n - 1])));
    }
}

/// The row of a vertex without its line end.
spec fn vertex_body(r: spec_fn(u64) -> Seq<char>, v: VertexRow, id: nat, markers: bool) -> Seq<
    char,
> {
    padded(id) + spaces(4) + r(v.position.x) + spaces(2) + r(v.position.y) + attribute_words(
        r,
        v.attributes,
        v.attributes.len(),
    ) + (if markers {
        spaces(4) + signed_decimal(v.marker as int)
    } else {
        Seq::empty()
    })
}

proof fn lemma_vertex_spells(
    f: spec_fn(Seq<char>) -> Option<u64>,
    r: spec_fn(u64) -> Seq<char>,
    v: VertexRow,
    id: nat,
    markers: bool,
)
    requires
        faithful_vertex(f, r, v),
    ensures
        spells(vertex_body(r, v, id, markers), vertex_list(r, v, id, markers)),
{
    lemma_padded_spells(id);
    let b0 = padded(id);
    let w0 = seq![decimal(id)];
    lemma_next_word(b0, w0, 4, r(v.position.x));
    let b1 = b0 + spaces(4) + r(v.position.x);
    let w1 = w0.push(r(v.position.x));
    lemma_next_word(b1, w1, 2, r(v.position.y));
    let b2 = b1 + spaces(2) + r(v.position.y);
    let w2 = w1.push(r(v.position.y));
    lemma_attributes_spell(r, b2, w2, v.attributes, v.attributes.len());
    let b3 = b2 + attribute_words(r, v.attributes, v.attributes.len());
    let w3 = w2 + attribute_list(r, v.attributes, v.attributes.len());
    assert(w2 =~= seq![decimal(id), r(v.position.x), r(v.position.y)]);
    if markers {
        let m = signed_decimal(v.marker as int);
        lemma_signed_word(v.marker as int);
        lemma_next_word(b3, w3, 4, m);
        assert(vertex_body(r, v, id, markers) =~= b3 + spaces(4) + m);
    } else {
        assert(vertex_body(r, v, id, markers) =~= b3);
    }
}

/// The lines of the first `n` vertices.
spec fn vertex_lines(
    r: spec_fn(u64) -> Seq<char>,
    rows: Seq<VertexRow>,
    opts: WriteOptions,
    number: nat,
    n: nat,
) -> Seq<Line> {
    Seq::new(
        n,
        |i: int|
            Line {
                number: (number + i) as nat,
                words: vertex_list(
                    r,
                    rows[i],
                    (i + opts.index_base) as nat,
                    opts.emit_vertex_markers,
                ),
            },
    )
}

proof fn lemma_vertex_lines(
    f: spec_fn(Seq<char>) -> Option<u64>,
    r: spec_fn(u64) -> Seq<char>,
    rows: Seq<VertexRow>,
    opts: WriteOptions,
    number: nat,
    n: nat,
    rest: Seq<char>,
)
    requires
        n <= rows.len(),
        forall|i: int| 0 <= i < rows.len() ==> faithful_vertex(f, r, #[trigger] rows[i]),
    ensures
        lines_of(vertex_rows(r, rows, opts, n) + rest, number) == vertex_lines(
            r,
            rows,
            opts,
            number,
            n,
        ) + lines_of(rest, number + n),
    decreases n,
{
    if n == 0 {
        assert(vertex_rows(r, rows, opts, 0) + rest =~= rest);
        assert(vertex_lines(r, rows, opts, number, 0) + lines_of(rest, number) =~= lines_of(
            rest,
            number,
        ));
    } else {
        let m = (n - 1) as nat;
        let v = rows[n - 1];
        let id = (n - 1 + opts.index_base) as nat;
        let row = vertex_row(r, v, id, opts.emit_vertex_markers);
        let body = vertex_body(r, v, id, opts.emit_vertex_markers);
        let words = vertex_list(r, v, id, opts.emit_vertex_markers);
        lemma_vertex_lines(f, r, rows, opts, number, m, row + rest);
        assert(vertex_rows(r, rows, opts, n) + rest =~= vertex_rows(r, rows, opts, m) + (row
            + rest));
        lemma_vertex_spells(f, r, v, id, opts.emit_vertex_markers);
        lemma_line(body, words, rest, number + m);
        assert(row + rest =~= body + seq!['\n'] + rest);
        let l = Line { number: number + m, words };
        assert(vertex_lines(r, rows, opts, number, n) =~= vertex_lines(
            r,
            rows,
            opts,
            number,
            m,
        ).push(l));
        assert(vertex_lines(r, rows, opts, number, m) + (seq![l] + lines_of(rest, number + n))
            =~= vertex_lines(r, rows, opts, number, n) + lines_of(rest, number + n));
    }
}

proof fn lemma_attributes_back(
    f: spec_fn(Seq<char>) -> Option<u64>,
    r: spec_fn(u64) -> Seq<char>,
    v: VertexRow,
    l: Line,
    n: nat,
)
    requires
        faithful_vertex(f, r, v),
        n <= v.attributes.len(),
        l.words.len() >= 3 + v.attributes.len(),
        forall|k: int|
            0 <= k < v.attributes.len() ==> #[trigger] l.words[k + 3] == r(v.attributes[k]),
    ensures
        attributes_read(f, l, n) == Ok::<Seq<u64>, IoFault>(v.attributes.take(n as int)),
    decreases n,
{
    if n == 0 {
        assert(v.attributes.take(0) =~= Seq::empty());
    } else {
        lemma_attributes_back(f, r, v, l, (n - 1) as nat);
        let k = n as int - 1;
        assert(l.words[k + 3] == r(v.attributes[k]));
        assert(faithful(f, r, v.attributes[k]));
        assert(v.attributes.take(n as int) =~= v.attributes.take(k).push(v.attributes[k]));
    }
}

proof fn lemma_vertex_back(
    f: spec_fn(Seq<char>) -> Option<u64>,
    r: spec_fn(u64) -> Seq<char>,
    v: VertexRow,
    id: nat,
    number: nat,
    h: VertexHeader,
)
    requires
        faithful_vertex(f, r, v),
        id <= u32::MAX,
        h.attribute_count == v.attributes.len(),
        h.marker_count <= 1,
        h.marker_count == 0 ==> v.marker == 0,
    ensures
        vertex_read(
            f,
            (Line { number, words: vertex_list(r, v, id, h.marker_count == 1) }),
            h,
        ) == Ok::<(i64, VertexRow), IoFault>((id as i64, v)),
{
    let l = Line { number, words: vertex_list(r, v, id, h.marker_count == 1) };
    lemma_count_back(id, number, "vertex id"@);
    assert(l.words[0] == decimal(id));
    assert(l.words[1] == r(v.position.x));
    assert(l.words[2] == r(v.position.y));
    assert forall|k: int| 0 <= k < v.attributes.len() implies #[trigger] l.words[k + 3] == r(
        v.attributes[k],
    ) by {
        assert(attribute_list(r, v.attributes, v.attributes.len())[k] == r(v.attributes[k]));
    }
    lemma_attributes_back(f, r, v, l, v.attributes.len());
    assert(v.attributes.take(v.attributes.len() as int) =~= v.attributes);
    if h.marker_count == 1 {
        assert(l.words[3 + h.attribute_count] == signed_decimal(v.marker as int));
        numbers_are_read_back(v.marker as i64);
    }
}

proof fn lemma_vertices_back(
    f: spec_fn(Seq<char>) -> Option<u64>,
    r: spec_fn(u64) -> Seq<char>,
    rows: Seq<VertexRow>,
    opts: WriteOptions,
    lines: Seq<Line>,
    h: VertexHeader,
    number: nat,
    n: nat,
)
    requires
        n <= rows.len(),
        1 + rows.len() <= lines.len(),
        forall|i: int|
            0 <= i < rows.len() ==> #[trigger] lines[1 + i] == vertex_lines(
                r,
                rows,
                opts,
                number,
                rows.len(),
            )[i],
        rows.len() + opts.index_base <= u32::MAX,
        forall|i: int| 0 <= i < rows.len() ==> faithful_vertex(f, r, #[trigger] rows[i]),
        forall|i: int|
            0 <= i < rows.len() ==> (#[trigger] rows[i]).attributes.len() == h.attribute_count,
        h.marker_count == if opts.emit_vertex_markers {
            1int
        } else {
            0
        },
        !opts.emit_vertex_markers ==> forall|i: int|
            0 <= i < rows.len() ==> (#[trigger] rows[i]).marker == 0,
    ensures
        vertices_read(f, lines, 1, h, n) == Ok::<(Seq<VertexRow>, i64), IoFault>(
            (
                rows.take(n as int),
                if n == 0 {
                    0
                } else {
                    opts.index_base as i64
                },
            ),
        ),
    decreases n,
{
    if n == 0 {
        assert(rows.take(0) =~= Seq::empty());
    } else {
        let m = (n - 1) as nat;
        lemma_vertices_back(f, r, rows, opts, lines, h, number, m);
        let i = n as int - 1;
        let id = (i + opts.index_base) as nat;
        assert(lines[1 + i] == vertex_lines(r, rows, opts, number, rows.len())[i]);
        assert(faithful_vertex(f, r, rows[i]));
        assert(rows[i].attributes.len() == h.attribute_count);
        lemma_vertex_back(f, r, rows[i], id, (number + i) as nat, h);
        assert(rows.take(n as int) =~= rows.take(i).push(rows[i]));
    }
}

/// The words in the row of a segment.
spec fn segment_list(s: PslgSegment, i: int, opts: WriteOptions) -> Seq<Seq<char>> {
    let words = seq![
        decimal((i + opts.index_base) as nat),
        decimal((s.a + opts.index_base) as nat),
        decimal((s.b + opts.index_base) as nat),
    ];
    if opts.emit_segment_markers {
        words.push(signed_decimal(s.marker as int))
    } else {
        words
    }
}

/// The row of a segment without its line end.
spec fn segment_body(s: PslgSegment, i: int, opts: WriteOptions) -> Seq<char> {
    padded((i + opts.index_base) as nat) + spaces(1) + decimal((s.a + opts.index_base) as nat)
        + spaces(1) + decimal((s.b + opts.index_base) as nat) + (if opts.emit_segment_markers {
        spaces(1) + signed_decimal(s.marker as int)
    } else {
        Seq::empty()
    })
}

proof fn lemma_segment_spells(s: PslgSegment, i: int, opts: WriteOptions)
    ensures
        spells(segment_body(s, i, opts), segment_list(s, i, opts)),
{
    let id = (i + opts.index_base) as nat;
    let (a, b) = (decimal((s.a + opts.index_base) as nat), decimal((s.b + opts.index_base) as nat));
    lemma_padded_spells(id);
    lemma_decimal_word((s.a + opts.index_base) as nat);
    lemma_decimal_word((s.b + opts.index_base) as nat);
    let b0 = padded(id);
    let w0 = seq![decimal(id)];
    lemma_next_word(b0, w0, 1, a);
    let b1 = b0 + spaces(1) + a;
    let w1 = w0.push(a);
    lemma_next_word(b1, w1, 1, b);
    let b2 = b1 + spaces(1) + b;
    let w2 = w1.push(b);
    assert(w2 =~= seq![decimal(id), a, b]);
    if opts.emit_segment_markers {
        let m = signed_decimal(s.marker as int);
        lemma_signed_word(s.marker as int);
        lemma_next_word(b2, w2, 1, m);
        assert(segment_body(s, i, opts) =~= b2 + spaces(1) + m);
    } else {
        assert(segment_body(s, i, opts) =~= b2);
    }
}

/// The lines of the first `n` segments.
spec fn segment_lines(list: Seq<PslgSegment>, opts: WriteOptions, number: nat, n: nat) -> Seq<
    Line,
> {
    Seq::new(
        n,
        |i: int| Line { number: (number + i) as nat, words: segment_list(list[i], i, opts) },
    )
}

proof fn lemma_segment_lines(
    list: Seq<PslgSegment>,
    opts: WriteOptions,
    number: nat,
    n: nat,
    rest: Seq<char>,
)
    requires
        n <= list.len(),
    ensures
        lines_of(segment_rows(list, opts, n) + rest, number) == segment_lines(
            list,
            opts,
            number,
            n,
        ) + lines_of(rest, number + n),
    decreases n,
{
    if n == 0 {
        assert(segment_rows(list, opts, 0) + rest =~= rest);
        assert(segment_lines(list, opts, number, 0) + lines_of(rest, number) =~= lines_of(
            rest,
            number,
        ));
    } else {
        let m = (n - 1) as nat;
        let s = list[n - 1];
        let row = segment_row(s, n - 1, opts);
        let body = segment_body(s, n - 1, opts);
        let words = segment_list(s, n - 1, opts);
        lemma_segment_lines(list, opts, number, m, row + rest);
        assert(segment_rows(list, opts, n) + rest =~= segment_rows(list, opts, m) + (row + rest));
        lemma_segment_spells(s, n - 1, opts);
        lemma_line(body, words, rest, number + m);
        assert(row + rest =~= body + seq!['\n'] + rest);
        let l = Line { number: number + m, words };
        assert(segment_lines(list, opts, number, n) =~= segment_lines(list, opts, number, m).push(
            l,
        ));
        assert(segment_lines(list, opts, number, m) + (seq![l] + lines_of(rest, number + n))
            =~= segment_lines(list, opts, number, n) + lines_of(rest, number + n));
    }
}

proof fn lemma_segments_back(
    list: Seq<PslgSegment>,
    opts: WriteOptions,
    lines: Seq<Line>,
    at: int,
    number: nat,
    vertex_count: nat,
    n: nat,
)
    requires
        n <= list.len(),
        0 <= at,
        at + list.len() <= lines.len(),
        forall|i: int|
            0 <= i < list.len() ==> #[trigger] lines[at + i] == segment_lines(
                list,
                opts,
                number,
                list.len(),
            )[i],
        vertex_count + opts.index_base <= u32::MAX,
        list.len() + opts.index_base <= u32::MAX,
        forall|i: int|
            0 <= i < list.len() ==> (#[trigger] list[i]).a < vertex_count && list[i].b
                < vertex_count,
        !opts.emit_segment_markers ==> forall|i: int|
            0 <= i < list.len() ==> (#[trigger] list[i]).marker == 0,
    ensures
        segments_read(
            lines,
            at,
            if opts.emit_segment_markers {
                1
            } else {
                0
            },
            opts.index_base as i64,
            vertex_count,
            n,
        ) == Ok::<Seq<PslgSegment>, IoFault>(list.take(n as int)),
    decreases n,
{
    if n == 0 {
        assert(list.take(0) =~= Seq::empty());
    } else {
        let m = (n - 1) as nat;
        lemma_segments_back(list, opts, lines, at, number, vertex_count, m);
        let i = n as int - 1;
        let s = list[i];
        let l = lines[at + i];
        assert(l == segment_lines(list, opts, number, list.len())[i]);
        assert(l.words == segment_list(s, i, opts));
        lemma_count_back((i + opts.index_base) as nat, l.number, "segment id"@);
        lemma_count_back((s.a + opts.index_base) as nat, l.number, "segment endpoint A"@);
        lemma_count_back((s.b + opts.index_base) as nat, l.number, "segment endpoint B"@);
        numbers_are_read_back(s.marker as i64);
        assert(list.take(n as int) =~= list.take(i).push(s));
    }
}

/// The words in the row of a hole.
spec fn hole_list(r: spec_fn(u64) -> Seq<char>, h: PslgHole, i: int, opts: WriteOptions) -> Seq<
    Seq<char>,
> {
    seq![decimal((i + opts.index_base) as nat), r(h.point.x), r(h.point.y)]
}

/// Whether both numbers of a hole are written faithfully.
pub open spec fn faithful_hole(
    f: spec_fn(Seq<char>) -> Option<u64>,
    r: spec_fn(u64) -> Seq<char>,
    h: PslgHole,
) -> bool {
    faithful(f, r, h.point.x) && faithful(f, r, h.point.y)
}

/// The lines of the first `n` holes.
spec fn hole_lines(
    r: spec_fn(u64) -> Seq<char>,
    list: Seq<PslgHole>,
    opts: WriteOptions,
    number: nat,
    n: nat,
) -> Seq<Line> {
    Seq::new(
        n,
        |i: int| Line { number: (number + i) as nat, words: hole_list(r, list[i], i, opts) },
    )
}

proof fn lemma_hole_lines(
    f: spec_fn(Seq<char>) -> Option<u64>,
    r: spec_fn(u64) -> Seq<char>,
    list: Seq<PslgHole>,
    opts: WriteOptions,
    number: nat,
    n: nat,
    rest: Seq<char>,
)
    requires
        n <= list.len(),
        forall|i: int| 0 <= i < list.len() ==> faithful_hole(f, r, #[trigger] list[i]),
    ensures
        lines_of(hole_rows(r, list, opts, n) + rest, number) == hole_lines(
            r,
            list,
            opts,
            number,
            n,
        ) + lines_of(rest, number + n),
    decreases n,
{
    if n == 0 {
        assert(hole_rows(r, list, opts, 0) + rest =~= rest);
        assert(hole_lines(r, list, opts, number, 0) + lines_of(rest, number) =~= lines_of(
            rest,
            number,
        ));
    } else {
        let m = (n - 1) as nat;
        let h = list[n - 1];
        let row = hole_row(r, h, n - 1, opts);
        let d = decimal((n - 1 + opts.index_base) as nat);
        lemma_hole_lines(f, r, list, opts, number, m, row + rest);
        assert(hole_rows(r, list, opts, n) + rest =~= hole_rows(r, list, opts, m) + (row + rest));
        assert(faithful_hole(f, r, h));
        lemma_decimal_spells((n - 1 + opts.index_base) as nat);
        lemma_next_word(d, seq![d], 1, r(h.point.x));
        let b1 = d + spaces(1) + r(h.point.x);
        let w1 = seq![d].push(r(h.point.x));
        lemma_next_word(b1, w1, 1, r(h.point.y));
        let body = b1 + spaces(1) + r(h.point.y);
        let words = w1.push(r(h.point.y));
        assert(words =~= hole_list(r, h, n - 1, opts));
        lemma_line(body, words, rest, number + m);
        assert(row + rest =~= body + seq!['\n'] + rest);
        let l = Line { number: number + m, words };
        assert(hole_lines(r, list, opts, number, n) =~= hole_lines(
            r,
            list,
            opts,
            number,
            m,
        ).push(l));
        assert(hole_lines(r, list, opts, number, m) + (seq![l] + lines_of(rest, number + n))
            =~= hole_lines(r, list, opts, number, n) + lines_of(rest, number + n));
    }
}

proof fn lemma_holes_back(
    f: spec_fn(Seq<char>) -> Option<u64>,
    r: spec_fn(u64) -> Seq<char>,
    list: Seq<PslgHole>,
    opts: WriteOptions,
    lines: Seq<Line>,
    at: int,
    number: nat,
    n: nat,
)
    requires
        n <= list.len(),
        0 <= at,
        at + list.len() <= lines.len(),
        forall|i: int|
            0 <= i < list.len() ==> #[trigger] lines[at + i] == hole_lines(
                r,
                list,
                opts,
                number,
                list.len(),
            )[i],
        list.len() + opts.index_base <= u32::MAX,
        forall|i: int| 0 <= i < list.len() ==> faithful_hole(f, r, #[trigger] list[i]),
    ensures
        hole_rows_read(f, lines, at, n) == Ok::<Seq<PslgHole>, IoFault>(list.take(n as int)),
    decreases n,
{
    if n == 0 {
        assert(list.take(0) =~= Seq::empty());
    } else {
        let m = (n - 1) as nat;
        lemma_holes_back(f, r, list, opts, lines, at, number, m);
        let i = n as int - 1;
        let h = list[i];
        let l = lines[at + i];
        assert(l == hole_lines(r, list, opts, number, list.len())[i]);
        assert(l.words == hole_list(r, h, i, opts));
        assert(faithful_hole(f, r, h));
        lemma_count_back((i + opts.index_base) as nat, l.number, "hole id"@);
        assert(list.take(n as int) =~= list.take(i).push(h));
    }
}

// --- Whole texts ------------------------------------------------------------

/// The header of vertices as a line.
spec fn head_words(rows: Seq<VertexRow>, opts: WriteOptions) -> Seq<Seq<char>> {
    seq![
        decimal(rows.len()),
        decimal(2),
        decimal(attribute_count(rows)),
        decimal(
            if opts.emit_vertex_markers {
                1
            } else {
                0
            },
        ),
    ]
}

proof fn lemma_flag(b: bool)
    ensures
        decimal(
            if b {
                1
            } else {
                0
            },
        ) == seq![flag(b)],
        decimal(2) == seq!['2'],
{
    assert(decimal(0) =~= seq!['0']);
    assert(decimal(1) =~= seq!['1']);
    assert(decimal(2) =~= seq!['2']);
}

proof fn lemma_head_line(rows: Seq<VertexRow>, opts: WriteOptions, rest: Seq<char>)
    ensures
        lines_of(vertex_head(rows, opts) + rest, 1) == seq![
            Line { number: 1, words: head_words(rows, opts) },
        ] + lines_of(rest, 2),
{
    let (d0, d2) = (decimal(rows.len()), decimal(attribute_count(rows)));
    lemma_flag(opts.emit_vertex_markers);
    let m = seq![flag(opts.emit_vertex_markers)];
    let two = decimal(2);
    lemma_decimal_word(2);
    lemma_decimal_word(attribute_count(rows));
    lemma_decimal_word(
        if opts.emit_vertex_markers {
            1
        } else {
            0
        },
    );
    lemma_decimal_spells(rows.len());
    lemma_next_word(d0, seq![d0], 2, two);
    let b1 = d0 + spaces(2) + two;
    let w1 = seq![d0].push(two);
    lemma_next_word(b1, w1, 2, d2);
    let b2 = b1 + spaces(2) + d2;
    let w2 = w1.push(d2);
    lemma_next_word(b2, w2, 2, m);
    let body = b2 + spaces(2) + m;
    let words = w2.push(m);
    assert(words =~= head_words(rows, opts));
    assert(vertex_head(rows, opts) + rest =~= body + seq!['\n'] + rest);
    lemma_line(body, words, rest, 1);
}

/// The header that was written.
spec fn written_header(rows: Seq<VertexRow>, opts: WriteOptions) -> VertexHeader {
    VertexHeader {
        count: rows.len() as usize,
        attribute_count: attribute_count(rows) as usize,
        marker_count: if opts.emit_vertex_markers {
            1
        } else {
            0
        },
    }
}

proof fn lemma_head_back(rows: Seq<VertexRow>, opts: WriteOptions)
    requires
        rows.len() <= u32::MAX,
        attribute_count(rows) <= u32::MAX,
    ensures
        header_read((Line { number: 1, words: head_words(rows, opts) })) == Ok::<
            VertexHeader,
            IoFault,
        >(written_header(rows, opts)),
{
    lemma_count_back(rows.len(), 1, "vertex count"@);
    lemma_count_back(2, 1, "dimension"@);
    lemma_count_back(attribute_count(rows), 1, "attribute count"@);
    lemma_count_back(
        if opts.emit_vertex_markers {
            1
        } else {
            0
        },
        1,
        "marker count"@,
    );
}

/// Whether vertices can be written and read back: every number is written
/// faithfully, all have the same number of attributes, and where markers are
/// left out there are none.
pub open spec fn writable_vertices(
    f: spec_fn(Seq<char>) -> Option<u64>,
    r: spec_fn(u64) -> Seq<char>,
    rows: Seq<VertexRow>,
    opts: WriteOptions,
) -> bool {
    &&& rows.len() + opts.index_base <= u32::MAX
    &&& attribute_count(rows) <= u32::MAX
    &&& forall|i: int| 0 <= i < rows.len() ==> faithful_vertex(f, r, #[trigger] rows[i])
    &&& forall|i: int|
        0 <= i < rows.len() ==> (#[trigger] rows[i]).attributes.len() == attribute_count(rows)
    &&& !opts.emit_vertex_markers ==> forall|i: int|
        0 <= i < rows.len() ==> (#[trigger] rows[i]).marker == 0
}

/// The lines of written vertices, with more text after them.
proof fn lemma_node_lines(
    f: spec_fn(Seq<char>) -> Option<u64>,
    r: spec_fn(u64) -> Seq<char>,
    rows: Seq<VertexRow>,
    opts: WriteOptions,
    rest: Seq<char>,
)
    requires
        writable_vertices(f, r, rows, opts),
    ensures
        ({
            let lines = lines_of(node_text(r, rows, opts) + rest, 1);
            &&& lines == seq![Line { number: 1, words: head_words(rows, opts) }] + vertex_lines(
                r,
                rows,
                opts,
                2,
                rows.len(),
            ) + lines_of(rest, 2 + rows.len())
            &&& first_header(lines, "vertex header"@) == Ok::<VertexHeader, IoFault>(
                written_header(rows, opts),
            )
            &&& vertices_read(f, lines, 1, written_header(rows, opts), rows.len()) == Ok::<
                (Seq<VertexRow>, i64),
                IoFault,
            >(
                (
                    rows,
                    if rows.len() == 0 {
                        0
                    } else {
                        opts.index_base as i64
                    },
                ),
            )
        }),
{
    let body = vertex_rows(r, rows, opts, rows.len());
    let lines = lines_of(node_text(r, rows, opts) + rest, 1);
    let head = seq![Line { number: 1, words: head_words(rows, opts) }];
    let vs = vertex_lines(r, rows, opts, 2, rows.len());
    let more = lines_of(rest, 2 + rows.len());
    assert(node_text(r, rows, opts) + rest =~= vertex_head(rows, opts) + (body + rest));
    lemma_head_line(rows, opts, body + rest);
    lemma_vertex_lines(f, r, rows, opts, 2, rows.len(), rest);
    assert(lines =~= head + vs + more);
    lemma_head_back(rows, opts);
    assert(lines[0] == head[0]);
    assert forall|i: int| 0 <= i < rows.len() implies #[trigger] lines[1 + i] == vs[i] by {
        assert((head + vs)[1 + i] == vs[i]);
    }
    lemma_vertices_back(
        f,
        r,
        rows,
        opts,
        lines,
        written_header(rows, opts),
        2,
        rows.len(),
    );
    assert(rows.take(rows.len() as int) =~= rows);
}

/// Vertices that were written are read back as they were.
pub proof fn written_vertices_are_read_back(
    f: spec_fn(Seq<char>) -> Option<u64>,
    r: spec_fn(u64) -> Seq<char>,
    rows: Seq<VertexRow>,
    opts: WriteOptions,
)
    requires
        writable_vertices(f, r, rows, opts),
    ensures
        node_read(f, lines_of(node_text(r, rows, opts), 1)) == Ok::<Graph, IoFault>(
            (Graph { vertices: rows, segments: Seq::empty(), holes: Seq::empty() }),
        ),
{
    lemma_node_lines(f, r, rows, opts, Seq::empty());
    assert(node_text(r, rows, opts) + Seq::<char>::empty() =~= node_text(r, rows, opts));
}

/// Whether a graph can be written and read back: its vertices can, there is at
/// least one, its segments join vertices that exist, its holes are written
/// faithfully, and where markers are left out there are none.
pub open spec fn writable(
    f: spec_fn(Seq<char>) -> Option<u64>,
    r: spec_fn(u64) -> Seq<char>,
    g: Graph,
    opts: WriteOptions,
) -> bool {
    &&& g.vertices.len() > 0
    &&& writable_vertices(f, r, g.vertices, opts)
    &&& g.segments.len() + opts.index_base <= u32::MAX
    &&& g.holes.len() + opts.index_base <= u32::MAX
    &&& forall|i: int|
        0 <= i < g.segments.len() ==> (#[trigger] g.segments[i]).a < g.vertices.len()
            && g.segments[i].b < g.vertices.len()
    &&& !opts.emit_segment_markers ==> forall|i: int|
        0 <= i < g.segments.len() ==> (#[trigger] g.segments[i]).marker == 0
    &&& forall|i: int| 0 <= i < g.holes.len() ==> faithful_hole(f, r, #[trigger] g.holes[i])
}

proof fn lemma_segment_head_line(
    list: Seq<PslgSegment>,
    opts: WriteOptions,
    number: nat,
    rest: Seq<char>,
)
    requires
        list.len() <= u32::MAX,
    ensures
        ({
            let words = seq![decimal(list.len()), seq![flag(opts.emit_segment_markers)]];
            let l = Line { number, words };
            &&& lines_of(segment_head(list, opts) + rest, number) == seq![l] + lines_of(
                rest,
                number + 1,
            )
            &&& segment_header_read(l) == Ok::<(usize, usize), IoFault>(
                (
                    list.len() as usize,
                    if opts.emit_segment_markers {
                        1
                    } else {
                        0
                    },
                ),
            )
        }),
{
    let d = decimal(list.len());
    lemma_flag(opts.emit_segment_markers);
    let m = seq![flag(opts.emit_segment_markers)];
    let marked: nat = if opts.emit_segment_markers {
        1
    } else {
        0
    };
    lemma_decimal_word(marked);
    lemma_decimal_spells(list.len());
    lemma_next_word(d, seq![d], 1, m);
    let body = d + spaces(1) + m;
    let words = seq![d].push(m);
    assert(words =~= seq![d, m]);
    assert(segment_head(list, opts) + rest =~= body + seq!['\n'] + rest);
    lemma_line(body, words, rest, number);
    lemma_count_back(list.len(), number, "segment count"@);
    lemma_count_back(marked, number, "segment marker count"@);
}

/// The lines of a written graph, part by part.
spec fn graph_lines(r: spec_fn(u64) -> Seq<char>, g: Graph, opts: WriteOptions) -> Seq<Line> {
    let (nv, ns, nh) = (g.vertices.len(), g.segments.len(), g.holes.len());
    seq![Line { number: 1, words: head_words(g.vertices, opts) }] + vertex_lines(
        r,
        g.vertices,
        opts,
        2,
        nv,
    ) + (seq![segment_head_line(g, opts)] + (segment_lines(g.segments, opts, 3 + nv, ns) + (seq![
        hole_head_line(g),
    ] + hole_lines(r, g.holes, opts, 4 + nv + ns, nh))))
}

spec fn segment_head_line(g: Graph, opts: WriteOptions) -> Line {
    Line {
        number: 2 + g.vertices.len(),
        words: seq![decimal(g.segments.len()), seq![flag(opts.emit_segment_markers)]],
    }
}

spec fn hole_head_line(g: Graph) -> Line {
    Line { number: 3 + g.vertices.len() + g.segments.len(), words: seq![decimal(g.holes.len())] }
}

/// The text of a graph after its vertices.
spec fn text_after_vertices(r: spec_fn(u64) -> Seq<char>, g: Graph, opts: WriteOptions) -> Seq<
    char,
> {
    let hole_text = decimal(g.holes.len()) + seq!['\n'] + hole_rows(
        r,
        g.holes,
        opts,
        g.holes.len(),
    );
    segment_head(g.segments, opts) + (segment_rows(g.segments, opts, g.segments.len()) + hole_text)
}

#[verifier::spinoff_prover]
#[verifier::rlimit(60)]
proof fn lemma_graph_lines(
    f: spec_fn(Seq<char>) -> Option<u64>,
    r: spec_fn(u64) -> Seq<char>,
    g: Graph,
    opts: WriteOptions,
)
    requires
        writable(f, r, g, opts),
    ensures
        poly_text(r, g, opts) == node_text(r, g.vertices, opts) + text_after_vertices(r, g, opts),
        lines_of(poly_text(r, g, opts), 1) == graph_lines(r, g, opts),
        segment_header_read(segment_head_line(g, opts)) == Ok::<(usize, usize), IoFault>(
            (
                g.segments.len() as usize,
                if opts.emit_segment_markers {
                    1
                } else {
                    0
                },
            ),
        ),
{
    let (nv, ns, nh) = (g.vertices.len(), g.segments.len(), g.holes.len());
    let hole_body = hole_rows(r, g.holes, opts, nh);
    let hole_text = decimal(nh) + seq!['\n'] + hole_body;
    let seg_body = segment_rows(g.segments, opts, ns);
    let rest = text_after_vertices(r, g, opts);
    let text = poly_text(r, g, opts);
    assert(text =~= node_text(r, g.vertices, opts) + rest);
    lemma_node_lines(f, r, g.vertices, opts, rest);
    lemma_segment_head_line(g.segments, opts, 2 + nv, seg_body + hole_text);
    lemma_segment_lines(g.segments, opts, 3 + nv, ns, hole_text);
    lemma_decimal_spells(nh);
    lemma_line(decimal(nh), seq![decimal(nh)], hole_body, 3 + nv + ns);
    lemma_hole_lines(f, r, g.holes, opts, 4 + nv + ns, nh, Seq::empty());
    assert(hole_body + Seq::<char>::empty() =~= hole_body);
    let hs = hole_lines(r, g.holes, opts, 4 + nv + ns, nh);
    assert(lines_of(Seq::<char>::empty(), 4 + nv + ns + nh) =~= Seq::<Line>::empty());
    assert(lines_of(hole_body, 4 + nv + ns) =~= hs);
    assert(lines_of(text, 1) =~= graph_lines(r, g, opts));
}

/// A graph that was written is read back as it was.
#[verifier::spinoff_prover]
#[verifier::rlimit(60)]
pub proof fn written_graphs_are_read_back(
    f: spec_fn(Seq<char>) -> Option<u64>,
    r: spec_fn(u64) -> Seq<char>,
    g: Graph,
    opts: WriteOptions,
    companion: Seq<Line>,
)
    requires
        writable(f, r, g, opts),
    ensures
        poly_read(f, lines_of(poly_text(r, g, opts), 1), companion) == Ok::<Graph, IoFault>(g),
{
    let (nv, ns, nh) = (g.vertices.len(), g.segments.len(), g.holes.len());
    lemma_graph_lines(f, r, g, opts);
    lemma_node_lines(f, r, g.vertices, opts, text_after_vertices(r, g, opts));
    let lines = lines_of(poly_text(r, g, opts), 1);
    let ss = segment_lines(g.segments, opts, 3 + nv, ns);
    let hs = hole_lines(r, g.holes, opts, 4 + nv + ns, nh);
    lemma_segment_lines(g.segments, opts, 3 + nv, ns, Seq::empty());
    lemma_hole_lines(f, r, g.holes, opts, 4 + nv + ns, nh, Seq::empty());
    assert(lines.len() == 1 + nv + 1 + ns + 1 + nh);
    assert(lines[1 + nv as int] == segment_head_line(g, opts));
    let at = 2 + nv as int;
    assert forall|i: int| 0 <= i < ns implies #[trigger] lines[at + i] == ss[i] by {}
    lemma_segments_back(g.segments, opts, lines, at, 3 + nv, nv, ns);
    assert(g.segments.take(ns as int) =~= g.segments);
    assert(lines[at + ns] == hole_head_line(g));
    lemma_count_back(nh, 3 + nv + ns, "hole count"@);
    let hat = at + ns + 1;
    assert forall|i: int| 0 <= i < nh implies #[trigger] lines[hat + i] == hs[i] by {}
    lemma_holes_back(f, r, g.holes, opts, lines, hat, 4 + nv + ns, nh);
    assert(g.holes.take(nh as int) =~= g.holes);
    assert(holes_read(f, lines, at + ns) == Ok::<Seq<PslgHole>, IoFault>(g.holes));
    assert(graph_rest(f, lines, 1 + nv as int, g.vertices, opts.index_base as i64) == Ok::<
        Graph,
        IoFault,
    >(g));
}

} // verus!
