//! Text files of vertices, segments and holes: rows of numbers, with comments
//! after `#` and blank lines skipped.
//!
//! The ids of a file count from its first vertex's id. Numbers with a fraction
//! are read and written by the caller, who hands in how.

use crate::predicates::Vertex;
use crate::pslg::{Pslg, PslgHole, PslgSegment, PslgVertex};
use crate::text::{
    chars_of, decimal, int_of, line_views, lines_of, push_decimal, push_signed, read_int,
    signed_decimal, split_lines, text_of, Line, TokenLine,
};
use vstd::prelude::*;
use vstd::string::StringExecFns;

verus! {

// --- Errors -----------------------------------------------------------------

/// Why a file is refused.
#[derive(Clone, Debug)]
pub enum IoError {
    /// The file could not be read.
    Io { message: String },
    /// The file ends too early.
    UnexpectedEof { context: &'static str },
    /// A word is not the number it should be.
    Parse { line: usize, context: &'static str, token: String },
    /// A line has the wrong number of words.
    BadColumnCount { line: usize, context: &'static str, expected: String, found: usize },
    /// An index names no vertex.
    VertexOutOfRange { line: usize, context: &'static str, index: i64, vertex_count: usize },
    /// Only two dimensions can be read.
    UnsupportedDimension { line: usize, dim: usize },
    /// A vertex has another number of attributes than the others.
    InconsistentAttributes { line: usize, expected: usize, found: usize },
}

/// An error as mathematics.
pub enum IoFault {
    Io { message: Seq<char> },
    UnexpectedEof { context: Seq<char> },
    Parse { line: nat, context: Seq<char>, token: Seq<char> },
    BadColumnCount { line: nat, context: Seq<char>, expected: Seq<char>, found: nat },
    VertexOutOfRange { line: nat, context: Seq<char>, index: i64, vertex_count: nat },
    UnsupportedDimension { line: nat, dim: nat },
    InconsistentAttributes { line: nat, expected: nat, found: nat },
}

impl View for IoError {
    type V = IoFault;

    open spec fn view(&self) -> IoFault {
        match *self {
            IoError::Io { message } => IoFault::Io { message: message@ },
            IoError::UnexpectedEof { context } => IoFault::UnexpectedEof { context: context@ },
            IoError::Parse { line, context, token } => IoFault::Parse {
                line: line as nat,
                context: context@,
                token: token@,
            },
            IoError::BadColumnCount { line, context, expected, found } => IoFault::BadColumnCount {
                line: line as nat,
                context: context@,
                expected: expected@,
                found: found as nat,
            },
            IoError::VertexOutOfRange { line, context, index, vertex_count } =>
                IoFault::VertexOutOfRange {
                line: line as nat,
                context: context@,
                index,
                vertex_count: vertex_count as nat,
            },
            IoError::UnsupportedDimension { line, dim } => IoFault::UnsupportedDimension {
                line: line as nat,
                dim: dim as nat,
            },
            IoError::InconsistentAttributes { line, expected, found } =>
                IoFault::InconsistentAttributes {
                line: line as nat,
                expected: expected as nat,
                found: found as nat,
            },
        }
    }
}

/// What an error says.
pub open spec fn fault_text(e: IoFault) -> Seq<char> {
    match e {
        IoFault::Io { message } => "io error: "@ + message,
        IoFault::UnexpectedEof { context } => "unexpected end of file while reading "@ + context,
        IoFault::Parse { line, context, token } => "line "@ + decimal(line) + ": failed to parse "@
            + context + " token '"@ + token + "'"@,
        IoFault::BadColumnCount { line, context, expected, found } => "line "@ + decimal(line)
            + ": "@ + context + " expects "@ + expected + " columns, found "@ + decimal(found),
        IoFault::VertexOutOfRange { line, context, index, vertex_count } => "line "@ + decimal(line)
            + ": "@ + context + " references vertex "@ + signed_decimal(index as int)
            + " but only "@ + decimal(vertex_count) + " vertices exist"@,
        IoFault::UnsupportedDimension { line, dim } => "line "@ + decimal(line)
            + ": only 2D is supported (file declares dimension "@ + decimal(dim) + ")"@,
        IoFault::InconsistentAttributes { line, expected, found } => "line "@ + decimal(line)
            + ": expected "@ + decimal(expected) + " per-vertex attributes, found "@ + decimal(
            found,
        ),
    }
}

impl IoError {
    /// What the error says.
    pub fn message(&self) -> (s: String)
        ensures
            s@ == fault_text(self@),
    {
        let mut s = String::new();
        match self {
            IoError::Io { message } => {
                s.append("io error: ");
                s.append(message.as_str());
                assert(s@ =~= fault_text(self@));
            },
            IoError::UnexpectedEof { context } => {
                s.append("unexpected end of file while reading ");
                s.append(context);
                assert(s@ =~= fault_text(self@));
            },
            IoError::Parse { line, context, token } => {
                s.append("line ");
                push_decimal(&mut s, *line as u64);
                s.append(": failed to parse ");
                s.append(context);
                s.append(" token '");
                s.append(token.as_str());
                s.append("'");
                assert(s@ =~= fault_text(self@));
            },
            IoError::BadColumnCount { line, context, expected, found } => {
                s.append("line ");
                push_decimal(&mut s, *line as u64);
                s.append(": ");
                s.append(context);
                s.append(" expects ");
                s.append(expected.as_str());
                s.append(" columns, found ");
                push_decimal(&mut s, *found as u64);
                assert(s@ =~= fault_text(self@));
            },
            IoError::VertexOutOfRange { line, context, index, vertex_count } => {
                s.append("line ");
                push_decimal(&mut s, *line as u64);
                s.append(": ");
                s.append(context);
                s.append(" references vertex ");
                push_signed(&mut s, *index);
                s.append(" but only ");
                push_decimal(&mut s, *vertex_count as u64);
                s.append(" vertices exist");
                assert(s@ =~= fault_text(self@));
            },
            IoError::UnsupportedDimension { line, dim } => {
                s.append("line ");
                push_decimal(&mut s, *line as u64);
                s.append(": only 2D is supported (file declares dimension ");
                push_decimal(&mut s, *dim as u64);
                s.append(")");
                assert(s@ =~= fault_text(self@));
            },
            IoError::InconsistentAttributes { line, expected, found } => {
                s.append("line ");
                push_decimal(&mut s, *line as u64);
                s.append(": expected ");
                push_decimal(&mut s, *expected as u64);
                s.append(" per-vertex attributes, found ");
                push_decimal(&mut s, *found as u64);
                assert(s@ =~= fault_text(self@));
            },
        }
        s
    }
}

/// A result with its error as mathematics.
pub open spec fn said<T>(r: Result<T, IoError>) -> Result<T, IoFault> {
    match r {
        Ok(x) => Ok(x),
        Err(e) => Err(e@),
    }
}

// --- Lines ------------------------------------------------------------------

/// The lines of a file that have content, one after the other.
#[derive(Clone, Debug)]
pub struct TokenLines {
    pub lines: Vec<TokenLine>,
    pub at: usize,
}

impl TokenLines {
    /// All lines.
    pub open spec fn all(&self) -> Seq<Line> {
        line_views(self.lines@)
    }

    pub open spec fn wf(&self) -> bool {
        self.at <= self.lines@.len()
    }

    /// The lines of a file.
    pub fn new(src: &str) -> (it: TokenLines)
        requires
            src@.len() < usize::MAX,
        ensures
            it.wf(),
            it.at == 0,
            it.all() == lines_of(src@, 1),
    {
        let chars = chars_of(src);
        TokenLines { lines: split_lines(&chars), at: 0 }
    }

    /// The next line, if there is one.
    pub fn next(&mut self) -> (r: Option<&TokenLine>)
        requires
            old(self).wf(),
        ensures
            final(self).wf(),
            final(self).lines == old(self).lines,
            match r {
                None => old(self).at == old(self).all().len() && final(self).at == old(self).at,
                Some(l) => {
                    &&& old(self).at < old(self).all().len()
                    &&& final(self).at == old(self).at + 1
                    &&& l@ == old(self).all()[old(self).at as int]
                },
            },
    {
        if self.at < self.lines.len() {
            self.at = self.at + 1;
            Some(&self.lines[self.at - 1])
        } else {
            None
        }
    }
}

/// The line at a place, or the error that the file ends too early.
pub open spec fn line_at(lines: Seq<Line>, at: int, context: Seq<char>) -> Result<Line, IoFault> {
    if at < lines.len() {
        Ok(lines[at])
    } else {
        Err(IoFault::UnexpectedEof { context })
    }
}

/// The next line, or the error that the file ends too early.
pub fn next_line<'a>(it: &'a mut TokenLines, context: &'static str) -> (r: Result<
    &'a TokenLine,
    IoError,
>)
    requires
        old(it).wf(),
    ensures
        final(it).wf(),
        final(it).lines == old(it).lines,
        match r {
            Ok(l) => line_at(old(it).all(), old(it).at as int, context@) == Ok::<_, IoFault>(l@)
                && final(it).at == old(it).at + 1,
            Err(e) => line_at(old(it).all(), old(it).at as int, context@) == Err::<Line, _>(e@),
        },
{
    match it.next() {
        None => Err(IoError::UnexpectedEof { context }),
        Some(l) => Ok(l),
    }
}

// --- Numbers ----------------------------------------------------------------

/// The error that a word is not the number it should be.
pub open spec fn not_parsed(line: nat, context: Seq<char>, token: Seq<char>) -> IoFault {
    IoFault::Parse { line, context, token }
}

fn parse_error(line: usize, context: &'static str, token: &Vec<char>) -> (e: IoError)
    ensures
        e@ == not_parsed(line as nat, context@, token@),
{
    IoError::Parse { line, context, token: text_of(token) }
}

/// A word read as a whole number.
pub open spec fn int_read(tok: Seq<char>, line: nat, context: Seq<char>) -> Result<i64, IoFault> {
    match int_of(tok) {
        Some(n) => Ok(n),
        None => Err(not_parsed(line, context, tok)),
    }
}

/// Read a word as a whole number.
pub fn parse_int(tok: &Vec<char>, line: usize, context: &'static str) -> (r: Result<i64, IoError>)
    ensures
        said(r) == int_read(tok@, line as nat, context@),
{
    match read_int(tok) {
        Some(n) => Ok(n),
        None => Err(parse_error(line, context, tok)),
    }
}

/// A word read as a count.
pub open spec fn count_read(tok: Seq<char>, line: nat, context: Seq<char>) -> Result<
    usize,
    IoFault,
> {
    match int_of(tok) {
        Some(n) if 0 <= n <= usize::MAX => Ok(n as usize),
        _ => Err(not_parsed(line, context, tok)),
    }
}

/// Read a word as a count: a whole number that is not negative.
pub fn parse_usize(tok: &Vec<char>, line: usize, context: &'static str) -> (r: Result<
    usize,
    IoError,
>)
    ensures
        said(r) == count_read(tok@, line as nat, context@),
        r matches Ok(n) ==> n <= i64::MAX,
{
    let n: i64 = match read_int(tok) {
        Some(n) => n,
        None => return Err(parse_error(line, context, tok)),
    };
    if n < 0 || n as u64 > usize::MAX as u64 {
        return Err(parse_error(line, context, tok));
    }
    Ok(n as usize)
}

/// Whether a word has a given reading as a number with a fraction.
pub open spec fn answers<F: Fn(&Vec<char>) -> Option<u64>>(
    reader: F,
    s: Seq<char>,
    o: Option<u64>,
) -> bool {
    exists|t: Vec<char>| t@ == s && #[trigger] reader.ensures((&t,), o)
}

/// Whether `reader` reads every word, always the same word the same way.
pub open spec fn steady<F: Fn(&Vec<char>) -> Option<u64>>(reader: F) -> bool {
    &&& forall|t: Vec<char>| #[trigger] reader.requires((&t,))
    &&& forall|s: Seq<char>, a: Option<u64>, b: Option<u64>| #[trigger]
        answers(reader, s, a) && #[trigger] answers(reader, s, b) ==> a == b
}

/// What `reader` reads words as.
pub open spec fn readings<F: Fn(&Vec<char>) -> Option<u64>>(reader: F) -> spec_fn(
    Seq<char>,
) -> Option<u64> {
    |s: Seq<char>| choose|o: Option<u64>| answers(reader, s, o)
}

/// A word read as a number with a fraction.
pub open spec fn real_read(
    f: spec_fn(Seq<char>) -> Option<u64>,
    tok: Seq<char>,
    line: nat,
    context: Seq<char>,
) -> Result<u64, IoFault> {
    match f(tok) {
        Some(bits) => Ok(bits),
        None => Err(not_parsed(line, context, tok)),
    }
}

/// Read a word as a number with a fraction, given as its bits.
pub fn parse_real<F: Fn(&Vec<char>) -> Option<u64>>(
    reader: &F,
    tok: &Vec<char>,
    line: usize,
    context: &'static str,
) -> (r: Result<u64, IoError>)
    requires
        steady(*reader),
    ensures
        said(r) == real_read(readings(*reader), tok@, line as nat, context@),
{
    assert(reader.requires((tok,)));
    let o = reader(tok);
    proof {
        assert(reader.ensures((tok,), o));
        assert(answers(*reader, tok@, o));
        let c = choose|c: Option<u64>| answers(*reader, tok@, c);
        assert(answers(*reader, tok@, c));
        assert(readings(*reader)(tok@) == c);
    }
    match o {
        Some(n) => Ok(n),
        None => Err(parse_error(line, context, tok)),
    }
}

// --- Vertices ---------------------------------------------------------------

/// What the first line of a file says of its vertices.
#[derive(Copy, Clone, Debug, PartialEq, Eq, Structural)]
pub struct VertexHeader {
    pub count: usize,
    pub attribute_count: usize,
    pub marker_count: usize,
}

/// A vertex as mathematics.
pub struct VertexRow {
    pub position: Vertex,
    pub attributes: Seq<u64>,
    pub marker: i32,
}

/// A vertex as mathematics.
pub open spec fn row_of(v: PslgVertex) -> VertexRow {
    VertexRow { position: v.position, attributes: v.attributes@, marker: v.marker }
}

/// Vertices as mathematics.
pub open spec fn rows_of(vs: Seq<PslgVertex>) -> Seq<VertexRow> {
    Seq::new(vs.len(), |i: int| row_of(vs[i]))
}

/// The error that a line has the wrong number of words.
pub open spec fn bad_columns(l: Line, context: Seq<char>, expected: nat) -> IoFault {
    IoFault::BadColumnCount {
        line: l.number,
        context,
        expected: decimal(expected),
        found: l.words.len(),
    }
}

fn column_error(l: &TokenLine, context: &'static str, expected: u64) -> (e: IoError)
    ensures
        e@ == bad_columns(l@, context@, expected as nat),
{
    let mut text = String::new();
    push_decimal(&mut text, expected);
    proof {
        assert(Seq::<char>::empty() + decimal(expected as nat) =~= decimal(expected as nat));
    }
    IoError::BadColumnCount {
        line: l.number,
        context,
        expected: text,
        found: l.tokens.len(),
    }
}

/// What a line says of a file's vertices: how many, the dimension, which has
/// to be two, the attributes of each, and whether each has a marker.
pub open spec fn header_read(l: Line) -> Result<VertexHeader, IoFault> {
    if l.words.len() != 4 {
        Err(bad_columns(l, "vertex header"@, 4))
    } else {
        match count_read(l.words[0], l.number, "vertex count"@) {
            Err(e) => Err(e),
            Ok(count) => match count_read(l.words[1], l.number, "dimension"@) {
                Err(e) => Err(e),
                Ok(dim) => if dim != 2 {
                    Err(IoFault::UnsupportedDimension { line: l.number, dim: dim as nat })
                } else {
                    match count_read(l.words[2], l.number, "attribute count"@) {
                        Err(e) => Err(e),
                        Ok(attribute_count) => match count_read(
                            l.words[3],
                            l.number,
                            "marker count"@,
                        ) {
                            Err(e) => Err(e),
                            Ok(marker_count) => if marker_count > 1 {
                                Err(
                                    not_parsed(
                                        l.number,
                                        "marker count (must be 0 or 1)"@,
                                        l.words[3],
                                    ),
                                )
                            } else {
                                Ok(VertexHeader { count, attribute_count, marker_count })
                            },
                        },
                    }
                },
            },
        }
    }
}

/// Read what a line says of a file's vertices.
pub fn read_vertex_header(l: &TokenLine) -> (r: Result<VertexHeader, IoError>)
    ensures
        said(r) == header_read(l@),
        r matches Ok(h) ==> h.attribute_count <= i64::MAX && h.marker_count <= 1,
{
    if l.tokens.len() != 4 {
        return Err(column_error(l, "vertex header", 4));
    }
    let count: usize = match parse_usize(&l.tokens[0], l.number, "vertex count") {
        Ok(n) => n,
        Err(e) => return Err(e),
    };
    let dim: usize = match parse_usize(&l.tokens[1], l.number, "dimension") {
        Ok(n) => n,
        Err(e) => return Err(e),
    };
    if dim != 2 {
        return Err(IoError::UnsupportedDimension { line: l.number, dim });
    }
    let attribute_count: usize = match parse_usize(&l.tokens[2], l.number, "attribute count") {
        Ok(n) => n,
        Err(e) => return Err(e),
    };
    let marker_count: usize = match parse_usize(&l.tokens[3], l.number, "marker count") {
        Ok(n) => n,
        Err(e) => return Err(e),
    };
    if marker_count > 1 {
        return Err(parse_error(l.number, "marker count (must be 0 or 1)", &l.tokens[3]));
    }
    Ok(VertexHeader { count, attribute_count, marker_count })
}

/// The first `n` attributes of a vertex: the words after its id and position.
pub open spec fn attributes_read(
    f: spec_fn(Seq<char>) -> Option<u64>,
    l: Line,
    n: nat,
) -> Result<Seq<u64>, IoFault>
    decreases n,
{
    if n == 0 {
        Ok(Seq::empty())
    } else {
        match attributes_read(f, l, (n - 1) as nat) {
            Err(e) => Err(e),
            Ok(list) => match real_read(f, l.words[n as int + 2], l.number, "vertex attribute"@) {
                Err(e) => Err(e),
                Ok(a) => Ok(list.push(a)),
            },
        }
    }
}

/// The number of words in the row of a vertex.
pub open spec fn row_width(h: VertexHeader) -> nat {
    (3 + h.attribute_count + h.marker_count) as nat
}

/// The id and the vertex in a row.
pub open spec fn vertex_read(f: spec_fn(Seq<char>) -> Option<u64>, l: Line, h: VertexHeader) -> Result<
    (i64, VertexRow),
    IoFault,
> {
    if l.words.len() != row_width(h) {
        Err(bad_columns(l, "vertex row"@, row_width(h)))
    } else {
        match int_read(l.words[0], l.number, "vertex id"@) {
            Err(e) => Err(e),
            Ok(id) => match real_read(f, l.words[1], l.number, "vertex x"@) {
                Err(e) => Err(e),
                Ok(x) => match real_read(f, l.words[2], l.number, "vertex y"@) {
                    Err(e) => Err(e),
                    Ok(y) => match attributes_read(f, l, h.attribute_count as nat) {
                        Err(e) => Err(e),
                        Ok(attributes) => {
                            let position = Vertex { x, y };
                            if h.marker_count == 1 {
                                match int_read(
                                    l.words[3 + h.attribute_count],
                                    l.number,
                                    "vertex marker"@,
                                ) {
                                    Err(e) => Err(e),
                                    Ok(m) => Ok(
                                        (
                                            id,
                                            VertexRow { position, attributes, marker: m as i32 },
                                        ),
                                    ),
                                }
                            } else {
                                Ok((id, VertexRow { position, attributes, marker: 0 }))
                            }
                        },
                    },
                },
            },
        }
    }
}

/// A vertex with its id, as mathematics.
pub open spec fn said_vertex(r: Result<(i64, PslgVertex), IoError>) -> Result<
    (i64, VertexRow),
    IoFault,
> {
    match r {
        Ok((id, v)) => Ok((id, row_of(v))),
        Err(e) => Err(e@),
    }
}

fn read_attributes<F: Fn(&Vec<char>) -> Option<u64>>(
    reader: &F,
    l: &TokenLine,
    count: usize,
) -> (r: Result<Vec<u64>, IoError>)
    requires
        steady(*reader),
        3 + count <= l.tokens@.len(),
    ensures
        match r {
            Ok(list) => attributes_read(readings(*reader), l@, count as nat) == Ok::<_, IoFault>(
                list@,
            ),
            Err(e) => attributes_read(readings(*reader), l@, count as nat) == Err::<Seq<u64>, _>(
                e@,
            ),
        },
{
    let ghost f = readings(*reader);
    let width: usize = l.tokens.len();
    let mut attributes: Vec<u64> = Vec::new();
    let mut k: usize = 0;
    while k < count
        invariant
            steady(*reader),
            f == readings(*reader),
            k <= count,
            3 + count <= width == l.tokens@.len(),
            attributes_read(f, l@, k as nat) == Ok::<_, IoFault>(attributes@),
        decreases count - k,
    {
        match parse_real(reader, &l.tokens[3 + k], l.number, "vertex attribute") {
            Ok(a) => attributes.push(a),
            Err(e) => {
                proof {
                    lemma_attribute_fault(f, l@, (k + 1) as nat, count as nat);
                }
                return Err(e);
            },
        }
        k += 1;
    }
    Ok(attributes)
}

fn read_vertex<F: Fn(&Vec<char>) -> Option<u64>>(
    reader: &F,
    l: &TokenLine,
    h: &VertexHeader,
) -> (r: Result<(i64, PslgVertex), IoError>)
    requires
        steady(*reader),
        h.attribute_count <= i64::MAX,
        h.marker_count <= 1,
    ensures
        said_vertex(r) == vertex_read(readings(*reader), l@, *h),
{
    let width: u64 = 3 + h.attribute_count as u64 + h.marker_count as u64;
    if l.tokens.len() as u64 != width {
        return Err(column_error(l, "vertex row", width));
    }
    let id: i64 = match parse_int(&l.tokens[0], l.number, "vertex id") {
        Ok(n) => n,
        Err(e) => return Err(e),
    };
    let x: u64 = match parse_real(reader, &l.tokens[1], l.number, "vertex x") {
        Ok(n) => n,
        Err(e) => return Err(e),
    };
    let y: u64 = match parse_real(reader, &l.tokens[2], l.number, "vertex y") {
        Ok(n) => n,
        Err(e) => return Err(e),
    };
    let attributes = match read_attributes(reader, l, h.attribute_count) {
        Ok(list) => list,
        Err(e) => return Err(e),
    };
    let marker: i32 = if h.marker_count == 1 {
        match parse_int(&l.tokens[3 + h.attribute_count], l.number, "vertex marker") {
            Ok(m) => #[verifier::truncate] (m as i32),
            Err(e) => return Err(e),
        }
    } else {
        0
    };
    Ok((id, PslgVertex { position: Vertex { x, y }, attributes, marker }))
}

proof fn lemma_attribute_fault(f: spec_fn(Seq<char>) -> Option<u64>, l: Line, n: nat, m: nat)
    requires
        n <= m,
        attributes_read(f, l, n) is Err,
    ensures
        attributes_read(f, l, m) == attributes_read(f, l, n),
    decreases m,
{
    if n < m {
        lemma_attribute_fault(f, l, n, (m - 1) as nat);
    }
}

/// The first `n` vertices from a line on, and the id of the first.
pub open spec fn vertices_read(
    f: spec_fn(Seq<char>) -> Option<u64>,
    lines: Seq<Line>,
    at: int,
    h: VertexHeader,
    n: nat,
) -> Result<(Seq<VertexRow>, i64), IoFault>
    decreases n,
{
    if n == 0 {
        Ok((Seq::empty(), 0))
    } else {
        match vertices_read(f, lines, at, h, (n - 1) as nat) {
            Err(e) => Err(e),
            Ok((rows, base)) => match line_at(lines, at + n - 1, "vertex row"@) {
                Err(e) => Err(e),
                Ok(l) => match vertex_read(f, l, h) {
                    Err(e) => Err(e),
                    Ok((id, row)) => Ok(
                        (
                            rows.push(row),
                            if n == 1 {
                                id
                            } else {
                                base
                            },
                        ),
                    ),
                },
            },
        }
    }
}

proof fn lemma_vertex_fault(
    f: spec_fn(Seq<char>) -> Option<u64>,
    lines: Seq<Line>,
    at: int,
    h: VertexHeader,
    n: nat,
    m: nat,
)
    requires
        n <= m,
        vertices_read(f, lines, at, h, n) is Err,
    ensures
        vertices_read(f, lines, at, h, m) == vertices_read(f, lines, at, h, n),
    decreases m,
{
    if n < m {
        lemma_vertex_fault(f, lines, at, h, n, (m - 1) as nat);
    }
}

/// Vertices and a base, as mathematics.
pub open spec fn said_vertices(r: Result<(Vec<PslgVertex>, i64), IoError>) -> Result<
    (Seq<VertexRow>, i64),
    IoFault,
> {
    match r {
        Ok((v, base)) => Ok((rows_of(v@), base)),
        Err(e) => Err(e@),
    }
}

/// Read the vertices that a header announces. The id of the first is the base
/// from which the ids of the file count.
pub fn read_vertex_body<F: Fn(&Vec<char>) -> Option<u64>>(
    reader: &F,
    lines: &mut TokenLines,
    h: &VertexHeader,
) -> (r: Result<(Vec<PslgVertex>, i64), IoError>)
    requires
        steady(*reader),
        old(lines).wf(),
        h.attribute_count <= i64::MAX,
        h.marker_count <= 1,
    ensures
        final(lines).wf(),
        final(lines).lines == old(lines).lines,
        said_vertices(r) == vertices_read(
            readings(*reader),
            old(lines).all(),
            old(lines).at as int,
            *h,
            h.count as nat,
        ),
        r is Ok ==> final(lines).at == old(lines).at + h.count,
{
    let ghost f = readings(*reader);
    let ghost all = lines.all();
    let ghost at = lines.at as int;
    let mut vertices: Vec<PslgVertex> = Vec::new();
    let mut base: i64 = 0;
    let mut i: usize = 0;
    assert(rows_of(vertices@) =~= Seq::empty());
    while i < h.count
        invariant
            steady(*reader),
            f == readings(*reader),
            lines.wf(),
            lines.lines == old(lines).lines,
            all == lines.all(),
            all == old(lines).all(),
            at == old(lines).at,
            h.attribute_count <= i64::MAX,
            h.marker_count <= 1,
            i <= h.count,
            lines.at == at + i,
            vertices_read(f, all, at, *h, i as nat) == Ok::<_, IoFault>(
                (rows_of(vertices@), base),
            ),
        decreases h.count - i,
    {
        let l = match next_line(lines, "vertex row") {
            Ok(l) => l,
            Err(e) => {
                proof {
                    lemma_vertex_fault(f, all, at, *h, (i + 1) as nat, h.count as nat);
                }
                return Err(e);
            },
        };
        let (id, v) = match read_vertex(reader, l, h) {
            Ok(x) => x,
            Err(e) => {
                proof {
                    lemma_vertex_fault(f, all, at, *h, (i + 1) as nat, h.count as nat);
                }
                return Err(e);
            },
        };
        if i == 0 {
            base = id;
        }
        let ghost before = rows_of(vertices@);
        vertices.push(v);
        assert(rows_of(vertices@) =~= before.push(row_of(v)));
        i += 1;
    }
    Ok((vertices, base))
}

// --- Segments and holes -----------------------------------------------------

/// The vertex that an id names: ids count from `base`.
pub open spec fn index_read(
    raw: i64,
    base: i64,
    line: nat,
    context: Seq<char>,
    vertex_count: nat,
) -> Result<u32, IoFault> {
    if raw - base < 0 || raw - base >= vertex_count {
        Err(IoFault::VertexOutOfRange { line, context, index: raw, vertex_count })
    } else {
        Ok((raw - base) as u32)
    }
}

/// Find the vertex that an id names.
pub fn normalize_vertex_index(
    raw: i64,
    base: i64,
    line: usize,
    context: &'static str,
    vertex_count: usize,
) -> (r: Result<u32, IoError>)
    ensures
        said(r) == index_read(raw, base, line as nat, context@, vertex_count as nat),
{
    let zero_based: i128 = raw as i128 - base as i128;
    if zero_based < 0 || zero_based >= vertex_count as i128 {
        return Err(IoError::VertexOutOfRange { line, context, index: raw, vertex_count });
    }
    Ok(#[verifier::truncate] (zero_based as u32))
}

/// What a line says of a file's segments: how many, and whether each has a
/// marker.
pub open spec fn segment_header_read(l: Line) -> Result<(usize, usize), IoFault> {
    if l.words.len() != 2 {
        Err(bad_columns(l, "segment header"@, 2))
    } else {
        match count_read(l.words[0], l.number, "segment count"@) {
            Err(e) => Err(e),
            Ok(count) => match count_read(l.words[1], l.number, "segment marker count"@) {
                Err(e) => Err(e),
                Ok(markers) => if markers > 1 {
                    Err(
                        not_parsed(
                            l.number,
                            "segment marker count (must be 0 or 1)"@,
                            l.words[1],
                        ),
                    )
                } else {
                    Ok((count, markers))
                },
            },
        }
    }
}

fn read_segment_header(l: &TokenLine) -> (r: Result<(usize, usize), IoError>)
    ensures
        said(r) == segment_header_read(l@),
        r matches Ok(x) ==> x.1 <= 1,
{
    if l.tokens.len() != 2 {
        return Err(column_error(l, "segment header", 2));
    }
    let count: usize = match parse_usize(&l.tokens[0], l.number, "segment count") {
        Ok(n) => n,
        Err(e) => return Err(e),
    };
    let markers: usize = match parse_usize(&l.tokens[1], l.number, "segment marker count") {
        Ok(n) => n,
        Err(e) => return Err(e),
    };
    if markers > 1 {
        return Err(parse_error(l.number, "segment marker count (must be 0 or 1)", &l.tokens[1]));
    }
    Ok((count, markers))
}

/// The segment in a row.
pub open spec fn segment_read(l: Line, markers: nat, base: i64, vertex_count: nat) -> Result<
    PslgSegment,
    IoFault,
> {
    if l.words.len() != 3 + markers {
        Err(bad_columns(l, "segment row"@, 3 + markers))
    } else {
        match int_read(l.words[0], l.number, "segment id"@) {
            Err(e) => Err(e),
            Ok(_) => match int_read(l.words[1], l.number, "segment endpoint A"@) {
                Err(e) => Err(e),
                Ok(ra) => match int_read(l.words[2], l.number, "segment endpoint B"@) {
                    Err(e) => Err(e),
                    Ok(rb) => match index_read(
                        ra,
                        base,
                        l.number,
                        "segment endpoint A"@,
                        vertex_count,
                    ) {
                        Err(e) => Err(e),
                        Ok(a) => match index_read(
                            rb,
                            base,
                            l.number,
                            "segment endpoint B"@,
                            vertex_count,
                        ) {
                            Err(e) => Err(e),
                            Ok(b) => if markers == 1 {
                                match int_read(l.words[3], l.number, "segment marker"@) {
                                    Err(e) => Err(e),
                                    Ok(m) => Ok(PslgSegment { a, b, marker: m as i32 }),
                                }
                            } else {
                                Ok(PslgSegment { a, b, marker: 0 })
                            },
                        },
                    },
                },
            },
        }
    }
}

fn read_segment(l: &TokenLine, markers: usize, base: i64, vertex_count: usize) -> (r: Result<
    PslgSegment,
    IoError,
>)
    requires
        markers <= 1,
    ensures
        said(r) == segment_read(l@, markers as nat, base, vertex_count as nat),
{
    if l.tokens.len() != 3 + markers {
        return Err(column_error(l, "segment row", 3 + markers as u64));
    }
    match parse_int(&l.tokens[0], l.number, "segment id") {
        Ok(_) => {},
        Err(e) => return Err(e),
    }
    let ra: i64 = match parse_int(&l.tokens[1], l.number, "segment endpoint A") {
        Ok(n) => n,
        Err(e) => return Err(e),
    };
    let rb: i64 = match parse_int(&l.tokens[2], l.number, "segment endpoint B") {
        Ok(n) => n,
        Err(e) => return Err(e),
    };
    let a: u32 = match normalize_vertex_index(
        ra,
        base,
        l.number,
        "segment endpoint A",
        vertex_count,
    ) {
        Ok(n) => n,
        Err(e) => return Err(e),
    };
    let b: u32 = match normalize_vertex_index(
        rb,
        base,
        l.number,
        "segment endpoint B",
        vertex_count,
    ) {
        Ok(n) => n,
        Err(e) => return Err(e),
    };
    let marker: i32 = if markers == 1 {
        match parse_int(&l.tokens[3], l.number, "segment marker") {
            Ok(m) => #[verifier::truncate] (m as i32),
            Err(e) => return Err(e),
        }
    } else {
        0
    };
    Ok(PslgSegment { a, b, marker })
}

/// The first `n` segments from a line on.
pub open spec fn segments_read(
    lines: Seq<Line>,
    at: int,
    markers: nat,
    base: i64,
    vertex_count: nat,
    n: nat,
) -> Result<Seq<PslgSegment>, IoFault>
    decreases n,
{
    if n == 0 {
        Ok(Seq::empty())
    } else {
        match segments_read(lines, at, markers, base, vertex_count, (n - 1) as nat) {
            Err(e) => Err(e),
            Ok(list) => match line_at(lines, at + n - 1, "segment row"@) {
                Err(e) => Err(e),
                Ok(l) => match segment_read(l, markers, base, vertex_count) {
                    Err(e) => Err(e),
                    Ok(s) => Ok(list.push(s)),
                },
            },
        }
    }
}

proof fn lemma_segment_fault(
    lines: Seq<Line>,
    at: int,
    markers: nat,
    base: i64,
    vertex_count: nat,
    n: nat,
    m: nat,
)
    requires
        n <= m,
        segments_read(lines, at, markers, base, vertex_count, n) is Err,
    ensures
        segments_read(lines, at, markers, base, vertex_count, m) == segments_read(
            lines,
            at,
            markers,
            base,
            vertex_count,
            n,
        ),
    decreases m,
{
    if n < m {
        lemma_segment_fault(lines, at, markers, base, vertex_count, n, (m - 1) as nat);
    }
}

/// A list with its error as mathematics.
pub open spec fn said_list<T>(r: Result<Vec<T>, IoError>) -> Result<Seq<T>, IoFault> {
    match r {
        Ok(v) => Ok(v@),
        Err(e) => Err(e@),
    }
}

fn read_segments(
    lines: &mut TokenLines,
    count: usize,
    markers: usize,
    base: i64,
    vertex_count: usize,
) -> (r: Result<Vec<PslgSegment>, IoError>)
    requires
        old(lines).wf(),
        markers <= 1,
    ensures
        final(lines).wf(),
        final(lines).lines == old(lines).lines,
        said_list(r) == segments_read(
            old(lines).all(),
            old(lines).at as int,
            markers as nat,
            base,
            vertex_count as nat,
            count as nat,
        ),
        r is Ok ==> final(lines).at == old(lines).at + count,
{
    let ghost all = lines.all();
    let ghost at = lines.at as int;
    let mut segments: Vec<PslgSegment> = Vec::new();
    let mut i: usize = 0;
    while i < count
        invariant
            lines.wf(),
            lines.lines == old(lines).lines,
            all == lines.all(),
            all == old(lines).all(),
            at == old(lines).at,
            markers <= 1,
            i <= count,
            lines.at == at + i,
            segments_read(all, at, markers as nat, base, vertex_count as nat, i as nat) == Ok::<
                _,
                IoFault,
            >(segments@),
        decreases count - i,
    {
        let l = match next_line(lines, "segment row") {
            Ok(l) => l,
            Err(e) => {
                proof {
                    lemma_segment_fault(
                        all,
                        at,
                        markers as nat,
                        base,
                        vertex_count as nat,
                        (i + 1) as nat,
                        count as nat,
                    );
                }
                return Err(e);
            },
        };
        match read_segment(l, markers, base, vertex_count) {
            Ok(s) => segments.push(s),
            Err(e) => {
                proof {
                    lemma_segment_fault(
                        all,
                        at,
                        markers as nat,
                        base,
                        vertex_count as nat,
                        (i + 1) as nat,
                        count as nat,
                    );
                }
                return Err(e);
            },
        }
        i += 1;
    }
    Ok(segments)
}

/// The hole in a row.
pub open spec fn hole_read(f: spec_fn(Seq<char>) -> Option<u64>, l: Line) -> Result<
    PslgHole,
    IoFault,
> {
    if l.words.len() != 3 {
        Err(bad_columns(l, "hole row"@, 3))
    } else {
        match int_read(l.words[0], l.number, "hole id"@) {
            Err(e) => Err(e),
            Ok(_) => match real_read(f, l.words[1], l.number, "hole x"@) {
                Err(e) => Err(e),
                Ok(x) => match real_read(f, l.words[2], l.number, "hole y"@) {
                    Err(e) => Err(e),
                    Ok(y) => Ok(PslgHole { point: Vertex { x, y } }),
                },
            },
        }
    }
}

fn read_hole<F: Fn(&Vec<char>) -> Option<u64>>(reader: &F, l: &TokenLine) -> (r: Result<
    PslgHole,
    IoError,
>)
    requires
        steady(*reader),
    ensures
        said(r) == hole_read(readings(*reader), l@),
{
    if l.tokens.len() != 3 {
        return Err(column_error(l, "hole row", 3));
    }
    match parse_int(&l.tokens[0], l.number, "hole id") {
        Ok(_) => {},
        Err(e) => return Err(e),
    }
    let x: u64 = match parse_real(reader, &l.tokens[1], l.number, "hole x") {
        Ok(n) => n,
        Err(e) => return Err(e),
    };
    let y: u64 = match parse_real(reader, &l.tokens[2], l.number, "hole y") {
        Ok(n) => n,
        Err(e) => return Err(e),
    };
    Ok(PslgHole { point: Vertex { x, y } })
}

/// The first `n` holes from a line on.
pub open spec fn hole_rows_read(
    f: spec_fn(Seq<char>) -> Option<u64>,
    lines: Seq<Line>,
    at: int,
    n: nat,
) -> Result<Seq<PslgHole>, IoFault>
    decreases n,
{
    if n == 0 {
        Ok(Seq::empty())
    } else {
        match hole_rows_read(f, lines, at, (n - 1) as nat) {
            Err(e) => Err(e),
            Ok(list) => match line_at(lines, at + n - 1, "hole row"@) {
                Err(e) => Err(e),
                Ok(l) => match hole_read(f, l) {
                    Err(e) => Err(e),
                    Ok(h) => Ok(list.push(h)),
                },
            },
        }
    }
}

proof fn lemma_hole_fault(
    f: spec_fn(Seq<char>) -> Option<u64>,
    lines: Seq<Line>,
    at: int,
    n: nat,
    m: nat,
)
    requires
        n <= m,
        hole_rows_read(f, lines, at, n) is Err,
    ensures
        hole_rows_read(f, lines, at, m) == hole_rows_read(f, lines, at, n),
    decreases m,
{
    if n < m {
        lemma_hole_fault(f, lines, at, n, (m - 1) as nat);
    }
}

/// The holes from a line on: a line with their number, and their rows. A file
/// may end before them.
pub open spec fn holes_read(f: spec_fn(Seq<char>) -> Option<u64>, lines: Seq<Line>, at: int) -> Result<
    Seq<PslgHole>,
    IoFault,
> {
    if at >= lines.len() {
        Ok(Seq::empty())
    } else {
        let l = lines[at];
        if l.words.len() != 1 {
            Err(bad_columns(l, "hole header"@, 1))
        } else {
            match count_read(l.words[0], l.number, "hole count"@) {
                Err(e) => Err(e),
                Ok(count) => hole_rows_read(f, lines, at + 1, count as nat),
            }
        }
    }
}

fn read_hole_rows<F: Fn(&Vec<char>) -> Option<u64>>(
    reader: &F,
    lines: &mut TokenLines,
    count: usize,
) -> (r: Result<Vec<PslgHole>, IoError>)
    requires
        steady(*reader),
        old(lines).wf(),
    ensures
        said_list(r) == hole_rows_read(
            readings(*reader),
            old(lines).all(),
            old(lines).at as int,
            count as nat,
        ),
{
    let ghost f = readings(*reader);
    let ghost all = lines.all();
    let ghost at = lines.at as int;
    let mut holes: Vec<PslgHole> = Vec::new();
    let mut i: usize = 0;
    while i < count
        invariant
            steady(*reader),
            f == readings(*reader),
            lines.wf(),
            all == lines.all(),
            all == old(lines).all(),
            at == old(lines).at,
            i <= count,
            lines.at == at + i,
            hole_rows_read(f, all, at, i as nat) == Ok::<_, IoFault>(holes@),
        decreases count - i,
    {
        let l = match next_line(lines, "hole row") {
            Ok(l) => l,
            Err(e) => {
                proof {
                    lemma_hole_fault(f, all, at, (i + 1) as nat, count as nat);
                }
                return Err(e);
            },
        };
        match read_hole(reader, l) {
            Ok(h) => holes.push(h),
            Err(e) => {
                proof {
                    lemma_hole_fault(f, all, at, (i + 1) as nat, count as nat);
                }
                return Err(e);
            },
        }
        i += 1;
    }
    Ok(holes)
}

fn read_holes<F: Fn(&Vec<char>) -> Option<u64>>(reader: &F, lines: &mut TokenLines) -> (r: Result<
    Vec<PslgHole>,
    IoError,
>)
    requires
        steady(*reader),
        old(lines).wf(),
    ensures
        said_list(r) == holes_read(readings(*reader), old(lines).all(), old(lines).at as int),
{
    let count: usize = match lines.next() {
        None => return Ok(Vec::new()),
        Some(l) => {
            if l.tokens.len() != 1 {
                return Err(column_error(l, "hole header", 1));
            }
            match parse_usize(&l.tokens[0], l.number, "hole count") {
                Ok(n) => n,
                Err(e) => return Err(e),
            }
        },
    };
    read_hole_rows(reader, lines, count)
}

// --- Whole files ------------------------------------------------------------

/// A graph as mathematics.
pub struct Graph {
    pub vertices: Seq<VertexRow>,
    pub segments: Seq<PslgSegment>,
    pub holes: Seq<PslgHole>,
}

/// A graph as mathematics.
pub open spec fn graph_of(p: Pslg) -> Graph {
    Graph { vertices: rows_of(p.vertices@), segments: p.segments@, holes: p.holes@ }
}

/// A graph with its error as mathematics.
pub open spec fn said_graph(r: Result<Pslg, IoError>) -> Result<Graph, IoFault> {
    match r {
        Ok(p) => Ok(graph_of(p)),
        Err(e) => Err(e@),
    }
}

/// The header at the beginning of a file.
pub open spec fn first_header(lines: Seq<Line>, context: Seq<char>) -> Result<
    VertexHeader,
    IoFault,
> {
    match line_at(lines, 0, context) {
        Err(e) => Err(e),
        Ok(l) => header_read(l),
    }
}

/// The vertices of a file that begins with their header.
pub open spec fn vertex_section(
    f: spec_fn(Seq<char>) -> Option<u64>,
    lines: Seq<Line>,
    context: Seq<char>,
) -> Result<(Seq<VertexRow>, i64), IoFault> {
    match first_header(lines, context) {
        Err(e) => Err(e),
        Ok(h) => vertices_read(f, lines, 1, h, h.count as nat),
    }
}

/// The segments and holes from a line on, among given vertices.
pub open spec fn graph_rest(
    f: spec_fn(Seq<char>) -> Option<u64>,
    lines: Seq<Line>,
    at: int,
    vertices: Seq<VertexRow>,
    base: i64,
) -> Result<Graph, IoFault> {
    match line_at(lines, at, "segment header"@) {
        Err(e) => Err(e),
        Ok(l) => match segment_header_read(l) {
            Err(e) => Err(e),
            Ok((count, markers)) => match segments_read(
                lines,
                at + 1,
                markers as nat,
                base,
                vertices.len(),
                count as nat,
            ) {
                Err(e) => Err(e),
                Ok(segments) => match holes_read(f, lines, at + 1 + count) {
                    Err(e) => Err(e),
                    Ok(holes) => Ok(Graph { vertices, segments, holes }),
                },
            },
        },
    }
}

/// What a file of vertices, segments and holes says. A file that announces no
/// vertices takes them from its companion.
pub open spec fn poly_read(
    f: spec_fn(Seq<char>) -> Option<u64>,
    lines: Seq<Line>,
    companion: Seq<Line>,
) -> Result<Graph, IoFault> {
    match first_header(lines, "vertex header"@) {
        Err(e) => Err(e),
        Ok(h) => if h.count == 0 {
            match vertex_section(f, companion, "companion .node header"@) {
                Err(e) => Err(e),
                Ok((vertices, base)) => graph_rest(f, lines, 1, vertices, base),
            }
        } else {
            match vertices_read(f, lines, 1, h, h.count as nat) {
                Err(e) => Err(e),
                Ok((vertices, base)) => graph_rest(f, lines, 1 + h.count, vertices, base),
            }
        },
    }
}

/// What a file of vertices says.
pub open spec fn node_read(f: spec_fn(Seq<char>) -> Option<u64>, lines: Seq<Line>) -> Result<
    Graph,
    IoFault,
> {
    match vertex_section(f, lines, "vertex header"@) {
        Err(e) => Err(e),
        Ok((vertices, _)) => Ok(
            Graph { vertices, segments: Seq::empty(), holes: Seq::empty() },
        ),
    }
}

fn read_first_header(lines: &mut TokenLines, context: &'static str) -> (r: Result<
    VertexHeader,
    IoError,
>)
    requires
        old(lines).wf(),
        old(lines).at == 0,
    ensures
        final(lines).wf(),
        final(lines).lines == old(lines).lines,
        said(r) == first_header(old(lines).all(), context@),
        r matches Ok(h) ==> h.attribute_count <= i64::MAX && h.marker_count <= 1 && final(lines).at
            == 1,
{
    match next_line(lines, context) {
        Ok(l) => read_vertex_header(l),
        Err(e) => Err(e),
    }
}

/// Whether a file of vertices, segments and holes takes its vertices from a
/// companion file.
pub fn poly_needs_node(src: &str) -> (b: bool)
    requires
        src@.len() < usize::MAX,
    ensures
        b == (first_header(lines_of(src@, 1), "vertex header"@) matches Ok(h) && h.count == 0),
{
    let mut lines = TokenLines::new(src);
    match read_first_header(&mut lines, "vertex header") {
        Ok(h) => h.count == 0,
        Err(_) => false,
    }
}

/// Read a file of vertices, segments and holes. `companion` is the text of the
/// file that has the vertices where this one has none; it does not matter
/// otherwise.
pub fn read_poly<F: Fn(&Vec<char>) -> Option<u64>>(reader: &F, src: &str, companion: &str) -> (r:
    Result<Pslg, IoError>)
    requires
        steady(*reader),
        src@.len() < usize::MAX,
        companion@.len() < usize::MAX,
    ensures
        said_graph(r) == poly_read(
            readings(*reader),
            lines_of(src@, 1),
            lines_of(companion@, 1),
        ),
{
    let mut lines = TokenLines::new(src);
    let h = match read_first_header(&mut lines, "vertex header") {
        Ok(h) => h,
        Err(e) => return Err(e),
    };
    let (vertices, base) = if h.count == 0 {
        let mut others = TokenLines::new(companion);
        let g = match read_first_header(&mut others, "companion .node header") {
            Ok(h) => h,
            Err(e) => return Err(e),
        };
        match read_vertex_body(reader, &mut others, &g) {
            Ok(x) => x,
            Err(e) => return Err(e),
        }
    } else {
        match read_vertex_body(reader, &mut lines, &h) {
            Ok(x) => x,
            Err(e) => return Err(e),
        }
    };
    let (count, markers) = match next_line(&mut lines, "segment header") {
        Err(e) => return Err(e),
        Ok(l) => match read_segment_header(l) {
            Ok(x) => x,
            Err(e) => return Err(e),
        },
    };
    let segments = match read_segments(&mut lines, count, markers, base, vertices.len()) {
        Ok(x) => x,
        Err(e) => return Err(e),
    };
    let holes = match read_holes(reader, &mut lines) {
        Ok(x) => x,
        Err(e) => return Err(e),
    };
    Ok(Pslg { vertices, segments, holes })
}

/// Read a file of vertices.
pub fn read_node<F: Fn(&Vec<char>) -> Option<u64>>(reader: &F, src: &str) -> (r: Result<
    Pslg,
    IoError,
>)
    requires
        steady(*reader),
        src@.len() < usize::MAX,
    ensures
        said_graph(r) == node_read(readings(*reader), lines_of(src@, 1)),
{
    let mut lines = TokenLines::new(src);
    let h = match read_first_header(&mut lines, "vertex header") {
        Ok(h) => h,
        Err(e) => return Err(e),
    };
    let vertices = match read_vertex_body(reader, &mut lines, &h) {
        Ok((v, _)) => v,
        Err(e) => return Err(e),
    };
    Ok(Pslg { vertices, segments: Vec::new(), holes: Vec::new() })
}

} // verus!
