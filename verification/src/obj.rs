//! Meshes in Wavefront text: `v` lines with positions and `f` lines with the
//! corners of faces. Every other line is skipped.

use crate::io::{answers, readings, steady};
use crate::polysoup::PolySoup;
use crate::text::{
    check_space, first_at, int_of, is_space, lemma_first_at_is, read_int, slice_of, text_of, texts,
};
use crate::world::Point3;
use vstd::prelude::*;

verus! {

/// Why a mesh is refused; lines count from one.
#[derive(Clone, Debug)]
pub enum ObjError {
    /// A position has too few numbers.
    MissingFloat { line: usize },
    /// A word of a position is not a number.
    BadFloat { line: usize, token: String },
    /// A corner is not a whole number.
    BadIndex { line: usize, token: String },
    /// A corner names no vertex.
    IndexOutOfRange { line: usize },
}

/// An error as mathematics.
pub enum ObjFault {
    MissingFloat { line: nat },
    BadFloat { line: nat, token: Seq<char> },
    BadIndex { line: nat, token: Seq<char> },
    IndexOutOfRange { line: nat },
}

impl View for ObjError {
    type V = ObjFault;

    open spec fn view(&self) -> ObjFault {
        match *self {
            ObjError::MissingFloat { line } => ObjFault::MissingFloat { line: line as nat },
            ObjError::BadFloat { line, token } => ObjFault::BadFloat {
                line: line as nat,
                token: token@,
            },
            ObjError::BadIndex { line, token } => ObjFault::BadIndex {
                line: line as nat,
                token: token@,
            },
            ObjError::IndexOutOfRange { line } => ObjFault::IndexOutOfRange { line: line as nat },
        }
    }
}

// --- Words ------------------------------------------------------------------

/// Whether a character separates words.
pub open spec fn is_gap(c: char) -> bool {
    c == ' ' || c == '\t' || c == '\n' || c == '\r' || c as u32 == 0xc
}

/// Where the first word of a text ends that does not begin with a gap.
pub open spec fn gap_at(s: Seq<char>) -> nat
    decreases s.len(),
{
    if s.len() == 0 || is_gap(s[0]) {
        0
    } else {
        1 + gap_at(s.skip(1))
    }
}

/// The words of a text: its longest stretches without gaps.
pub open spec fn obj_words(s: Seq<char>) -> Seq<Seq<char>>
    decreases s.len(),
{
    if s.len() == 0 {
        Seq::empty()
    } else if is_gap(s[0]) {
        obj_words(s.skip(1))
    } else {
        let n = gap_at(s) as int;
        if 0 < n <= s.len() {
            seq![s.take(n)] + obj_words(s.skip(n))
        } else {
            Seq::empty()
        }
    }
}

/// A text without the white space at its beginning.
pub open spec fn trimmed_left(s: Seq<char>) -> Seq<char>
    decreases s.len(),
{
    if s.len() > 0 && is_space(s[0]) {
        trimmed_left(s.skip(1))
    } else {
        s
    }
}

/// A text without the white space at its end.
pub open spec fn trimmed_right(s: Seq<char>) -> Seq<char>
    decreases s.len(),
{
    if s.len() > 0 && is_space(s.last()) {
        trimmed_right(s.drop_last())
    } else {
        s
    }
}

/// The words of a line; none where it is a comment.
pub open spec fn content_words(line: Seq<char>) -> Seq<Seq<char>> {
    let s = trimmed_right(trimmed_left(line));
    if s.len() == 0 || s[0] == '#' {
        Seq::empty()
    } else {
        obj_words(s)
    }
}

fn check_gap(c: char) -> (b: bool)
    ensures
        b == is_gap(c),
{
    c == ' ' || c == '\t' || c == '\n' || c == '\r' || c as u32 == 0xc
}

proof fn lemma_gap_at_is(s: Seq<char>, n: nat)
    requires
        n <= s.len(),
        forall|k: int| 0 <= k < n ==> !is_gap(#[trigger] s[k]),
        n == s.len() || is_gap(s[n as int]),
    ensures
        gap_at(s) == n,
    decreases n,
{
    if n > 0 {
        let t = s.skip(1);
        assert forall|k: int| 0 <= k < n - 1 implies !is_gap(#[trigger] t[k]) by {
            assert(t[k] == s[k + 1]);
        }
        assert(!is_gap(s[0]));
        lemma_gap_at_is(t, (n - 1) as nat);
    }
}

fn split_gaps(chars: &Vec<char>, from: usize, to: usize) -> (out: Vec<Vec<char>>)
    requires
        from <= to <= chars@.len(),
    ensures
        texts(out@) == obj_words(chars@.subrange(from as int, to as int)),
{
    let mut out: Vec<Vec<char>> = Vec::new();
    let mut i: usize = from;
    let ghost all = obj_words(chars@.subrange(from as int, to as int));
    while i < to
        invariant
            from <= i <= to <= chars@.len(),
            texts(out@) + obj_words(chars@.subrange(i as int, to as int)) == all,
        decreases to - i,
    {
        let ghost s = chars@.subrange(i as int, to as int);
        if check_gap(chars[i]) {
            assert(s.skip(1) =~= chars@.subrange(i + 1, to as int));
            i += 1;
        } else {
            let mut e: usize = i + 1;
            while e < to && !check_gap(chars[e])
                invariant
                    from <= i < e <= to <= chars@.len(),
                    forall|k: int| i <= k < e ==> !is_gap(#[trigger] chars@[k]),
                decreases to - e,
            {
                e += 1;
            }
            let ghost before = texts(out@);
            out.push(slice_of(chars, i, e));
            proof {
                let n = (e - i) as nat;
                assert forall|k: int| 0 <= k < n implies !is_gap(#[trigger] s[k]) by {
                    assert(s[k] == chars@[i + k]);
                }
                lemma_gap_at_is(s, n);
                assert(s.take(n as int) =~= chars@.subrange(i as int, e as int));
                assert(s.skip(n as int) =~= chars@.subrange(e as int, to as int));
                assert(texts(out@) =~= before.push(s.take(n as int)));
                assert(before + (seq![s.take(n as int)] + obj_words(s.skip(n as int)))
                    =~= texts(out@) + obj_words(s.skip(n as int)));
            }
            i = e;
        }
    }
    proof {
        assert(chars@.subrange(to as int, to as int) =~= Seq::empty());
        assert(texts(out@) + Seq::<Seq<char>>::empty() =~= texts(out@));
    }
    out
}

fn line_content(chars: &Vec<char>, from: usize, to: usize) -> (out: Vec<Vec<char>>)
    requires
        from <= to <= chars@.len(),
    ensures
        texts(out@) == content_words(chars@.subrange(from as int, to as int)),
{
    let ghost line = chars@.subrange(from as int, to as int);
    let mut a: usize = from;
    while a < to && check_space(chars[a])
        invariant
            from <= a <= to <= chars@.len(),
            trimmed_left(line) == trimmed_left(chars@.subrange(a as int, to as int)),
        decreases to - a,
    {
        assert(chars@.subrange(a as int, to as int).skip(1) =~= chars@.subrange(
            a + 1,
            to as int,
        ));
        a += 1;
    }
    let ghost left = chars@.subrange(a as int, to as int);
    assert(trimmed_left(line) == left);
    let mut b: usize = to;
    while b > a && check_space(chars[b - 1])
        invariant
            from <= a <= b <= to <= chars@.len(),
            trimmed_right(left) == trimmed_right(chars@.subrange(a as int, b as int)),
        decreases b,
    {
        assert(chars@.subrange(a as int, b as int).drop_last() =~= chars@.subrange(
            a as int,
            b - 1,
        ));
        b -= 1;
    }
    assert(trimmed_right(left) == chars@.subrange(a as int, b as int));
    if a == b || chars[a] == '#' {
        let out: Vec<Vec<char>> = Vec::new();
        assert(texts(out@) =~= Seq::empty());
        return out;
    }
    split_gaps(chars, a, b)
}

// --- Faces ------------------------------------------------------------------

/// The part of a corner before the first slash.
pub open spec fn position_part(tok: Seq<char>) -> Seq<char> {
    tok.take(first_at(tok, '/') as int)
}

/// The vertex that a corner names: counted from one, or from the end where it
/// is not above zero.
pub open spec fn corner_index(raw: int, count: int) -> int {
    if raw > 0 {
        raw - 1
    } else {
        count + raw
    }
}

/// The corners of a face among its first `n` words. Words that begin with a
/// slash are skipped.
pub open spec fn corners_read(toks: Seq<Seq<char>>, count: nat, line: nat, n: nat) -> Result<
    Seq<u32>,
    ObjFault,
>
    decreases n,
{
    if n == 0 {
        Ok(Seq::empty())
    } else {
        match corners_read(toks, count, line, (n - 1) as nat) {
            Err(e) => Err(e),
            Ok(list) => {
                let part = position_part(toks[n as int]);
                if part.len() == 0 {
                    Ok(list)
                } else {
                    match int_of(part) {
                        None => Err(ObjFault::BadIndex { line, token: part }),
                        Some(raw) => {
                            let i = corner_index(raw as int, count as int);
                            if i < 0 || i >= count {
                                Err(ObjFault::IndexOutOfRange { line })
                            } else {
                                Ok(list.push(i as u32))
                            }
                        },
                    }
                }
            },
        }
    }
}

/// The first `n` triangles of the fan around the first corner of a face.
pub open spec fn fan(face: Seq<u32>, n: nat) -> Seq<[u32; 3]>
    decreases n,
{
    if n == 0 {
        Seq::empty()
    } else {
        fan(face, (n - 1) as nat).push([face[0], face[n as int], face[n as int + 1]])
    }
}

/// All triangles of a face; none where it has fewer than three corners.
pub open spec fn face_triangles(face: Seq<u32>) -> Seq<[u32; 3]> {
    if face.len() < 3 {
        Seq::empty()
    } else {
        fan(face, (face.len() - 2) as nat)
    }
}

/// A mesh so far.
pub struct MeshSoFar {
    pub vertices: Seq<Point3>,
    pub triangles: Seq<[u32; 3]>,
}

/// A number of a position.
pub open spec fn float_read(
    f: spec_fn(Seq<char>) -> Option<u64>,
    toks: Seq<Seq<char>>,
    k: int,
    line: nat,
) -> Result<u64, ObjFault> {
    if k >= toks.len() {
        Err(ObjFault::MissingFloat { line })
    } else {
        match f(toks[k]) {
            None => Err(ObjFault::BadFloat { line, token: toks[k] }),
            Some(bits) => Ok(bits),
        }
    }
}

/// The mesh after a line with the given words.
pub open spec fn line_read(
    f: spec_fn(Seq<char>) -> Option<u64>,
    m: MeshSoFar,
    toks: Seq<Seq<char>>,
    line: nat,
) -> Result<MeshSoFar, ObjFault> {
    if toks.len() == 0 {
        Ok(m)
    } else if toks[0] == seq!['v'] {
        match float_read(f, toks, 1, line) {
            Err(e) => Err(e),
            Ok(x) => match float_read(f, toks, 2, line) {
                Err(e) => Err(e),
                Ok(y) => match float_read(f, toks, 3, line) {
                    Err(e) => Err(e),
                    Ok(z) => Ok(MeshSoFar { vertices: m.vertices.push(Point3 { x, y, z }), ..m }),
                },
            },
        }
    } else if toks[0] == seq!['f'] {
        match corners_read(toks, m.vertices.len(), line, (toks.len() - 1) as nat) {
            Err(e) => Err(e),
            Ok(face) => Ok(MeshSoFar { triangles: m.triangles + face_triangles(face), ..m }),
        }
    } else {
        Ok(m)
    }
}

/// The mesh after the rest of a text; `line` numbers its first line.
pub open spec fn rest_read(
    f: spec_fn(Seq<char>) -> Option<u64>,
    m: MeshSoFar,
    s: Seq<char>,
    line: nat,
) -> Result<MeshSoFar, ObjFault>
    decreases s.len(),
{
    if s.len() == 0 {
        Ok(m)
    } else {
        let e = first_at(s, '\n') as int;
        match line_read(f, m, content_words(s.take(e)), line) {
            Err(fault) => Err(fault),
            Ok(next) => if e < s.len() {
                rest_read(f, next, s.skip(e + 1), line + 1)
            } else {
                Ok(next)
            },
        }
    }
}

/// The mesh of a text.
pub open spec fn obj_read(f: spec_fn(Seq<char>) -> Option<u64>, s: Seq<char>) -> Result<
    MeshSoFar,
    ObjFault,
> {
    rest_read(f, MeshSoFar { vertices: Seq::empty(), triangles: Seq::empty() }, s, 1)
}

/// A soup as a mesh so far.
pub open spec fn mesh_of(s: PolySoup) -> MeshSoFar {
    MeshSoFar { vertices: s.vertices@, triangles: s.triangles@ }
}

fn read_position_part(tok: &Vec<char>) -> (part: Vec<char>)
    ensures
        part@ == position_part(tok@),
{
    let mut e: usize = 0;
    while e < tok.len() && tok[e] != '/'
        invariant
            e <= tok@.len(),
            forall|k: int| 0 <= k < e ==> #[trigger] tok@[k] != '/',
        decreases tok.len() - e,
    {
        e += 1;
    }
    proof {
        lemma_first_at_is(tok@, '/', e as nat);
        assert(tok@.take(e as int) =~= tok@.subrange(0, e as int));
    }
    slice_of(tok, 0, e)
}

fn read_corners(toks: &Vec<Vec<char>>, count: usize, line: usize) -> (r: Result<
    Vec<u32>,
    ObjError,
>)
    requires
        toks@.len() > 0,
        count <= u32::MAX,
    ensures
        match r {
            Ok(face) => corners_read(
                texts(toks@),
                count as nat,
                line as nat,
                (toks@.len() - 1) as nat,
            ) == Ok::<_, ObjFault>(face@),
            Err(e) => corners_read(
                texts(toks@),
                count as nat,
                line as nat,
                (toks@.len() - 1) as nat,
            ) == Err::<Seq<u32>, _>(e@),
        },
{
    let ghost words = texts(toks@);
    let mut face: Vec<u32> = Vec::new();
    let mut k: usize = 1;
    while k < toks.len()
        invariant
            1 <= k <= toks@.len(),
            count <= u32::MAX,
            words == texts(toks@),
            corners_read(words, count as nat, line as nat, (k - 1) as nat) == Ok::<_, ObjFault>(
                face@,
            ),
        decreases toks.len() - k,
    {
        let part = read_position_part(&toks[k]);
        assert(words[k as int] == toks@[k as int]@);
        if part.len() > 0 {
            let raw: i64 = match read_int(&part) {
                Some(n) => n,
                None => {
                    let e = ObjError::BadIndex { line, token: text_of(&part) };
                    proof {
                        lemma_corner_fault(
                            words,
                            count as nat,
                            line as nat,
                            k as nat,
                            (toks@.len() - 1) as nat,
                        );
                    }
                    return Err(e);
                },
            };
            let i: i128 = if raw > 0 {
                raw as i128 - 1
            } else {
                count as i128 + raw as i128
            };
            if i < 0 || i >= count as i128 {
                proof {
                    lemma_corner_fault(
                        words,
                        count as nat,
                        line as nat,
                        k as nat,
                        (toks@.len() - 1) as nat,
                    );
                }
                return Err(ObjError::IndexOutOfRange { line });
            }
            face.push(i as u32);
        }
        k += 1;
    }
    Ok(face)
}

proof fn lemma_corner_fault(toks: Seq<Seq<char>>, count: nat, line: nat, n: nat, m: nat)
    requires
        n <= m,
        corners_read(toks, count, line, n) is Err,
    ensures
        corners_read(toks, count, line, m) == corners_read(toks, count, line, n),
    decreases m,
{
    if n < m {
        lemma_corner_fault(toks, count, line, n, (m - 1) as nat);
    }
}

fn push_fan(triangles: &mut Vec<[u32; 3]>, face: &Vec<u32>)
    ensures
        final(triangles)@ == old(triangles)@ + face_triangles(face@),
{
    let ghost before = triangles@;
    if face.len() < 3 {
        assert(before + face_triangles(face@) =~= before);
        return;
    }
    let mut i: usize = 1;
    assert(before =~= before + fan(face@, 0));
    while i < face.len() - 1
        invariant
            3 <= face@.len(),
            1 <= i <= face@.len() - 1,
            triangles@ == before + fan(face@, (i - 1) as nat),
        decreases face.len() - i,
    {
        let t = [face[0], face[i], face[i + 1]];
        triangles.push(t);
        assert(t@ =~= [face@[0], face@[i as int], face@[i + 1]]@);
        assert(triangles@ =~= before + fan(face@, i as nat));
        i += 1;
    }
}

fn read_float<F: Fn(&Vec<char>) -> Option<u64>>(
    reader: &F,
    toks: &Vec<Vec<char>>,
    k: usize,
    line: usize,
) -> (r: Result<u64, ObjError>)
    requires
        steady(*reader),
    ensures
        match r {
            Ok(bits) => float_read(readings(*reader), texts(toks@), k as int, line as nat) == Ok::<
                _,
                ObjFault,
            >(bits),
            Err(e) => float_read(readings(*reader), texts(toks@), k as int, line as nat) == Err::<
                u64,
                _,
            >(e@),
        },
{
    if k >= toks.len() {
        return Err(ObjError::MissingFloat { line });
    }
    let tok = &toks[k];
    assert(reader.requires((tok,)));
    let o = reader(tok);
    proof {
        assert(reader.ensures((tok,), o));
        assert(answers(*reader, tok@, o));
        let c = choose|c: Option<u64>| answers(*reader, tok@, c);
        assert(answers(*reader, tok@, c));
        assert(readings(*reader)(tok@) == c);
        assert(texts(toks@)[k as int] == tok@);
    }
    match o {
        Some(bits) => Ok(bits),
        None => Err(ObjError::BadFloat { line, token: text_of(tok) }),
    }
}

fn is_letter(tok: &Vec<char>, c: char) -> (b: bool)
    ensures
        b == (tok@ == seq![c]),
{
    if tok.len() == 1 && tok[0] == c {
        assert(tok@ =~= seq![c]);
        true
    } else {
        assert(tok@ == seq![c] ==> tok@.len() == 1 && tok@[0] == c);
        false
    }
}

fn read_line<F: Fn(&Vec<char>) -> Option<u64>>(
    reader: &F,
    soup: &mut PolySoup,
    toks: &Vec<Vec<char>>,
    line: usize,
) -> (r: Result<(), ObjError>)
    requires
        steady(*reader),
        old(soup).vertices@.len() <= u32::MAX,
    ensures
        match r {
            Ok(_) => line_read(
                readings(*reader),
                mesh_of(*old(soup)),
                texts(toks@),
                line as nat,
            ) == Ok::<_, ObjFault>(mesh_of(*final(soup))),
            Err(e) => line_read(
                readings(*reader),
                mesh_of(*old(soup)),
                texts(toks@),
                line as nat,
            ) == Err::<MeshSoFar, _>(e@),
        },
        final(soup).vertices@.len() <= old(soup).vertices@.len() + 1,
{
    if toks.len() == 0 {
        return Ok(());
    }
    assert(texts(toks@)[0] == toks@[0]@);
    if is_letter(&toks[0], 'v') {
        let x: u64 = match read_float(reader, toks, 1, line) {
            Ok(n) => n,
            Err(e) => return Err(e),
        };
        let y: u64 = match read_float(reader, toks, 2, line) {
            Ok(n) => n,
            Err(e) => return Err(e),
        };
        let z: u64 = match read_float(reader, toks, 3, line) {
            Ok(n) => n,
            Err(e) => return Err(e),
        };
        soup.vertices.push(Point3 { x, y, z });
        return Ok(());
    }
    if is_letter(&toks[0], 'f') {
        assert(seq!['v'][0] == 'v');
        let face = match read_corners(toks, soup.vertices.len(), line) {
            Ok(f) => f,
            Err(e) => return Err(e),
        };
        push_fan(&mut soup.triangles, &face);
    }
    Ok(())
}

/// The number of line breaks among the first `n` characters.
pub open spec fn line_breaks(s: Seq<char>, n: nat) -> nat
    decreases n,
{
    if n == 0 {
        0
    } else {
        line_breaks(s, (n - 1) as nat) + if s[n - 1] == '\n' {
            1nat
        } else {
            0
        }
    }
}

proof fn lemma_breaks_grow(s: Seq<char>, m: nat, n: nat)
    requires
        m <= n,
    ensures
        line_breaks(s, m) <= line_breaks(s, n),
    decreases n,
{
    if m < n {
        lemma_breaks_grow(s, m, (n - 1) as nat);
    }
}

proof fn lemma_no_breaks(s: Seq<char>, m: nat, n: nat)
    requires
        m <= n,
        forall|k: int| m <= k < n ==> #[trigger] s[k] != '\n',
    ensures
        line_breaks(s, n) == line_breaks(s, m),
    decreases n,
{
    if m < n {
        lemma_no_breaks(s, m, (n - 1) as nat);
    }
}

/// Read a mesh. Faces with more than three corners become fans. A line holds
/// at most one vertex, so that vertices are numbered as lines are.
pub fn read_obj<F: Fn(&Vec<char>) -> Option<u64>>(reader: &F, chars: &Vec<char>) -> (r: Result<
    PolySoup,
    ObjError,
>)
    requires
        steady(*reader),
        line_breaks(chars@, chars@.len()) < u32::MAX,
    ensures
        match r {
            Ok(soup) => obj_read(readings(*reader), chars@) == Ok::<_, ObjFault>(mesh_of(soup)),
            Err(e) => obj_read(readings(*reader), chars@) == Err::<MeshSoFar, _>(e@),
        },
{
    let ghost f = readings(*reader);
    let ghost all = obj_read(f, chars@);
    let mut soup = PolySoup::new();
    let mut i: usize = 0;
    let mut line: usize = 1;
    proof {
        assert(chars@.skip(0) =~= chars@);
        assert(mesh_of(soup).vertices =~= Seq::empty());
        assert(mesh_of(soup).triangles =~= Seq::empty());
    }
    while i < chars.len()
        invariant
            steady(*reader),
            f == readings(*reader),
            i <= chars@.len(),
            line_breaks(chars@, chars@.len()) < u32::MAX,
            line == line_breaks(chars@, i as nat) + 1,
            i < chars@.len() ==> soup.vertices@.len() < line,
            all == obj_read(f, chars@),
            rest_read(f, mesh_of(soup), chars@.skip(i as int), line as nat) == all,
        decreases chars.len() - i,
    {
        let ghost s = chars@.skip(i as int);
        let mut e: usize = i;
        while e < chars.len() && chars[e] != '\n'
            invariant
                i <= e <= chars@.len(),
                forall|k: int| i <= k < e ==> #[trigger] chars@[k] != '\n',
            decreases chars.len() - e,
        {
            e += 1;
        }
        proof {
            lemma_breaks_grow(chars@, i as nat, chars@.len());
            let n = (e - i) as nat;
            assert forall|k: int| 0 <= k < n implies #[trigger] s[k] != '\n' by {
                assert(s[k] == chars@[i + k]);
            }
            lemma_first_at_is(s, '\n', n);
            assert(s.take(n as int) =~= chars@.subrange(i as int, e as int));
        }
        let toks = line_content(chars, i, e);
        proof {
            if texts(toks@).len() > 0 {
                assert(e > i) by {
                    if e == i {
                        assert(chars@.subrange(i as int, e as int) =~= Seq::empty());
                    }
                }
            }
        }
        let ghost before = mesh_of(soup);
        let blank = toks.len() == 0;
        if !blank {
            match read_line(reader, &mut soup, &toks, line) {
                Ok(_) => {},
                Err(fault) => return Err(fault),
            }
        }
        if e < chars.len() {
            proof {
                lemma_breaks_grow(chars@, i as nat, e as nat);
                lemma_breaks_grow(chars@, (e + 1) as nat, chars@.len());
                lemma_no_breaks(chars@, i as nat, e as nat);
            }
            assert(s.skip((e - i) + 1) =~= chars@.skip(e + 1));
            i = e + 1;
            line += 1;
        } else {
            proof {
                lemma_no_breaks(chars@, i as nat, e as nat);
            }
            i = e;
            assert(chars@.skip(i as int).len() == 0);
        }
    }
    assert(chars@.skip(i as int).len() == 0);
    Ok(soup)
}

/// Every triangle of a face has corners of the face.
pub proof fn fans_keep_to_their_face(face: Seq<u32>, k: int, c: int)
    requires
        0 <= k < face_triangles(face).len(),
        0 <= c < 3,
    ensures
        face.contains(face_triangles(face)[k]@[c]),
{
    lemma_fan_len(face, (face.len() - 2) as nat);
    lemma_fan_at(face, (face.len() - 2) as nat, k);
    assert(face[0] == face[0] && face[k + 1] == face[k + 1] && face[k + 2] == face[k + 2]);
}

pub(crate) proof fn lemma_fan_len(face: Seq<u32>, n: nat)
    ensures
        fan(face, n).len() == n,
    decreases n,
{
    if n > 0 {
        lemma_fan_len(face, (n - 1) as nat);
    }
}

pub(crate) proof fn lemma_fan_at(face: Seq<u32>, n: nat, k: int)
    requires
        0 <= k < n,
    ensures
        fan(face, n)[k]@ == seq![face[0], face[k + 1], face[k + 2]],
    decreases n,
{
    lemma_fan_len(face, (n - 1) as nat);
    if k == n - 1 {
        assert(fan(face, n)[k]@ =~= seq![face[0], face[k + 1], face[k + 2]]);
    } else {
        lemma_fan_at(face, (n - 1) as nat, k);
    }
}

} // verus!
