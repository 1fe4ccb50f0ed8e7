//! How a text falls into words and lines, and a mesh file into vertices and
//! triangles.
//!
//! Words are the longest stretches without separators, lines the stretches
//! between line breaks. Nothing of a text gets lost on the way.

use crate::obj::{
    content_words, corner_index, corners_read, face_triangles, gap_at, is_gap, lemma_fan_at,
    lemma_fan_len, line_breaks, line_read, obj_read, obj_words, position_part, rest_read,
    trimmed_left, trimmed_right, MeshSoFar,
};
use crate::text::{
    first_at, int_of, is_space, lemma_first_at, lemma_word_end, line_words, lines_of, word_end, words_of,
    Line,
};
use crate::world::Point3;
use vstd::prelude::*;

verus! {

// --- Words ------------------------------------------------------------------

/// Whether `word` stands in a text from `from` on, between separators or the
/// ends of the text, and has no separator in it.
pub open spec fn is_word(
    s: Seq<char>,
    separates: spec_fn(char) -> bool,
    word: Seq<char>,
    from: int,
) -> bool {
    let end = from + word.len();
    &&& 0 <= from < end <= s.len()
    &&& word == s.subrange(from, end)
    &&& forall|k: int| from <= k < end ==> !separates(#[trigger] s[k])
    &&& from == 0 || separates(s[from - 1])
    &&& end == s.len() || separates(s[end])
}

/// Whether a place of a text is in one of its words.
pub open spec fn is_in_word(words: Seq<Seq<char>>, at: Seq<int>, k: int) -> bool {
    exists|i: int| 0 <= i < at.len() && (#[trigger] at[i]) <= k < at[i] + words[i].len()
}

/// Whether a text falls into words: word `i` stands from `at[i]` on, they come
/// in the order of the text, and every character but separators is in one.
pub open spec fn falls_into_words(
    s: Seq<char>,
    separates: spec_fn(char) -> bool,
    words: Seq<Seq<char>>,
    at: Seq<int>,
) -> bool {
    &&& at.len() == words.len()
    &&& forall|i: int| 0 <= i < at.len() ==> is_word(s, separates, words[i], #[trigger] at[i])
    &&& forall|i: int, j: int| 0 <= i < j < at.len() ==> at[i] + words[i].len() <= at[j]
    &&& forall|k: int|
        0 <= k < s.len() && !separates(#[trigger] s[k]) ==> is_in_word(words, at, k)
}

/// Places moved on by `n`.
spec fn moved_on(at: Seq<int>, n: int) -> Seq<int> {
    Seq::new(at.len(), |i: int| at[i] + n)
}

/// A text that begins with `n` characters before its words.
proof fn lemma_words_after(
    s: Seq<char>,
    separates: spec_fn(char) -> bool,
    n: int,
    words: Seq<Seq<char>>,
    at: Seq<int>,
)
    requires
        0 < n <= s.len(),
        falls_into_words(s.skip(n), separates, words, at),
        separates(s[n - 1]) || n == s.len() || separates(s[n]),
    ensures
        forall|i: int|
            0 <= i < at.len() ==> is_word(s, separates, words[i], #[trigger] moved_on(at, n)[i])
                && moved_on(at, n)[i] >= n,
        forall|k: int|
            n <= k < s.len() && !separates(#[trigger] s[k]) ==> is_in_word(
                words,
                moved_on(at, n),
                k,
            ),
{
    let t = s.skip(n);
    let to = moved_on(at, n);
    assert forall|i: int| 0 <= i < at.len() implies is_word(s, separates, words[i], #[trigger] to[i])
        && to[i] >= n by {
        let (a, w) = (at[i], words[i]);
        assert(is_word(t, separates, w, a));
        assert(t.subrange(a, a + w.len()) =~= s.subrange(a + n, a + n + w.len()));
        assert forall|k: int| a + n <= k < a + n + w.len() implies !separates(#[trigger] s[k]) by {
            assert(t[k - n] == s[k]);
        }
        if a > 0 {
            assert(t[a - 1] == s[a + n - 1]);
        } else {
            assert(t[0] == s[n]);
        }
        if a + w.len() < t.len() {
            assert(t[a + w.len()] == s[a + n + w.len()]);
        }
    }
    assert forall|k: int| n <= k < s.len() && !separates(#[trigger] s[k]) implies is_in_word(
        words,
        to,
        k,
    ) by {
        assert(t[k - n] == s[k]);
        let i = choose|i: int|
            0 <= i < at.len() && (#[trigger] at[i]) <= k - n < at[i] + words[i].len();
        assert(to[i] == at[i] + n);
    }
}

proof fn lemma_gap_first(
    s: Seq<char>,
    separates: spec_fn(char) -> bool,
    words: Seq<Seq<char>>,
    at: Seq<int>,
)
    requires
        s.len() > 0,
        separates(s[0]),
        falls_into_words(s.skip(1), separates, words, at),
    ensures
        falls_into_words(s, separates, words, moved_on(at, 1)),
{
    lemma_words_after(s, separates, 1, words, at);
}

proof fn lemma_word_first(
    s: Seq<char>,
    separates: spec_fn(char) -> bool,
    n: int,
    words: Seq<Seq<char>>,
    at: Seq<int>,
)
    requires
        0 < n <= s.len(),
        forall|k: int| 0 <= k < n ==> !separates(#[trigger] s[k]),
        n == s.len() || separates(s[n]),
        falls_into_words(s.skip(n), separates, words, at),
    ensures
        falls_into_words(s, separates, seq![s.take(n)] + words, seq![0int] + moved_on(at, n)),
{
    lemma_words_after(s, separates, n, words, at);
    let (all, to) = (seq![s.take(n)] + words, seq![0int] + moved_on(at, n));
    let moved = moved_on(at, n);
    assert(s.take(n) =~= s.subrange(0, n));
    assert forall|i: int| 0 <= i < to.len() implies is_word(s, separates, all[i], #[trigger] to[i]) by {
        if i > 0 {
            assert(to[i] == moved[i - 1] && all[i] == words[i - 1]);
        }
    }
    assert forall|i: int, j: int| 0 <= i < j < to.len() implies to[i] + all[i].len() <= to[j] by {
        assert(to[j] == moved[j - 1] && moved[j - 1] >= n);
        if i > 0 {
            assert(to[i] == moved[i - 1] && all[i] == words[i - 1]);
            assert(at[i - 1] + words[i - 1].len() <= at[j - 1]);
        }
    }
    assert forall|k: int| 0 <= k < s.len() && !separates(#[trigger] s[k]) implies is_in_word(
        all,
        to,
        k,
    ) by {
        if k < n {
            assert(to[0] == 0 && all[0].len() == n);
        } else {
            assert(is_in_word(words, moved, k));
            let i = choose|i: int|
                0 <= i < moved.len() && (#[trigger] moved[i]) <= k < moved[i] + words[i].len();
            assert(to[i + 1] == moved[i] && all[i + 1] == words[i]);
        }
    }
}

/// The words of a text are its longest stretches without white space, and all
/// of them.
pub proof fn every_word_is_found(s: Seq<char>) -> (at: Seq<int>)
    ensures
        falls_into_words(s, |c: char| is_space(c), words_of(s), at),
    decreases s.len(),
{
    let separates = |c: char| is_space(c);
    if s.len() == 0 {
        Seq::empty()
    } else if is_space(s[0]) {
        let rest = every_word_is_found(s.skip(1));
        lemma_gap_first(s, separates, words_of(s.skip(1)), rest);
        moved_on(rest, 1)
    } else {
        lemma_word_end(s);
        let n = word_end(s) as int;
        let rest = every_word_is_found(s.skip(n));
        lemma_word_first(s, separates, n, words_of(s.skip(n)), rest);
        seq![0int] + moved_on(rest, n)
    }
}

proof fn lemma_gap_at(s: Seq<char>)
    ensures
        gap_at(s) <= s.len(),
        s.len() > 0 && !is_gap(s[0]) ==> gap_at(s) > 0,
        forall|k: int| 0 <= k < gap_at(s) ==> !is_gap(#[trigger] s[k]),
        gap_at(s) < s.len() ==> is_gap(s[gap_at(s) as int]),
    decreases s.len(),
{
    if s.len() > 0 && !is_gap(s[0]) {
        lemma_gap_at(s.skip(1));
        assert forall|k: int| 0 <= k < gap_at(s) implies !is_gap(#[trigger] s[k]) by {
            if k > 0 {
                assert(s.skip(1)[k - 1] == s[k]);
            }
        }
    }
}

/// The words of a line of a mesh file are its longest stretches without gaps,
/// and all of them.
pub proof fn every_mesh_word_is_found(s: Seq<char>) -> (at: Seq<int>)
    ensures
        falls_into_words(s, |c: char| is_gap(c), obj_words(s), at),
    decreases s.len(),
{
    let separates = |c: char| is_gap(c);
    if s.len() == 0 {
        Seq::empty()
    } else if is_gap(s[0]) {
        let rest = every_mesh_word_is_found(s.skip(1));
        lemma_gap_first(s, separates, obj_words(s.skip(1)), rest);
        moved_on(rest, 1)
    } else {
        lemma_gap_at(s);
        let n = gap_at(s) as int;
        let rest = every_mesh_word_is_found(s.skip(n));
        lemma_word_first(s, separates, n, obj_words(s.skip(n)), rest);
        seq![0int] + moved_on(rest, n)
    }
}

// --- Lines ------------------------------------------------------------------

/// Whether a stretch of a text is one of its lines.
pub open spec fn is_line(s: Seq<char>, from: int, end: int) -> bool {
    &&& 0 <= from <= end <= s.len()
    &&& from == 0 || s[from - 1] == '\n'
    &&& end == s.len() || s[end] == '\n'
    &&& forall|k: int| from <= k < end ==> #[trigger] s[k] != '\n'
}

/// Whether lines are those of a text that have words, `number` counted for the
/// first of the text: line `i` stands at `at[i]`, they come in the order of the
/// text, and every line with words is one.
pub open spec fn falls_into_lines(
    s: Seq<char>,
    number: nat,
    lines: Seq<Line>,
    at: Seq<(int, int)>,
) -> bool {
    &&& at.len() == lines.len()
    &&& forall|i: int|
        0 <= i < at.len() ==> {
            &&& is_line(s, (#[trigger] at[i]).0, at[i].1)
            &&& lines[i].number == number + line_breaks(s, at[i].0 as nat)
            &&& lines[i].words == line_words(s.subrange(at[i].0, at[i].1))
            &&& lines[i].words.len() > 0
        }
    &&& forall|i: int, j: int| 0 <= i < j < at.len() ==> at[i].1 < at[j].0
    &&& forall|from: int, end: int| #[trigger]
        is_line(s, from, end) && line_words(s.subrange(from, end)).len() > 0 ==> at.contains(
            (from, end),
        )
}

/// Stretches moved on by `n`.
spec fn stretches_on(at: Seq<(int, int)>, n: int) -> Seq<(int, int)> {
    Seq::new(at.len(), |i: int| (at[i].0 + n, at[i].1 + n))
}

proof fn lemma_breaks_after(s: Seq<char>, n: int, k: nat)
    requires
        0 <= n,
        n + k <= s.len(),
    ensures
        line_breaks(s, (n + k) as nat) == line_breaks(s, n as nat) + line_breaks(s.skip(n), k),
    decreases k,
{
    if k > 0 {
        lemma_breaks_after(s, n, (k - 1) as nat);
        assert(s.skip(n)[k - 1] == s[n + k - 1]);
    }
}

proof fn lemma_no_break_before(s: Seq<char>, n: nat)
    requires
        n <= s.len(),
        forall|k: int| 0 <= k < n ==> #[trigger] s[k] != '\n',
    ensures
        line_breaks(s, n) == 0,
    decreases n,
{
    if n > 0 {
        lemma_no_break_before(s, (n - 1) as nat);
    }
}

/// The lines of a text that have words are found, each with its number and its
/// words, and nothing else is.
pub proof fn every_line_is_found(s: Seq<char>, number: nat) -> (at: Seq<(int, int)>)
    ensures
        falls_into_lines(s, number, lines_of(s, number), at),
    decreases s.len(),
{
    let lines = lines_of(s, number);
    if s.len() == 0 {
        assert forall|from: int, end: int| #[trigger] is_line(s, from, end) implies line_words(
            s.subrange(from, end),
        ).len() == 0 by {
            let t = s.subrange(from, end);
            assert(t.take(first_at(t, '#') as int).len() == 0);
        }
        Seq::empty()
    } else {
        lemma_first_at(s, '\n');
        let e = first_at(s, '\n') as int;
        let words = line_words(s.take(e));
        assert(s.take(e) =~= s.subrange(0, e));
        assert(is_line(s, 0, e));
        let whole = e == s.len();
        let t = s.skip(e + 1);
        let (rest, inner) = if whole {
            (Seq::<Line>::empty(), Seq::<(int, int)>::empty())
        } else {
            (lines_of(t, number + 1), every_line_is_found(t, number + 1))
        };
        let moved = stretches_on(inner, e + 1);
        let at = if words.len() == 0 {
            moved
        } else {
            seq![(0int, e)] + moved
        };
        let gap = if words.len() == 0 {
            0int
        } else {
            1
        };
        assert(lines =~= if words.len() == 0 {
            rest
        } else {
            seq![Line { number, words }] + rest
        });
        if !whole {
            lemma_no_break_before(s, e as nat);
            assert(line_breaks(s, (e + 1) as nat) == 1);
        }
        assert forall|i: int| 0 <= i < inner.len() implies {
            let (a, b) = #[trigger] moved[i];
            &&& is_line(s, a, b) && a > e
            &&& rest[i].number == number + line_breaks(s, a as nat)
            &&& rest[i].words == line_words(s.subrange(a, b))
            &&& rest[i].words.len() > 0
        } by {
            let (a, b) = inner[i];
            assert(is_line(t, a, b));
            lemma_breaks_after(s, e + 1, a as nat);
            assert(t.subrange(a, b) =~= s.subrange(a + e + 1, b + e + 1));
            if a > 0 {
                assert(t[a - 1] == s[a + e]);
            }
            if b < t.len() {
                assert(t[b] == s[b + e + 1]);
            }
            assert forall|k: int| a + e + 1 <= k < b + e + 1 implies #[trigger] s[k] != '\n' by {
                assert(t[k - e - 1] == s[k]);
            }
        }
        assert forall|i: int| 0 <= i < at.len() implies {
            &&& is_line(s, (#[trigger] at[i]).0, at[i].1)
            &&& lines[i].number == number + line_breaks(s, at[i].0 as nat)
            &&& lines[i].words == line_words(s.subrange(at[i].0, at[i].1))
            &&& lines[i].words.len() > 0
        } by {
            if i >= gap {
                assert(at[i] == moved[i - gap] && lines[i] == rest[i - gap]);
            } else {
                assert(line_breaks(s, 0) == 0);
            }
        }
        assert forall|i: int, j: int| 0 <= i < j < at.len() implies at[i].1 < at[j].0 by {
            assert(at[j] == moved[j - gap]);
            if i >= gap {
                assert(at[i] == moved[i - gap]);
                assert(inner[i - gap].1 < inner[j - gap].0);
            }
        }
        assert forall|from: int, end: int| #[trigger]
            is_line(s, from, end) && line_words(s.subrange(from, end)).len() > 0 implies at.contains(
            (from, end),
        ) by {
            if from <= e {
                if from > 0 {
                    assert(s[from - 1] == '\n');
                }
                assert(from == 0);
                if end < e {
                    assert(s[end] == '\n');
                }
                if end > e {
                    assert(s[e] != '\n');
                }
                assert(at[0] == (0int, e));
            } else {
                let (a, b) = (from - e - 1, end - e - 1);
                assert(!whole);
                assert(is_line(t, a, b)) by {
                    if a > 0 {
                        assert(t[a - 1] == s[from - 1]);
                    }
                    if b < t.len() {
                        assert(t[b] == s[end]);
                    }
                    assert forall|k: int| a <= k < b implies #[trigger] t[k] != '\n' by {
                        assert(t[k] == s[k + e + 1]);
                    }
                }
                assert(t.subrange(a, b) =~= s.subrange(from, end));
                assert(inner.contains((a, b)));
                let i = inner.index_of((a, b));
                assert(moved[i] == (from, end));
                assert(at[i + gap] == (from, end));
            }
        }
        at
    }
}

/// A comment adds no words: what stands before it decides.
pub proof fn comments_add_no_words(before: Seq<char>, comment: Seq<char>)
    requires
        forall|k: int| 0 <= k < before.len() ==> #[trigger] before[k] != '#',
    ensures
        line_words(before + seq!['#'] + comment) == words_of(before),
        line_words(before) == words_of(before),
{
    let s = before + seq!['#'] + comment;
    let n = before.len();
    assert forall|k: int| 0 <= k < n implies #[trigger] s[k] != '#' by {
        assert(s[k] == before[k]);
    }
    assert(s[n as int] == '#');
    crate::text::lemma_first_at_is(s, '#', n);
    crate::text::lemma_first_at_is(before, '#', n);
    assert(s.take(n as int) =~= before);
    assert(before.take(n as int) =~= before);
}

// --- Mesh files -------------------------------------------------------------

/// Whether a text holds nothing but white space.
pub open spec fn is_blank(s: Seq<char>) -> bool {
    forall|k: int| 0 <= k < s.len() ==> is_space(#[trigger] s[k])
}

/// White space round a line adds nothing: a line that begins with `#` then has
/// no words, any other has the words of what is left.
pub proof fn blanks_add_no_words(before: Seq<char>, s: Seq<char>, after: Seq<char>)
    requires
        is_blank(before) && is_blank(after),
        s.len() > 0 ==> !is_space(s[0]) && !is_space(s.last()),
        s.len() == 0 ==> after.len() == 0,
    ensures
        content_words(before + s + after) == if s.len() == 0 || s[0] == '#' {
            Seq::empty()
        } else {
            obj_words(s)
        },
{
    lemma_trimmed_left(before, s + after);
    assert(before + s + after =~= before + (s + after));
    lemma_trimmed_right(s, after);
}

proof fn lemma_trimmed_left(before: Seq<char>, s: Seq<char>)
    requires
        is_blank(before),
        s.len() > 0 ==> !is_space(s[0]),
    ensures
        trimmed_left(before + s) == s,
    decreases before.len(),
{
    let t = before + s;
    if before.len() > 0 {
        assert(t[0] == before[0]);
        let rest = before.skip(1);
        assert forall|k: int| 0 <= k < rest.len() implies is_space(#[trigger] rest[k]) by {
            assert(rest[k] == before[k + 1]);
        }
        assert(t.skip(1) =~= rest + s);
        lemma_trimmed_left(rest, s);
    } else {
        assert(t =~= s);
    }
}

proof fn lemma_trimmed_right(s: Seq<char>, after: Seq<char>)
    requires
        is_blank(after),
        s.len() > 0 ==> !is_space(s.last()),
    ensures
        trimmed_right(s + after) == s,
    decreases after.len(),
{
    let t = s + after;
    if after.len() > 0 {
        assert(t.last() == after.last());
        let rest = after.drop_last();
        assert forall|k: int| 0 <= k < rest.len() implies is_space(#[trigger] rest[k]) by {
            assert(rest[k] == after[k]);
        }
        assert(t.drop_last() =~= s + rest);
        lemma_trimmed_right(s, rest);
    } else {
        assert(t =~= s);
    }
}

/// Whether the words of a line give a vertex, each number as `f` reads it.
pub open spec fn gives_vertex(
    f: spec_fn(Seq<char>) -> Option<u64>,
    words: Seq<Seq<char>>,
    v: Point3,
) -> bool {
    &&& words.len() >= 4
    &&& f(words[1]) == Some(v.x) && f(words[2]) == Some(v.y) && f(words[3]) == Some(v.z)
}

/// Whether a word has something before its first slash.
pub open spec fn is_corner_word(word: Seq<char>) -> bool {
    word.len() > 0 && word[0] != '/'
}

/// Whether a word names vertex `v` of the `count` so far: by its number from
/// one, or backwards from the last, before the first slash.
pub open spec fn names_vertex(word: Seq<char>, count: int, v: int) -> bool {
    exists|e: int| #[trigger] names_vertex_by(word, count, v, e)
}

/// Whether the first `e` characters of a word, up to its first slash, name
/// vertex `v` of the `count` so far.
pub open spec fn names_vertex_by(word: Seq<char>, count: int, v: int, e: int) -> bool {
    &&& 0 < e <= word.len()
    &&& forall|k: int| 0 <= k < e ==> #[trigger] word[k] != '/'
    &&& e == word.len() || word[e] == '/'
    &&& 0 <= v < count
    &&& int_of(word.take(e)) matches Some(raw) && (raw == v + 1 || (raw <= 0 && raw == v - count))
}

/// Whether the words of a line give a face with the given corners: corner `i`
/// is named by word `at[i]`, in order, and every word that names one counts.
pub open spec fn gives_face(
    words: Seq<Seq<char>>,
    count: int,
    face: Seq<u32>,
    at: Seq<int>,
) -> bool {
    &&& at.len() == face.len()
    &&& forall|i: int|
        0 <= i < at.len() ==> 1 <= #[trigger] at[i] < words.len() && is_corner_word(words[at[i]])
            && names_vertex(words[at[i]], count, face[i] as int)
    &&& forall|i: int, j: int| 0 <= i < j < at.len() ==> at[i] < at[j]
    &&& forall|j: int|
        1 <= j < words.len() && is_corner_word(#[trigger] words[j]) ==> at.contains(j)
}

/// Whether `more` is `list` and the triangles of a face, all with its first
/// corner.
pub open spec fn adds_fan(list: Seq<[u32; 3]>, more: Seq<[u32; 3]>, face: Seq<u32>) -> bool {
    let n = if face.len() < 3 {
        0
    } else {
        face.len() - 2
    };
    &&& more.len() == list.len() + n
    &&& forall|k: int| 0 <= k < list.len() ==> more[k] == list[k]
    &&& forall|k: int|
        0 <= k < n ==> (#[trigger] more[list.len() + k])@ == seq![face[0], face[k + 1], face[k + 2]]
}

/// Whether a line with the given words makes mesh `w` of mesh `m`.
pub open spec fn line_adds(
    f: spec_fn(Seq<char>) -> Option<u64>,
    words: Seq<Seq<char>>,
    m: MeshSoFar,
    w: MeshSoFar,
) -> bool {
    if words.len() > 0 && words[0] == seq!['v'] {
        &&& w.triangles == m.triangles
        &&& exists|v: Point3| #[trigger]
            gives_vertex(f, words, v) && w.vertices == m.vertices.push(v)
    } else if words.len() > 0 && words[0] == seq!['f'] {
        &&& w.vertices == m.vertices
        &&& exists|face: Seq<u32>, at: Seq<int>| #[trigger]
            gives_face(words, m.vertices.len() as int, face, at) && adds_fan(
                m.triangles,
                w.triangles,
                face,
            )
    } else {
        w == m
    }
}

/// Whether a line with the given words cannot be read after mesh `m`: a vertex
/// lacks a number, or a word of a face names no vertex.
pub open spec fn is_unreadable(
    f: spec_fn(Seq<char>) -> Option<u64>,
    words: Seq<Seq<char>>,
    m: MeshSoFar,
) -> bool {
    ||| words.len() > 0 && words[0] == seq!['v'] && forall|v: Point3| !(#[trigger] gives_vertex(
        f,
        words,
        v,
    ))
    ||| words.len() > 0 && words[0] == seq!['f'] && exists|j: int|
        1 <= j < words.len() && is_corner_word(#[trigger] words[j]) && forall|v: int|
            !(#[trigger] names_vertex(words[j], m.vertices.len() as int, v))
}

/// Whether the lines of a text that end before `upto` lead from mesh to mesh,
/// line `i` at `at[i]` from `meshes[i]` to the next, and none with words is left
/// out.
pub open spec fn reads_lines(
    f: spec_fn(Seq<char>) -> Option<u64>,
    s: Seq<char>,
    upto: int,
    at: Seq<(int, int)>,
    meshes: Seq<MeshSoFar>,
) -> bool {
    &&& meshes.len() == at.len() + 1
    &&& forall|i: int|
        0 <= i < at.len() ==> is_line(s, (#[trigger] at[i]).0, at[i].1) && at[i].1 < upto
            && line_adds(
            f,
            content_words(s.subrange(at[i].0, at[i].1)),
            meshes[i],
            meshes[i + 1],
        )
    &&& forall|i: int, j: int| 0 <= i < j < at.len() ==> at[i].1 < at[j].0
    &&& forall|from: int, end: int| #[trigger]
        is_line(s, from, end) && end < upto && content_words(s.subrange(from, end)).len() > 0
            ==> at.contains((from, end))
}

proof fn lemma_corners(toks: Seq<Seq<char>>, count: nat, line: nat, n: nat) -> (at: Seq<int>)
    requires
        n < toks.len(),
        count <= u32::MAX,
    ensures
        match corners_read(toks, count, line, n) {
            Ok(face) => gives_face(toks.take((n + 1) as int), count as int, face, at),
            Err(_) => exists|j: int|
                1 <= j <= n && is_corner_word(#[trigger] toks[j]) && forall|v: int|
                    !(#[trigger] names_vertex(toks[j], count as int, v)),
        },
    decreases n,
{
    if n == 0 {
        Seq::empty()
    } else {
        let before = lemma_corners(toks, count, line, (n - 1) as nat);
        let word = toks[n as int];
        let part = position_part(word);
        let (was, here) = (toks.take(n as int), toks.take((n + 1) as int));
        lemma_first_at(word, '/');
        let e = first_at(word, '/') as int;
        assert(is_corner_word(word) == (part.len() > 0));
        assert forall|v: int, d: int| #[trigger] names_vertex_by(word, count as int, v, d) implies d
            == e by {
            if d < e {
                assert(word[d] != '/');
            }
            if e < d {
                assert(word[e] != '/');
            }
        }
        match corners_read(toks, count, line, (n - 1) as nat) {
            Err(_) => before,
            Ok(list) => {
                assert forall|j: int| 0 <= j < was.len() implies #[trigger] was[j] == here[j] by {}
                if part.len() == 0 {
                    assert forall|j: int| 1 <= j < here.len() && is_corner_word(
                        #[trigger] here[j],
                    ) implies before.contains(j) by {
                        assert(here[j] == toks[j]);
                        if j < n {
                            assert(was[j] == toks[j]);
                        }
                    }
                    assert forall|i: int| 0 <= i < before.len() implies 1 <= #[trigger] before[i]
                        < here.len() && is_corner_word(here[before[i]]) && names_vertex(
                        here[before[i]],
                        count as int,
                        list[i] as int,
                    ) by {
                        assert(was[before[i]] == here[before[i]]);
                    }
                    before
                } else {
                    let at = before.push(n as int);
                    if let Some(raw) = int_of(part) {
                        let v = corner_index(raw as int, count as int);
                        if 0 <= v < count {
                            let face = list.push(v as u32);
                            assert(names_vertex_by(word, count as int, v, e));
                            assert forall|i: int| 0 <= i < at.len() implies 1 <= #[trigger] at[i]
                                < here.len() && is_corner_word(here[at[i]]) && names_vertex(
                                here[at[i]],
                                count as int,
                                face[i] as int,
                            ) by {
                                if i < before.len() {
                                    assert(before[i] == at[i]);
                                    assert(was[before[i]] == here[before[i]]);
                                } else {
                                    assert(here[n as int] == word);
                                }
                            }
                            assert forall|j: int| 1 <= j < here.len() && is_corner_word(
                                #[trigger] here[j],
                            ) implies at.contains(j) by {
                                if j < n {
                                    assert(was[j] == here[j]);
                                    assert(before.contains(j));
                                    assert(at[before.index_of(j)] == j);
                                } else {
                                    assert(at[before.len() as int] == j);
                                }
                            }
                        } else {
                            assert(is_corner_word(toks[n as int]));
                        }
                    } else {
                        assert(is_corner_word(toks[n as int]));
                    }
                    at
                }
            },
        }
    }
}

proof fn lemma_line_adds(
    f: spec_fn(Seq<char>) -> Option<u64>,
    m: MeshSoFar,
    toks: Seq<Seq<char>>,
    line: nat,
)
    requires
        m.vertices.len() <= u32::MAX,
    ensures
        match line_read(f, m, toks, line) {
            Ok(w) => line_adds(f, toks, m, w) && w.vertices.len() <= m.vertices.len() + 1,
            Err(_) => is_unreadable(f, toks, m),
        },
{
    if toks.len() > 0 {
        assert(seq!['v'][0] == 'v' && seq!['f'][0] == 'f');
        if toks[0] == seq!['v'] {
            if let Ok(w) = line_read(f, m, toks, line) {
                assert(gives_vertex(f, toks, w.vertices.last()));
            }
        } else if toks[0] == seq!['f'] {
            let n = (toks.len() - 1) as nat;
            let at = lemma_corners(toks, m.vertices.len(), line, n);
            assert(toks.take((n + 1) as int) =~= toks);
            if let Ok(face) = corners_read(toks, m.vertices.len(), line, n) {
                let w = m.triangles + face_triangles(face);
                if face.len() >= 3 {
                    let k = (face.len() - 2) as nat;
                    lemma_fan_len(face, k);
                    assert forall|j: int| 0 <= j < k implies (#[trigger] w[m.triangles.len() + j])@
                        == seq![face[0], face[j + 1], face[j + 2]] by {
                        lemma_fan_at(face, k, j);
                    }
                }
                assert(adds_fan(m.triangles, w, face));
                assert(gives_face(toks, m.vertices.len() as int, face, at));
            }
        }
    }
}

proof fn lemma_rest_read(
    f: spec_fn(Seq<char>) -> Option<u64>,
    m: MeshSoFar,
    s: Seq<char>,
    line: nat,
) -> (r: (Seq<(int, int)>, Seq<MeshSoFar>, (int, int)))
    requires
        m.vertices.len() + line_breaks(s, s.len()) < u32::MAX,
    ensures
        r.1[0] == m,
        match rest_read(f, m, s, line) {
            Ok(w) => reads_lines(f, s, s.len() as int + 1, r.0, r.1) && r.1.last() == w,
            Err(_) => reads_lines(f, s, r.2.0, r.0, r.1) && is_line(s, r.2.0, r.2.1)
                && is_unreadable(f, content_words(s.subrange(r.2.0, r.2.1)), r.1.last()),
        },
    decreases s.len(),
{
    if s.len() == 0 {
        assert forall|from: int, end: int| #[trigger] is_line(s, from, end) implies content_words(
            s.subrange(from, end),
        ).len() == 0 by {
            let t = s.subrange(from, end);
            assert(t =~= Seq::<char>::empty() + Seq::<char>::empty() + Seq::<char>::empty());
            blanks_add_no_words(Seq::empty(), Seq::empty(), Seq::empty());
        }
        (Seq::empty(), seq![m], (0, 0))
    } else {
        lemma_first_at(s, '\n');
        let e = first_at(s, '\n') as int;
        let words = content_words(s.take(e));
        assert(s.take(e) =~= s.subrange(0, e));
        assert(is_line(s, 0, e));
        lemma_line_adds(f, m, words, line);
        match line_read(f, m, words, line) {
            Err(_) => {
                assert forall|from: int, end: int| #[trigger] is_line(s, from, end) && end < 0 implies false by {}
                (Seq::empty(), seq![m], (0, e))
            },
            Ok(next) => {
                if e < s.len() {
                    let t = s.skip(e + 1);
                    lemma_no_break_before(s, e as nat);
                    assert(line_breaks(s, (e + 1) as nat) == 1);
                    lemma_breaks_after(s, e + 1, t.len());
                    let (inner, after, bad) = lemma_rest_read(f, next, t, line + 1);
                    let upto = if rest_read(f, next, t, line + 1) is Ok {
                        t.len() as int + 1
                    } else {
                        bad.0
                    };
                    lemma_line_before(f, s, e, upto, m, inner, after);
                    let fault = (bad.0 + e + 1, bad.1 + e + 1);
                    if rest_read(f, next, t, line + 1) is Err {
                        lemma_line_on(s, e + 1, bad.0, bad.1);
                    }
                    (seq![(0int, e)] + stretches_on(inner, e + 1), seq![m] + after, fault)
                } else {
                    let at = seq![(0int, e)];
                    assert forall|from: int, end: int| #[trigger]
                        is_line(s, from, end) && end < s.len() + 1 && content_words(
                            s.subrange(from, end),
                        ).len() > 0 implies at.contains((from, end)) by {
                        if from > 0 {
                            assert(s[from - 1] == '\n');
                        }
                        if end < e {
                            assert(s[end] == '\n');
                        }
                        assert(at[0] == (from, end));
                    }
                    (at, seq![m, next], (0, 0))
                }
            },
        }
    }
}

proof fn lemma_line_on(s: Seq<char>, n: int, from: int, end: int)
    requires
        0 < n <= s.len(),
        s[n - 1] == '\n',
    ensures
        0 <= from ==> is_line(s.skip(n), from, end) == is_line(s, from + n, end + n),
        is_line(s.skip(n), from, end) ==> s.skip(n).subrange(from, end) == s.subrange(
            from + n,
            end + n,
        ),
{
    let t = s.skip(n);
    if is_line(t, from, end) {
        if from > 0 {
            assert(t[from - 1] == s[from + n - 1]);
        }
        if end < t.len() {
            assert(t[end] == s[end + n]);
        }
        assert forall|k: int| from + n <= k < end + n implies #[trigger] s[k] != '\n' by {
            assert(t[k - n] == s[k]);
        }
        assert(t.subrange(from, end) =~= s.subrange(from + n, end + n));
    }
    if 0 <= from && is_line(s, from + n, end + n) {
        if from > 0 {
            assert(t[from - 1] == s[from + n - 1]);
        }
        if end < t.len() {
            assert(t[end] == s[end + n]);
        }
        assert forall|k: int| from <= k < end implies #[trigger] t[k] != '\n' by {
            assert(t[k] == s[k + n]);
        }
    }
}

proof fn lemma_line_before(
    f: spec_fn(Seq<char>) -> Option<u64>,
    s: Seq<char>,
    e: int,
    upto: int,
    m: MeshSoFar,
    inner: Seq<(int, int)>,
    after: Seq<MeshSoFar>,
)
    requires
        0 <= e < s.len(),
        0 <= upto,
        is_line(s, 0, e),
        reads_lines(f, s.skip(e + 1), upto, inner, after),
        line_adds(f, content_words(s.subrange(0, e)), m, after[0]),
    ensures
        reads_lines(
            f,
            s,
            upto + e + 1,
            seq![(0int, e)] + stretches_on(inner, e + 1),
            seq![m] + after,
        ),
{
    let t = s.skip(e + 1);
    let moved = stretches_on(inner, e + 1);
    let (at, meshes) = (seq![(0int, e)] + moved, seq![m] + after);
    assert forall|i: int| 0 <= i < at.len() implies is_line(s, (#[trigger] at[i]).0, at[i].1)
        && at[i].1 < upto + e + 1 && line_adds(
        f,
        content_words(s.subrange(at[i].0, at[i].1)),
        meshes[i],
        meshes[i + 1],
    ) by {
        if i > 0 {
            let (a, b) = inner[i - 1];
            assert(is_line(t, a, b));
            lemma_line_on(s, e + 1, a, b);
            assert(at[i] == moved[i - 1]);
            assert(meshes[i] == after[i - 1] && meshes[i + 1] == after[i - 1 + 1]);
        } else {
            assert(meshes[0] == m && meshes[1] == after[0]);
        }
    }
    assert forall|i: int, j: int| 0 <= i < j < at.len() implies at[i].1 < at[j].0 by {
        assert(at[j] == moved[j - 1]);
        assert(is_line(t, inner[j - 1].0, inner[j - 1].1));
        if i > 0 {
            assert(at[i] == moved[i - 1]);
            assert(inner[i - 1].1 < inner[j - 1].0);
        }
    }
    assert forall|from: int, end: int| #[trigger]
        is_line(s, from, end) && end < upto + e + 1 && content_words(
            s.subrange(from, end),
        ).len() > 0 implies at.contains((from, end)) by {
        if from <= e {
            if from > 0 {
                assert(s[from - 1] == '\n');
            }
            assert(from == 0);
            if end < e {
                assert(s[end] == '\n');
            }
            if end > e {
                assert(s[e] != '\n');
            }
            assert(at[0] == (0int, e));
        } else {
            let (a, b) = (from - e - 1, end - e - 1);
            lemma_line_on(s, e + 1, a, b);
            assert(is_line(t, a, b));
            assert(inner.contains((a, b)));
            let i = inner.index_of((a, b));
            assert(moved[i] == (from, end));
            assert(at[i + 1] == (from, end));
        }
    }
}

/// A mesh file is read line by line: every line that gives a vertex adds it,
/// every line that gives a face adds its fan, and no other line adds anything.
/// It is refused only for a line that cannot be read.
pub proof fn every_line_of_a_mesh_counts(f: spec_fn(Seq<char>) -> Option<u64>, s: Seq<char>) -> (r: (
    Seq<(int, int)>,
    Seq<MeshSoFar>,
    (int, int),
))
    requires
        line_breaks(s, s.len()) < u32::MAX,
    ensures
        r.1[0].vertices.len() == 0 && r.1[0].triangles.len() == 0,
        match obj_read(f, s) {
            Ok(w) => reads_lines(f, s, s.len() as int + 1, r.0, r.1) && r.1.last() == w,
            Err(_) => reads_lines(f, s, r.2.0, r.0, r.1) && is_line(s, r.2.0, r.2.1)
                && is_unreadable(f, content_words(s.subrange(r.2.0, r.2.1)), r.1.last()),
        },
{
    lemma_rest_read(
        f,
        MeshSoFar { vertices: Seq::empty(), triangles: Seq::empty() },
        s,
        1,
    )
}

} // verus!
