//! Characters, words, lines and decimal numbers.

use vstd::prelude::*;

verus! {

/// `String::push` appends one character to the end of the text.
pub assume_specification[ String::push ](s: &mut String, c: char)
    ensures
        final(s)@ == old(s)@.push(c),
;

/// The characters of a text.
pub fn chars_of(s: &str) -> (out: Vec<char>)
    ensures
        out@ == s@,
{
    broadcast use vstd::string::axiom_spec_iter;

    let mut out: Vec<char> = Vec::new();
    for c in it: s.chars()
        invariant
            out@ == it.seq().take(it.index() as int),
            it.seq() == s@,
    {
        out.push(c);
        proof {
            let i = it.index() as int;
            assert(it.seq().take(i + 1) =~= it.seq().take(i).push(it.seq()[i]));
        }
    }
    assert(s@.take(s@.len() as int) =~= s@);
    out
}

/// The text of characters.
pub fn text_of(chars: &Vec<char>) -> (s: String)
    ensures
        s@ == chars@,
{
    let mut s = String::new();
    let mut i: usize = 0;
    while i < chars.len()
        invariant
            i <= chars@.len(),
            s@ == chars@.take(i as int),
        decreases chars.len() - i,
    {
        s.push(chars[i]);
        proof {
            assert(chars@.take(i + 1) =~= chars@.take(i as int).push(chars@[i as int]));
        }
        i += 1;
    }
    assert(chars@.take(chars@.len() as int) =~= chars@);
    s
}

// --- Words and lines --------------------------------------------------------

/// Whether a character is white space, as Unicode has it.
pub open spec fn is_space(c: char) -> bool {
    let n = c as u32;
    ||| 0x9 <= n <= 0xd
    ||| n == 0x20
    ||| n == 0x85
    ||| n == 0xa0
    ||| n == 0x1680
    ||| 0x2000 <= n <= 0x200a
    ||| n == 0x2028
    ||| n == 0x2029
    ||| n == 0x202f
    ||| n == 0x205f
    ||| n == 0x3000
}

pub(crate) fn check_space(c: char) -> (b: bool)
    ensures
        b == is_space(c),
{
    let n: u32 = c as u32;
    (0x9 <= n && n <= 0xd) || n == 0x20 || n == 0x85 || n == 0xa0 || n == 0x1680 || (0x2000 <= n
        && n <= 0x200a) || n == 0x2028 || n == 0x2029 || n == 0x202f || n == 0x205f || n == 0x3000
}

/// Where the first word of a text ends that does not begin with a space.
pub open spec fn word_end(s: Seq<char>) -> nat
    decreases s.len(),
{
    if s.len() == 0 || is_space(s[0]) {
        0
    } else {
        1 + word_end(s.skip(1))
    }
}

/// The words of a text: its longest stretches without white space.
pub open spec fn words_of(s: Seq<char>) -> Seq<Seq<char>>
    decreases s.len(),
{
    if s.len() == 0 {
        Seq::empty()
    } else if is_space(s[0]) {
        words_of(s.skip(1))
    } else {
        let n = word_end(s) as int;
        if 0 < n <= s.len() {
            seq![s.take(n)] + words_of(s.skip(n))
        } else {
            Seq::empty()
        }
    }
}

pub(crate) proof fn lemma_word_end(s: Seq<char>)
    ensures
        word_end(s) <= s.len(),
        s.len() > 0 && !is_space(s[0]) ==> word_end(s) > 0,
        forall|k: int| 0 <= k < word_end(s) ==> !is_space(#[trigger] s[k]),
        word_end(s) < s.len() ==> is_space(s[word_end(s) as int]),
    decreases s.len(),
{
    if s.len() > 0 && !is_space(s[0]) {
        lemma_word_end(s.skip(1));
        assert forall|k: int| 0 <= k < word_end(s) implies !is_space(#[trigger] s[k]) by {
            if k > 0 {
                assert(s.skip(1)[k - 1] == s[k]);
            }
        }
    }
}

pub(crate) proof fn lemma_word_end_is(s: Seq<char>, n: nat)
    requires
        n <= s.len(),
        forall|k: int| 0 <= k < n ==> !is_space(#[trigger] s[k]),
        n == s.len() || is_space(s[n as int]),
    ensures
        word_end(s) == n,
    decreases n,
{
    if n > 0 {
        let t = s.skip(1);
        assert forall|k: int| 0 <= k < n - 1 implies !is_space(#[trigger] t[k]) by {
            assert(t[k] == s[k + 1]);
        }
        assert(!is_space(s[0]));
        lemma_word_end_is(t, (n - 1) as nat);
    }
}

/// Texts as mathematics.
pub open spec fn texts(v: Seq<Vec<char>>) -> Seq<Seq<char>> {
    Seq::new(v.len(), |i: int| v[i]@)
}

/// The characters from `from` up to `to`.
pub(crate) fn slice_of(chars: &Vec<char>, from: usize, to: usize) -> (out: Vec<char>)
    requires
        from <= to <= chars@.len(),
    ensures
        out@ == chars@.subrange(from as int, to as int),
{
    let mut out: Vec<char> = Vec::new();
    let mut i: usize = from;
    while i < to
        invariant
            from <= i <= to <= chars@.len(),
            out@ == chars@.subrange(from as int, i as int),
        decreases to - i,
    {
        out.push(chars[i]);
        i += 1;
    }
    out
}

/// The words among the characters from `from` up to `to`.
pub(crate) fn split_words(chars: &Vec<char>, from: usize, to: usize) -> (out: Vec<Vec<char>>)
    requires
        from <= to <= chars@.len(),
    ensures
        texts(out@) == words_of(chars@.subrange(from as int, to as int)),
{
    let mut out: Vec<Vec<char>> = Vec::new();
    let mut i: usize = from;
    let ghost all = words_of(chars@.subrange(from as int, to as int));
    while i < to
        invariant
            from <= i <= to <= chars@.len(),
            texts(out@) + words_of(chars@.subrange(i as int, to as int)) == all,
        decreases to - i,
    {
        let ghost s = chars@.subrange(i as int, to as int);
        if check_space(chars[i]) {
            assert(s.skip(1) =~= chars@.subrange(i + 1, to as int));
            i += 1;
        } else {
            let mut e: usize = i + 1;
            while e < to && !check_space(chars[e])
                invariant
                    from <= i < e <= to <= chars@.len(),
                    forall|k: int| i <= k < e ==> !is_space(#[trigger] chars@[k]),
                decreases to - e,
            {
                e += 1;
            }
            let ghost before = texts(out@);
            out.push(slice_of(chars, i, e));
            proof {
                let n = (e - i) as nat;
                assert forall|k: int| 0 <= k < n implies !is_space(#[trigger] s[k]) by {
                    assert(s[k] == chars@[i + k]);
                }
                lemma_word_end_is(s, n);
                assert(s.take(n as int) =~= chars@.subrange(i as int, e as int));
                assert(s.skip(n as int) =~= chars@.subrange(e as int, to as int));
                assert(texts(out@) =~= before.push(s.take(n as int)));
                assert(before + (seq![s.take(n as int)] + words_of(s.skip(n as int)))
                    =~= texts(out@) + words_of(s.skip(n as int)));
            }
            i = e;
        }
    }
    proof {
        assert(chars@.subrange(to as int, to as int) =~= Seq::empty());
        assert(texts(out@) + Seq::<Seq<char>>::empty() =~= texts(out@));
    }
    out
}

/// Where `c` first occurs in a text; its length where it does not.
pub open spec fn first_at(s: Seq<char>, c: char) -> nat
    decreases s.len(),
{
    if s.len() == 0 || s[0] == c {
        0
    } else {
        1 + first_at(s.skip(1), c)
    }
}

pub(crate) proof fn lemma_first_at_is(s: Seq<char>, c: char, n: nat)
    requires
        n <= s.len(),
        forall|k: int| 0 <= k < n ==> #[trigger] s[k] != c,
        n == s.len() || s[n as int] == c,
    ensures
        first_at(s, c) == n,
    decreases n,
{
    if n > 0 {
        let t = s.skip(1);
        assert forall|k: int| 0 <= k < n - 1 implies #[trigger] t[k] != c by {
            assert(t[k] == s[k + 1]);
        }
        assert(s[0] != c);
        lemma_first_at_is(t, c, (n - 1) as nat);
    }
}

pub(crate) proof fn lemma_first_at(s: Seq<char>, c: char)
    ensures
        first_at(s, c) <= s.len(),
        forall|k: int| 0 <= k < first_at(s, c) ==> #[trigger] s[k] != c,
        first_at(s, c) < s.len() ==> s[first_at(s, c) as int] == c,
    decreases s.len(),
{
    if s.len() > 0 && s[0] != c {
        lemma_first_at(s.skip(1), c);
        assert forall|k: int| 0 <= k < first_at(s, c) implies #[trigger] s[k] != c by {
            if k > 0 {
                assert(s.skip(1)[k - 1] == s[k]);
            }
        }
    }
}

/// A line with content: its number, counted from one, and its words.
pub struct Line {
    pub number: nat,
    pub words: Seq<Seq<char>>,
}

/// The words of a line, without the comment after `#`.
pub open spec fn line_words(s: Seq<char>) -> Seq<Seq<char>> {
    words_of(s.take(first_at(s, '#') as int))
}

/// The lines of a text that have content, the first line counted as `number`.
pub open spec fn lines_of(s: Seq<char>, number: nat) -> Seq<Line>
    decreases s.len(),
{
    if s.len() == 0 {
        Seq::empty()
    } else {
        let e = first_at(s, '\n') as int;
        let words = line_words(s.take(e));
        let rest = if e < s.len() {
            lines_of(s.skip(e + 1), number + 1)
        } else {
            Seq::empty()
        };
        if words.len() == 0 {
            rest
        } else {
            seq![Line { number, words }] + rest
        }
    }
}

/// A line with content, executable.
#[derive(Clone, Debug)]
pub struct TokenLine {
    pub number: usize,
    pub tokens: Vec<Vec<char>>,
}

impl View for TokenLine {
    type V = Line;

    open spec fn view(&self) -> Line {
        Line { number: self.number as nat, words: texts(self.tokens@) }
    }
}

/// Lines as mathematics.
pub open spec fn line_views(v: Seq<TokenLine>) -> Seq<Line> {
    Seq::new(v.len(), |i: int| v[i]@)
}

/// The lines of a text that have content, with their comments stripped.
pub fn split_lines(chars: &Vec<char>) -> (out: Vec<TokenLine>)
    requires
        chars@.len() < usize::MAX,
    ensures
        line_views(out@) == lines_of(chars@, 1),
{
    let mut out: Vec<TokenLine> = Vec::new();
    let mut i: usize = 0;
    let mut number: usize = 1;
    let ghost all = lines_of(chars@, 1);
    assert(chars@.skip(0) =~= chars@);
    assert(line_views(out@) + lines_of(chars@.skip(0), 1) =~= all);
    while i < chars.len()
        invariant
            i <= chars@.len() < usize::MAX,
            1 <= number <= i + 1,
            line_views(out@) + lines_of(chars@.skip(i as int), number as nat) == all,
        decreases chars.len() - i,
    {
        let ghost s = chars@.skip(i as int);
        let mut e: usize = i;
        let mut hash: usize = chars.len();
        while e < chars.len() && chars[e] != '\n'
            invariant
                i <= e <= chars@.len(),
                forall|k: int| i <= k < e ==> #[trigger] chars@[k] != '\n',
                hash == chars@.len() || i <= hash < e,
                hash < chars@.len() ==> chars@[hash as int] == '#',
                forall|k: int| i <= k < e && k < hash ==> #[trigger] chars@[k] != '#',
            decreases chars.len() - e,
        {
            if chars[e] == '#' && hash == chars.len() {
                hash = e;
            }
            e += 1;
        }
        let stop: usize = if hash < e {
            hash
        } else {
            e
        };
        let tokens = split_words(chars, i, stop);
        let ghost before = line_views(out@);
        let ghost words = texts(tokens@);
        proof {
            let n = (e - i) as nat;
            assert forall|k: int| 0 <= k < n implies #[trigger] s[k] != '\n' by {
                assert(s[k] == chars@[i + k]);
            }
            lemma_first_at_is(s, '\n', n);
            let line = s.take(n as int);
            let h = (stop - i) as nat;
            assert forall|k: int| 0 <= k < h implies #[trigger] line[k] != '#' by {
                assert(line[k] == chars@[i + k]);
            }
            if h < line.len() {
                assert(line[h as int] == chars@[hash as int]);
            }
            lemma_first_at_is(line, '#', h);
            assert(line.take(h as int) =~= chars@.subrange(i as int, stop as int));
            assert(words == line_words(line));
        }
        let blank = tokens.len() == 0;
        if !blank {
            out.push(TokenLine { number, tokens });
            proof {
                let l = Line { number: number as nat, words };
                assert(line_views(out@) =~= before.push(l));
            }
        }
        let ghost rest = if e < chars@.len() {
            lines_of(chars@.skip(e + 1), (number + 1) as nat)
        } else {
            Seq::<Line>::empty()
        };
        proof {
            if e < chars@.len() {
                assert(s.skip((e - i) + 1) =~= chars@.skip(e + 1));
            }
            assert(lines_of(s, number as nat) == if words.len() == 0 {
                rest
            } else {
                seq![Line { number: number as nat, words }] + rest
            });
            assert(before + (seq![Line { number: number as nat, words }] + rest) =~= before.push(
                Line { number: number as nat, words },
            ) + rest);
            assert(line_views(out@) + rest == all);
        }
        if e < chars.len() {
            i = e + 1;
            number += 1;
        } else {
            i = e;
            assert(chars@.skip(i as int).len() == 0);
        }
    }
    proof {
        assert(chars@.skip(i as int).len() == 0);
        assert(line_views(out@) + Seq::<Line>::empty() =~= line_views(out@));
    }
    out
}

// --- Whole numbers ----------------------------------------------------------

/// Whether a character is a decimal digit.
pub open spec fn is_digit(c: char) -> bool {
    '0' as u32 <= c as u32 <= '9' as u32
}

/// The value of a digit.
pub open spec fn digit_value(c: char) -> int {
    c as u32 - '0' as u32
}

/// Whether a text is made of digits.
pub open spec fn all_digits(s: Seq<char>) -> bool {
    forall|k: int| 0 <= k < s.len() ==> is_digit(#[trigger] s[k])
}

/// The number that digits stand for.
pub open spec fn number_of(s: Seq<char>) -> int
    decreases s.len(),
{
    if s.len() == 0 {
        0
    } else {
        10 * number_of(s.drop_last()) + digit_value(s.last())
    }
}

/// The digits of a text after an optional sign.
pub open spec fn unsigned_part(s: Seq<char>) -> Seq<char> {
    if s.len() > 0 && (s[0] == '-' || s[0] == '+') {
        s.skip(1)
    } else {
        s
    }
}

/// The number that a text stands for: an optional sign and at least one digit,
/// within the range of 64 bits.
pub open spec fn int_of(s: Seq<char>) -> Option<i64> {
    let digits = unsigned_part(s);
    let n = if s.len() > 0 && s[0] == '-' {
        -number_of(digits)
    } else {
        number_of(digits)
    };
    if digits.len() > 0 && all_digits(digits) && i64::MIN <= n <= i64::MAX {
        Some(n as i64)
    } else {
        None
    }
}

proof fn lemma_number_grows(s: Seq<char>, n: int)
    requires
        0 <= n <= s.len(),
        all_digits(s),
    ensures
        0 <= number_of(s.take(n)) <= number_of(s),
    decreases s.len(),
{
    if s.len() == 0 {
        assert(s.take(n) =~= s);
    } else {
        let t = s.drop_last();
        assert(all_digits(t)) by {
            assert forall|k: int| 0 <= k < t.len() implies is_digit(#[trigger] t[k]) by {
                assert(t[k] == s[k]);
            }
        }
        assert(is_digit(s[s.len() - 1]));
        if n == s.len() {
            assert(s.take(n) =~= s);
            lemma_number_grows(t, t.len() as int);
            assert(t.take(t.len() as int) =~= t);
        } else {
            lemma_number_grows(t, n);
            assert(t.take(n) =~= s.take(n));
        }
    }
}

/// Read a whole number.
pub fn read_int(s: &Vec<char>) -> (r: Option<i64>)
    ensures
        r == int_of(s@),
{
    let negative = s.len() > 0 && s[0] == '-';
    let from: usize = if s.len() > 0 && (s[0] == '-' || s[0] == '+') {
        1
    } else {
        0
    };
    let ghost digits = unsigned_part(s@);
    assert(digits =~= s@.skip(from as int));
    if from == s.len() {
        assert(digits.len() == 0);
        return None;
    }
    let mut n: u64 = 0;
    let mut i: usize = from;
    while i < s.len()
        invariant
            from <= i <= s@.len(),
            from <= 1,
            digits == s@.skip(from as int),
            n == number_of(digits.take(i - from)),
            n <= 0x8000_0000_0000_0000,
            all_digits(digits.take(i - from)),
            digits == unsigned_part(s@),
        decreases s.len() - i,
    {
        let c: char = s[i];
        let ghost done = digits.take(i - from);
        proof {
            assert(digits.take(i - from + 1) =~= done.push(c));
            assert(done.push(c).drop_last() =~= done);
            assert(digits[i - from] == c);
        }
        if (c as u32) < ('0' as u32) || (c as u32) > ('9' as u32) {
            assert(!is_digit(digits[i - from]));
            return None;
        }
        let d: u64 = (c as u32 - '0' as u32) as u64;
        assert(all_digits(digits.take(i - from + 1))) by {
            assert forall|k: int| 0 <= k < i - from + 1 implies is_digit(
                #[trigger] digits.take(i - from + 1)[k],
            ) by {
                if k < i - from {
                    assert(done[k] == digits[k]);
                    assert(is_digit(done[k]));
                }
            }
        }
        if n > 0xccc_cccc_cccc_cccc || 10 * n + d > 0x8000_0000_0000_0000 {
            proof {
                let more = digits.take(i - from + 1);
                assert(number_of(more) == 10 * n + d);
                if all_digits(digits) {
                    lemma_number_grows(digits, i - from + 1);
                }
            }
            return None;
        }
        n = 10 * n + d;
        i += 1;
    }
    assert(digits.take(digits.len() as int) =~= digits);
    if negative {
        if n == 0x8000_0000_0000_0000 {
            Some(i64::MIN)
        } else {
            Some(-(n as i64))
        }
    } else if n < 0x8000_0000_0000_0000 {
        Some(n as i64)
    } else {
        None
    }
}

/// The character of a digit.
pub open spec fn digit_char(d: nat) -> char {
    (d + '0' as u32) as char
}

/// The decimal text of a number.
pub open spec fn decimal(n: nat) -> Seq<char>
    decreases n,
{
    if n < 10 {
        seq![digit_char(n)]
    } else {
        decimal(n / 10).push(digit_char(n % 10))
    }
}

/// The decimal text of a number with a sign where it is below zero.
pub open spec fn signed_decimal(n: int) -> Seq<char> {
    if n < 0 {
        seq!['-'] + decimal((-n) as nat)
    } else {
        decimal(n as nat)
    }
}

fn push_digit(s: &mut String, d: u64)
    requires
        d < 10,
    ensures
        final(s)@ == old(s)@.push(digit_char(d as nat)),
{
    let c: char = if d == 0 {
        '0'
    } else if d == 1 {
        '1'
    } else if d == 2 {
        '2'
    } else if d == 3 {
        '3'
    } else if d == 4 {
        '4'
    } else if d == 5 {
        '5'
    } else if d == 6 {
        '6'
    } else if d == 7 {
        '7'
    } else if d == 8 {
        '8'
    } else {
        '9'
    };
    s.push(c);
}

/// Append the decimal text of a number.
pub fn push_decimal(s: &mut String, n: u64)
    ensures
        final(s)@ == old(s)@ + decimal(n as nat),
    decreases n,
{
    let ghost before = s@;
    if n < 10 {
        push_digit(s, n);
        assert(s@ =~= before + decimal(n as nat));
    } else {
        push_decimal(s, n / 10);
        push_digit(s, n % 10);
        assert(s@ =~= before + decimal(n as nat));
    }
}

/// Append the decimal text of a number with a sign where it is below zero.
pub fn push_signed(s: &mut String, n: i64)
    ensures
        final(s)@ == old(s)@ + signed_decimal(n as int),
{
    let ghost before = s@;
    if n < 0 {
        s.push('-');
        let m: u64 = if n == i64::MIN {
            0x8000_0000_0000_0000
        } else {
            (-n) as u64
        };
        push_decimal(s, m);
        assert(s@ =~= before + signed_decimal(n as int));
    } else {
        push_decimal(s, n as u64);
    }
}

/// Spaces.
pub open spec fn spaces(n: nat) -> Seq<char> {
    Seq::new(n, |i: int| ' ')
}

/// A number at the right of a column that is four wide, or wider where the
/// number is.
pub open spec fn padded(n: nat) -> Seq<char> {
    let digits = decimal(n);
    if digits.len() < 4 {
        spaces((4 - digits.len()) as nat) + digits
    } else {
        digits
    }
}

/// Append a number at the right of a column that is four wide.
pub fn push_padded(s: &mut String, n: u64)
    ensures
        final(s)@ == old(s)@ + padded(n as nat),
{
    let ghost before = s@;
    proof {
        reveal_with_fuel(decimal, 5);
    }
    if n < 10 {
        s.push(' ');
        s.push(' ');
        s.push(' ');
        assert(decimal(n as nat).len() == 1);
        assert(s@ =~= before + spaces(3));
    } else if n < 100 {
        s.push(' ');
        s.push(' ');
        assert(decimal(n as nat).len() == 2);
        assert(s@ =~= before + spaces(2));
    } else if n < 1000 {
        s.push(' ');
        assert(decimal(n as nat).len() == 3);
        assert(s@ =~= before + spaces(1));
    } else {
        assert(decimal(n as nat).len() >= 4);
    }
    push_decimal(s, n);
    assert(s@ =~= before + padded(n as nat));
}

// --- Laws -------------------------------------------------------------------

/// What `decimal` writes is digits that stand for the number.
pub proof fn decimals_are_read_back(n: nat)
    ensures
        decimal(n).len() > 0,
        all_digits(decimal(n)),
        number_of(decimal(n)) == n,
    decreases n,
{
    reveal_with_fuel(number_of, 2);
    if n < 10 {
        assert(decimal(n).drop_last() =~= Seq::empty());
    } else {
        decimals_are_read_back(n / 10);
        assert(decimal(n).drop_last() =~= decimal(n / 10));
        assert forall|k: int| 0 <= k < decimal(n).len() implies is_digit(
            #[trigger] decimal(n)[k],
        ) by {
            if k < decimal(n / 10).len() {
                assert(decimal(n)[k] == decimal(n / 10)[k]);
            }
        }
    }
}

/// A number that fits is read back from its decimal text.
pub proof fn numbers_are_read_back(n: i64)
    ensures
        int_of(signed_decimal(n as int)) == Some(n),
{
    let s = signed_decimal(n as int);
    if n < 0 {
        decimals_are_read_back((-n) as nat);
        assert(s.skip(1) =~= decimal((-n) as nat));
    } else {
        decimals_are_read_back(n as nat);
        assert(is_digit(s[0]));
    }
}

} // verus!
