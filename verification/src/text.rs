//! Text as the puzzles read it: characters, lines, words and decimal
//! numbers.

use vstd::prelude::*;
use vstd::std_specs::iter::IteratorSpec;

verus! {

broadcast use vstd::string::group_string_axioms;

/// The views of a sequence of vectors.
pub open spec fn views<T>(v: Seq<Vec<T>>) -> Seq<Seq<T>> {
    v.map_values(|w: Vec<T>| w@)
}

/// Whether `c` separates words: the characters of the Unicode property
/// `White_Space`.
pub open spec fn is_whitespace(c: char) -> bool {
    let u = c as u32;
    ||| 0x09 <= u <= 0x0d
    ||| u == 0x20
    ||| u == 0x85
    ||| u == 0xa0
    ||| u == 0x1680
    ||| 0x2000 <= u <= 0x200a
    ||| u == 0x2028
    ||| u == 0x2029
    ||| u == 0x202f
    ||| u == 0x205f
    ||| u == 0x3000
}

/// The number of characters before the first whitespace of `s`.
pub open spec fn word_len(s: Seq<char>) -> nat
    decreases s.len(),
{
    if s.len() == 0 || is_whitespace(s[0]) {
        0
    } else {
        1 + word_len(s.drop_first())
    }
}

/// The words of `s`: its longest runs of characters that are not whitespace.
pub open spec fn words(s: Seq<char>) -> Seq<Seq<char>>
    decreases s.len(),
{
    if s.len() == 0 {
        Seq::empty()
    } else if is_whitespace(s[0]) {
        words(s.drop_first())
    } else {
        let n = word_len(s) as int;
        if 0 < n <= s.len() {
            seq![s.take(n)] + words(s.skip(n))
        } else {
            Seq::empty()
        }
    }
}

/// The number of characters before the first newline of `s`.
pub open spec fn line_len(s: Seq<char>) -> nat
    decreases s.len(),
{
    if s.len() == 0 || s[0] == '\n' {
        0
    } else {
        1 + line_len(s.drop_first())
    }
}

/// A line without the carriage return that ended it, if one did.
pub open spec fn without_return(line: Seq<char>) -> Seq<char> {
    if line.len() > 0 && line.last() == '\r' {
        line.drop_last()
    } else {
        line
    }
}

/// The lines of `s`. A line ends with a newline, or with a carriage return
/// and a newline, neither of which belongs to it; the last line may end with
/// the text instead.
pub open spec fn lines(s: Seq<char>) -> Seq<Seq<char>>
    decreases s.len(),
{
    if s.len() == 0 {
        Seq::empty()
    } else {
        let n = line_len(s) as int;
        if n < s.len() {
            seq![without_return(s.take(n))] + lines(s.skip(n + 1))
        } else {
            seq![s]
        }
    }
}

/// The number of characters before the first `c` of `s`, or the length of
/// `s` if it holds no `c`.
pub open spec fn prefix_len(s: Seq<char>, c: char) -> nat
    decreases s.len(),
{
    if s.len() == 0 || s[0] == c {
        0
    } else {
        1 + prefix_len(s.drop_first(), c)
    }
}

/// What stands before and after the first `c` of `s`, if `s` holds a `c`.
pub open spec fn split_once(s: Seq<char>, c: char) -> Option<(Seq<char>, Seq<char>)> {
    let n = prefix_len(s, c) as int;
    if n < s.len() {
        Some((s.take(n), s.skip(n + 1)))
    } else {
        None
    }
}

/// The number of lines before the first empty line of `all`.
pub open spec fn paragraph_len(all: Seq<Seq<char>>) -> nat
    decreases all.len(),
{
    if all.len() == 0 || all[0].len() == 0 {
        0
    } else {
        1 + paragraph_len(all.drop_first())
    }
}

/// Whether `c` is one of the digits `0` to `9`.
pub open spec fn is_digit(c: char) -> bool {
    '0' <= c <= '9'
}

/// Whether `s` consists of digits only.
pub open spec fn all_digits(s: Seq<char>) -> bool {
    forall|i: int| 0 <= i < s.len() ==> is_digit(#[trigger] s[i])
}

/// The number that a sequence of digits denotes in base ten.
pub open spec fn digits_value(s: Seq<char>) -> nat
    decreases s.len(),
{
    if s.len() == 0 {
        0
    } else {
        digits_value(s.drop_last()) * 10 + (s.last() as u32 - 48) as nat
    }
}

/// The number up to `max` that `s` denotes: one or more digits, which a `+`
/// may precede.
pub open spec fn unsigned_of(s: Seq<char>, max: nat) -> Option<nat> {
    let digits = if s.len() > 0 && s[0] == '+' {
        s.drop_first()
    } else {
        s
    };
    if digits.len() > 0 && all_digits(digits) && digits_value(digits) <= max {
        Some(digits_value(digits))
    } else {
        None
    }
}

/// The number from `min` to `max` that `s` denotes: one or more digits,
/// which a `+` or a `-` may precede.
pub open spec fn signed_of(s: Seq<char>, min: int, max: int) -> Option<int> {
    let digits = if s.len() > 0 && (s[0] == '+' || s[0] == '-') {
        s.drop_first()
    } else {
        s
    };
    let value = if s.len() > 0 && s[0] == '-' {
        -(digits_value(digits) as int)
    } else {
        digits_value(digits) as int
    };
    if digits.len() > 0 && all_digits(digits) && min <= value <= max {
        Some(value)
    } else {
        None
    }
}

/// A run of characters that are not whitespace, ended by whitespace or by
/// the text, is a word's length.
pub proof fn lemma_word_len(s: Seq<char>, k: int)
    requires
        0 <= k <= s.len(),
        forall|j: int| 0 <= j < k ==> !is_whitespace(#[trigger] s[j]),
        k == s.len() || is_whitespace(s[k]),
    ensures
        word_len(s) == k,
    decreases k,
{
    if k > 0 {
        let t = s.drop_first();
        assert forall|j: int| 0 <= j < k - 1 implies !is_whitespace(#[trigger] t[j]) by {
            assert(t[j] == s[j + 1]);
        }
        lemma_word_len(t, k - 1);
    }
}

/// A run of characters that are not newlines, ended by a newline or by the
/// text, is a line's length.
pub proof fn lemma_line_len(s: Seq<char>, k: int)
    requires
        0 <= k <= s.len(),
        forall|j: int| 0 <= j < k ==> #[trigger] s[j] != '\n',
        k == s.len() || s[k] == '\n',
    ensures
        line_len(s) == k,
    decreases k,
{
    if k > 0 {
        let t = s.drop_first();
        assert forall|j: int| 0 <= j < k - 1 implies #[trigger] t[j] != '\n' by {
            assert(t[j] == s[j + 1]);
        }
        lemma_line_len(t, k - 1);
    }
}

/// A run of characters other than `c`, ended by a `c` or by the text, is
/// what stands before the first `c`.
pub proof fn lemma_prefix_len(s: Seq<char>, c: char, k: int)
    requires
        0 <= k <= s.len(),
        forall|j: int| 0 <= j < k ==> #[trigger] s[j] != c,
        k == s.len() || s[k] == c,
    ensures
        prefix_len(s, c) == k,
    decreases k,
{
    if k > 0 {
        let t = s.drop_first();
        assert forall|j: int| 0 <= j < k - 1 implies #[trigger] t[j] != c by {
            assert(t[j] == s[j + 1]);
        }
        lemma_prefix_len(t, c, k - 1);
    }
}

/// A run of lines that are not empty, ended by an empty line or by the
/// text, is a paragraph's length.
pub proof fn lemma_paragraph_len(all: Seq<Seq<char>>, k: int)
    requires
        0 <= k <= all.len(),
        forall|j: int| 0 <= j < k ==> (#[trigger] all[j]).len() > 0,
        k == all.len() || all[k].len() == 0,
    ensures
        paragraph_len(all) == k,
    decreases k,
{
    if k > 0 {
        let t = all.drop_first();
        assert forall|j: int| 0 <= j < k - 1 implies (#[trigger] t[j]).len() > 0 by {
            assert(t[j] == all[j + 1]);
        }
        lemma_paragraph_len(t, k - 1);
    }
}

/// The digits read so far denote no more than all of them do.
pub proof fn lemma_digits_grow(s: Seq<char>, k: int)
    requires
        0 <= k <= s.len(),
        all_digits(s),
    ensures
        digits_value(s.take(k)) <= digits_value(s),
    decreases s.len() - k,
{
    if k < s.len() {
        assert(s.take(k + 1).drop_last() =~= s.take(k));
        assert(is_digit(s[k]));
        assert(all_digits(s));
        lemma_digits_grow(s, k + 1);
    } else {
        assert(s.take(k) =~= s);
    }
}

/// The characters of `s`.
pub fn chars_of(s: &str) -> (r: Vec<char>)
    ensures
        r@ == s@,
{
    let mut out: Vec<char> = Vec::new();
    let mut it = s.chars();
    loop
        invariant
            out@ + it.remaining() == s@,
            it.obeys_prophetic_iter_laws(),
            it.decrease() is Some,
        decreases it.decrease()->0,
    {
        let ghost before = it.remaining();
        match it.next() {
            Some(c) => {
                out.push(c);
                assert(out@ + it.remaining() =~= s@) by {
                    assert(before =~= seq![c] + before.drop_first());
                }
            },
            None => {
                assert(out@ =~= s@);
                return out;
            },
        }
    }
}

/// The characters of `s` from place `from` up to place `to`.
pub fn slice(s: &Vec<char>, from: usize, to: usize) -> (r: Vec<char>)
    requires
        from <= to <= s.len(),
    ensures
        r@ == s@.subrange(from as int, to as int),
{
    let mut out: Vec<char> = Vec::new();
    let mut i: usize = from;
    while i < to
        invariant
            from <= i <= to <= s.len(),
            out@ == s@.subrange(from as int, i as int),
        decreases to - i,
    {
        out.push(s[i]);
        assert(out@ =~= s@.subrange(from as int, i + 1));
        i += 1;
    }
    out
}

/// Splits `s` at its first `c`.
pub fn split_at_first(s: &Vec<char>, c: char) -> (r: Option<(Vec<char>, Vec<char>)>)
    ensures
        match r {
            Some((before, after)) => split_once(s@, c) == Some((before@, after@)),
            None => split_once(s@, c) is None,
        },
{
    let n = s.len();
    let mut i: usize = 0;
    while i < n && s[i] != c
        invariant
            i <= n == s.len(),
            forall|j: int| 0 <= j < i ==> #[trigger] s[j] != c,
        decreases n - i,
    {
        i += 1;
    }
    proof {
        lemma_prefix_len(s@, c, i as int);
    }
    if i < n {
        let before = slice(s, 0, i);
        let after = slice(s, i + 1, n);
        assert(before@ =~= s@.take(i as int));
        assert(after@ =~= s@.skip(i + 1));
        Some((before, after))
    } else {
        None
    }
}

/// The place of the first empty line of `rows` from place `from` on, or the
/// number of lines if there is none.
pub fn paragraph_end(rows: &Vec<Vec<char>>, from: usize) -> (end: usize)
    requires
        from <= rows.len(),
    ensures
        end == from + paragraph_len(views(rows@).skip(from as int)),
        from <= end <= rows.len(),
{
    let ghost rest = views(rows@).skip(from as int);
    let mut end: usize = from;
    while end < rows.len() && rows[end].len() > 0
        invariant
            from <= end <= rows.len(),
            rest == views(rows@).skip(from as int),
            forall|j: int| 0 <= j < end - from ==> (#[trigger] rest[j]).len() > 0,
        decreases rows.len() - end,
    {
        assert(rest[end - from] == rows[end as int]@);
        end += 1;
    }
    proof {
        if end < rows.len() {
            assert(rest[end - from] == rows[end as int]@);
        }
        lemma_paragraph_len(rest, end - from);
    }
    end
}

/// Whether `word` spells `literal`.
pub fn spells(word: &Vec<char>, literal: &str) -> (r: bool)
    ensures
        r == (word@ == literal@),
{
    let other = chars_of(literal);
    if word.len() != other.len() {
        return false;
    }
    let mut i: usize = 0;
    while i < word.len()
        invariant
            i <= word.len() == other.len(),
            other@ == literal@,
            forall|j: int| 0 <= j < i ==> word[j] == other[j],
        decreases word.len() - i,
    {
        if word[i] != other[i] {
            return false;
        }
        i += 1;
    }
    assert(word@ =~= other@);
    true
}

/// Reads the digits of `s` from place `from` on as a number up to `max`.
pub fn parse_digits(s: &Vec<char>, from: usize, max: u64) -> (r: Option<u64>)
    requires
        from <= s.len(),
    ensures
        r == ({
            let digits = s@.skip(from as int);
            if digits.len() > 0 && all_digits(digits) && digits_value(digits) <= max {
                Some(digits_value(digits) as u64)
            } else {
                None
            }
        }),
{
    let n = s.len();
    let ghost digits = s@.skip(from as int);
    if from == n {
        return None;
    }
    let mut value: u64 = 0;
    let mut i: usize = from;
    assert(digits.take(0) =~= Seq::<char>::empty());
    while i < n
        invariant
            from <= i <= n == s.len(),
            digits == s@.skip(from as int),
            all_digits(digits.take(i - from)),
            value == digits_value(digits.take(i - from)),
            value <= max,
        decreases n - i,
    {
        let c = s[i];
        assert(digits[i - from] == c);
        if c < '0' || c > '9' {
            assert(!all_digits(digits));
            return None;
        }
        let d = (c as u32 - 48) as u64;
        proof {
            assert(digits.take(i - from + 1).drop_last() =~= digits.take(i - from));
            assert(digits.take(i - from + 1).last() == c);
            assert(all_digits(digits.take(i - from + 1))) by {
                assert forall|j: int| 0 <= j < i - from + 1 implies is_digit(
                    #[trigger] digits.take(i - from + 1)[j],
                ) by {
                    if j < i - from {
                        assert(digits.take(i - from)[j] == digits[j]);
                    }
                }
            }
        }
        if d > max || value > (max - d) / 10 {
            proof {
                assert(value * 10 + d > max);
                if all_digits(digits) {
                    lemma_digits_grow(digits, i - from + 1);
                }
            }
            return None;
        }
        value = value * 10 + d;
        i += 1;
    }
    assert(digits.take(n - from) =~= digits);
    Some(value)
}

/// Reads `s` as a number up to `max`.
pub fn parse_unsigned(s: &Vec<char>, max: u64) -> (r: Option<u64>)
    ensures
        r == match unsigned_of(s@, max as nat) {
            Some(v) => Some(v as u64),
            None => None,
        },
{
    if s.len() > 0 && s[0] == '+' {
        assert(s@.skip(1) =~= s@.drop_first());
        parse_digits(s, 1, max)
    } else {
        assert(s@.skip(0) =~= s@);
        parse_digits(s, 0, max)
    }
}

/// Reads `s` as a `usize`.
pub fn parse_usize(s: &Vec<char>) -> (r: Option<usize>)
    ensures
        r == match unsigned_of(s@, usize::MAX as nat) {
            Some(v) => Some(v as usize),
            None => None,
        },
{
    match parse_unsigned(s, usize::MAX as u64) {
        Some(v) => Some(v as usize),
        None => None,
    }
}

/// Reads `s` as an `i64`.
pub fn parse_i64(s: &Vec<char>) -> (r: Option<i64>)
    ensures
        r == match signed_of(s@, i64::MIN as int, i64::MAX as int) {
            Some(v) => Some(v as i64),
            None => None,
        },
{
    if s.len() > 0 && s[0] == '-' {
        assert(s@.skip(1) =~= s@.drop_first());
        match parse_digits(s, 1, 0x8000_0000_0000_0000) {
            Some(v) => {
                if v == 0x8000_0000_0000_0000 {
                    Some(i64::MIN)
                } else {
                    Some(-(v as i64))
                }
            },
            None => None,
        }
    } else if s.len() > 0 && s[0] == '+' {
        assert(s@.skip(1) =~= s@.drop_first());
        match parse_digits(s, 1, 0x7fff_ffff_ffff_ffff) {
            Some(v) => Some(v as i64),
            None => None,
        }
    } else {
        assert(s@.skip(0) =~= s@);
        match parse_digits(s, 0, 0x7fff_ffff_ffff_ffff) {
            Some(v) => Some(v as i64),
            None => None,
        }
    }
}

/// Reads `s` as an `isize`.
pub fn parse_isize(s: &Vec<char>) -> (r: Option<isize>)
    ensures
        r == match signed_of(s@, isize::MIN as int, isize::MAX as int) {
            Some(v) => Some(v as isize),
            None => None,
        },
{
    match parse_i64(s) {
        Some(v) => {
            if isize::MIN as i64 <= v && v <= isize::MAX as i64 {
                Some(v as isize)
            } else {
                None
            }
        },
        None => None,
    }
}

/// The code point of `c`.
pub fn code(c: char) -> (u: u32)
    ensures
        u == c as u32,
        u <= 0x10ffff,
{
    c as u32
}

/// Whether `c` separates words.
pub fn is_space(c: char) -> (r: bool)
    ensures
        r == is_whitespace(c),
{
    let u = c as u32;
    (0x09 <= u && u <= 0x0d) || u == 0x20 || u == 0x85 || u == 0xa0 || u == 0x1680 || (0x2000 <= u
        && u <= 0x200a) || u == 0x2028 || u == 0x2029 || u == 0x202f || u == 0x205f || u == 0x3000
}

/// Splits `s` into its words.
pub fn split_words(s: &Vec<char>) -> (r: Vec<Vec<char>>)
    ensures
        views(r@) == words(s@),
{
    let n = s.len();
    let mut out: Vec<Vec<char>> = Vec::new();
    let mut i: usize = 0;
    assert(s@.skip(0) =~= s@);
    assert(views(out@) =~= Seq::<Seq<char>>::empty());
    while i < n
        invariant
            i <= n == s.len(),
            views(out@) + words(s@.skip(i as int)) == words(s@),
        decreases n - i,
    {
        let ghost rest = s@.skip(i as int);
        if is_space(s[i]) {
            assert(rest.drop_first() =~= s@.skip(i + 1));
            i += 1;
        } else {
            let start = i;
            let mut word: Vec<char> = Vec::new();
            while i < n && !is_space(s[i])
                invariant
                    start <= i <= n == s.len(),
                    word@ == s@.subrange(start as int, i as int),
                    forall|j: int| start <= j < i ==> !is_whitespace(#[trigger] s[j]),
                decreases n - i,
            {
                word.push(s[i]);
                assert(word@ =~= s@.subrange(start as int, i + 1));
                i += 1;
            }
            proof {
                assert forall|j: int| 0 <= j < i - start implies !is_whitespace(
                    #[trigger] rest[j],
                ) by {
                    assert(rest[j] == s[start + j]);
                }
                lemma_word_len(rest, i - start);
                assert(rest.take(i - start) =~= word@);
                assert(rest.skip(i - start) =~= s@.skip(i as int));
            }
            let ghost before = out@;
            out.push(word);
            assert(views(out@) =~= views(before) + seq![word@]);
            assert(views(out@) + words(s@.skip(i as int)) =~= views(before) + words(rest));
        }
    }
    assert(words(s@.skip(n as int)) =~= Seq::<Seq<char>>::empty());
    assert(views(out@) + Seq::<Seq<char>>::empty() =~= views(out@));
    out
}

/// Splits `s` into its lines.
pub fn split_lines(s: &Vec<char>) -> (r: Vec<Vec<char>>)
    ensures
        views(r@) == lines(s@),
{
    let n = s.len();
    let mut out: Vec<Vec<char>> = Vec::new();
    let mut i: usize = 0;
    assert(s@.skip(0) =~= s@);
    assert(views(out@) =~= Seq::<Seq<char>>::empty());
    while i < n
        invariant
            i <= n == s.len(),
            views(out@) + lines(s@.skip(i as int)) == lines(s@),
        decreases n - i,
    {
        let ghost rest = s@.skip(i as int);
        let start = i;
        let mut line: Vec<char> = Vec::new();
        while i < n && s[i] != '\n'
            invariant
                start <= i <= n == s.len(),
                line@ == s@.subrange(start as int, i as int),
                forall|j: int| start <= j < i ==> #[trigger] s[j] != '\n',
            decreases n - i,
        {
            line.push(s[i]);
            assert(line@ =~= s@.subrange(start as int, i + 1));
            i += 1;
        }
        proof {
            assert forall|j: int| 0 <= j < i - start implies #[trigger] rest[j] != '\n' by {
                assert(rest[j] == s[start + j]);
            }
            lemma_line_len(rest, i - start);
            assert(rest.take(i - start) =~= line@);
        }
        let ghost before = out@;
        if i < n {
            let m = line.len();
            if m > 0 && line[m - 1] == '\r' {
                line.pop();
            }
            assert(line@ =~= without_return(rest.take(i - start)));
            i += 1;
            assert(rest.skip(i - start) =~= s@.skip(i as int));
            out.push(line);
            assert(views(out@) =~= views(before) + seq![line@]);
            assert(views(out@) + lines(s@.skip(i as int)) =~= views(before) + lines(rest));
        } else {
            assert(line@ =~= rest);
            out.push(line);
            assert(views(out@) =~= views(before) + seq![line@]);
            assert(lines(s@.skip(i as int)) =~= Seq::<Seq<char>>::empty());
            assert(views(out@) + lines(s@.skip(i as int)) =~= views(before) + lines(rest));
        }
    }
    assert(lines(s@.skip(n as int)) =~= Seq::<Seq<char>>::empty());
    assert(views(out@) + Seq::<Seq<char>>::empty() =~= views(out@));
    out
}

} // verus!
