//! Characters and sequences of characters: the classes that the grammars
//! are written over, trimming, lines, numbers in decimal digits, and the
//! passage between strings and vectors of characters.

use vstd::prelude::*;

verus! {

/// Whether `c` is white space: the code points that Unicode gives the
/// property `White_Space`.
pub open spec fn is_space(c: char) -> bool {
    ||| '\u{9}' <= c <= '\u{d}'
    ||| c == ' '
    ||| c == '\u{85}'
    ||| c == '\u{a0}'
    ||| c == '\u{1680}'
    ||| '\u{2000}' <= c <= '\u{200a}'
    ||| c == '\u{2028}'
    ||| c == '\u{2029}'
    ||| c == '\u{202f}'
    ||| c == '\u{205f}'
    ||| c == '\u{3000}'
}

/// Whether `c` is one of the ten decimal digits `0` to `9`.
pub open spec fn is_digit(c: char) -> bool {
    '0' <= c <= '9'
}

/// `s` without its leading white space.
pub open spec fn trim_start(s: Seq<char>) -> Seq<char>
    decreases s.len(),
{
    if s.len() > 0 && is_space(s[0]) {
        trim_start(s.drop_first())
    } else {
        s
    }
}

/// `s` without its trailing white space.
pub open spec fn trim_end(s: Seq<char>) -> Seq<char>
    decreases s.len(),
{
    if s.len() > 0 && is_space(s.last()) {
        trim_end(s.drop_last())
    } else {
        s
    }
}

/// `s` without its leading and trailing white space.
pub open spec fn trim(s: Seq<char>) -> Seq<char> {
    trim_end(trim_start(s))
}

/// Whether `s` neither begins nor ends with white space.
pub open spec fn is_trimmed(s: Seq<char>) -> bool {
    s.len() > 0 ==> !is_space(s[0]) && !is_space(s.last())
}

/// Trimming at the start yields a suffix that does not begin with white space,
/// and what was cut off is white space only.
pub proof fn lemma_trim_start(s: Seq<char>)
    ensures
        trim_start(s).len() <= s.len(),
        trim_start(s) == s.skip(s.len() - trim_start(s).len()),
        trim_start(s).len() > 0 ==> !is_space(trim_start(s)[0]),
        forall|i: int| 0 <= i < s.len() - trim_start(s).len() ==> is_space(#[trigger] s[i]),
    decreases s.len(),
{
    if s.len() > 0 && is_space(s[0]) {
        let rest = s.drop_first();
        lemma_trim_start(rest);
        let cut = rest.len() - trim_start(rest).len();
        assert(rest.skip(cut) == s.skip(cut + 1));
        assert forall|i: int| 0 <= i < s.len() - trim_start(s).len() implies is_space(
            #[trigger] s[i],
        ) by {
            if i > 0 {
                assert(s[i] == rest[i - 1]);
            }
        }
    } else {
        assert(s.skip(0) == s);
    }
}

/// Trimming at the end yields a prefix that does not end with white space,
/// and what was cut off is white space only.
pub proof fn lemma_trim_end(s: Seq<char>)
    ensures
        trim_end(s).len() <= s.len(),
        trim_end(s) == s.take(trim_end(s).len() as int),
        trim_end(s).len() > 0 ==> !is_space(trim_end(s).last()),
        forall|i: int| trim_end(s).len() <= i < s.len() ==> is_space(#[trigger] s[i]),
    decreases s.len(),
{
    if s.len() > 0 && is_space(s.last()) {
        let rest = s.drop_last();
        lemma_trim_end(rest);
        let kept = trim_end(rest).len() as int;
        assert(rest.take(kept) == s.take(kept));
        assert forall|i: int| trim_end(s).len() <= i < s.len() implies is_space(
            #[trigger] s[i],
        ) by {
            if i < s.len() - 1 {
                assert(s[i] == rest[i]);
            }
        }
    } else {
        assert(s.take(s.len() as int) == s);
    }
}

/// A trimmed sequence is trimmed, and trimming it again changes nothing.
pub proof fn lemma_trim_is_trimmed(s: Seq<char>)
    ensures
        is_trimmed(trim(s)),
        trim(trim(s)) == trim(s),
{
    let a = trim_start(s);
    lemma_trim_start(s);
    lemma_trim_end(a);
    let t = trim(s);
    if t.len() > 0 {
        assert(t == a.take(t.len() as int));
        assert(t[0] == a[0]);
    }
    lemma_trimmed_is_fixed(t);
}

/// Trimming leaves a sequence that neither begins nor ends with white space
/// as it is.
pub proof fn lemma_trimmed_is_fixed(s: Seq<char>)
    requires
        is_trimmed(s),
    ensures
        trim_start(s) == s,
        trim_end(s) == s,
        trim(s) == s,
{
}

/// Whether `s` is made of white space only.
pub open spec fn all_white(s: Seq<char>) -> bool {
    forall|i: int| 0 <= i < s.len() ==> is_space(#[trigger] s[i])
}

/// White space in front of a sequence is trimmed away with its own.
pub proof fn lemma_trim_start_skips_white(white: Seq<char>, s: Seq<char>)
    requires
        all_white(white),
    ensures
        trim_start(white + s) == trim_start(s),
    decreases white.len(),
{
    if white.len() == 0 {
        assert(white + s == s);
    } else {
        let whole = white + s;
        assert(is_space(white[0]));
        assert(whole[0] == white[0]);
        let rest = white.drop_first();
        assert forall|i: int| 0 <= i < rest.len() implies is_space(#[trigger] rest[i]) by {
            assert(rest[i] == white[i + 1]);
        }
        assert(whole.drop_first() == rest + s);
        lemma_trim_start_skips_white(rest, s);
    }
}

/// White space behind a sequence is trimmed away with its own.
pub proof fn lemma_trim_end_skips_white(s: Seq<char>, white: Seq<char>)
    requires
        all_white(white),
    ensures
        trim_end(s + white) == trim_end(s),
    decreases white.len(),
{
    if white.len() == 0 {
        assert(s + white == s);
    } else {
        let whole = s + white;
        assert(is_space(white[white.len() - 1]));
        assert(whole.last() == white.last());
        let rest = white.drop_last();
        assert forall|i: int| 0 <= i < rest.len() implies is_space(#[trigger] rest[i]) by {
            assert(rest[i] == white[i]);
        }
        assert(whole.drop_last() == s + rest);
        lemma_trim_end_skips_white(s, rest);
    }
}

/// Trimming takes away the white space around a sequence that is trimmed,
/// and nothing else.
pub proof fn lemma_trim_of_padded(before: Seq<char>, s: Seq<char>, after: Seq<char>)
    requires
        all_white(before),
        all_white(after),
        is_trimmed(s),
    ensures
        trim(before + s + after) == s,
{
    assert(before + s + after == before + (s + after));
    lemma_trim_start_skips_white(before, s + after);
    if s.len() == 0 {
        assert(s + after == after);
        lemma_trim_start_skips_white(after, Seq::empty());
        assert(after + Seq::<char>::empty() == after);
        assert(trim_start(after) == Seq::<char>::empty());
    } else {
        assert((s + after)[0] == s[0]);
        lemma_trim_end_skips_white(s, after);
    }
}

/// Every sequence is its trimmed form with white space around it.
pub proof fn lemma_trim_padding(s: Seq<char>) -> (padding: (Seq<char>, Seq<char>))
    ensures
        all_white(padding.0),
        all_white(padding.1),
        s == padding.0 + trim(s) + padding.1,
        is_trimmed(trim(s)),
{
    lemma_trim_start(s);
    let front = trim_start(s);
    lemma_trim_end(front);
    lemma_trim_is_trimmed(s);
    let before = s.take(s.len() - front.len());
    let after = front.skip(trim(s).len() as int);
    assert forall|i: int| 0 <= i < after.len() implies is_space(#[trigger] after[i]) by {
        assert(after[i] == front[trim(s).len() + i]);
    }
    assert(s == before + trim(s) + after);
    (before, after)
}

/// Whether `c` is white space.
pub fn is_whitespace(c: char) -> (b: bool)
    ensures
        b == is_space(c),
{
    ('\u{9}' <= c && c <= '\u{d}') || c == ' ' || c == '\u{85}' || c == '\u{a0}' || c
        == '\u{1680}' || ('\u{2000}' <= c && c <= '\u{200a}') || c == '\u{2028}' || c
        == '\u{2029}' || c == '\u{202f}' || c == '\u{205f}' || c == '\u{3000}'
}

/// Whether `c` is a decimal digit.
pub fn is_decimal_digit(c: char) -> (b: bool)
    ensures
        b == is_digit(c),
{
    '0' <= c && c <= '9'
}

/// Appends one character to a string: `String::push` of the standard
/// library, which adds the character at the end and changes nothing else.
#[verifier::external_body]
pub(crate) fn push_char(s: &mut String, c: char)
    ensures
        final(s)@ == old(s)@.push(c),
{
    s.push(c)
}

/// The characters of a string slice, in order.
pub fn chars_of(s: &str) -> (out: Vec<char>)
    ensures
        out@ == s@,
{
    let mut out: Vec<char> = Vec::new();
    for c in it: s.chars()
        invariant
            out@ == it.seq().take(it.index() as int),
            it.seq() == s@,
    {
        out.push(c);
    }
    out
}

/// The string made of the given characters, in order.
pub fn string_of(v: &Vec<char>) -> (out: String)
    ensures
        out@ == v@,
{
    let mut out = String::new();
    let mut i: usize = 0;
    while i < v.len()
        invariant
            i <= v.len(),
            out@ == v@.take(i as int),
        decreases v.len() - i,
    {
        push_char(&mut out, v[i]);
        i += 1;
    }
    out
}

/// A copy of the characters of `v` from index `from` up to, not including,
/// index `to`.
pub fn copy_range(v: &Vec<char>, from: usize, to: usize) -> (out: Vec<char>)
    requires
        from <= to <= v.len(),
    ensures
        out@ == v@.subrange(from as int, to as int),
{
    let mut out: Vec<char> = Vec::new();
    let mut i: usize = from;
    while i < to
        invariant
            from <= i <= to <= v.len(),
            out@ == v@.subrange(from as int, i as int),
        decreases to - i,
    {
        out.push(v[i]);
        i += 1;
    }
    out
}

/// The bounds of `v[from..to]` once its leading and trailing white space is
/// cut off.
pub fn trim_bounds(v: &Vec<char>, from: usize, to: usize) -> (r: (usize, usize))
    requires
        from <= to <= v.len(),
    ensures
        from <= r.0 <= r.1 <= to,
        v@.subrange(r.0 as int, r.1 as int) == trim(v@.subrange(from as int, to as int)),
{
    let ghost whole = v@.subrange(from as int, to as int);
    let mut a: usize = from;
    while a < to && is_whitespace(v[a])
        invariant
            from <= a <= to <= v.len(),
            whole == v@.subrange(from as int, to as int),
            trim_start(whole) == trim_start(v@.subrange(a as int, to as int)),
        decreases to - a,
    {
        proof {
            let cur = v@.subrange(a as int, to as int);
            assert(cur.drop_first() == v@.subrange(a + 1, to as int));
        }
        a += 1;
    }
    let ghost front = v@.subrange(a as int, to as int);
    assert(trim_start(whole) == front);
    let mut b: usize = to;
    while a < b && is_whitespace(v[b - 1])
        invariant
            a <= b <= to <= v.len(),
            front == v@.subrange(a as int, to as int),
            trim_end(front) == trim_end(v@.subrange(a as int, b as int)),
        decreases b - a,
    {
        proof {
            let cur = v@.subrange(a as int, b as int);
            assert(cur.drop_last() == v@.subrange(a as int, b - 1));
        }
        b -= 1;
    }
    (a, b)
}

/// How many of the first `to` characters of `v` are left once the white
/// space at their end is cut off.
pub fn trim_end_len(v: &Vec<char>, to: usize) -> (kept: usize)
    requires
        to <= v.len(),
    ensures
        kept <= to,
        v@.take(kept as int) == trim_end(v@.take(to as int)),
{
    let mut b: usize = to;
    while 0 < b && is_whitespace(v[b - 1])
        invariant
            b <= to <= v.len(),
            trim_end(v@.take(to as int)) == trim_end(v@.take(b as int)),
        decreases b,
    {
        proof {
            assert(v@.take(b as int).drop_last() == v@.take(b - 1));
        }
        b -= 1;
    }
    b
}

/// The characters of `v` without leading and trailing white space.
pub fn trimmed(v: &Vec<char>) -> (out: Vec<char>)
    ensures
        out@ == trim(v@),
{
    let (a, b) = trim_bounds(v, 0, v.len());
    assert(v@.subrange(0, v.len() as int) == v@);
    copy_range(v, a, b)
}

/// The lines of `text`: what stands between its line feeds. There is always
/// a last line, which no line feed ends and which may be empty.
pub open spec fn split_lines(text: Seq<char>) -> Seq<Seq<char>>
    decreases text.len(),
{
    if text.len() == 0 {
        seq![Seq::empty()]
    } else {
        let before = split_lines(text.drop_last());
        if text.last() == '\n' {
            before.push(Seq::empty())
        } else {
            before.drop_last().push(before.last().push(text.last()))
        }
    }
}

/// A text without a line feed is one line.
pub proof fn lemma_one_line(text: Seq<char>)
    requires
        forall|i: int| 0 <= i < text.len() ==> #[trigger] text[i] != '\n',
    ensures
        split_lines(text) == seq![text],
    decreases text.len(),
{
    if text.len() == 0 {
        assert(text == Seq::<char>::empty());
    } else {
        let h = text.drop_last();
        assert forall|i: int| 0 <= i < h.len() implies #[trigger] h[i] != '\n' by {
            assert(h[i] == text[i]);
        }
        lemma_one_line(h);
        assert(text[text.len() - 1] != '\n');
        assert(seq![h].last().push(text.last()) == text);
        assert(seq![h].drop_last().push(text) =~= seq![text]);
    }
}

/// The views of the lines of a text.
pub open spec fn line_views(lines: Seq<Vec<char>>) -> Seq<Seq<char>> {
    lines.map_values(|l: Vec<char>| l@)
}

/// The lines of `text`.
pub fn split_text(text: &Vec<char>) -> (lines: Vec<Vec<char>>)
    ensures
        line_views(lines@) == split_lines(text@),
{
    let mut lines: Vec<Vec<char>> = Vec::new();
    let mut current: Vec<char> = Vec::new();
    let mut i: usize = 0;
    assert(line_views(lines@).push(current@) =~= split_lines(text@.take(0)));
    while i < text.len()
        invariant
            i <= text.len(),
            line_views(lines@).push(current@) == split_lines(text@.take(i as int)),
        decreases text.len() - i,
    {
        let ghost before = split_lines(text@.take(i as int));
        proof {
            assert(text@.take(i + 1).drop_last() == text@.take(i as int));
            assert(before.drop_last() == line_views(lines@));
            assert(before.last() == current@);
        }
        let c = text[i];
        if c == '\n' {
            lines.push(current);
            current = Vec::new();
            assert(line_views(lines@) =~= before);
        } else {
            current.push(c);
        }
        i += 1;
    }
    assert(text@.take(text.len() as int) == text@);
    let ghost done = line_views(lines@);
    let ghost last = current@;
    lines.push(current);
    assert(line_views(lines@) =~= done.push(last));
    lines
}

/// The first index from `from` on at which `s` holds `c`.
pub open spec fn first_index(s: Seq<char>, c: char, from: int) -> Option<int>
    decreases s.len() - from,
{
    if from < 0 || from >= s.len() {
        None
    } else if s[from] == c {
        Some(from)
    } else {
        first_index(s, c, from + 1)
    }
}

/// The last index at which `s` holds `c`.
pub open spec fn last_index(s: Seq<char>, c: char) -> Option<int>
    decreases s.len(),
{
    if s.len() == 0 {
        None
    } else if s.last() == c {
        Some(s.len() - 1)
    } else {
        last_index(s.drop_last(), c)
    }
}

/// The first index found holds the character, and no index from `from` up
/// to it does; where none is found, no index from `from` on holds it.
pub proof fn lemma_first_index(s: Seq<char>, c: char, from: int)
    requires
        0 <= from,
    ensures
        match first_index(s, c, from) {
            Some(at) => from <= at < s.len() && s[at] == c && forall|j: int|
                from <= j < at ==> s[j] != c,
            None => forall|j: int| from <= j < s.len() ==> s[j] != c,
        },
    decreases s.len() - from,
{
    if from < s.len() && s[from] != c {
        lemma_first_index(s, c, from + 1);
    }
}

/// The last index found holds the character, and no index behind it does;
/// where none is found, no index holds it.
pub proof fn lemma_last_index(s: Seq<char>, c: char)
    ensures
        match last_index(s, c) {
            Some(at) => 0 <= at < s.len() && s[at] == c && forall|j: int|
                at < j < s.len() ==> s[j] != c,
            None => forall|j: int| 0 <= j < s.len() ==> s[j] != c,
        },
    decreases s.len(),
{
    if s.len() > 0 && s.last() != c {
        let h = s.drop_last();
        lemma_last_index(h, c);
        match last_index(h, c) {
            Some(at) => {
                assert(s[at] == h[at]);
                assert forall|j: int| at < j < s.len() implies s[j] != c by {
                    if j < h.len() {
                        assert(s[j] == h[j]);
                    }
                }
            },
            None => {
                assert forall|j: int| 0 <= j < s.len() implies s[j] != c by {
                    if j < h.len() {
                        assert(s[j] == h[j]);
                    }
                }
            },
        }
    }
}

/// The first index from `from` on at which `v` holds `c`.
pub fn find_first(v: &Vec<char>, c: char, from: usize) -> (found: Option<usize>)
    ensures
        match found {
            Some(at) => first_index(v@, c, from as int) == Some(at as int) && at < v.len(),
            None => first_index(v@, c, from as int) is None,
        },
{
    let mut i: usize = from;
    while i < v.len()
        invariant
            from <= i,
            first_index(v@, c, from as int) == first_index(v@, c, i as int),
        decreases v.len() - i,
    {
        if v[i] == c {
            return Some(i);
        }
        i += 1;
    }
    None
}

/// The last index at which `v` holds `c`.
pub fn find_last(v: &Vec<char>, c: char) -> (found: Option<usize>)
    ensures
        match found {
            Some(at) => last_index(v@, c) == Some(at as int) && at < v.len(),
            None => last_index(v@, c) is None,
        },
{
    let mut i: usize = v.len();
    assert(v@.take(i as int) == v@);
    while i > 0
        invariant
            i <= v.len(),
            last_index(v@, c) == last_index(v@.take(i as int), c),
        decreases i,
    {
        proof {
            assert(v@.take(i as int).drop_last() == v@.take(i - 1));
        }
        if v[i - 1] == c {
            return Some(i - 1);
        }
        i -= 1;
    }
    None
}

/// Appends the characters of `v` from index `from` up to, not including,
/// index `to` to the string `out`.
pub fn push_chars(out: &mut String, v: &Vec<char>, from: usize, to: usize)
    requires
        from <= to <= v.len(),
    ensures
        final(out)@ == old(out)@ + v@.subrange(from as int, to as int),
{
    let mut i: usize = from;
    assert(out@ =~= old(out)@ + v@.subrange(from as int, i as int));
    while i < to
        invariant
            from <= i <= to <= v.len(),
            out@ == old(out)@ + v@.subrange(from as int, i as int),
        decreases to - i,
    {
        push_char(out, v[i]);
        i += 1;
        assert(out@ =~= old(out)@ + v@.subrange(from as int, i as int));
    }
}

/// The number that the decimal digit `c` stands for.
pub open spec fn digit_value(c: char) -> nat {
    (c as u32 - '0' as u32) as nat
}

/// The number that the decimal digits `digits` write.
pub open spec fn decimal_value(digits: Seq<char>) -> nat
    decreases digits.len(),
{
    if digits.len() == 0 {
        0
    } else {
        decimal_value(digits.drop_last()) * 10 + digit_value(digits.last())
    }
}

/// The digits of a number write at least what fewer of them write.
pub proof fn lemma_decimal_value_grows(digits: Seq<char>, n: int)
    requires
        0 <= n <= digits.len(),
    ensures
        decimal_value(digits.take(n)) <= decimal_value(digits),
    decreases digits.len(),
{
    if n == digits.len() {
        assert(digits.take(n) == digits);
    } else {
        lemma_decimal_value_grows(digits.drop_last(), n);
        assert(digits.drop_last().take(n) == digits.take(n));
    }
}

/// The character that writes the digit `d`.
pub open spec fn digit_char(d: nat) -> char
    recommends
        d < 10,
{
    ('0' as u8 + d) as u8 as char
}

/// The number `n` written in decimal digits.
pub open spec fn decimal(n: nat) -> Seq<char>
    decreases n,
{
    if n < 10 {
        seq![digit_char(n)]
    } else {
        decimal(n / 10).push(digit_char(n % 10))
    }
}

/// Appends the number `n`, written in decimal digits, to `out`.
pub fn push_decimal(out: &mut String, n: u64)
    ensures
        final(out)@ == old(out)@ + decimal(n as nat),
    decreases n,
{
    let ghost before = out@;
    if n >= 10 {
        push_decimal(out, n / 10);
    }
    let digit: u8 = (n % 10) as u8;
    push_char(out, (48u8 + digit) as char);
    assert(out@ =~= before + decimal(n as nat));
}

/// Reading what was written gives the number back: the digits of `n` write
/// `n`.
pub proof fn lemma_decimal_round_trip(n: nat)
    ensures
        decimal(n).len() > 0,
        forall|i: int| 0 <= i < decimal(n).len() ==> is_digit(#[trigger] decimal(n)[i]),
        decimal_value(decimal(n)) == n,
    decreases n,
{
    if n < 10 {
        assert(decimal(n).drop_last() == Seq::<char>::empty());
        assert(decimal_value(decimal(n).drop_last()) == 0);
    } else {
        lemma_decimal_round_trip(n / 10);
        assert(decimal(n).drop_last() == decimal(n / 10));
        assert forall|i: int| 0 <= i < decimal(n).len() implies is_digit(
            #[trigger] decimal(n)[i],
        ) by {
            if i < decimal(n).len() - 1 {
                assert(decimal(n)[i] == decimal(n / 10)[i]);
            }
        }
    }
}

} // verus!
