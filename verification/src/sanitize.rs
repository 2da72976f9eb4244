//! The name sanitizer: from a name as a person or a dataset writes it to the
//! key under which the reference store files it.
//!
//! A key is written in lower-case letters, digits, hyphens, commas and
//! apostrophes, in words that single spaces separate. Sanitizing folds every
//! character of a name into that alphabet, or drops it, and then squeezes the
//! white space that is left.

use crate::text::{
    all_white, chars_of, is_digit, is_space, is_whitespace, lemma_trim_padding, string_of, trim,
};
use vstd::prelude::*;

verus! {

/// Whether `c` may stand in a key: a lower-case letter `a` to `z`, a decimal
/// digit, a space, a hyphen, a comma or an apostrophe.
pub open spec fn is_key_char(c: char) -> bool {
    ||| 'a' <= c <= 'z'
    ||| is_digit(c)
    ||| c == ' '
    ||| c == '-'
    ||| c == ','
    ||| c == '\''
}

/// The lower-case form of a letter whose lower-case form a key can hold: of
/// `A` to `Z`, of the upper-case letters of the Latin-1 range, of the
/// ligature `OE`, of `Y` with diaeresis, of the capital sharp s, of the
/// Kelvin and the Angstrom sign, and of `I` with a dot above, which is `i`.
/// Any other character is returned as it is.
pub open spec fn lower(c: char) -> char {
    if 'A' <= c <= 'Z' || ('\u{c0}' <= c <= '\u{de}' && c != '\u{d7}') {
        ((c as u8 + 32) as u8) as char
    } else if c == '\u{130}' {
        'i'
    } else if c == '\u{152}' {
        '\u{153}'
    } else if c == '\u{178}' {
        '\u{ff}'
    } else if c == '\u{1e9e}' {
        '\u{df}'
    } else if c == '\u{212a}' {
        'k'
    } else if c == '\u{212b}' {
        '\u{e5}'
    } else {
        c
    }
}

/// The letters `a` to `z` that stand for an accented or joined lower-case
/// letter of the Latin-1 range, or for the ligature `oe`; empty for every
/// other character.
pub open spec fn ascii_form(c: char) -> Seq<char> {
    if '\u{e0}' <= c <= '\u{e5}' {
        seq!['a']
    } else if c == '\u{e6}' {
        seq!['a', 'e']
    } else if c == '\u{e7}' {
        seq!['c']
    } else if '\u{e8}' <= c <= '\u{eb}' {
        seq!['e']
    } else if '\u{ec}' <= c <= '\u{ef}' {
        seq!['i']
    } else if c == '\u{f0}' {
        seq!['d']
    } else if c == '\u{f1}' {
        seq!['n']
    } else if '\u{f2}' <= c <= '\u{f6}' || c == '\u{f8}' {
        seq!['o']
    } else if '\u{f9}' <= c <= '\u{fc}' {
        seq!['u']
    } else if c == '\u{fd}' || c == '\u{ff}' {
        seq!['y']
    } else if c == '\u{fe}' {
        seq!['t', 'h']
    } else if c == '\u{df}' {
        seq!['s', 's']
    } else if c == '\u{153}' {
        seq!['o', 'e']
    } else {
        Seq::empty()
    }
}

/// What one character of a name contributes to the key. The character is
/// put in lower case first. Then a character of the key alphabet contributes
/// itself, any white space a space, a known letterform its letters, and
/// anything else nothing.
pub open spec fn fold(c: char) -> Seq<char> {
    let l = lower(c);
    if is_key_char(l) {
        seq![l]
    } else if is_space(l) {
        seq![' ']
    } else {
        ascii_form(l)
    }
}

/// The contributions of all characters of `s`, in order.
pub open spec fn fold_all(s: Seq<char>) -> Seq<char>
    decreases s.len(),
{
    if s.len() == 0 {
        Seq::empty()
    } else {
        fold_all(s.drop_last()) + fold(s.last())
    }
}

/// `t` with every run of spaces between two words reduced to one space, and
/// the spaces before the first and after the last word removed.
pub open spec fn squeeze(t: Seq<char>) -> Seq<char>
    decreases t.len(),
{
    if t.len() == 0 {
        Seq::empty()
    } else {
        let head = squeeze(t.drop_last());
        let c = t.last();
        if c == ' ' {
            head
        } else if head.len() > 0 && t[t.len() - 2] == ' ' {
            head.push(' ').push(c)
        } else {
            head.push(c)
        }
    }
}

/// The key of the name `s`.
pub open spec fn sanitized(s: Seq<char>) -> Seq<char> {
    squeeze(fold_all(s))
}

/// Whether every character of `k` belongs to the key alphabet.
pub open spec fn all_key_chars(k: Seq<char>) -> bool {
    forall|i: int| 0 <= i < k.len() ==> is_key_char(#[trigger] k[i])
}

/// Whether `k` has no space at its start or end and no two spaces in a row.
pub open spec fn is_squeezed(k: Seq<char>) -> bool {
    &&& k.len() > 0 ==> k[0] != ' ' && k.last() != ' '
    &&& forall|i: int| 0 <= i < k.len() - 1 ==> !(#[trigger] k[i] == ' ' && k[i + 1] == ' ')
}

/// Whether `k` is a key: written in the key alphabet, its words separated by
/// single spaces.
pub open spec fn is_key(k: Seq<char>) -> bool {
    all_key_chars(k) && is_squeezed(k)
}

/// Every character contributes characters of the key alphabet only.
pub proof fn lemma_fold_key_chars(c: char)
    ensures
        all_key_chars(fold(c)),
        fold(c).len() <= 2,
{
}

/// A character of the key alphabet contributes itself.
pub proof fn lemma_fold_key_char_fixed(c: char)
    requires
        is_key_char(c),
    ensures
        fold(c) == seq![c],
{
}

/// Folding yields characters of the key alphabet only.
pub proof fn lemma_fold_all_key_chars(s: Seq<char>)
    ensures
        all_key_chars(fold_all(s)),
    decreases s.len(),
{
    if s.len() > 0 {
        lemma_fold_all_key_chars(s.drop_last());
        lemma_fold_key_chars(s.last());
    }
}

/// Folding is done character by character: the fold of two sequences joined
/// is the two folds joined.
pub proof fn lemma_fold_all_concat(a: Seq<char>, b: Seq<char>)
    ensures
        fold_all(a + b) == fold_all(a) + fold_all(b),
    decreases b.len(),
{
    if b.len() == 0 {
        assert(a + b == a);
        assert(fold_all(a) + fold_all(b) == fold_all(a));
    } else {
        lemma_fold_all_concat(a, b.drop_last());
        assert((a + b).drop_last() == a + b.drop_last());
        assert((a + b).last() == b.last());
        assert(fold_all(a) + (fold_all(b.drop_last()) + fold(b.last())) == (fold_all(a)
            + fold_all(b.drop_last())) + fold(b.last()));
    }
}

/// Folding leaves a sequence over the key alphabet as it is.
pub proof fn lemma_fold_all_fixed(k: Seq<char>)
    requires
        all_key_chars(k),
    ensures
        fold_all(k) == k,
    decreases k.len(),
{
    if k.len() > 0 {
        let h = k.drop_last();
        assert forall|i: int| 0 <= i < h.len() implies is_key_char(#[trigger] h[i]) by {
            assert(h[i] == k[i]);
        }
        lemma_fold_all_fixed(h);
        lemma_fold_key_char_fixed(k.last());
        assert(h + seq![k.last()] == k);
    } else {
        assert(k == Seq::<char>::empty());
    }
}

/// Squeezing yields a squeezed sequence, made of characters of the input.
pub proof fn lemma_squeeze_squeezed(t: Seq<char>)
    ensures
        is_squeezed(squeeze(t)),
        all_key_chars(t) ==> all_key_chars(squeeze(t)),
    decreases t.len(),
{
    if t.len() > 0 {
        let h = t.drop_last();
        lemma_squeeze_squeezed(h);
        let head = squeeze(h);
        let c = t.last();
        if all_key_chars(t) {
            assert forall|i: int| 0 <= i < h.len() implies is_key_char(#[trigger] h[i]) by {
                assert(h[i] == t[i]);
            }
            assert(is_key_char(t[t.len() - 1]));
        }
        if c == ' ' {
        } else if head.len() > 0 && t[t.len() - 2] == ' ' {
            let k = head.push(' ').push(c);
            assert forall|i: int| 0 <= i < k.len() - 1 implies !(#[trigger] k[i] == ' ' && k[i
                + 1] == ' ') by {
                if i < head.len() - 1 {
                    assert(k[i] == head[i] && k[i + 1] == head[i + 1]);
                }
            }
            assert(k[0] == head[0]);
        } else {
            let k = head.push(c);
            assert forall|i: int| 0 <= i < k.len() - 1 implies !(#[trigger] k[i] == ' ' && k[i
                + 1] == ' ') by {
                if i < head.len() - 1 {
                    assert(k[i] == head[i] && k[i + 1] == head[i + 1]);
                }
            }
            if head.len() > 0 {
                assert(k[0] == head[0]);
            }
        }
    }
}

/// Squeezing a sequence that has no space at its start and no two spaces in
/// a row removes at most one space, at its end.
proof fn lemma_squeeze_half_squeezed(k: Seq<char>)
    requires
        k.len() > 0 ==> k[0] != ' ',
        forall|i: int| 0 <= i < k.len() - 1 ==> !(#[trigger] k[i] == ' ' && k[i + 1] == ' '),
    ensures
        squeeze(k) == if k.len() > 0 && k.last() == ' ' {
            k.drop_last()
        } else {
            k
        },
    decreases k.len(),
{
    if k.len() == 0 {
        assert(k == Seq::<char>::empty());
    } else {
        let h = k.drop_last();
        let c = k.last();
        assert forall|i: int| 0 <= i < h.len() - 1 implies !(#[trigger] h[i] == ' ' && h[i + 1]
            == ' ') by {
            assert(h[i] == k[i] && h[i + 1] == k[i + 1]);
        }
        if h.len() > 0 {
            assert(h[0] == k[0]);
        }
        lemma_squeeze_half_squeezed(h);
        if c == ' ' {
            assert(k.len() >= 2);
            assert(k[k.len() - 2] == h.last());
            assert(!(k[k.len() - 2] == ' ' && k[k.len() - 2 + 1] == ' '));
        } else if h.len() == 0 {
            assert(h.push(c) == k);
        } else if h.last() == ' ' {
            assert(h.len() >= 2);
            assert(k[k.len() - 2] == h.last());
            assert(h.drop_last().push(' ') == h);
            assert(h.push(c) == k);
        } else {
            assert(k[k.len() - 2] == h.last());
            assert(h.push(c) == k);
        }
    }
}

/// Squeezing leaves a squeezed sequence as it is.
pub proof fn lemma_squeeze_fixed(k: Seq<char>)
    requires
        is_squeezed(k),
    ensures
        squeeze(k) == k,
{
    lemma_squeeze_half_squeezed(k);
}

/// The key of any name is a key.
pub proof fn lemma_sanitized_is_key(s: Seq<char>)
    ensures
        is_key(sanitized(s)),
{
    lemma_fold_all_key_chars(s);
    lemma_squeeze_squeezed(fold_all(s));
}

/// A key is its own key.
pub proof fn lemma_key_is_fixed(k: Seq<char>)
    requires
        is_key(k),
    ensures
        sanitized(k) == k,
{
    lemma_fold_all_fixed(k);
    lemma_squeeze_fixed(k);
}

/// Sanitizing is idempotent: the key of a key of a name is the key of that
/// name.
pub proof fn lemma_sanitize_idempotent(s: Seq<char>)
    ensures
        sanitized(sanitized(s)) == sanitized(s),
{
    lemma_sanitized_is_key(s);
    lemma_key_is_fixed(sanitized(s));
}

/// Sanitizing ignores what it drops: a character that contributes nothing
/// can stand anywhere in a name, or be left out, and the key is the same.
pub proof fn lemma_sanitize_ignores_dropped(a: Seq<char>, c: char, b: Seq<char>)
    requires
        fold(c).len() == 0,
    ensures
        sanitized(a + seq![c] + b) == sanitized(a + b),
{
    lemma_fold_all_concat(a + seq![c], b);
    lemma_fold_all_concat(a, seq![c]);
    lemma_fold_all_concat(a, b);
    assert(seq![c].drop_last() == Seq::<char>::empty());
    assert(fold_all(seq![c].drop_last()) == Seq::<char>::empty());
    assert(seq![c].last() == c);
    assert(fold_all(seq![c]) == Seq::<char>::empty());
    assert(fold_all(a) + fold_all(seq![c]) == fold_all(a));
}

/// A letter contributes the same in upper case and in lower case, and a
/// letter in lower case stays as it is when it is put in lower case again.
pub proof fn lemma_fold_ignores_case(c: char)
    ensures
        lower(lower(c)) == lower(c),
        fold(lower(c)) == fold(c),
{
}

/// Sanitizing ignores the case of letters: two names that differ in nothing
/// but the case of their letters have one key.
pub proof fn lemma_sanitize_ignores_case(s: Seq<char>, t: Seq<char>)
    requires
        s.len() == t.len(),
        forall|i: int| 0 <= i < s.len() ==> lower(#[trigger] s[i]) == lower(t[i]),
    ensures
        sanitized(s) == sanitized(t),
{
    lemma_fold_all_same(s, t);
}

/// Two names whose characters contribute the same, one by one, fold to the
/// same.
proof fn lemma_fold_all_same(s: Seq<char>, t: Seq<char>)
    requires
        s.len() == t.len(),
        forall|i: int| 0 <= i < s.len() ==> lower(#[trigger] s[i]) == lower(t[i]),
    ensures
        fold_all(s) == fold_all(t),
    decreases s.len(),
{
    if s.len() > 0 {
        let a = s.drop_last();
        let b = t.drop_last();
        assert forall|i: int| 0 <= i < a.len() implies lower(#[trigger] a[i]) == lower(b[i]) by {
            assert(a[i] == s[i] && b[i] == t[i]);
            assert(lower(s[i]) == lower(t[i]));
        }
        lemma_fold_all_same(a, b);
        assert(lower(s[s.len() - 1]) == lower(t[s.len() - 1]));
        lemma_fold_ignores_case(s.last());
        lemma_fold_ignores_case(t.last());
    }
}

/// Whether `t` is made of spaces only.
pub open spec fn all_spaces(t: Seq<char>) -> bool {
    forall|i: int| 0 <= i < t.len() ==> #[trigger] t[i] == ' '
}

/// White space folds to spaces.
proof fn lemma_fold_all_white(s: Seq<char>)
    requires
        all_white(s),
    ensures
        all_spaces(fold_all(s)),
        fold_all(s).len() == s.len(),
    decreases s.len(),
{
    if s.len() > 0 {
        let h = s.drop_last();
        assert forall|i: int| 0 <= i < h.len() implies is_space(#[trigger] h[i]) by {
            assert(h[i] == s[i]);
        }
        lemma_fold_all_white(h);
        assert(is_space(s[s.len() - 1]));
        assert(fold(s.last()) == seq![' ']);
    }
}

/// Spaces at the end of a sequence are squeezed away.
proof fn lemma_squeeze_spaces_after(t: Seq<char>, spaces: Seq<char>)
    requires
        all_spaces(spaces),
    ensures
        squeeze(t + spaces) == squeeze(t),
    decreases spaces.len(),
{
    if spaces.len() == 0 {
        assert(t + spaces == t);
    } else {
        let fewer = spaces.drop_last();
        assert forall|i: int| 0 <= i < fewer.len() implies #[trigger] fewer[i] == ' ' by {
            assert(fewer[i] == spaces[i]);
        }
        lemma_squeeze_spaces_after(t, fewer);
        assert((t + spaces).drop_last() == t + fewer);
        assert((t + spaces).last() == spaces[spaces.len() - 1]);
    }
}

/// Spaces at the start of a sequence are squeezed away.
proof fn lemma_squeeze_spaces_before(spaces: Seq<char>, t: Seq<char>)
    requires
        all_spaces(spaces),
    ensures
        squeeze(spaces + t) == squeeze(t),
    decreases t.len(),
{
    if t.len() == 0 {
        lemma_squeeze_spaces_after(Seq::empty(), spaces);
        assert(Seq::<char>::empty() + spaces == spaces);
        assert(spaces + t == spaces);
    } else {
        let h = t.drop_last();
        lemma_squeeze_spaces_before(spaces, h);
        let whole = spaces + t;
        assert(whole.drop_last() == spaces + h);
        assert(whole.last() == t.last());
        if h.len() > 0 {
            assert(whole[whole.len() - 2] == t[t.len() - 2]);
        }
    }
}

/// One space more where there is a space already makes no difference to
/// what is squeezed.
proof fn lemma_squeeze_repeated_space(a: Seq<char>, b: Seq<char>)
    ensures
        squeeze(a + seq![' ', ' '] + b) == squeeze(a + seq![' '] + b),
    decreases b.len(),
{
    let one = a + seq![' '] + b;
    let two = a + seq![' ', ' '] + b;
    if b.len() == 0 {
        assert(one == a + seq![' ']);
        assert(two == (a + seq![' ']) + seq![' ']);
        assert(two.drop_last() == one);
    } else {
        let h = b.drop_last();
        lemma_squeeze_repeated_space(a, h);
        assert(one.drop_last() == a + seq![' '] + h);
        assert(two.drop_last() == a + seq![' ', ' '] + h);
        assert(one.last() == b.last());
        assert(two.last() == b.last());
        if h.len() > 0 {
            assert(one[one.len() - 2] == h.last());
            assert(two[two.len() - 2] == h.last());
        } else {
            assert(one[one.len() - 2] == ' ');
            assert(two[two.len() - 2] == ' ');
        }
    }
}

/// Sanitizing ignores the white space around a name.
pub proof fn lemma_sanitize_ignores_outer_space(before: Seq<char>, s: Seq<char>, after: Seq<char>)
    requires
        all_white(before),
        all_white(after),
    ensures
        sanitized(before + s + after) == sanitized(s),
{
    lemma_fold_all_concat(before + s, after);
    lemma_fold_all_concat(before, s);
    lemma_fold_all_white(before);
    lemma_fold_all_white(after);
    lemma_squeeze_spaces_after(fold_all(before) + fold_all(s), fold_all(after));
    lemma_squeeze_spaces_before(fold_all(before), fold_all(s));
}

/// Sanitizing ignores the white space that trimming removes.
pub proof fn lemma_sanitize_ignores_trim(s: Seq<char>)
    ensures
        sanitized(trim(s)) == sanitized(s),
{
    let (before, after) = lemma_trim_padding(s);
    lemma_sanitize_ignores_outer_space(before, trim(s), after);
}

/// Sanitizing ignores how much white space stands between two words: where
/// there is one white-space character, a second one beside it changes
/// nothing.
pub proof fn lemma_sanitize_ignores_repeated_space(a: Seq<char>, w: char, v: char, b: Seq<char>)
    requires
        is_space(w),
        is_space(v),
    ensures
        sanitized(a + seq![w, v] + b) == sanitized(a + seq![w] + b),
{
    lemma_fold_all_concat(a + seq![w, v], b);
    lemma_fold_all_concat(a, seq![w, v]);
    lemma_fold_all_concat(a + seq![w], b);
    lemma_fold_all_concat(a, seq![w]);
    assert(fold_all(seq![w]) == seq![' ']) by {
        assert(seq![w].drop_last() == Seq::<char>::empty());
        assert(fold_all(seq![w].drop_last()) == Seq::<char>::empty());
    }
    assert(fold_all(seq![w, v]) == seq![' ', ' ']) by {
        assert(seq![w, v].drop_last() == seq![w]);
    }
    lemma_squeeze_repeated_space(fold_all(a), fold_all(b));
}

/// `s` with every letter in lower case.
pub open spec fn lowered(s: Seq<char>) -> Seq<char> {
    s.map_values(|c: char| lower(c))
}

/// `s` with every run of white space reduced to one space.
pub open spec fn collapsed(s: Seq<char>) -> Seq<char>
    decreases s.len(),
{
    if s.len() == 0 {
        Seq::empty()
    } else {
        let head = collapsed(s.drop_last());
        let c = s.last();
        if !is_space(c) {
            head.push(c)
        } else if s.len() >= 2 && is_space(s[s.len() - 2]) {
            head
        } else {
            head.push(' ')
        }
    }
}

/// The plain form of a name: the name in lower case, trimmed, with every
/// run of white space in it reduced to one space.
pub open spec fn plain_form(s: Seq<char>) -> Seq<char> {
    collapsed(trim(lowered(s)))
}

/// Whether `t` ends with a space.
spec fn ends_in_space(t: Seq<char>) -> bool {
    t.len() > 0 && t.last() == ' '
}

/// What is squeezed out of a sequence that goes on depends on its beginning
/// only by what is squeezed out of the beginning and by whether the
/// beginning ends with a space.
proof fn lemma_squeeze_goes_on(a: Seq<char>, b: Seq<char>, more: Seq<char>)
    requires
        squeeze(a) == squeeze(b),
        ends_in_space(a) == ends_in_space(b),
    ensures
        squeeze(a + more) == squeeze(b + more),
        ends_in_space(a + more) == ends_in_space(b + more),
    decreases more.len(),
{
    if more.len() == 0 {
        assert(a + more == a);
        assert(b + more == b);
    } else {
        let fewer = more.drop_last();
        lemma_squeeze_goes_on(a, b, fewer);
        let x = a + more;
        let y = b + more;
        assert(x.drop_last() == a + fewer);
        assert(y.drop_last() == b + fewer);
        assert(x.last() == more.last() && y.last() == more.last());
        if (a + fewer).len() > 0 {
            assert(x[x.len() - 2] == (a + fewer).last());
        }
        if (b + fewer).len() > 0 {
            assert(y[y.len() - 2] == (b + fewer).last());
        }
    }
}

/// A name folds to what the name without its last character folds to,
/// followed by what that character contributes.
proof fn lemma_fold_all_push(s: Seq<char>, c: char)
    ensures
        fold_all(s.push(c)) == fold_all(s) + fold(c),
{
    assert(s.push(c).drop_last() == s);
}

/// Reducing the runs of white space of a name to one space each changes
/// neither what is squeezed out of its fold nor whether the fold ends with a
/// space.
proof fn lemma_collapsed_folds_alike(s: Seq<char>)
    ensures
        squeeze(fold_all(collapsed(s))) == squeeze(fold_all(s)),
        ends_in_space(fold_all(collapsed(s))) == ends_in_space(fold_all(s)),
    decreases s.len(),
{
    if s.len() > 0 {
        let h = s.drop_last();
        let c = s.last();
        lemma_collapsed_folds_alike(h);
        if !is_space(c) {
            lemma_fold_all_push(collapsed(h), c);
            lemma_squeeze_goes_on(fold_all(collapsed(h)), fold_all(h), fold(c));
        } else if s.len() >= 2 && is_space(s[s.len() - 2]) {
            assert(h.last() == s[s.len() - 2]);
            assert(fold(h.last()) == seq![' ']);
            assert(fold(c) == seq![' ']);
            let x = fold_all(h);
            assert(x.last() == ' ');
            assert((x + seq![' ']).drop_last() == x);
        } else {
            assert(fold(c) == seq![' ']);
            lemma_fold_all_push(collapsed(h), ' ');
            lemma_squeeze_goes_on(fold_all(collapsed(h)), fold_all(h), seq![' ']);
        }
    }
}

/// A name and its plain form have one key.
pub proof fn lemma_plain_form_has_the_key(s: Seq<char>)
    ensures
        sanitized(plain_form(s)) == sanitized(s),
{
    lemma_sanitize_ignores_case(lowered(s), s);
    lemma_sanitize_ignores_trim(lowered(s));
    lemma_collapsed_folds_alike(trim(lowered(s)));
}

/// Sanitizing ignores case and white space, all at once: two names that
/// become equal once they are put in lower case, trimmed, and every run of
/// white space in them is reduced to one space have one key.
pub proof fn lemma_sanitize_ignores_case_and_space(s: Seq<char>, t: Seq<char>)
    requires
        plain_form(s) == plain_form(t),
    ensures
        sanitized(s) == sanitized(t),
{
    lemma_plain_form_has_the_key(s);
    lemma_plain_form_has_the_key(t);
}

/// The lower-case form of a letter whose lower-case form a key can hold.
pub fn to_lower(c: char) -> (l: char)
    ensures
        l == lower(c),
{
    if ('A' <= c && c <= 'Z') || ('\u{c0}' <= c && c <= '\u{de}' && c != '\u{d7}') {
        ((c as u8) + 32) as char
    } else if c == '\u{130}' {
        'i'
    } else if c == '\u{152}' {
        '\u{153}'
    } else if c == '\u{178}' {
        '\u{ff}'
    } else if c == '\u{1e9e}' {
        '\u{df}'
    } else if c == '\u{212a}' {
        'k'
    } else if c == '\u{212b}' {
        '\u{e5}'
    } else {
        c
    }
}

/// Whether `c` belongs to the key alphabet.
pub fn in_key_alphabet(c: char) -> (b: bool)
    ensures
        b == is_key_char(c),
{
    ('a' <= c && c <= 'z') || ('0' <= c && c <= '9') || c == ' ' || c == '-' || c == ','
        || c == '\''
}

/// Appends to `out` the letters that stand for the lower-case letterform
/// `c`, if it is a known one.
fn push_ascii_form(out: &mut Vec<char>, c: char)
    ensures
        final(out)@ == old(out)@ + ascii_form(c),
{
    let ghost before = out@;
    if '\u{e0}' <= c && c <= '\u{e5}' {
        out.push('a');
    } else if c == '\u{e6}' {
        out.push('a');
        out.push('e');
    } else if c == '\u{e7}' {
        out.push('c');
    } else if '\u{e8}' <= c && c <= '\u{eb}' {
        out.push('e');
    } else if '\u{ec}' <= c && c <= '\u{ef}' {
        out.push('i');
    } else if c == '\u{f0}' {
        out.push('d');
    } else if c == '\u{f1}' {
        out.push('n');
    } else if ('\u{f2}' <= c && c <= '\u{f6}') || c == '\u{f8}' {
        out.push('o');
    } else if '\u{f9}' <= c && c <= '\u{fc}' {
        out.push('u');
    } else if c == '\u{fd}' || c == '\u{ff}' {
        out.push('y');
    } else if c == '\u{fe}' {
        out.push('t');
        out.push('h');
    } else if c == '\u{df}' {
        out.push('s');
        out.push('s');
    } else if c == '\u{153}' {
        out.push('o');
        out.push('e');
    }
    assert(out@ =~= before + ascii_form(c));
}

/// Appends to `out` what the character `c` contributes to a key.
fn push_folded(out: &mut Vec<char>, c: char)
    ensures
        final(out)@ == old(out)@ + fold(c),
{
    let ghost before = out@;
    let l = to_lower(c);
    if in_key_alphabet(l) {
        out.push(l);
        assert(out@ =~= before + fold(c));
    } else if is_whitespace(l) {
        out.push(' ');
        assert(out@ =~= before + fold(c));
    } else {
        push_ascii_form(out, l);
    }
}

/// The contributions of all characters of `s`, in order.
fn folded(s: &Vec<char>) -> (out: Vec<char>)
    ensures
        out@ == fold_all(s@),
{
    let mut out: Vec<char> = Vec::new();
    let mut i: usize = 0;
    while i < s.len()
        invariant
            i <= s.len(),
            out@ == fold_all(s@.take(i as int)),
        decreases s.len() - i,
    {
        proof {
            let next = s@.take(i + 1);
            assert(next.drop_last() == s@.take(i as int));
        }
        push_folded(&mut out, s[i]);
        i += 1;
    }
    assert(s@.take(s.len() as int) == s@);
    out
}

/// `t` with its runs of spaces reduced to one space and the spaces at its
/// start and end removed.
fn squeezed(t: &Vec<char>) -> (out: Vec<char>)
    ensures
        out@ == squeeze(t@),
{
    let mut out: Vec<char> = Vec::new();
    let mut i: usize = 0;
    while i < t.len()
        invariant
            i <= t.len(),
            out@ == squeeze(t@.take(i as int)),
        decreases t.len() - i,
    {
        proof {
            let next = t@.take(i + 1);
            assert(next.drop_last() == t@.take(i as int));
        }
        let c = t[i];
        if c != ' ' {
            if out.len() > 0 && t[i - 1] == ' ' {
                out.push(' ');
            }
            out.push(c);
        }
        i += 1;
    }
    assert(t@.take(t.len() as int) == t@);
    out
}

/// The key of the characters `name`.
pub fn sanitize_chars(name: &Vec<char>) -> (key: Vec<char>)
    ensures
        key@ == sanitized(name@),
        is_key(key@),
{
    let f = folded(name);
    proof {
        lemma_sanitized_is_key(name@);
    }
    squeezed(&f)
}

/// The key of `name`: the name in lower case, its accented letters replaced
/// by plain ones, every character outside the key alphabet dropped, and its
/// words separated by single spaces.
pub fn sanitize_name(name: &str) -> (key: String)
    ensures
        key@ == sanitized(name@),
        is_key(key@),
{
    let chars = chars_of(name);
    let key = sanitize_chars(&chars);
    string_of(&key)
}

} // verus!
