//! The decklist parser: from the text of a decklist to counted cards.
//!
//! A decklist is read line by line. A line is a count, written in decimal
//! digits and optional, then an optional `x`, then a name: whatever stands
//! behind the count. A count that is written must be at least 1. Where the
//! name is written as two names with a slash between them, the first of them
//! is the one that is looked up.

use crate::card::database::{
    layout_of, lemma_plain_name_resolves, resolve, Database, Layout, Store,
};
use crate::card::{Card, CardView};
use crate::error::{ProxygenError, ProxygenErrorView};
use crate::sanitize::sanitized;
use crate::text::{
    all_white, chars_of, copy_range, decimal_value, is_decimal_digit, is_digit, is_space,
    is_trimmed, lemma_decimal_value_grows, lemma_one_line, lemma_trim_of_padded,
    lemma_trim_padding, lemma_trimmed_is_fixed, line_views, split_lines, split_text, string_of,
    trim, trim_bounds, trim_end, trim_end_len, trim_start, trimmed,
};
use vstd::prelude::*;

verus! {

/// The most cards that one decklist may ask for, unless the host says
/// otherwise.
pub const MAX_CARDS: u64 = 1000;

/// The number of decimal digits that `line` begins with.
pub open spec fn leading_digits(line: Seq<char>) -> nat
    decreases line.len(),
{
    if line.len() > 0 && is_digit(line[0]) {
        1 + leading_digits(line.drop_first())
    } else {
        0
    }
}

/// What stands behind the count of a line: `line` without the digits that
/// it begins with and without the `x` that may follow them.
pub open spec fn after_count(line: Seq<char>) -> Seq<char> {
    let rest = line.skip(leading_digits(line) as int);
    if rest.len() > 0 && rest[0] == 'x' {
        rest.skip(1)
    } else {
        rest
    }
}

/// The count and the name of a line that has been trimmed: the count that
/// its leading digits write, or 1 where it has none, and what stands behind
/// the count, trimmed. A line whose digits write 0 has neither: a count is
/// at least 1.
pub open spec fn line_parts(line: Seq<char>) -> Option<(nat, Seq<char>)> {
    let digits = leading_digits(line) as int;
    let name = trim(after_count(line));
    if digits == 0 {
        Some((1, name))
    } else if decimal_value(line.take(digits)) == 0 {
        None
    } else {
        Some((decimal_value(line.take(digits)), name))
    }
}

/// The first index from `from` on at which a slash parts `name` in two:
/// one that has at least one character before it and one behind it.
pub open spec fn split_point(name: Seq<char>, from: int) -> Option<int>
    decreases name.len() - from,
{
    if from < 1 || from + 1 >= name.len() {
        None
    } else if name[from] == '/' {
        Some(from)
    } else {
        split_point(name, from + 1)
    }
}

/// The name to look up for `name`: what stands before the first slash that
/// parts it in two, without the white space at its end, or all of `name`
/// where no slash parts it.
pub open spec fn primary_name(name: Seq<char>) -> Seq<char> {
    match split_point(name, 1) {
        Some(at) => trim_end(name.take(at)),
        None => name,
    }
}

/// The cards read so far, each with its count, and the sum of the counts.
pub struct Tally {
    pub cards: Seq<(u64, CardView)>,
    pub total: nat,
}

/// The tally after one more line, or the error that ends the parse there.
///
/// A line that is empty once trimmed changes nothing. Any other line must
/// have a count and a name, else it is a `DecklistParseError` with the
/// trimmed line. Its count is added to the total, which must not exceed
/// `max`, else the error is `TooManyCards`; only then is its name resolved.
pub open spec fn parse_line(store: Store, tally: Tally, raw: Seq<char>, max: u64) -> Result<
    Tally,
    ProxygenErrorView,
> {
    let line = trim(raw);
    if line.len() == 0 {
        Ok(tally)
    } else {
        match line_parts(line) {
            None => Err(ProxygenErrorView::DecklistParseError(line)),
            Some((count, name)) => {
                if tally.total + count > max {
                    Err(ProxygenErrorView::TooManyCards)
                } else {
                    match resolve(store, primary_name(name)) {
                        Err(e) => Err(e),
                        Ok(card) => Ok(
                            Tally {
                                cards: tally.cards.push((count as u64, card)),
                                total: tally.total + count,
                            },
                        ),
                    }
                }
            },
        }
    }
}

/// The tally after the given lines, read in order, or the first error.
pub open spec fn parse_lines(store: Store, lines: Seq<Seq<char>>, max: u64) -> Result<
    Tally,
    ProxygenErrorView,
>
    decreases lines.len(),
{
    if lines.len() == 0 {
        Ok(Tally { cards: Seq::empty(), total: 0 })
    } else {
        match parse_lines(store, lines.drop_last(), max) {
            Err(e) => Err(e),
            Ok(tally) => parse_line(store, tally, lines.last(), max),
        }
    }
}

/// The counted cards of the decklist `text`, in the order of its lines, or
/// the first error met.
pub open spec fn parsed_decklist(store: Store, text: Seq<char>, max: u64) -> Result<
    Seq<(u64, CardView)>,
    ProxygenErrorView,
> {
    match parse_lines(store, split_lines(text), max) {
        Ok(tally) => Ok(tally.cards),
        Err(e) => Err(e),
    }
}

/// Counted cards with their texts as sequences of characters.
pub open spec fn counted_views(cards: Seq<(u64, Card)>) -> Seq<(u64, CardView)> {
    cards.map_values(|p: (u64, Card)| (p.0, p.1@))
}

/// The outcome of a parse with its texts as sequences of characters.
pub open spec fn decklist_view(r: Result<Vec<(u64, Card)>, ProxygenError>) -> Result<
    Seq<(u64, CardView)>,
    ProxygenErrorView,
> {
    match r {
        Ok(cards) => Ok(counted_views(cards@)),
        Err(e) => Err(e@),
    }
}

/// A line that begins with `n` digits and goes on with something else, or
/// ends there, has `n` leading digits.
pub proof fn lemma_leading_digits(line: Seq<char>, n: int)
    requires
        0 <= n <= line.len(),
        forall|i: int| 0 <= i < n ==> is_digit(#[trigger] line[i]),
        n < line.len() ==> !is_digit(line[n]),
    ensures
        leading_digits(line) == n,
    decreases n,
{
    if n > 0 {
        let rest = line.drop_first();
        assert forall|i: int| 0 <= i < n - 1 implies is_digit(#[trigger] rest[i]) by {
            assert(rest[i] == line[i + 1]);
        }
        lemma_leading_digits(rest, n - 1);
    }
}

/// The leading digits of a line are digits, and what follows them is none.
pub proof fn lemma_leading_digits_are_digits(line: Seq<char>)
    ensures
        leading_digits(line) <= line.len(),
        forall|i: int| 0 <= i < leading_digits(line) ==> is_digit(#[trigger] line[i]),
        leading_digits(line) < line.len() ==> !is_digit(line[leading_digits(line) as int]),
    decreases line.len(),
{
    if line.len() > 0 && is_digit(line[0]) {
        let rest = line.drop_first();
        lemma_leading_digits_are_digits(rest);
        assert forall|i: int| 0 <= i < leading_digits(line) implies is_digit(
            #[trigger] line[i],
        ) by {
            if i > 0 {
                assert(line[i] == rest[i - 1]);
            }
        }
    }
}

/// Where a slash parts a name at `at` and none does so before, `at` is the
/// split point, and where none does so at all, there is no split point.
pub proof fn lemma_split_point(name: Seq<char>, from: int)
    requires
        1 <= from,
    ensures
        match split_point(name, from) {
            Some(at) => from <= at && at + 1 < name.len() && name[at] == '/' && forall|j: int|
                from <= j < at ==> name[j] != '/',
            None => forall|j: int| from <= j && j + 1 < name.len() ==> name[j] != '/',
        },
    decreases name.len() - from,
{
    if from + 1 < name.len() && name[from] != '/' {
        lemma_split_point(name, from + 1);
    }
}

/// An error met at some line of a decklist is the outcome of the whole
/// parse, whatever lines follow.
pub proof fn lemma_error_is_final(store: Store, lines: Seq<Seq<char>>, n: int, max: u64)
    requires
        0 <= n <= lines.len(),
        parse_lines(store, lines.take(n), max) is Err,
    ensures
        parse_lines(store, lines, max) == parse_lines(store, lines.take(n), max),
    decreases lines.len(),
{
    if n == lines.len() {
        assert(lines.take(n) == lines);
    } else {
        assert(lines.drop_last().take(n) == lines.take(n));
        lemma_error_is_final(store, lines.drop_last(), n, max);
    }
}

/// Whether `name` can stand as the name of a line: it is not empty, holds
/// no line feed, and neither begins nor ends with white space.
pub open spec fn is_line_name(name: Seq<char>) -> bool {
    &&& name.len() > 0
    &&& !is_space(name[0])
    &&& !is_space(name.last())
    &&& forall|i: int| 0 <= i < name.len() ==> #[trigger] name[i] != '\n'
}

/// Whether `digits` is a number written in decimal digits.
pub open spec fn is_number(digits: Seq<char>) -> bool {
    &&& digits.len() > 0
    &&& forall|i: int| 0 <= i < digits.len() ==> is_digit(#[trigger] digits[i])
}

/// The line written as a number, an `x`, a space and a name.
pub open spec fn counted_line(digits: Seq<char>, name: Seq<char>) -> Seq<char> {
    digits + seq!['x', ' '] + name
}

/// What a decklist of one line yields, whose count is `count` and whose
/// name is `name`: the card that the name resolves to, with that count, or
/// the error of the resolution.
pub open spec fn one_card(store: Store, count: nat, name: Seq<char>) -> Result<
    Seq<(u64, CardView)>,
    ProxygenErrorView,
> {
    match resolve(store, primary_name(name)) {
        Ok(card) => Ok(seq![(count as u64, card)]),
        Err(e) => Err(e),
    }
}

/// The count that a line with `digits` in front has: what the digits write,
/// or 1 where there are none.
pub open spec fn count_of(digits: Seq<char>) -> nat {
    if digits.len() == 0 {
        1
    } else {
        decimal_value(digits)
    }
}

/// Whether the given pieces make up a line in the one way in which a line
/// is read: `digits` are decimal digits that write no 0, `x` is an `x` or
/// nothing, `before` and `after` are white space, and `name` is trimmed and
/// does not begin with a digit or an `x` that could be taken for part of the
/// count.
pub open spec fn is_line_shape(
    digits: Seq<char>,
    x: Seq<char>,
    before: Seq<char>,
    name: Seq<char>,
    after: Seq<char>,
) -> bool {
    &&& forall|i: int| 0 <= i < digits.len() ==> is_digit(#[trigger] digits[i])
    &&& digits.len() > 0 ==> decimal_value(digits) >= 1
    &&& x.len() == 0 || x == seq!['x']
    &&& all_white(before)
    &&& all_white(after)
    &&& is_trimmed(name)
    &&& x.len() == 0 && before.len() == 0 && name.len() > 0 ==> name[0] != 'x' && !is_digit(
        name[0],
    )
}

/// A line made of digits, an `x`, white space, a name and white space, each
/// of them optional, has the count that the digits write and that name.
pub proof fn lemma_line_of_shape(
    digits: Seq<char>,
    x: Seq<char>,
    before: Seq<char>,
    name: Seq<char>,
    after: Seq<char>,
)
    requires
        is_line_shape(digits, x, before, name, after),
    ensures
        line_parts(digits + x + before + name + after) == Some((count_of(digits), name)),
{
    let line = digits + x + before + name + after;
    let tail = x + before + name + after;
    let n = digits.len() as int;
    assert(line == digits + tail);
    assert forall|i: int| 0 <= i < n implies is_digit(#[trigger] line[i]) by {
        assert(line[i] == digits[i]);
    }
    let padded = before + name + after;
    if n < line.len() {
        assert(line[n] == tail[0]);
        if x.len() > 0 {
            assert(tail[0] == 'x');
        } else {
            assert(tail == padded);
            if before.len() > 0 {
                assert(tail[0] == before[0]);
                assert(is_space(before[0]));
            } else if name.len() > 0 {
                assert(tail[0] == name[0]);
                assert(!is_digit(name[0]));
            } else {
                assert(tail[0] == after[0]);
                assert(is_space(after[0]));
            }
        }
    }
    lemma_leading_digits(line, n);
    assert(line.take(n) == digits);
    assert(line.skip(n) == tail);
    if x.len() > 0 {
        assert(tail.skip(1) == padded);
    } else {
        assert(tail == padded);
    }
    assert(after_count(line) == padded);
    lemma_trim_of_padded(before, name, after);
}

/// Every line that has a count and a name is made of its leading digits,
/// an `x` or nothing, white space, that name, and white space; its count is
/// what the digits write, or 1 where it has none.
pub proof fn lemma_line_shape(line: Seq<char>) -> (pieces: (Seq<char>, Seq<char>, Seq<char>))
    requires
        line_parts(line) is Some,
    ensures
        ({
            let (count, name) = line_parts(line)->0;
            let digits = line.take(leading_digits(line) as int);
            let (x, before, after) = pieces;
            &&& is_line_shape(digits, x, before, name, after)
            &&& line == digits + x + before + name + after
            &&& count == count_of(digits)
        }),
{
    lemma_leading_digits_are_digits(line);
    let n = leading_digits(line) as int;
    let digits = line.take(n);
    let rest = line.skip(n);
    let x = if rest.len() > 0 && rest[0] == 'x' {
        seq!['x']
    } else {
        Seq::empty()
    };
    let padded = after_count(line);
    let (before, after) = lemma_trim_padding(padded);
    assert(rest == x + padded);
    assert(line == digits + rest);
    let name = trim(padded);
    assert(line == digits + x + before + name + after);
    if x.len() == 0 && before.len() == 0 && name.len() > 0 {
        assert(padded[0] == name[0]);
        assert(padded[0] == line[n]);
    }
    (x, before, after)
}

/// A line written as a number, an `x`, a space and a name has the number as
/// its count and the name as its name.
pub proof fn lemma_counted_line_parts(digits: Seq<char>, name: Seq<char>)
    requires
        is_number(digits),
        decimal_value(digits) >= 1,
        is_line_name(name),
    ensures
        trim(counted_line(digits, name)) == counted_line(digits, name),
        line_parts(counted_line(digits, name)) == Some((decimal_value(digits), name)),
{
    let line = counted_line(digits, name);
    let n = digits.len() as int;
    assert(is_digit(digits[0]));
    assert(line[0] == digits[0]);
    assert(line.last() == name.last());
    lemma_trimmed_is_fixed(line);
    assert forall|i: int| 0 <= i < n implies is_digit(#[trigger] line[i]) by {
        assert(line[i] == digits[i]);
    }
    assert(line[n] == 'x');
    lemma_leading_digits(line, n);
    assert(line.take(n) == digits);
    let rest = line.skip(n);
    assert(rest[0] == 'x');
    let after = rest.skip(1);
    assert(after == seq![' '] + name);
    assert(after.drop_first() == name);
    lemma_trimmed_is_fixed(name);
    assert(trim_start(after) == name);
}

/// A decklist of one line, written as a number, an `x`, a space and a name,
/// yields one card with exactly that number as its count, the card that the
/// name resolves to, provided that the number is at least 1 and does not
/// exceed the ceiling.
pub proof fn lemma_counted_line(store: Store, digits: Seq<char>, name: Seq<char>, max: u64)
    requires
        is_number(digits),
        is_line_name(name),
        1 <= decimal_value(digits) <= max,
    ensures
        parsed_decklist(store, counted_line(digits, name), max) == one_card(
            store,
            decimal_value(digits),
            name,
        ),
{
    let line = counted_line(digits, name);
    lemma_counted_line_parts(digits, name);
    assert forall|i: int| 0 <= i < line.len() implies #[trigger] line[i] != '\n' by {
        if i < digits.len() {
            assert(line[i] == digits[i]);
            assert(is_digit(digits[i]));
        } else if i >= digits.len() + 2 {
            assert(line[i] == name[i - digits.len() - 2]);
        }
    }
    lemma_single_line(store, line, max);
}

/// A decklist of one line, written as a number, an `x`, a space and the
/// name of a record of a plain layout, yields one card of one face, with
/// exactly that number as its count and with the name that the record gives.
pub proof fn lemma_counted_line_of_plain_card(
    store: Store,
    digits: Seq<char>,
    name: Seq<char>,
    max: u64,
)
    requires
        is_number(digits),
        is_line_name(name),
        1 <= decimal_value(digits) <= max,
        store.contains_key(sanitized(primary_name(name))),
        layout_of(store[sanitized(primary_name(name))].layout) == Layout::Normal || layout_of(
            store[sanitized(primary_name(name))].layout,
        ) == Layout::Leveler,
    ensures
        parsed_decklist(store, counted_line(digits, name), max) is Ok,
        parsed_decklist(store, counted_line(digits, name), max)->Ok_0.len() == 1,
        parsed_decklist(store, counted_line(digits, name), max)->Ok_0[0].0 == decimal_value(
            digits,
        ),
        parsed_decklist(store, counted_line(digits, name), max)->Ok_0[0].1.is_single(),
        parsed_decklist(store, counted_line(digits, name), max)->Ok_0[0].1.name()
            == store[sanitized(primary_name(name))].name,
{
    lemma_counted_line(store, digits, name, max);
    lemma_plain_name_resolves(store, primary_name(name));
}

/// A decklist of one line that is a name and nothing else, not beginning
/// with a digit or an `x`, yields one card with the count 1, the card that
/// the name resolves to, provided that the ceiling is not 0.
pub proof fn lemma_uncounted_line(store: Store, name: Seq<char>, max: u64)
    requires
        is_line_name(name),
        name[0] != 'x',
        !is_digit(name[0]),
        1 <= max,
    ensures
        line_parts(name) == Some((1nat, name)),
        parsed_decklist(store, name, max) == one_card(store, 1, name),
{
    lemma_trimmed_is_fixed(name);
    assert(name.skip(0) == name);
    lemma_single_line(store, name, max);
}

/// A decklist of one line yields what that line yields after nothing.
proof fn lemma_single_line(store: Store, line: Seq<char>, max: u64)
    requires
        forall|i: int| 0 <= i < line.len() ==> #[trigger] line[i] != '\n',
    ensures
        parse_lines(store, split_lines(line), max) == parse_line(
            store,
            Tally { cards: Seq::empty(), total: 0 },
            line,
            max,
        ),
{
    lemma_one_line(line);
    let lines = seq![line];
    assert(lines.drop_last() == Seq::<Seq<char>>::empty());
    assert(parse_lines(store, lines.drop_last(), max) == Ok::<Tally, ProxygenErrorView>(
        Tally { cards: Seq::empty(), total: 0 },
    ));
}

/// The ceiling is enforced line by line, before anything is looked up: where
/// the lines before one add up to `tally`, and the count of that line takes
/// the total past the ceiling, the parse fails with `TooManyCards`, whatever
/// the name of that line is and whatever lines follow it.
pub proof fn lemma_too_many_cards(
    store: Store,
    lines: Seq<Seq<char>>,
    n: int,
    count: nat,
    name: Seq<char>,
    max: u64,
)
    requires
        0 <= n < lines.len(),
        parse_lines(store, lines.take(n), max) is Ok,
        trim(lines[n]).len() > 0,
        line_parts(trim(lines[n])) == Some((count, name)),
        parse_lines(store, lines.take(n), max)->Ok_0.total + count > max,
    ensures
        parse_lines(store, lines, max) == Err::<Tally, ProxygenErrorView>(
            ProxygenErrorView::TooManyCards,
        ),
{
    assert(lines.take(n + 1).drop_last() == lines.take(n));
    assert(lines.take(n + 1).last() == lines[n]);
    lemma_error_is_final(store, lines, n + 1, max);
}

/// The counted card that one line of a decklist stands for, by itself: none
/// for a line that is blank, cannot be read or does not resolve.
pub open spec fn line_cards(store: Store, raw: Seq<char>) -> Seq<(u64, CardView)> {
    let line = trim(raw);
    if line.len() == 0 {
        Seq::empty()
    } else {
        match line_parts(line) {
            None => Seq::empty(),
            Some((count, name)) => match resolve(store, primary_name(name)) {
                Err(_) => Seq::empty(),
                Ok(card) => seq![(count as u64, card)],
            },
        }
    }
}

/// The counted cards that the given lines stand for, line after line.
pub open spec fn cards_in_order(store: Store, lines: Seq<Seq<char>>) -> Seq<(u64, CardView)>
    decreases lines.len(),
{
    if lines.len() == 0 {
        Seq::empty()
    } else {
        cards_in_order(store, lines.drop_last()) + line_cards(store, lines.last())
    }
}

/// A parse that succeeds keeps the order of the lines: its cards are the
/// cards of its lines, each with the count of its line, line after line.
pub proof fn lemma_cards_keep_line_order(store: Store, lines: Seq<Seq<char>>, max: u64)
    requires
        parse_lines(store, lines, max) is Ok,
    ensures
        parse_lines(store, lines, max)->Ok_0.cards == cards_in_order(store, lines),
    decreases lines.len(),
{
    if lines.len() > 0 {
        lemma_cards_keep_line_order(store, lines.drop_last(), max);
        let before = parse_lines(store, lines.drop_last(), max)->Ok_0.cards;
        let after = parse_lines(store, lines, max)->Ok_0.cards;
        let own = line_cards(store, lines.last());
        if own.len() == 0 {
            assert(before + own == before);
        } else {
            assert(before + own == before.push(own[0]));
        }
    }
}

/// The count of a line is at least 1: a line whose leading digits write 0
/// has no count and no name, whatever stands behind them.
pub proof fn lemma_count_is_positive(line: Seq<char>)
    ensures
        match line_parts(line) {
            Some((count, _)) => count >= 1,
            None => leading_digits(line) > 0 && decimal_value(
                line.take(leading_digits(line) as int),
            ) == 0,
        },
{
}

/// A written count of 0 ends the parse: where the lines before one are read
/// without error and the leading digits of that line write 0, the parse
/// fails with `DecklistParseError` and the trimmed line, whatever the total
/// is by then, whatever the name of that line is and whatever lines follow.
pub proof fn lemma_zero_count_is_refused(store: Store, lines: Seq<Seq<char>>, n: int, max: u64)
    requires
        0 <= n < lines.len(),
        parse_lines(store, lines.take(n), max) is Ok,
        leading_digits(trim(lines[n])) > 0,
        decimal_value(trim(lines[n]).take(leading_digits(trim(lines[n])) as int)) == 0,
    ensures
        parse_lines(store, lines, max) == Err::<Tally, ProxygenErrorView>(
            ProxygenErrorView::DecklistParseError(trim(lines[n])),
        ),
{
    assert(lines.take(n + 1).drop_last() == lines.take(n));
    assert(lines.take(n + 1).last() == lines[n]);
    lemma_error_is_final(store, lines, n + 1, max);
}

/// Every count of a parse that succeeds is at least 1.
pub proof fn lemma_counts_are_positive(store: Store, lines: Seq<Seq<char>>, max: u64)
    requires
        parse_lines(store, lines, max) is Ok,
    ensures
        forall|i: int|
            0 <= i < parse_lines(store, lines, max)->Ok_0.cards.len() ==> (
            #[trigger] parse_lines(store, lines, max)->Ok_0.cards[i]).0 >= 1,
    decreases lines.len(),
{
    if lines.len() > 0 {
        lemma_counts_are_positive(store, lines.drop_last(), max);
        let before = parse_lines(store, lines.drop_last(), max)->Ok_0.cards;
        let after = parse_lines(store, lines, max)->Ok_0.cards;
        assert forall|i: int| 0 <= i < after.len() implies (#[trigger] after[i]).0 >= 1 by {
            if i < before.len() {
                assert(after[i] == before[i]);
            } else {
                lemma_count_is_positive(trim(lines.last()));
            }
        }
    }
}

/// The sum of the counts of counted cards.
pub open spec fn sum_of_counts(cards: Seq<(u64, CardView)>) -> nat
    decreases cards.len(),
{
    if cards.len() == 0 {
        0
    } else {
        sum_of_counts(cards.drop_last()) + cards.last().0 as nat
    }
}

/// Whatever lines are read, the counts of the cards add up to the total,
/// and the total does not exceed the ceiling.
pub proof fn lemma_total_within_ceiling(store: Store, lines: Seq<Seq<char>>, max: u64)
    requires
        parse_lines(store, lines, max) is Ok,
    ensures
        sum_of_counts(parse_lines(store, lines, max)->Ok_0.cards) == parse_lines(
            store,
            lines,
            max,
        )->Ok_0.total,
        parse_lines(store, lines, max)->Ok_0.total <= max,
    decreases lines.len(),
{
    if lines.len() > 0 {
        let before = parse_lines(store, lines.drop_last(), max);
        lemma_total_within_ceiling(store, lines.drop_last(), max);
        let tally = before->Ok_0;
        let after = parse_lines(store, lines, max)->Ok_0;
        if trim(lines.last()).len() > 0 {
            assert(after.cards.drop_last() == tally.cards);
        }
    }
}

/// How many decimal digits `line` begins with, and the number that they
/// write, or `None` for it where it is too large for a `u64`. Without
/// digits the number is 0.
pub fn read_count(line: &Vec<char>) -> (count: (usize, Option<u64>))
    ensures
        count.0 == leading_digits(line@),
        count.0 <= line.len(),
        match count.1 {
            Some(n) => n == decimal_value(line@.take(count.0 as int)),
            None => decimal_value(line@.take(count.0 as int)) > u64::MAX,
        },
{
    let mut digits: usize = 0;
    while digits < line.len() && is_decimal_digit(line[digits])
        invariant
            digits <= line.len(),
            forall|j: int| 0 <= j < digits ==> is_digit(#[trigger] line@[j]),
        decreases line.len() - digits,
    {
        digits += 1;
    }
    proof {
        lemma_leading_digits(line@, digits as int);
    }
    let ghost whole = line@.take(digits as int);
    let mut value: u64 = 0;
    let mut i: usize = 0;
    while i < digits
        invariant
            i <= digits <= line.len(),
            digits == leading_digits(line@),
            whole == line@.take(digits as int),
            forall|j: int| 0 <= j < digits ==> is_digit(#[trigger] line@[j]),
            value == decimal_value(line@.take(i as int)),
        decreases digits - i,
    {
        proof {
            assert(line@.take(i + 1).drop_last() == line@.take(i as int));
            assert(is_digit(line@[i as int]));
            assert(whole.take(i + 1) == line@.take(i + 1));
            lemma_decimal_value_grows(whole, i + 1);
        }
        let digit: u64 = (line[i] as u32 - '0' as u32) as u64;
        if value > (u64::MAX - digit) / 10 {
            return (digits, None);
        }
        value = value * 10 + digit;
        i += 1;
    }
    (digits, Some(value))
}

/// The count and the name of a trimmed line, where it has them: a line whose
/// written count is 0 has neither. A count too large for a `u64` is given as
/// `None`.
pub fn read_line(line: &Vec<char>) -> (parts: Option<(Option<u64>, Vec<char>)>)
    ensures
        match parts {
            None => line_parts(line@) is None,
            Some((count, name)) => match line_parts(line@) {
                None => false,
                Some((value, text)) => {
                    &&& name@ == text
                    &&& match count {
                        Some(n) => n == value,
                        None => value > u64::MAX,
                    }
                },
            },
        },
{
    let (digits, count) = read_count(line);
    let start = if digits < line.len() && line[digits] == 'x' {
        digits + 1
    } else {
        digits
    };
    proof {
        if digits < line.len() {
            assert(line@.skip(digits as int).skip(1) == line@.skip(digits + 1));
        }
        assert(after_count(line@) == line@.subrange(start as int, line.len() as int));
    }
    let (a, b) = trim_bounds(line, start, line.len());
    let name = copy_range(line, a, b);
    if digits == 0 {
        Some((Some(1), name))
    } else {
        match count {
            Some(0) => None,
            _ => Some((count, name)),
        }
    }
}

/// The name to look up for a name as a line gives it.
pub fn lookup_name(name: &Vec<char>) -> (primary: Vec<char>)
    ensures
        primary@ == primary_name(name@),
{
    let mut at: usize = 1;
    while at < name.len() && at + 1 < name.len()
        invariant
            1 <= at,
            split_point(name@, 1) == split_point(name@, at as int),
        decreases name.len() - at,
    {
        if name[at] == '/' {
            let kept = trim_end_len(name, at);
            return copy_range(name, 0, kept);
        }
        at += 1;
    }
    assert(name@.subrange(0, name.len() as int) == name@);
    copy_range(name, 0, name.len())
}

/// Reads a decklist and resolves its names against `db`: the counted cards
/// of its lines, in order, unless a line cannot be read, the counts add up
/// to more than `max_total`, or a name does not resolve. Every count that
/// comes out is at least 1, and together they do not exceed `max_total`.
pub fn parse_decklist(db: &Database, decklist: &str, max_total: u64) -> (parsed: Result<
    Vec<(u64, Card)>,
    ProxygenError,
>)
    ensures
        decklist_view(parsed) == parsed_decklist(db@, decklist@, max_total),
        parsed matches Ok(cards) ==> {
            &&& forall|i: int| 0 <= i < cards@.len() ==> (#[trigger] cards@[i]).0 >= 1
            &&& sum_of_counts(counted_views(cards@)) <= max_total
        },
{
    let text = chars_of(decklist);
    let lines = split_text(&text);
    let ghost all = line_views(lines@);
    let mut out: Vec<(u64, Card)> = Vec::new();
    let mut total: u64 = 0;
    let mut i: usize = 0;
    assert(counted_views(out@) =~= Seq::empty());
    while i < lines.len()
        invariant
            i <= lines.len(),
            all == line_views(lines@),
            all == split_lines(decklist@),
            total <= max_total,
            parse_lines(db@, all.take(i as int), max_total) == Ok::<Tally, ProxygenErrorView>(
                Tally { cards: counted_views(out@), total: total as nat },
            ),
        decreases lines.len() - i,
    {
        proof {
            assert(all.take(i + 1).drop_last() == all.take(i as int));
            assert(all.take(i + 1).last() == lines@[i as int]@);
        }
        let line = trimmed(&lines[i]);
        if line.len() > 0 {
            let (count, name) = match read_line(&line) {
                Some(parts) => parts,
                None => {
                    proof {
                        lemma_error_is_final(db@, all, i + 1, max_total);
                    }
                    return Err(ProxygenError::DecklistParseError(string_of(&line)));
                },
            };
            let n = match count {
                Some(n) if n <= max_total - total => n,
                _ => {
                    proof {
                        lemma_error_is_final(db@, all, i + 1, max_total);
                    }
                    return Err(ProxygenError::TooManyCards);
                },
            };
            let primary = string_of(&lookup_name(&name));
            let card = match db.get(primary.as_str()) {
                Ok(card) => card,
                Err(e) => {
                    proof {
                        lemma_error_is_final(db@, all, i + 1, max_total);
                    }
                    return Err(e);
                },
            };
            let ghost before = out@;
            out.push((n, card));
            total = total + n;
            assert(counted_views(out@) =~= counted_views(before).push((n, card@)));
        }
        i += 1;
    }
    assert(all.take(lines.len() as int) == all);
    proof {
        lemma_counts_are_positive(db@, all, max_total);
        lemma_total_within_ceiling(db@, all, max_total);
        assert forall|i: int| 0 <= i < out@.len() implies (#[trigger] out@[i]).0 >= 1 by {
            assert(counted_views(out@)[i].0 == out@[i].0);
        }
    }
    Ok(out)
}

} // verus!
