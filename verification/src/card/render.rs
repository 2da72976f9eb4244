//! Drawing cards: the markup of a card, as a string.
//!
//! The texts of a card are written into the markup escaped, but for the
//! rules text and the mana cost, which are taken as markup themselves: in
//! the rules text every line becomes a paragraph and what stands in
//! parentheses is set in italics, in the mana cost a line may break after
//! every symbol.

use crate::card::database::{join_words, texts};
use crate::card::{Card, CardView};
use crate::text::{
    chars_of, copy_range, decimal, find_first, find_last, first_index, last_index, line_views,
    push_char, push_chars, push_decimal, split_lines, split_text,
};
use vstd::prelude::*;
use vstd::string::StringExecFns;

verus! {

/// What stands for the character `c` in markup: an entity for `&`, `<`, `>`
/// and `"`, the character itself otherwise.
pub open spec fn escaped_char(c: char) -> Seq<char> {
    if c == '&' {
        "&amp;"@
    } else if c == '<' {
        "&lt;"@
    } else if c == '>' {
        "&gt;"@
    } else if c == '"' {
        "&quot;"@
    } else {
        seq![c]
    }
}

/// The text `s` as it stands in markup, every character escaped.
pub open spec fn escaped(s: Seq<char>) -> Seq<char>
    decreases s.len(),
{
    if s.len() == 0 {
        Seq::empty()
    } else {
        escaped(s.drop_last()) + escaped_char(s.last())
    }
}

/// Appends `text` to `out`, escaped for markup: the `Render` of `maud` for
/// a string slice, which writes `&amp;` for `&`, `&lt;` for `<`, `&gt;` for
/// `>` and `&quot;` for `"`, passes every other character through unchanged,
/// and leaves what `out` held before in place.
#[verifier::external_body]
fn push_escaped(out: &mut String, text: &str)
    ensures
        final(out)@ == old(out)@ + escaped(text@),
{
    maud::Render::render_to(text, out)
}

/// Opens the line of a card that holds its name and its mana cost, and the
/// name in it.
pub const NAME_LINE_OPEN: &'static str = "<div class=\"name_mana_line\"><p class=\"name\">";

/// Closes the name and opens the mana cost.
pub const MANACOST_OPEN: &'static str = "</p><p class=\"manacost\">";

/// Closes the mana cost and its line and opens the type line.
pub const TYPELINE_OPEN: &'static str = "</p></div><p class=\"typeline\">";

/// Closes the type line and opens the box of the rules text.
pub const ORACLE_OPEN: &'static str = "</p><div class=\"oracle_div\">";

/// Closes a box.
pub const DIV_CLOSE: &'static str = "</div>";

/// Opens a paragraph of rules text.
pub const PARAGRAPH_OPEN: &'static str = "<p class=\"oracle_p\">";

/// Closes a paragraph.
pub const PARAGRAPH_CLOSE: &'static str = "</p>";

/// Opens what is set in italics.
pub const ITALIC_OPEN: &'static str = "<i>";

/// Closes what is set in italics.
pub const ITALIC_CLOSE: &'static str = "</i>";

/// A place where a line may break.
pub const BREAK: &'static str = "<wbr>";

/// Opens the power and toughness of a creature.
pub const POWER_OPEN: &'static str = "<p class=\"power_toughness\">";

/// Opens the loyalty of a planeswalker.
pub const LOYALTY_OPEN: &'static str = "<p class=\"loyalty\">";

/// Opens the name of a placeholder.
pub const NAME_OPEN: &'static str = "<p class=\"name\">";

/// Stands between the name of a placeholder and its layout.
pub const PLACEHOLDER_OPEN: &'static str =
    "</p><div class=\"oracle_div\"><p class=\"oracle_p\">This type of card (";

/// Stands behind the layout of a placeholder.
pub const PLACEHOLDER_CLOSE: &'static str =
    ") is not yet implemented.</p><p class=\"oracle_p\">Go complain to the developer</p></div>";

/// Opens the frame of a card.
pub const FRAME_OPEN: &'static str = "<div class=\"card_frame\"><div class=\"card_inner\">";

/// Closes the frame of a card.
pub const FRAME_CLOSE: &'static str = "</div></div>";

/// Opens the first half of a split card.
pub const SPLIT_FIRST_OPEN: &'static str = "<div class=\"split_left\">";

/// Opens the second half of a split card.
pub const SPLIT_SECOND_OPEN: &'static str = "<div class=\"split_bottom\">";

/// Opens the first half of a flip card.
pub const FLIP_FIRST_OPEN: &'static str = "<div class=\"flip_top\">";

/// Opens the second half of a flip card.
pub const FLIP_SECOND_OPEN: &'static str = "<div class=\"flip_bottom\">";

/// `line` without the carriage return at its end, if it has one.
pub open spec fn strip_cr(line: Seq<char>) -> Seq<char> {
    if line.len() > 0 && line.last() == '\r' {
        line.drop_last()
    } else {
        line
    }
}

/// The lines of a rules text. A line ends with a line feed, or with a
/// carriage return and a line feed, which do not belong to it; what stands
/// behind the last line feed is a line too, unless it is empty.
pub open spec fn text_lines(text: Seq<char>) -> Seq<Seq<char>> {
    let parts = split_lines(text);
    let ended = parts.drop_last().map_values(|l: Seq<char>| strip_cr(l));
    if parts.last().len() > 0 {
        ended.push(parts.last())
    } else {
        ended
    }
}

/// A line of rules text with its reminder text in italics: what stands from
/// the first opening parenthesis to the last closing one, provided that
/// there is at least one character between the two.
pub open spec fn italicized(line: Seq<char>) -> Seq<char> {
    match (first_index(line, '(', 0), last_index(line, ')')) {
        (Some(open), Some(close)) => {
            if close >= open + 2 {
                line.take(open) + ITALIC_OPEN@ + line.subrange(open, close + 1) + ITALIC_CLOSE@
                    + line.skip(close + 1)
            } else {
                line
            }
        },
        _ => line,
    }
}

/// The given lines as paragraphs of rules text, one behind the other.
pub open spec fn paragraphs(lines: Seq<Seq<char>>) -> Seq<char>
    decreases lines.len(),
{
    if lines.len() == 0 {
        Seq::empty()
    } else {
        paragraphs(lines.drop_last()) + PARAGRAPH_OPEN@ + italicized(lines.last())
            + PARAGRAPH_CLOSE@
    }
}

/// The markup of a rules text: each of its lines a paragraph, its reminder
/// text in italics. The text is taken as markup and not escaped.
pub open spec fn oracle_markup(text: Seq<char>) -> Seq<char> {
    paragraphs(text_lines(text))
}

/// Where the mana symbol that opens at `at` closes, looking from `from` on:
/// at the first closing brace, unless a line feed comes first.
pub open spec fn symbol_close(cost: Seq<char>, at: int, from: int) -> Option<int>
    decreases cost.len() - from,
{
    if from < at + 2 || from >= cost.len() || cost[from] == '\n' {
        None
    } else if cost[from] == '}' {
        Some(from)
    } else {
        symbol_close(cost, at, from + 1)
    }
}

/// Where the mana symbol that opens at `at` closes, if one opens there: a
/// symbol is an opening brace, at least one character, and the first closing
/// brace behind that, all on one line.
pub open spec fn symbol_end(cost: Seq<char>, at: int) -> Option<int> {
    if 0 <= at && at + 1 < cost.len() && cost[at] == '{' && cost[at + 1] != '\n' {
        symbol_close(cost, at, at + 2)
    } else {
        None
    }
}

/// The mana cost from index `from` on, with a place to break the line behind
/// every mana symbol.
pub open spec fn broken_from(cost: Seq<char>, from: int) -> Seq<char>
    decreases cost.len() - from,
{
    if from < 0 || from >= cost.len() {
        Seq::empty()
    } else {
        match symbol_end(cost, from) {
            Some(close) if from < close < cost.len() => {
                cost.subrange(from, close + 1) + BREAK@ + broken_from(cost, close + 1)
            },
            _ => seq![cost[from]] + broken_from(cost, from + 1),
        }
    }
}

/// The markup of a mana cost: the cost with a place to break the line
/// behind every mana symbol. The cost is taken as markup and not escaped.
pub open spec fn broken_manacost(cost: Seq<char>) -> Seq<char> {
    broken_from(cost, 0)
}

/// The markup that the cards of one face share: name, mana cost, type line
/// and rules text.
pub open spec fn base_markup(
    name: Seq<char>,
    manacost: Seq<char>,
    typeline: Seq<char>,
    text: Seq<char>,
) -> Seq<char> {
    NAME_LINE_OPEN@ + escaped(name) + MANACOST_OPEN@ + broken_manacost(manacost) + TYPELINE_OPEN@
        + escaped(typeline) + ORACLE_OPEN@ + oracle_markup(text) + DIV_CLOSE@
}

/// The markup of a card without its frame. A card of two parts has none of
/// its own.
pub open spec fn inner_markup(card: CardView) -> Seq<char> {
    match card {
        CardView::Creature { name, manacost, typeline, text, power, toughness } => base_markup(
            name,
            manacost,
            typeline,
            text,
        ) + POWER_OPEN@ + escaped(power) + seq!['/'] + escaped(toughness) + PARAGRAPH_CLOSE@,
        CardView::Planeswalker { name, manacost, typeline, text, loyalty } => base_markup(
            name,
            manacost,
            typeline,
            text,
        ) + LOYALTY_OPEN@ + decimal(loyalty as nat) + PARAGRAPH_CLOSE@,
        CardView::Noncreature { name, manacost, typeline, text } => base_markup(
            name,
            manacost,
            typeline,
            text,
        ),
        CardView::Unimplemented { name, layout } => NAME_OPEN@ + escaped(name) + PLACEHOLDER_OPEN@
            + escaped(layout) + PLACEHOLDER_CLOSE@,
        _ => Seq::empty(),
    }
}

/// The markup of a card: a card of one face, or a placeholder, in a frame;
/// the two faces of a double-faced or meld card each in a frame of its own;
/// the two halves of a split or flip card together in one frame.
pub open spec fn card_markup(card: CardView) -> Seq<char> {
    match card {
        CardView::DoubleFaced { front, back } => FRAME_OPEN@ + inner_markup(*front) + FRAME_CLOSE@
            + FRAME_OPEN@ + inner_markup(*back) + FRAME_CLOSE@,
        CardView::Meld { front, back } => FRAME_OPEN@ + inner_markup(*front) + FRAME_CLOSE@
            + FRAME_OPEN@ + inner_markup(*back) + FRAME_CLOSE@,
        CardView::Split { left, right } => FRAME_OPEN@ + SPLIT_FIRST_OPEN@ + inner_markup(*left)
            + DIV_CLOSE@ + SPLIT_SECOND_OPEN@ + inner_markup(*right) + DIV_CLOSE@ + FRAME_CLOSE@,
        CardView::Flip { top, bottom } => FRAME_OPEN@ + FLIP_FIRST_OPEN@ + inner_markup(*top)
            + DIV_CLOSE@ + FLIP_SECOND_OPEN@ + inner_markup(*bottom) + DIV_CLOSE@ + FRAME_CLOSE@,
        _ => FRAME_OPEN@ + inner_markup(card) + FRAME_CLOSE@,
    }
}

/// The upper-case form of a lower-case letter `a` to `z`; any other
/// character is returned as it is.
pub open spec fn upper(c: char) -> char {
    if 'a' <= c <= 'z' {
        ((c as u8 - 32) as u8) as char
    } else {
        c
    }
}

/// `word` with its first character in upper case.
pub open spec fn capitalized(word: Seq<char>) -> Seq<char>
    recommends
        word.len() > 0,
{
    seq![upper(word[0])] + word.skip(1)
}

/// Whether `word` can be capitalized: it is not empty and begins with a
/// character of the ASCII range.
pub open spec fn begins_plainly(word: Seq<char>) -> bool {
    word.len() > 0 && (word[0] as u32) < 128
}

/// The given types, each capitalized, with one space between each two.
pub open spec fn pretty_types(types: Seq<Seq<char>>) -> Seq<char> {
    join_words(types.map_values(|word: Seq<char>| capitalized(word)))
}

/// Appends a line of rules text to `out`, its reminder text in italics.
fn push_italicized(out: &mut String, line: &Vec<char>)
    ensures
        final(out)@ == old(out)@ + italicized(line@),
{
    let ghost before = out@;
    let open = find_first(line, '(', 0);
    let close = find_last(line, ')');
    match (open, close) {
        (Some(open), Some(close)) if close > open && close - open >= 2 => {
            push_chars(out, line, 0, open);
            out.append(ITALIC_OPEN);
            push_chars(out, line, open, close + 1);
            out.append(ITALIC_CLOSE);
            push_chars(out, line, close + 1, line.len());
            assert(out@ =~= before + italicized(line@));
        },
        _ => {
            push_chars(out, line, 0, line.len());
            assert(line@.subrange(0, line.len() as int) == line@);
        },
    }
}

/// Appends a paragraph of rules text to `out`: the first `len` characters of
/// `line`.
fn push_paragraph(out: &mut String, line: &Vec<char>, len: usize)
    requires
        len <= line.len(),
    ensures
        final(out)@ == old(out)@ + PARAGRAPH_OPEN@ + italicized(line@.take(len as int))
            + PARAGRAPH_CLOSE@,
{
    let kept = copy_range(line, 0, len);
    out.append(PARAGRAPH_OPEN);
    push_italicized(out, &kept);
    out.append(PARAGRAPH_CLOSE);
}

/// Appends the markup of a rules text to `out`.
fn push_oracle(out: &mut String, text: &str)
    ensures
        final(out)@ == old(out)@ + oracle_markup(text@),
{
    let ghost before = out@;
    let chars = chars_of(text);
    let parts = split_text(&chars);
    let ghost all = line_views(parts@);
    let ghost ended = all.drop_last().map_values(|l: Seq<char>| strip_cr(l));
    assert(parts.len() > 0) by {
        assert(all.len() == parts.len());
        lemma_split_lines_nonempty(text@);
    }
    let last = parts.len() - 1;
    let mut i: usize = 0;
    assert(out@ =~= before + paragraphs(ended.take(0)));
    while i < last
        invariant
            i <= last,
            last + 1 == parts.len(),
            all == line_views(parts@),
            ended == all.drop_last().map_values(|l: Seq<char>| strip_cr(l)),
            out@ == before + paragraphs(ended.take(i as int)),
        decreases last - i,
    {
        let part = &parts[i];
        let len = if part.len() > 0 && part[part.len() - 1] == '\r' {
            part.len() - 1
        } else {
            part.len()
        };
        proof {
            assert(ended.take(i + 1).drop_last() == ended.take(i as int));
            assert(ended.take(i + 1).last() == strip_cr(part@));
            assert(part@.take(len as int) == strip_cr(part@));
        }
        push_paragraph(out, part, len);
        i += 1;
        assert(out@ =~= before + paragraphs(ended.take(i as int)));
    }
    assert(ended.take(last as int) == ended);
    let part = &parts[last];
    if part.len() > 0 {
        proof {
            assert(ended.push(part@).drop_last() == ended);
            assert(part@.take(part.len() as int) == part@);
        }
        push_paragraph(out, part, part.len());
        assert(out@ =~= before + paragraphs(ended.push(part@)));
    }
}

/// A text has at least one line, which may be empty.
proof fn lemma_split_lines_nonempty(text: Seq<char>)
    ensures
        split_lines(text).len() > 0,
    decreases text.len(),
{
    if text.len() > 0 {
        lemma_split_lines_nonempty(text.drop_last());
    }
}

/// Where the mana symbol that opens at `at` closes, if one opens there.
fn find_symbol_end(cost: &Vec<char>, at: usize) -> (found: Option<usize>)
    requires
        at < cost.len(),
    ensures
        match found {
            Some(close) => symbol_end(cost@, at as int) == Some(close as int) && at + 2 <= close
                < cost.len(),
            None => symbol_end(cost@, at as int) is None,
        },
{
    if cost.len() - at < 2 || cost[at] != '{' || cost[at + 1] == '\n' {
        return None;
    }
    let mut k: usize = at + 2;
    while k < cost.len()
        invariant
            at + 2 <= k,
            symbol_end(cost@, at as int) == symbol_close(cost@, at as int, k as int),
        decreases cost.len() - k,
    {
        if cost[k] == '\n' {
            return None;
        }
        if cost[k] == '}' {
            return Some(k);
        }
        k += 1;
    }
    None
}

/// Appends the markup of a mana cost to `out`.
fn push_manacost(out: &mut String, manacost: &str)
    ensures
        final(out)@ == old(out)@ + broken_manacost(manacost@),
{
    let ghost before = out@;
    let cost = chars_of(manacost);
    let mut at: usize = 0;
    assert(out@ + broken_from(cost@, 0) =~= before + broken_manacost(cost@));
    while at < cost.len()
        invariant
            at <= cost.len(),
            out@ + broken_from(cost@, at as int) == before + broken_manacost(cost@),
        decreases cost.len() - at,
    {
        let ghost so_far = out@;
        match find_symbol_end(&cost, at) {
            Some(close) => {
                push_chars(out, &cost, at, close + 1);
                out.append(BREAK);
                assert(out@ + broken_from(cost@, close + 1) =~= so_far + broken_from(
                    cost@,
                    at as int,
                ));
                at = close + 1;
            },
            None => {
                push_char(out, cost[at]);
                assert(out@ + broken_from(cost@, at + 1) =~= so_far + broken_from(
                    cost@,
                    at as int,
                ));
                at += 1;
            },
        }
    }
    assert(out@ + Seq::<char>::empty() =~= out@);
}

/// Appends the markup that the cards of one face share to `out`.
fn push_base(out: &mut String, name: &str, manacost: &str, typeline: &str, text: &str)
    ensures
        final(out)@ == old(out)@ + base_markup(name@, manacost@, typeline@, text@),
{
    let ghost before = out@;
    out.append(NAME_LINE_OPEN);
    push_escaped(out, name);
    out.append(MANACOST_OPEN);
    push_manacost(out, manacost);
    out.append(TYPELINE_OPEN);
    push_escaped(out, typeline);
    out.append(ORACLE_OPEN);
    push_oracle(out, text);
    out.append(DIV_CLOSE);
    assert(out@ =~= before + base_markup(name@, manacost@, typeline@, text@));
}

/// The upper-case form of a lower-case letter `a` to `z`.
pub fn to_upper(c: char) -> (u: char)
    ensures
        u == upper(c),
{
    if 'a' <= c && c <= 'z' {
        ((c as u8) - 32) as char
    } else {
        c
    }
}

/// The given types, each with its first letter in upper case, with one
/// space between each two.
pub fn prettify_types(types: &[String]) -> (pretty: String)
    requires
        forall|i: int| 0 <= i < types@.len() ==> begins_plainly(#[trigger] types@[i]@),
    ensures
        pretty@ == pretty_types(texts(types@)),
{
    let mut collected = String::new();
    let ghost words = texts(types@).map_values(|word: Seq<char>| capitalized(word));
    let mut i: usize = 0;
    assert(collected@ =~= join_words(words.take(0)));
    while i < types.len()
        invariant
            i <= types.len(),
            words == texts(types@).map_values(|word: Seq<char>| capitalized(word)),
            forall|j: int| 0 <= j < types@.len() ==> begins_plainly(#[trigger] types@[j]@),
            collected@ == join_words(words.take(i as int)),
        decreases types.len() - i,
    {
        let word = chars_of(types[i].as_str());
        proof {
            assert(begins_plainly(types@[i as int]@));
            assert(words.take(i + 1).drop_last() == words.take(i as int));
            assert(words.take(i + 1).last() == capitalized(word@));
        }
        if i > 0 {
            push_char(&mut collected, ' ');
        }
        push_char(&mut collected, to_upper(word[0]));
        push_chars(&mut collected, &word, 1, word.len());
        i += 1;
        assert(collected@ =~= join_words(words.take(i as int)));
    }
    assert(words.take(types.len() as int) == words);
    collected
}

/// The markup of a rules text: each of its lines a paragraph, its reminder
/// text in italics.
pub fn prettify_oracle_text(text: &str) -> (markup: String)
    ensures
        markup@ == oracle_markup(text@),
{
    let mut out = String::new();
    push_oracle(&mut out, text);
    assert(out@ =~= oracle_markup(text@));
    out
}

/// The markup of a mana cost: the cost with a place to break the line
/// behind every mana symbol.
pub fn break_manacost(manacost: &str) -> (markup: String)
    ensures
        markup@ == broken_manacost(manacost@),
{
    let mut out = String::new();
    push_manacost(&mut out, manacost);
    assert(out@ =~= broken_manacost(manacost@));
    out
}

/// The markup that the cards of one face share: name, mana cost, type line
/// and rules text.
pub fn base_inner_html(name: &str, manacost: &str, typeline: &str, text: &str) -> (markup: String)
    ensures
        markup@ == base_markup(name@, manacost@, typeline@, text@),
{
    let mut out = String::new();
    push_base(&mut out, name, manacost, typeline, text);
    assert(out@ =~= base_markup(name@, manacost@, typeline@, text@));
    out
}

impl Card {
    /// Whether the card is made of two parts.
    pub fn is_two_part(&self) -> (b: bool)
        ensures
            b == self@.is_two_part(),
    {
        match self {
            Card::DoubleFaced { .. } | Card::Split { .. } | Card::Flip { .. } | Card::Meld {
                ..
            } => true,
            _ => false,
        }
    }

    /// Whether no part of the card is itself made of two parts.
    pub fn is_flat(&self) -> (b: bool)
        ensures
            b == self@.is_flat(),
    {
        match self {
            Card::DoubleFaced { front, back } => !front.is_two_part() && !back.is_two_part(),
            Card::Split { left, right } => !left.is_two_part() && !right.is_two_part(),
            Card::Flip { top, bottom } => !top.is_two_part() && !bottom.is_two_part(),
            Card::Meld { front, back } => !front.is_two_part() && !back.is_two_part(),
            _ => true,
        }
    }

    /// Appends the markup of the card without its frame to `out`.
    fn push_inner(&self, out: &mut String)
        requires
            !self@.is_two_part(),
        ensures
            final(out)@ == old(out)@ + inner_markup(self@),
    {
        let ghost before = out@;
        match self {
            Card::Creature { name, manacost, typeline, text, power, toughness } => {
                push_base(out, name.as_str(), manacost.as_str(), typeline.as_str(), text.as_str());
                out.append(POWER_OPEN);
                push_escaped(out, power.as_str());
                push_char(out, '/');
                push_escaped(out, toughness.as_str());
                out.append(PARAGRAPH_CLOSE);
            },
            Card::Planeswalker { name, manacost, typeline, text, loyalty } => {
                push_base(out, name.as_str(), manacost.as_str(), typeline.as_str(), text.as_str());
                out.append(LOYALTY_OPEN);
                push_decimal(out, *loyalty);
                out.append(PARAGRAPH_CLOSE);
            },
            Card::Noncreature { name, manacost, typeline, text } => {
                push_base(out, name.as_str(), manacost.as_str(), typeline.as_str(), text.as_str());
            },
            Card::Unimplemented { name, layout } => {
                out.append(NAME_OPEN);
                push_escaped(out, name.as_str());
                out.append(PLACEHOLDER_OPEN);
                push_escaped(out, layout.as_str());
                out.append(PLACEHOLDER_CLOSE);
            },
            _ => {},
        }
        assert(out@ =~= before + inner_markup(self@));
    }

    /// The markup of the card without its frame.
    pub fn inner_html(&self) -> (markup: String)
        requires
            !self@.is_two_part(),
        ensures
            markup@ == inner_markup(self@),
    {
        let mut out = String::new();
        self.push_inner(&mut out);
        assert(out@ =~= inner_markup(self@));
        out
    }

    /// The markup of the card.
    pub fn to_html(&self) -> (markup: String)
        requires
            self@.is_flat(),
        ensures
            markup@ == card_markup(self@),
    {
        let mut out = String::new();
        match self {
            Card::DoubleFaced { front, back } | Card::Meld { front, back } => {
                out.append(FRAME_OPEN);
                front.push_inner(&mut out);
                out.append(FRAME_CLOSE);
                out.append(FRAME_OPEN);
                back.push_inner(&mut out);
                out.append(FRAME_CLOSE);
            },
            Card::Split { left, right } => {
                out.append(FRAME_OPEN);
                out.append(SPLIT_FIRST_OPEN);
                left.push_inner(&mut out);
                out.append(DIV_CLOSE);
                out.append(SPLIT_SECOND_OPEN);
                right.push_inner(&mut out);
                out.append(DIV_CLOSE);
                out.append(FRAME_CLOSE);
            },
            Card::Flip { top, bottom } => {
                out.append(FRAME_OPEN);
                out.append(FLIP_FIRST_OPEN);
                top.push_inner(&mut out);
                out.append(DIV_CLOSE);
                out.append(FLIP_SECOND_OPEN);
                bottom.push_inner(&mut out);
                out.append(DIV_CLOSE);
                out.append(FRAME_CLOSE);
            },
            _ => {
                out.append(FRAME_OPEN);
                self.push_inner(&mut out);
                out.append(FRAME_CLOSE);
            },
        }
        assert(out@ =~= card_markup(self@));
        out
    }
}

} // verus!
