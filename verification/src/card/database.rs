//! The reference store: the records of a dataset, filed under the keys of
//! their names, and the resolver that makes cards of them.

use crate::card::{Card, CardView};
use crate::error::{ProxygenError, ProxygenErrorView};
use crate::sanitize::{
    is_key, lemma_sanitize_ignores_case_and_space, lemma_sanitized_is_key, plain_form,
    sanitize_name, sanitized,
};
use crate::text::push_char;
use vstd::hash_map::StringHashMap;
use vstd::prelude::*;
use vstd::string::StringExecFns;

verus! {

/// One record of the dataset, as the dataset gives it.
#[derive(Debug, Clone, Default, PartialEq, Eq)]
pub struct DatabaseEntry {
    pub layout: String,
    pub name: String,
    pub names: Option<Vec<String>>,
    pub mana_cost: Option<String>,
    pub supertypes: Option<Vec<String>>,
    pub types: Option<Vec<String>>,
    pub subtypes: Option<Vec<String>>,
    pub text: Option<String>,
    pub power: Option<String>,
    pub toughness: Option<String>,
    pub loyalty: Option<u64>,
}

/// A record with its texts as sequences of characters.
pub struct DatabaseEntryView {
    pub layout: Seq<char>,
    pub name: Seq<char>,
    pub names: Option<Seq<Seq<char>>>,
    pub mana_cost: Option<Seq<char>>,
    pub supertypes: Option<Seq<Seq<char>>>,
    pub types: Option<Seq<Seq<char>>>,
    pub subtypes: Option<Seq<Seq<char>>>,
    pub text: Option<Seq<char>>,
    pub power: Option<Seq<char>>,
    pub toughness: Option<Seq<char>>,
    pub loyalty: Option<u64>,
}

/// The texts of a list of strings.
pub open spec fn texts(list: Seq<String>) -> Seq<Seq<char>> {
    list.map_values(|s: String| s@)
}

/// The texts of a list of strings that may be absent.
pub open spec fn opt_texts(list: Option<Vec<String>>) -> Option<Seq<Seq<char>>> {
    match list {
        Some(v) => Some(texts(v@)),
        None => None,
    }
}

/// The text of a string that may be absent.
pub open spec fn opt_text(s: Option<String>) -> Option<Seq<char>> {
    match s {
        Some(v) => Some(v@),
        None => None,
    }
}

impl View for DatabaseEntry {
    type V = DatabaseEntryView;

    open spec fn view(&self) -> DatabaseEntryView {
        DatabaseEntryView {
            layout: self.layout@,
            name: self.name@,
            names: opt_texts(self.names),
            mana_cost: opt_text(self.mana_cost),
            supertypes: opt_texts(self.supertypes),
            types: opt_texts(self.types),
            subtypes: opt_texts(self.subtypes),
            text: opt_text(self.text),
            power: opt_text(self.power),
            toughness: opt_text(self.toughness),
            loyalty: self.loyalty,
        }
    }
}

/// How a record is laid out, which decides how its card is put together.
#[derive(Debug, Clone, Copy, PartialEq, Eq)]
pub enum Layout {
    Normal,
    Leveler,
    Split,
    Flip,
    DoubleFaced,
    Meld,
    /// Any layout that the library does not know.
    Other,
}

/// The layout that the word `s` of a dataset names.
pub open spec fn layout_of(s: Seq<char>) -> Layout {
    if s == "normal"@ {
        Layout::Normal
    } else if s == "leveler"@ {
        Layout::Leveler
    } else if s == "split"@ {
        Layout::Split
    } else if s == "flip"@ {
        Layout::Flip
    } else if s == "double-faced"@ {
        Layout::DoubleFaced
    } else if s == "meld"@ {
        Layout::Meld
    } else {
        Layout::Other
    }
}

impl Layout {
    /// Whether the layout is one that the library knows.
    pub open spec fn is_supported(self) -> bool {
        self != Layout::Other
    }

    /// Whether a card of this layout is made of two parts.
    pub open spec fn is_composite(self) -> bool {
        self == Layout::Split || self == Layout::Flip || self == Layout::DoubleFaced || self
            == Layout::Meld
    }
}

/// The text `o`, or the empty text where there is none.
pub open spec fn text_or_empty(o: Option<Seq<char>>) -> Seq<char> {
    match o {
        Some(s) => s,
        None => Seq::empty(),
    }
}

/// The list `o`, or the empty list where there is none.
pub open spec fn list_or_empty(o: Option<Seq<Seq<char>>>) -> Seq<Seq<char>> {
    match o {
        Some(l) => l,
        None => Seq::empty(),
    }
}

/// The words joined, with one space between each two.
pub open spec fn join_words(words: Seq<Seq<char>>) -> Seq<char>
    decreases words.len(),
{
    if words.len() == 0 {
        Seq::empty()
    } else if words.len() == 1 {
        words[0]
    } else {
        join_words(words.drop_last()) + seq![' '] + words.last()
    }
}

/// The dash that stands between the types and the subtypes of a type line.
pub open spec fn type_dash() -> Seq<char> {
    seq!['\u{2014}']
}

/// The words of the type line of a record: its supertypes, its types and,
/// where it has subtypes, a dash and the subtypes.
pub open spec fn typeline_words(e: DatabaseEntryView) -> Seq<Seq<char>> {
    let subtypes = list_or_empty(e.subtypes);
    list_or_empty(e.supertypes) + list_or_empty(e.types) + if subtypes.len() > 0 {
        seq![type_dash()] + subtypes
    } else {
        Seq::empty()
    }
}

/// The type line of a record.
pub open spec fn typeline(e: DatabaseEntryView) -> Seq<char> {
    join_words(typeline_words(e))
}

/// The card of one face that a record describes, whatever its layout: a
/// creature where its types hold `Creature`, else a planeswalker where they
/// hold `Planeswalker`, else neither. Texts that the record lacks are empty,
/// a loyalty that it lacks is 0.
pub open spec fn single_card(e: DatabaseEntryView) -> CardView {
    let types = list_or_empty(e.types);
    if types.contains("Creature"@) {
        CardView::Creature {
            name: e.name,
            manacost: text_or_empty(e.mana_cost),
            typeline: typeline(e),
            text: text_or_empty(e.text),
            power: text_or_empty(e.power),
            toughness: text_or_empty(e.toughness),
        }
    } else if types.contains("Planeswalker"@) {
        CardView::Planeswalker {
            name: e.name,
            manacost: text_or_empty(e.mana_cost),
            typeline: typeline(e),
            text: text_or_empty(e.text),
            loyalty: match e.loyalty {
                Some(n) => n,
                None => 0,
            },
        }
    } else {
        CardView::Noncreature {
            name: e.name,
            manacost: text_or_empty(e.mana_cost),
            typeline: typeline(e),
            text: text_or_empty(e.text),
        }
    }
}

/// The card of two parts of the given layout.
pub open spec fn two_part_card(kind: Layout, first: CardView, second: CardView) -> CardView
    recommends
        kind.is_composite(),
{
    match kind {
        Layout::Split => CardView::Split { left: Box::new(first), right: Box::new(second) },
        Layout::Flip => CardView::Flip { top: Box::new(first), bottom: Box::new(second) },
        Layout::Meld => CardView::Meld { front: Box::new(first), back: Box::new(second) },
        _ => CardView::DoubleFaced { front: Box::new(first), back: Box::new(second) },
    }
}

/// What a store maps keys to.
pub type Store = Map<Seq<char>, DatabaseEntryView>;

/// The card that the record `e` resolves to against `store`, or the reason
/// why it resolves to none.
///
/// A record of a plain layout gives its card of one face. A record of a
/// layout of two parts needs a list of exactly two names; each is looked up
/// under its key, the first before the second, and gives the card of one face
/// of its record, whatever the layout of that record. A record of any other
/// layout gives a placeholder.
pub open spec fn resolve_entry(store: Store, e: DatabaseEntryView) -> Result<
    CardView,
    ProxygenErrorView,
> {
    let kind = layout_of(e.layout);
    if kind == Layout::Normal || kind == Layout::Leveler {
        Ok(single_card(e))
    } else if kind.is_composite() {
        match e.names {
            None => Err(ProxygenErrorView::MulticardHasNoNames(e.name)),
            Some(names) => {
                if names.len() != 2 {
                    Err(ProxygenErrorView::MulticardHasMalformedNames(e.name))
                } else if !store.contains_key(sanitized(names[0])) {
                    Err(ProxygenErrorView::InvalidCardName(sanitized(names[0])))
                } else if !store.contains_key(sanitized(names[1])) {
                    Err(ProxygenErrorView::InvalidCardName(sanitized(names[1])))
                } else {
                    Ok(
                        two_part_card(
                            kind,
                            single_card(store[sanitized(names[0])]),
                            single_card(store[sanitized(names[1])]),
                        ),
                    )
                }
            },
        }
    } else {
        Ok(CardView::Unimplemented { name: e.name, layout: e.layout })
    }
}

/// The card that `name` resolves to against `store`: that of the record
/// filed under the key of `name`, or `InvalidCardName` with that key where
/// there is no such record.
pub open spec fn resolve(store: Store, name: Seq<char>) -> Result<CardView, ProxygenErrorView> {
    let key = sanitized(name);
    if store.contains_key(key) {
        resolve_entry(store, store[key])
    } else {
        Err(ProxygenErrorView::InvalidCardName(key))
    }
}

/// A resolution with its texts as sequences of characters.
pub open spec fn resolution_view(r: Result<Card, ProxygenError>) -> Result<
    CardView,
    ProxygenErrorView,
> {
    match r {
        Ok(card) => Ok(card@),
        Err(e) => Err(e@),
    }
}

/// The store built from the records of a dataset, each with the name under
/// which the dataset lists it, in the order of the dataset: a record of a
/// layout that the library knows is filed under the key of its name, where
/// it replaces a record filed there before; any other record is left out.
pub open spec fn store_of(entries: Seq<(Seq<char>, DatabaseEntryView)>) -> Store
    decreases entries.len(),
{
    if entries.len() == 0 {
        Map::empty()
    } else {
        let before = store_of(entries.drop_last());
        let (name, record) = entries.last();
        if layout_of(record.layout).is_supported() {
            before.insert(sanitized(name), record)
        } else {
            before
        }
    }
}

/// Whether every key of `store` is a key, and every record in it has a
/// layout that the library knows.
pub open spec fn well_kept(store: Store) -> bool {
    forall|k: Seq<char>| #[trigger]
        store.contains_key(k) ==> is_key(k) && layout_of(store[k].layout).is_supported()
}

/// The names of a dataset with their records, with texts as sequences of
/// characters.
pub open spec fn entry_views(entries: Seq<(String, DatabaseEntry)>) -> Seq<
    (Seq<char>, DatabaseEntryView),
> {
    entries.map_values(|p: (String, DatabaseEntry)| (p.0@, p.1@))
}

/// Whether the entry at `i` of a dataset is filed under the key `k`: its
/// layout is known to the library and its name has that key.
pub open spec fn files_under(
    entries: Seq<(Seq<char>, DatabaseEntryView)>,
    i: int,
    k: Seq<char>,
) -> bool {
    &&& 0 <= i < entries.len()
    &&& layout_of(entries[i].1.layout).is_supported()
    &&& sanitized(entries[i].0) == k
}

/// A store built from a dataset is well kept: its keys are keys, and its
/// records have layouts that the library knows.
pub proof fn lemma_store_well_kept(entries: Seq<(Seq<char>, DatabaseEntryView)>)
    ensures
        well_kept(store_of(entries)),
    decreases entries.len(),
{
    if entries.len() > 0 {
        lemma_store_well_kept(entries.drop_last());
        lemma_sanitized_is_key(entries.last().0);
    }
}

/// A store built from a dataset holds a key exactly where some entry is
/// filed under it.
pub proof fn lemma_store_lookup(entries: Seq<(Seq<char>, DatabaseEntryView)>, k: Seq<char>)
    ensures
        store_of(entries).contains_key(k) <==> exists|i: int| files_under(entries, i, k),
    decreases entries.len(),
{
    if entries.len() > 0 {
        let before = entries.drop_last();
        let last = entries.len() - 1;
        lemma_store_lookup(before, k);
        if files_under(entries, last, k) {
        } else if store_of(entries).contains_key(k) {
            let i = choose|i: int| files_under(before, i, k);
            assert(before[i] == entries[i]);
            assert(files_under(entries, i, k));
        } else {
            assert forall|i: int| !files_under(entries, i, k) by {
                if files_under(entries, i, k) {
                    assert(before[i] == entries[i]);
                    assert(files_under(before, i, k));
                }
            }
        }
    }
}

/// Where the names of two entries of a dataset have one key, the later
/// entry wins: the store holds for a key the record of the last entry that
/// is filed under it.
pub proof fn lemma_later_entry_wins(
    entries: Seq<(Seq<char>, DatabaseEntryView)>,
    i: int,
    k: Seq<char>,
)
    requires
        files_under(entries, i, k),
        forall|j: int| i < j ==> !files_under(entries, j, k),
    ensures
        store_of(entries).contains_key(k),
        store_of(entries)[k] == entries[i].1,
    decreases entries.len(),
{
    let before = entries.drop_last();
    let last = entries.len() - 1;
    if i < last {
        assert(!files_under(entries, last, k));
        assert(before[i] == entries[i]);
        assert(files_under(before, i, k));
        assert forall|j: int| i < j implies !files_under(before, j, k) by {
            if files_under(before, j, k) {
                assert(before[j] == entries[j]);
                assert(files_under(entries, j, k));
            }
        }
        lemma_later_entry_wins(before, i, k);
    }
}

/// A name that has no record under its key resolves to no card: the error
/// is `InvalidCardName` with the key.
pub proof fn lemma_unknown_name(store: Store, name: Seq<char>)
    requires
        !store.contains_key(sanitized(name)),
    ensures
        resolve(store, name) == Err::<CardView, ProxygenErrorView>(
            ProxygenErrorView::InvalidCardName(sanitized(name)),
        ),
{
}

/// Two names with one key resolve alike: to equal cards or to equal errors.
/// So does one name resolved twice.
pub proof fn lemma_same_key_same_card(store: Store, a: Seq<char>, b: Seq<char>)
    requires
        sanitized(a) == sanitized(b),
    ensures
        resolve(store, a) == resolve(store, b),
{
}

/// Two names that differ in case and white space only are looked up under
/// one key, and so resolve alike: to the same record and card, or to the
/// same error.
pub proof fn lemma_same_plain_form_same_card(store: Store, a: Seq<char>, b: Seq<char>)
    requires
        plain_form(a) == plain_form(b),
    ensures
        sanitized(a) == sanitized(b),
        resolve(store, a) == resolve(store, b),
{
    lemma_sanitize_ignores_case_and_space(a, b);
}

/// A name whose record has a plain layout resolves to a card of one face,
/// which bears the name that the record gives.
pub proof fn lemma_plain_name_resolves(store: Store, name: Seq<char>)
    requires
        store.contains_key(sanitized(name)),
        layout_of(store[sanitized(name)].layout) == Layout::Normal || layout_of(
            store[sanitized(name)].layout,
        ) == Layout::Leveler,
    ensures
        resolve(store, name) == Ok::<CardView, ProxygenErrorView>(
            single_card(store[sanitized(name)]),
        ),
        single_card(store[sanitized(name)]).is_single(),
        single_card(store[sanitized(name)]).name() == store[sanitized(name)].name,
{
}

/// A record of two parts whose list of names is missing, or does not hold
/// exactly two names, resolves to no card.
pub proof fn lemma_malformed_composite(store: Store, e: DatabaseEntryView)
    requires
        layout_of(e.layout).is_composite(),
        e.names is Some ==> e.names->0.len() != 2,
    ensures
        resolve_entry(store, e) == Err::<CardView, ProxygenErrorView>(
            if e.names is None {
                ProxygenErrorView::MulticardHasNoNames(e.name)
            } else {
                ProxygenErrorView::MulticardHasMalformedNames(e.name)
            },
        ),
{
}

/// A record of two parts whose two names have records resolves to a card of
/// two parts of its layout, each part the card of one face of the record of
/// its name. A part whose own record has a plain layout is the very card that
/// its name resolves to.
pub proof fn lemma_composite_resolution(store: Store, e: DatabaseEntryView)
    requires
        layout_of(e.layout).is_composite(),
        e.names is Some,
        e.names->0.len() == 2,
        store.contains_key(sanitized(e.names->0[0])),
        store.contains_key(sanitized(e.names->0[1])),
    ensures
        resolve_entry(store, e) is Ok,
        resolve_entry(store, e)->Ok_0 == two_part_card(
            layout_of(e.layout),
            single_card(store[sanitized(e.names->0[0])]),
            single_card(store[sanitized(e.names->0[1])]),
        ),
        resolve_entry(store, e)->Ok_0.is_two_part(),
        layout_of(e.layout) == Layout::DoubleFaced ==> resolve_entry(store, e)->Ok_0 is DoubleFaced,
        layout_of(e.layout) == Layout::Split ==> resolve_entry(store, e)->Ok_0 is Split,
        layout_of(e.layout) == Layout::Flip ==> resolve_entry(store, e)->Ok_0 is Flip,
        layout_of(e.layout) == Layout::Meld ==> resolve_entry(store, e)->Ok_0 is Meld,
        forall|i: int|
            #![trigger e.names->0[i]]
            0 <= i < 2 && (layout_of(store[sanitized(e.names->0[i])].layout) == Layout::Normal
                || layout_of(store[sanitized(e.names->0[i])].layout) == Layout::Leveler)
                ==> resolve(store, e.names->0[i]) == Ok::<CardView, ProxygenErrorView>(
                if i == 0 {
                    resolve_entry(store, e)->Ok_0.parts().0
                } else {
                    resolve_entry(store, e)->Ok_0.parts().1
                },
            ),
{
}

/// No part of a resolved card is itself made of two parts: the parts of a
/// card of two parts have one face each.
pub proof fn lemma_resolved_is_flat(store: Store, e: DatabaseEntryView)
    requires
        resolve_entry(store, e) is Ok,
    ensures
        resolve_entry(store, e)->Ok_0.is_flat(),
        resolve_entry(store, e)->Ok_0.is_two_part() ==> resolve_entry(
            store,
            e,
        )->Ok_0.parts().0.is_single() && resolve_entry(store, e)->Ok_0.parts().1.is_single(),
        resolve_entry(store, e)->Ok_0.is_two_part() <==> layout_of(e.layout).is_composite(),
{
}

/// Against a well-kept store no name resolves to a placeholder, and every
/// card that a name resolves to is flat.
pub proof fn lemma_well_kept_resolution(store: Store, name: Seq<char>)
    requires
        well_kept(store),
        resolve(store, name) is Ok,
    ensures
        !(resolve(store, name)->Ok_0 is Unimplemented),
        resolve(store, name)->Ok_0.is_flat(),
{
    assert(store.contains_key(sanitized(name)));
}

/// The reference store: records filed by key. It is built once and only
/// read afterwards.
pub struct Database {
    map: StringHashMap<DatabaseEntry>,
}

impl View for Database {
    type V = Store;

    closed spec fn view(&self) -> Store {
        self.map@.map_values(|e: DatabaseEntry| e@)
    }
}

/// Whether two texts are the same.
pub fn same_text(a: &str, b: &str) -> (same: bool)
    ensures
        same == (a@ == b@),
{
    a.to_owned() == b.to_owned()
}

/// The layout that a word of a dataset names.
pub fn classify_layout(word: &str) -> (kind: Layout)
    ensures
        kind == layout_of(word@),
{
    if same_text(word, "normal") {
        Layout::Normal
    } else if same_text(word, "leveler") {
        Layout::Leveler
    } else if same_text(word, "split") {
        Layout::Split
    } else if same_text(word, "flip") {
        Layout::Flip
    } else if same_text(word, "double-faced") {
        Layout::DoubleFaced
    } else if same_text(word, "meld") {
        Layout::Meld
    } else {
        Layout::Other
    }
}

/// Whether `list` holds `word`.
fn holds_text(list: &Option<Vec<String>>, word: &str) -> (found: bool)
    ensures
        found == list_or_empty(opt_texts(*list)).contains(word@),
{
    match list {
        None => false,
        Some(items) => {
            let mut i: usize = 0;
            while i < items.len()
                invariant
                    i <= items.len(),
                    opt_texts(*list) == Some(texts(items@)),
                    forall|j: int| 0 <= j < i ==> texts(items@)[j] != word@,
                decreases items.len() - i,
            {
                if same_text(items[i].as_str(), word) {
                    assert(texts(items@)[i as int] == word@);
                    return true;
                }
                i += 1;
            }
            false
        },
    }
}

/// The text `s`, or the empty text where there is none.
fn text_or_default(s: &Option<String>) -> (out: String)
    ensures
        out@ == text_or_empty(opt_text(*s)),
{
    match s {
        Some(v) => v.clone(),
        None => String::new(),
    }
}

/// Appends the words of `list` to `out`, which holds the words `before`
/// joined, and tells whether any word has been written by then.
fn append_words(
    out: &mut String,
    any: bool,
    list: &Option<Vec<String>>,
    Ghost(before): Ghost<Seq<Seq<char>>>,
) -> (more: bool)
    requires
        old(out)@ == join_words(before),
        any == (before.len() > 0),
    ensures
        final(out)@ == join_words(before + list_or_empty(opt_texts(*list))),
        more == ((before + list_or_empty(opt_texts(*list))).len() > 0),
{
    match list {
        None => {
            assert(before + Seq::<Seq<char>>::empty() == before);
            any
        },
        Some(items) => {
            let mut any = any;
            let mut i: usize = 0;
            assert(before + texts(items@).take(0) == before);
            while i < items.len()
                invariant
                    i <= items.len(),
                    out@ == join_words(before + texts(items@).take(i as int)),
                    any == (before.len() + i > 0),
                decreases items.len() - i,
            {
                let ghost done = before + texts(items@).take(i as int);
                let ghost next = before + texts(items@).take(i + 1);
                proof {
                    assert(next.drop_last() == done);
                    assert(next.last() == items@[i as int]@);
                }
                if any {
                    push_char(out, ' ');
                    assert(out@ == join_words(done) + seq![' ']);
                }
                out.append(items[i].as_str());
                any = true;
                i += 1;
            }
            assert(texts(items@).take(items.len() as int) == texts(items@));
            any
        },
    }
}

/// The type line of a record.
fn typeline_of(entry: &DatabaseEntry) -> (line: String)
    ensures
        line@ == typeline(entry@),
{
    let mut line = String::new();
    let ghost supertypes = list_or_empty(entry@.supertypes);
    let ghost types = list_or_empty(entry@.types);
    let ghost subtypes = list_or_empty(entry@.subtypes);
    let any = append_words(&mut line, false, &entry.supertypes, Ghost(Seq::empty()));
    assert(Seq::<Seq<char>>::empty() + supertypes == supertypes);
    let any = append_words(&mut line, any, &entry.types, Ghost(supertypes));
    let has_subtypes = match &entry.subtypes {
        Some(items) => items.len() > 0,
        None => false,
    };
    if has_subtypes {
        let ghost dashed = supertypes + types + seq![type_dash()];
        proof {
            assert(dashed.drop_last() == supertypes + types);
            assert(dashed.last() == type_dash());
        }
        if any {
            push_char(&mut line, ' ');
        }
        push_char(&mut line, '\u{2014}');
        assert(line@ == join_words(dashed)) by {
            if any {
                assert(line@ == join_words(supertypes + types) + seq![' '] + type_dash());
            } else {
                assert(line@ == type_dash());
            }
        }
        append_words(&mut line, true, &entry.subtypes, Ghost(dashed));
        assert(dashed + subtypes == supertypes + types + (seq![type_dash()] + subtypes));
    } else {
        assert(supertypes + types + Seq::<Seq<char>>::empty() == supertypes + types);
    }
    line
}

/// The card of one face that a record describes.
fn single_face(entry: &DatabaseEntry) -> (card: Card)
    ensures
        card@ == single_card(entry@),
{
    if holds_text(&entry.types, "Creature") {
        Card::Creature {
            name: entry.name.clone(),
            manacost: text_or_default(&entry.mana_cost),
            typeline: typeline_of(entry),
            text: text_or_default(&entry.text),
            power: text_or_default(&entry.power),
            toughness: text_or_default(&entry.toughness),
        }
    } else if holds_text(&entry.types, "Planeswalker") {
        Card::Planeswalker {
            name: entry.name.clone(),
            manacost: text_or_default(&entry.mana_cost),
            typeline: typeline_of(entry),
            text: text_or_default(&entry.text),
            loyalty: match entry.loyalty {
                Some(n) => n,
                None => 0,
            },
        }
    } else {
        Card::Noncreature {
            name: entry.name.clone(),
            manacost: text_or_default(&entry.mana_cost),
            typeline: typeline_of(entry),
            text: text_or_default(&entry.text),
        }
    }
}

/// The card of two parts of the given layout.
fn two_parts(kind: Layout, first: Card, second: Card) -> (card: Card)
    requires
        kind.is_composite(),
    ensures
        card@ == two_part_card(kind, first@, second@),
{
    match kind {
        Layout::Split => Card::Split { left: Box::new(first), right: Box::new(second) },
        Layout::Flip => Card::Flip { top: Box::new(first), bottom: Box::new(second) },
        Layout::Meld => Card::Meld { front: Box::new(first), back: Box::new(second) },
        _ => Card::DoubleFaced { front: Box::new(first), back: Box::new(second) },
    }
}

/// Builds the reference store from the records of a dataset, each with the
/// name under which the dataset lists it, in the order of the dataset.
pub fn make_database(entries: Vec<(String, DatabaseEntry)>) -> (db: Database)
    ensures
        db@ == store_of(entry_views(entries@)),
        well_kept(db@),
{
    let mut map: StringHashMap<DatabaseEntry> = StringHashMap::new();
    let ghost all = entry_views(entries@);
    assert(map@.map_values(|e: DatabaseEntry| e@) =~= store_of(all.take(0)));
    for pair in it: entries.into_iter()
        invariant
            it.seq() == entries@,
            all == entry_views(entries@),
            map@.map_values(|e: DatabaseEntry| e@) == store_of(all.take(it.index() as int)),
            well_kept(map@.map_values(|e: DatabaseEntry| e@)),
    {
        let ghost i = it.index() as int;
        let ghost before = map@;
        let (name, record) = pair;
        proof {
            assert(all.take(i + 1).drop_last() == all.take(i));
            assert(all.take(i + 1).last() == (name@, record@));
        }
        match classify_layout(record.layout.as_str()) {
            Layout::Other => {},
            _ => {
                let key = sanitize_name(name.as_str());
                map.insert(key, record);
                assert(map@.map_values(|e: DatabaseEntry| e@) =~= before.map_values(
                    |e: DatabaseEntry| e@,
                ).insert(key@, record@));
            },
        }
    }
    assert(all.take(all.len() as int) == all);
    Database { map }
}

impl Database {
    /// What holds of every store: it is well kept.
    #[verifier::type_invariant]
    spec fn kept(&self) -> bool {
        well_kept(self@)
    }

    /// The record filed under the key of `card_name`.
    pub fn get_entry(&self, card_name: &str) -> (found: Result<&DatabaseEntry, ProxygenError>)
        ensures
            well_kept(self@),
            match found {
                Ok(entry) => self@.contains_key(sanitized(card_name@)) && entry@
                    == self@[sanitized(card_name@)],
                Err(e) => !self@.contains_key(sanitized(card_name@)) && e@
                    == ProxygenErrorView::InvalidCardName(sanitized(card_name@)),
            },
    {
        proof {
            use_type_invariant(self);
        }
        let key = sanitize_name(card_name);
        match self.map.get(key.as_str()) {
            Some(entry) => Ok(entry),
            None => Err(ProxygenError::InvalidCardName(key)),
        }
    }

    /// Resolves a name to its card.
    pub fn get(&self, card_name: &str) -> (found: Result<Card, ProxygenError>)
        ensures
            well_kept(self@),
            resolution_view(found) == resolve(self@, card_name@),
    {
        match self.get_entry(card_name) {
            Ok(entry) => self.parse_card(entry),
            Err(e) => Err(e),
        }
    }

    /// Resolves a record to its card, looking up the parts of a card of two
    /// parts in this store.
    pub fn parse_card(&self, entry: &DatabaseEntry) -> (made: Result<Card, ProxygenError>)
        ensures
            resolution_view(made) == resolve_entry(self@, entry@),
    {
        let kind = classify_layout(entry.layout.as_str());
        match kind {
            Layout::Normal | Layout::Leveler => Ok(single_face(entry)),
            Layout::Other => Ok(
                Card::Unimplemented { name: entry.name.clone(), layout: entry.layout.clone() },
            ),
            _ => {
                match &entry.names {
                    None => Err(ProxygenError::MulticardHasNoNames(entry.name.clone())),
                    Some(names) => {
                        if names.len() != 2 {
                            return Err(
                                ProxygenError::MulticardHasMalformedNames(entry.name.clone()),
                            );
                        }
                        let first_entry = match self.get_entry(names[0].as_str()) {
                            Ok(found) => found,
                            Err(e) => {
                                return Err(e);
                            },
                        };
                        let second_entry = match self.get_entry(names[1].as_str()) {
                            Ok(found) => found,
                            Err(e) => {
                                return Err(e);
                            },
                        };
                        Ok(two_parts(kind, single_face(first_entry), single_face(second_entry)))
                    },
                }
            },
        }
    }
}

} // verus!
