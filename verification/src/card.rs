//! Cards: what a name of a decklist resolves to.

use crate::card::database::{resolution_view, resolve, Database};
use crate::error::ProxygenError;
use vstd::prelude::*;

pub mod database;
pub mod render;

verus! {

/// A resolved card, ready to be drawn.
///
/// A card with one face is a creature, a planeswalker or neither. A card of
/// two parts holds two cards of one face each. A card whose layout the
/// library does not know is kept by its name, to be drawn as a placeholder.
#[derive(Debug, PartialEq, Eq)]
pub enum Card {
    Creature {
        name: String,
        manacost: String,
        typeline: String,
        text: String,
        power: String,
        toughness: String,
    },
    Planeswalker { name: String, manacost: String, typeline: String, text: String, loyalty: u64 },
    Noncreature { name: String, manacost: String, typeline: String, text: String },
    DoubleFaced { front: Box<Card>, back: Box<Card> },
    Split { left: Box<Card>, right: Box<Card> },
    Flip { top: Box<Card>, bottom: Box<Card> },
    Meld { front: Box<Card>, back: Box<Card> },
    Unimplemented { name: String, layout: String },
}

/// A card with its texts as sequences of characters.
pub enum CardView {
    Creature {
        name: Seq<char>,
        manacost: Seq<char>,
        typeline: Seq<char>,
        text: Seq<char>,
        power: Seq<char>,
        toughness: Seq<char>,
    },
    Planeswalker {
        name: Seq<char>,
        manacost: Seq<char>,
        typeline: Seq<char>,
        text: Seq<char>,
        loyalty: u64,
    },
    Noncreature { name: Seq<char>, manacost: Seq<char>, typeline: Seq<char>, text: Seq<char> },
    DoubleFaced { front: Box<CardView>, back: Box<CardView> },
    Split { left: Box<CardView>, right: Box<CardView> },
    Flip { top: Box<CardView>, bottom: Box<CardView> },
    Meld { front: Box<CardView>, back: Box<CardView> },
    Unimplemented { name: Seq<char>, layout: Seq<char> },
}

impl Card {
    /// The card with its texts as sequences of characters.
    pub open spec fn as_view(&self) -> CardView
        decreases self,
    {
        match self {
            Card::Creature { name, manacost, typeline, text, power, toughness } => {
                CardView::Creature {
                    name: name@,
                    manacost: manacost@,
                    typeline: typeline@,
                    text: text@,
                    power: power@,
                    toughness: toughness@,
                }
            },
            Card::Planeswalker { name, manacost, typeline, text, loyalty } => {
                CardView::Planeswalker {
                    name: name@,
                    manacost: manacost@,
                    typeline: typeline@,
                    text: text@,
                    loyalty: *loyalty,
                }
            },
            Card::Noncreature { name, manacost, typeline, text } => CardView::Noncreature {
                name: name@,
                manacost: manacost@,
                typeline: typeline@,
                text: text@,
            },
            Card::DoubleFaced { front, back } => CardView::DoubleFaced {
                front: Box::new(front.as_view()),
                back: Box::new(back.as_view()),
            },
            Card::Split { left, right } => CardView::Split {
                left: Box::new(left.as_view()),
                right: Box::new(right.as_view()),
            },
            Card::Flip { top, bottom } => CardView::Flip {
                top: Box::new(top.as_view()),
                bottom: Box::new(bottom.as_view()),
            },
            Card::Meld { front, back } => CardView::Meld {
                front: Box::new(front.as_view()),
                back: Box::new(back.as_view()),
            },
            Card::Unimplemented { name, layout } => CardView::Unimplemented {
                name: name@,
                layout: layout@,
            },
        }
    }
}

impl Card {
    /// Resolves a name to its card against the reference store `db`.
    pub fn from_name(db: &Database, name: &str) -> (found: Result<Card, ProxygenError>)
        ensures
            resolution_view(found) == resolve(db@, name@),
    {
        db.get(name)
    }
}

impl View for Card {
    type V = CardView;

    open spec fn view(&self) -> CardView {
        self.as_view()
    }
}

impl CardView {
    /// Whether the card is made of two parts.
    pub open spec fn is_two_part(self) -> bool {
        self is DoubleFaced || self is Split || self is Flip || self is Meld
    }

    /// Whether the card has one face: a creature, a planeswalker or neither.
    pub open spec fn is_single(self) -> bool {
        self is Creature || self is Planeswalker || self is Noncreature
    }

    /// The first and the second part of a card of two parts.
    pub open spec fn parts(self) -> (CardView, CardView)
        recommends
            self.is_two_part(),
    {
        match self {
            CardView::DoubleFaced { front, back } => (*front, *back),
            CardView::Split { left, right } => (*left, *right),
            CardView::Flip { top, bottom } => (*top, *bottom),
            CardView::Meld { front, back } => (*front, *back),
            _ => (self, self),
        }
    }

    /// Whether no part of the card is itself made of two parts.
    pub open spec fn is_flat(self) -> bool {
        self.is_two_part() ==> !self.parts().0.is_two_part() && !self.parts().1.is_two_part()
    }

    /// The name of a card that has one: of every card but those of two parts.
    pub open spec fn name(self) -> Seq<char>
        recommends
            !self.is_two_part(),
    {
        match self {
            CardView::Creature { name, .. } => name,
            CardView::Planeswalker { name, .. } => name,
            CardView::Noncreature { name, .. } => name,
            CardView::Unimplemented { name, .. } => name,
            _ => Seq::empty(),
        }
    }
}

} // verus!
