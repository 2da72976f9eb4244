//! What can go wrong between a decklist and its cards.

use vstd::prelude::*;

verus! {

/// The error of `serde_json`, which the host gets when the dataset is not
/// well-formed JSON. The library carries such a value and never looks into
/// it.
#[verifier::external_type_specification]
#[verifier::external_body]
pub struct ExJsonError(serde_json::Error);

/// Why a decklist, or a single name, yielded no cards.
#[derive(Debug)]
pub enum ProxygenError {
    /// The decklist asks for more cards than the ceiling allows.
    TooManyCards,
    /// The line, given trimmed, is no count followed by a name.
    DecklistParseError(String),
    /// The reference store has no record under this key.
    InvalidCardName(String),
    /// The record of this name is a two-part card without a list of parts.
    MulticardHasNoNames(String),
    /// The record of this name is a two-part card whose list of parts does
    /// not hold exactly two names.
    MulticardHasMalformedNames(String),
    /// The dataset could not be decoded.
    JsonError(serde_json::Error),
}

/// An error with its texts as sequences of characters.
pub enum ProxygenErrorView {
    TooManyCards,
    DecklistParseError(Seq<char>),
    InvalidCardName(Seq<char>),
    MulticardHasNoNames(Seq<char>),
    MulticardHasMalformedNames(Seq<char>),
    JsonError(serde_json::Error),
}

impl View for ProxygenError {
    type V = ProxygenErrorView;

    open spec fn view(&self) -> ProxygenErrorView {
        match self {
            ProxygenError::TooManyCards => ProxygenErrorView::TooManyCards,
            ProxygenError::DecklistParseError(line) => ProxygenErrorView::DecklistParseError(
                line@,
            ),
            ProxygenError::InvalidCardName(key) => ProxygenErrorView::InvalidCardName(key@),
            ProxygenError::MulticardHasNoNames(name) => ProxygenErrorView::MulticardHasNoNames(
                name@,
            ),
            ProxygenError::MulticardHasMalformedNames(name) =>
                ProxygenErrorView::MulticardHasMalformedNames(name@),
            ProxygenError::JsonError(e) => ProxygenErrorView::JsonError(*e),
        }
    }
}

impl From<serde_json::Error> for ProxygenError {
    fn from(e: serde_json::Error) -> (err: ProxygenError) {
        ProxygenError::JsonError(e)
    }
}

impl vstd::std_specs::convert::FromSpecImpl<serde_json::Error> for ProxygenError {
    open spec fn obeys_from_spec() -> bool {
        true
    }

    open spec fn from_spec(e: serde_json::Error) -> ProxygenError {
        ProxygenError::JsonError(e)
    }
}

} // verus!
