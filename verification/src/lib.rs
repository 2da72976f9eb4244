//! Printable proxies of cards from a decklist written as free text.
//!
//! A decklist is read line by line ([`decklist`]); each name is brought into
//! the form of a key ([`sanitize`]) and looked up in a reference store that
//! is built once from a dataset ([`card::database`]); the record found is
//! made into a card ([`card`]), which can be drawn as markup
//! ([`card::render`]).

pub mod card;
pub mod decklist;
pub mod error;
pub mod sanitize;
pub mod text;

pub use card::database::{make_database, Database, DatabaseEntry};
pub use card::Card;
pub use decklist::{parse_decklist, MAX_CARDS};
pub use error::ProxygenError;
pub use sanitize::sanitize_name;
