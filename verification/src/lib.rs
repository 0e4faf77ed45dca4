//! A single-deck Hi-Lo patience game: the deck of undealt cards, the rows of
//! cards on the table, and the moves that exchange cards between them.

pub mod card;
pub mod deck;
pub mod error;
pub mod game;
pub mod render;
pub mod row;
pub mod table;

pub use deck::Deck;
pub use error::Error;
pub use game::Command;
pub use row::Row;
pub use table::Table;
