//! The ways in which an operation of the game can be refused.

use vstd::prelude::*;

verus! {

/// Why an operation was refused. An operation that reports an error has
/// changed nothing.
#[derive(Clone, Copy, Debug, PartialEq, Eq, Structural)]
pub enum Error {
    /// A deck size that is not a multiple of four or is over the limit, or a
    /// table whose row count differs from the number of its first cards.
    Construction,
    /// A card identifier that is not `<suit><rank>` with a rank this deck holds.
    Validation,
    /// A rank of which the deck tracks no card.
    NotFound,
    /// A card identifier whose rank is not a number.
    Parse,
    /// A deck with no card in it, of which no chance can be given.
    EmptyDeck,
    /// A row of fewer than two cards, from which none may be taken.
    LastCard,
    /// A card that is to be laid on the table and is not in the deck.
    NotInDeck,
    /// A row number that the table does not have.
    NoRow,
    /// A move that lays a card, made without a card.
    NoCard,
}

impl Error {
    /// What is said to a player of each error.
    pub open spec fn text(self) -> Seq<char> {
        match self {
            Error::Construction => "Invalid deck size or card amount"@,
            Error::Validation => "Invalid card"@,
            Error::NotFound => "Card value not in deck"@,
            Error::Parse => "Invalid card value"@,
            Error::EmptyDeck => "No cards left in deck"@,
            Error::LastCard => "Cannot remove last card in row"@,
            Error::NotInDeck => "Card not in deck"@,
            Error::NoRow => "Row does not exist"@,
            Error::NoCard => "No card given"@,
        }
    }

    /// What to say to a player of the error.
    pub fn message(&self) -> (text: &'static str)
        ensures
            text@ == self.text(),
    {
        match self {
            Error::Construction => "Invalid deck size or card amount",
            Error::Validation => "Invalid card",
            Error::NotFound => "Card value not in deck",
            Error::Parse => "Invalid card value",
            Error::EmptyDeck => "No cards left in deck",
            Error::LastCard => "Cannot remove last card in row",
            Error::NotInDeck => "Card not in deck",
            Error::NoRow => "Row does not exist",
            Error::NoCard => "No card given",
        }
    }
}

} // verus!
