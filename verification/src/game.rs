//! The rules of play: the moves that exchange cards between the deck and the
//! table, and what holds of every game that is played by them.

use vstd::prelude::*;
use vstd::string::*;
use crate::card::{rank_of, ACE};
use crate::deck::DeckView;
use crate::error::Error;
use crate::row::{add_all, all_cards, lemma_add_all};

verus! {

/// What a player can do with a row.
#[derive(Clone, Copy, Debug, PartialEq, Eq, Structural)]
pub enum Command {
    /// Put the cards of the row back into the deck and start the row anew
    /// with a card from the deck.
    Collapse,
    /// Lay a card from the deck at the left end of the row.
    AddLeft,
    /// Lay a card from the deck at the right end of the row.
    AddRight,
    /// Put the card at the left end of the row back into the deck.
    RemoveLeft,
    /// Put the card at the right end of the row back into the deck.
    RemoveRight,
}

impl Command {
    /// The command that a player's word stands for: `c` collapses, `al` and
    /// `ar` lay a card at the left and at the right, `dl` and `dr` take the
    /// card at the left and at the right off.
    pub open spec fn of_word(word: Seq<char>) -> Option<Command> {
        if word == seq!['c'] {
            Some(Command::Collapse)
        } else if word == seq!['a', 'l'] {
            Some(Command::AddLeft)
        } else if word == seq!['a', 'r'] {
            Some(Command::AddRight)
        } else if word == seq!['d', 'l'] {
            Some(Command::RemoveLeft)
        } else if word == seq!['d', 'r'] {
            Some(Command::RemoveRight)
        } else {
            None
        }
    }

    /// Reads a command from a player's word; `None` where the word stands
    /// for no command.
    pub fn parse(word: &str) -> (command: Option<Command>)
        ensures
            command == Command::of_word(word@),
    {
        let n: usize = word.unicode_len();
        if n == 1 {
            let only: char = word.get_char(0);
            assert(word@ =~= seq![only]);
            assert(seq!['c'][0] == 'c');
            if only == 'c' {
                return Some(Command::Collapse);
            }
            None
        } else if n == 2 {
            let first: char = word.get_char(0);
            let second: char = word.get_char(1);
            assert(word@ =~= seq![first, second]);
            assert(seq!['a', 'l'][0] == 'a' && seq!['a', 'l'][1] == 'l');
            assert(seq!['a', 'r'][0] == 'a' && seq!['a', 'r'][1] == 'r');
            assert(seq!['d', 'l'][0] == 'd' && seq!['d', 'l'][1] == 'l');
            assert(seq!['d', 'r'][0] == 'd' && seq!['d', 'r'][1] == 'r');
            if first == 'a' && second == 'l' {
                Some(Command::AddLeft)
            } else if first == 'a' && second == 'r' {
                Some(Command::AddRight)
            } else if first == 'd' && second == 'l' {
                Some(Command::RemoveLeft)
            } else if first == 'd' && second == 'r' {
                Some(Command::RemoveRight)
            } else {
                None
            }
        } else {
            assert(seq!['c'].len() == 1);
            assert(seq!['a', 'l'].len() == 2);
            assert(seq!['a', 'r'].len() == 2);
            assert(seq!['d', 'l'].len() == 2);
            assert(seq!['d', 'r'].len() == 2);
            None
        }
    }

    /// The move lays a card on the table, which it has to be given.
    pub open spec fn lays_card(self) -> bool {
        self == Command::Collapse || self == Command::AddLeft || self == Command::AddRight
    }

    /// Whether the move lays a card on the table, which it has to be given.
    pub fn needs_card(&self) -> (b: bool)
        ensures
            b == self.lays_card(),
    {
        match self {
            Command::Collapse => true,
            Command::AddLeft => true,
            Command::AddRight => true,
            Command::RemoveLeft => false,
            Command::RemoveRight => false,
        }
    }
}

/// A game as mathematics: the deck, and the rows of card identifiers on the
/// table.
#[verifier::ext_equal]
pub struct GameView {
    /// The deck of the cards that are not on the table.
    pub deck: DeckView,
    /// The rows on the table, each from left to right.
    pub rows: Seq<Seq<Seq<char>>>,
}

/// One move of a game: the row it is made on, what is done, and the card that
/// is laid, if one is.
pub struct Move {
    /// The number of the row, counted from zero.
    pub row: int,
    /// What is done with the row.
    pub command: Command,
    /// The card that is laid, for a move that lays one.
    pub card: Option<Seq<char>>,
}

/// The identifiers that a list of cards holds, in its order.
pub open spec fn identifiers(cards: Seq<String>) -> Seq<Seq<char>> {
    Seq::new(cards.len(), |i: int| cards[i]@)
}

/// The rows of a table on which each of the cards given starts a row of its
/// own.
pub open spec fn rows_of(cards: Seq<Seq<char>>) -> Seq<Seq<Seq<char>>> {
    Seq::new(cards.len(), |i: int| seq![cards[i]])
}

/// How many cards lie in the rows.
pub open spec fn cards_on_table(rows: Seq<Seq<Seq<char>>>) -> nat
    decreases rows.len(),
{
    if rows.len() == 0 {
        0
    } else {
        cards_on_table(rows.drop_last()) + rows.last().len()
    }
}

/// What comes of drawing the cards given from the deck, one after the other:
/// the deck without them, or what the first card that cannot be drawn is
/// refused with.
pub open spec fn draw_all(deck: DeckView, cards: Seq<Seq<char>>) -> Result<DeckView, Error>
    decreases cards.len(),
{
    if cards.len() == 0 {
        Ok(deck)
    } else {
        match draw_all(deck, cards.drop_last()) {
            Ok(before) => before.draw(cards.last()),
            Err(e) => Err(e),
        }
    }
}

impl GameView {
    /// How many cards the game holds, in the deck and on the table.
    pub open spec fn cards(self) -> nat {
        self.deck.size + cards_on_table(self.rows)
    }

    /// No card on the table is in the deck.
    pub open spec fn apart(self) -> bool {
        forall|i: int, j: int|
            0 <= i < self.rows.len() && 0 <= j < self.rows[i].len() ==> !self.deck.has_card(
                #[trigger] self.rows[i][j],
            )
    }

    /// No card lies on the table twice.
    pub open spec fn distinct(self) -> bool {
        forall|i: int, j: int, k: int, l: int|
            0 <= i < self.rows.len() && 0 <= j < self.rows[i].len() && 0 <= k < self.rows.len()
                && 0 <= l < self.rows[k].len() && #[trigger] self.rows[i][j]
                == #[trigger] self.rows[k][l] ==> i == k && j == l
    }

    /// Every card is in one place: in the deck, or at one place on the table.
    pub open spec fn placed(self) -> bool {
        self.apart() && self.distinct()
    }

    /// The game with another deck and with the row numbered `row` replaced.
    pub open spec fn with(self, deck: DeckView, row: int, cards: Seq<Seq<char>>) -> GameView {
        GameView { deck, rows: self.rows.update(row, cards) }
    }

    /// What comes of a move: the game after it, or what the move is refused
    /// with.
    ///
    /// A move on a row that the table does not have is refused. A move that
    /// takes a card off a row is refused where fewer than two cards lie in
    /// the row, and where the deck does not take the card back. A move that
    /// lays a card draws it from the deck first, and is refused where it is
    /// given no card and where the card cannot be drawn; a collapse also
    /// where the deck does not take a card of the row back.
    pub open spec fn play(self, row: int, command: Command, card: Option<Seq<char>>) -> Result<
        GameView,
        Error,
    > {
        if !(0 <= row < self.rows.len()) {
            Err(Error::NoRow)
        } else if command == Command::RemoveLeft || command == Command::RemoveRight {
            let gone = if command == Command::RemoveLeft {
                self.rows[row].first()
            } else {
                self.rows[row].last()
            };
            let left = if command == Command::RemoveLeft {
                self.rows[row].drop_first()
            } else {
                self.rows[row].drop_last()
            };
            if self.rows[row].len() < 2 {
                Err(Error::LastCard)
            } else if !self.deck.is_card(gone) {
                Err(Error::Validation)
            } else {
                Ok(self.with(self.deck.add(gone), row, left))
            }
        } else if card is None {
            Err(Error::NoCard)
        } else {
            let laid = card->0;
            if !self.deck.is_card(laid) {
                Err(Error::Validation)
            } else if !self.deck.has_card(laid) {
                Err(Error::NotInDeck)
            } else if command == Command::Collapse && !all_cards(self.deck, self.rows[row]) {
                Err(Error::Validation)
            } else if self.deck.count(rank_of(laid)) == 0 {
                Err(Error::NotFound)
            } else if command == Command::Collapse {
                Ok(self.with(add_all(self.deck.remove(laid), self.rows[row]), row, seq![laid]))
            } else if command == Command::AddLeft {
                Ok(self.with(self.deck.remove(laid), row, seq![laid] + self.rows[row]))
            } else {
                Ok(self.with(self.deck.remove(laid), row, self.rows[row].push(laid)))
            }
        }
    }

    /// The game after the moves given, made one after the other. A move that
    /// is refused leaves the game as it was.
    pub open spec fn play_all(self, moves: Seq<Move>) -> GameView
        decreases moves.len(),
    {
        if moves.len() == 0 {
            self
        } else {
            let before = self.play_all(moves.drop_last());
            match before.play(moves.last().row, moves.last().command, moves.last().card) {
                Ok(after) => after,
                Err(_) => before,
            }
        }
    }
}

/// Replacing one row changes the number of cards on the table by the
/// difference of the two rows.
pub proof fn lemma_row_replaced(rows: Seq<Seq<Seq<char>>>, row: int, cards: Seq<Seq<char>>)
    requires
        0 <= row < rows.len(),
    ensures
        cards_on_table(rows.update(row, cards)) == cards_on_table(rows) - rows[row].len()
            + cards.len(),
        cards_on_table(rows) >= rows[row].len(),
    decreases rows.len(),
{
    let after = rows.update(row, cards);
    if row == rows.len() - 1 {
        assert(after.drop_last() =~= rows.drop_last());
    } else {
        assert(after.drop_last() =~= rows.drop_last().update(row, cards));
        lemma_row_replaced(rows.drop_last(), row, cards);
    }
}

/// On a part of the table lie no more cards than on the whole of it.
pub proof fn lemma_cards_on_part(rows: Seq<Seq<Seq<char>>>, k: int)
    requires
        0 <= k <= rows.len(),
    ensures
        cards_on_table(rows.take(k)) <= cards_on_table(rows),
    decreases rows.len(),
{
    if k < rows.len() {
        assert(rows.drop_last().take(k) =~= rows.take(k));
        lemma_cards_on_part(rows.drop_last(), k);
    } else {
        assert(rows.take(k) =~= rows);
    }
}

/// On a table on which every card starts a row of its own lie as many cards
/// as there are rows.
pub proof fn lemma_rows_of(cards: Seq<Seq<char>>)
    ensures
        cards_on_table(rows_of(cards)) == cards.len(),
    decreases cards.len(),
{
    if cards.len() > 0 {
        assert(rows_of(cards).drop_last() =~= rows_of(cards.drop_last()));
        lemma_rows_of(cards.drop_last());
    }
}

/// A move leaves the deck well formed.
pub proof fn lemma_play_wf(game: GameView, row: int, command: Command, card: Option<Seq<char>>)
    requires
        game.deck.wf(),
    ensures
        match game.play(row, command, card) {
            Ok(after) => after.deck.wf() && after.rows.len() == game.rows.len(),
            Err(_) => true,
        },
{
    match game.play(row, command, card) {
        Ok(after) => {
            if command == Command::RemoveLeft {
                game.deck.lemma_add_wf(game.rows[row].first());
            } else if command == Command::RemoveRight {
                game.deck.lemma_add_wf(game.rows[row].last());
            } else {
                let laid = card->0;
                game.deck.lemma_remove_wf(laid);
                if command == Command::Collapse {
                    lemma_dealt_deck_takes_back(game.deck, laid, game.rows[row]);
                    lemma_add_all(game.deck.remove(laid), game.rows[row]);
                }
            }
        },
        Err(_) => {},
    }
}

/// A deck takes back the same cards after one card has been drawn from it.
pub proof fn lemma_dealt_deck_takes_back(deck: DeckView, laid: Seq<char>, cards: Seq<Seq<char>>)
    requires
        deck.tracks(rank_of(laid)),
        all_cards(deck, cards),
    ensures
        all_cards(deck.remove(laid), cards),
{
    assert(deck.remove(laid).rank_counts.dom() =~= deck.rank_counts.dom());
    assert forall|i: int| 0 <= i < cards.len() implies deck.remove(laid).is_card(
        #[trigger] cards[i],
    ) by {
        assert(deck.is_card(cards[i]));
    }
}

/// Conservation, for one move: whatever the move, the game holds as many
/// cards after it as before.
pub proof fn lemma_play_conserves(
    game: GameView,
    row: int,
    command: Command,
    card: Option<Seq<char>>,
)
    requires
        game.deck.wf(),
    ensures
        match game.play(row, command, card) {
            Ok(after) => after.cards() == game.cards(),
            Err(_) => true,
        },
{
    match game.play(row, command, card) {
        Ok(after) => {
            lemma_row_replaced(game.rows, row, after.rows[row]);
            if command.lays_card() {
                let laid = card->0;
                game.deck.lemma_remove_wf(laid);
                if command == Command::Collapse {
                    lemma_dealt_deck_takes_back(game.deck, laid, game.rows[row]);
                    lemma_add_all(game.deck.remove(laid), game.rows[row]);
                }
            }
        },
        Err(_) => {},
    }
}

/// Conservation: through every sequence of moves the number of cards in the
/// deck and on the table together stays what it was at the start.
pub proof fn lemma_conservation(game: GameView, moves: Seq<Move>)
    requires
        game.deck.wf(),
    ensures
        game.play_all(moves).cards() == game.cards(),
        game.play_all(moves).deck.wf(),
    decreases moves.len(),
{
    if moves.len() > 0 {
        let before = game.play_all(moves.drop_last());
        let last = moves.last();
        lemma_conservation(game, moves.drop_last());
        lemma_play_conserves(before, last.row, last.command, last.card);
        lemma_play_wf(before, last.row, last.command, last.card);
    }
}

/// The count of a collapse: a row of `n` cards that is collapsed is left
/// with one card, and the deck with `n - 1` cards more: `n` came back and
/// one was drawn.
pub proof fn lemma_collapse_count(game: GameView, row: int, card: Option<Seq<char>>)
    requires
        game.deck.wf(),
    ensures
        match game.play(row, Command::Collapse, card) {
            Ok(after) => after.rows[row].len() == 1 && after.deck.size == game.deck.size
                + game.rows[row].len() - 1,
            Err(_) => true,
        },
{
    match game.play(row, Command::Collapse, card) {
        Ok(after) => {
            let laid = card->0;
            game.deck.lemma_remove_wf(laid);
            lemma_dealt_deck_takes_back(game.deck, laid, game.rows[row]);
            lemma_add_all(game.deck.remove(laid), game.rows[row]);
        },
        Err(_) => {},
    }
}

/// Placement, for one move: where every card is in one place before a
/// move, every card is in one place after it.
pub proof fn lemma_play_placed(
    game: GameView,
    row: int,
    command: Command,
    card: Option<Seq<char>>,
)
    requires
        game.deck.wf(),
        game.placed(),
    ensures
        match game.play(row, command, card) {
            Ok(after) => after.placed(),
            Err(_) => true,
        },
{
    match game.play(row, command, card) {
        Ok(after) => {
            let old_row = game.rows[row];
            let new_row = after.rows[row];
            if !command.lays_card() {
                let shift: int = if command == Command::RemoveLeft {
                    1
                } else {
                    0
                };
                let gone = if command == Command::RemoveLeft {
                    old_row.first()
                } else {
                    old_row.last()
                };
                let at: int = if command == Command::RemoveLeft {
                    0
                } else {
                    old_row.len() - 1
                };
                assert(gone == game.rows[row][at]);
                assert forall|i: int, j: int|
                    0 <= i < after.rows.len() && 0 <= j < after.rows[i].len() implies (i == row
                    ==> after.rows[i][j] == game.rows[i][j + shift] && j + shift != at) && (i
                    != row ==> after.rows[i][j] == game.rows[i][j]) by {}
                assert forall|i: int, j: int|
                    0 <= i < after.rows.len() && 0 <= j < after.rows[i].len()
                    implies !after.deck.has_card(#[trigger] after.rows[i][j]) by {
                    if i == row {
                        assert(after.rows[i][j] == game.rows[i][j + shift]);
                    } else {
                        assert(after.rows[i][j] == game.rows[i][j]);
                    }
                }
                assert forall|i: int, j: int, k: int, l: int|
                    0 <= i < after.rows.len() && 0 <= j < after.rows[i].len() && 0 <= k
                        < after.rows.len() && 0 <= l < after.rows[k].len()
                        && #[trigger] after.rows[i][j]
                        == #[trigger] after.rows[k][l] implies i == k && j == l by {
                    let j0 = if i == row {
                        j + shift
                    } else {
                        j
                    };
                    let l0 = if k == row {
                        l + shift
                    } else {
                        l
                    };
                    assert(after.rows[i][j] == game.rows[i][j0]);
                    assert(after.rows[k][l] == game.rows[k][l0]);
                }
            } else {
                let laid = card->0;
                assert(game.deck.has_card(laid));
                assert forall|i: int, j: int|
                    0 <= i < game.rows.len() && 0 <= j < game.rows[i].len()
                    implies #[trigger] game.rows[i][j] != laid by {}
                if command == Command::Collapse {
                    let drawn = game.deck.remove(laid);
                    game.deck.lemma_remove_wf(laid);
                    lemma_dealt_deck_takes_back(game.deck, laid, old_row);
                    lemma_add_all(drawn, old_row);
                    assert(!old_row.contains(laid)) by {
                        if old_row.contains(laid) {
                            let j = choose|j: int| 0 <= j < old_row.len() && old_row[j] == laid;
                            assert(game.rows[row][j] == laid);
                        }
                    }
                    assert forall|i: int, j: int|
                        0 <= i < after.rows.len() && 0 <= j < after.rows[i].len()
                        implies !after.deck.has_card(#[trigger] after.rows[i][j]) by {
                        let lying = after.rows[i][j];
                        if i == row {
                            assert(lying == laid);
                        } else {
                            assert(lying == game.rows[i][j]);
                            if old_row.contains(lying) {
                                let l = choose|l: int| 0 <= l < old_row.len() && old_row[l] == lying;
                                assert(game.rows[row][l] == game.rows[i][j]);
                            }
                        }
                    }
                    assert forall|i: int, j: int, k: int, l: int|
                        0 <= i < after.rows.len() && 0 <= j < after.rows[i].len() && 0 <= k
                            < after.rows.len() && 0 <= l < after.rows[k].len()
                            && #[trigger] after.rows[i][j]
                            == #[trigger] after.rows[k][l] implies i == k && j == l by {
                        if i != row {
                            assert(after.rows[i][j] == game.rows[i][j]);
                        }
                        if k != row {
                            assert(after.rows[k][l] == game.rows[k][l]);
                        }
                    }
                } else {
                    let shift: int = if command == Command::AddLeft {
                        1
                    } else {
                        0
                    };
                    let at: int = if command == Command::AddLeft {
                        0
                    } else {
                        old_row.len() as int
                    };
                    assert forall|i: int, j: int|
                        0 <= i < after.rows.len() && 0 <= j < after.rows[i].len() implies (i
                        == row && j == at ==> after.rows[i][j] == laid) && (i == row && j != at
                        ==> after.rows[i][j] == game.rows[i][j - shift]) && (i != row
                        ==> after.rows[i][j] == game.rows[i][j]) by {}
                    assert forall|i: int, j: int|
                        0 <= i < after.rows.len() && 0 <= j < after.rows[i].len()
                        implies !after.deck.has_card(#[trigger] after.rows[i][j]) by {
                        if i == row && j != at {
                            assert(after.rows[i][j] == game.rows[i][j - shift]);
                        } else if i != row {
                            assert(after.rows[i][j] == game.rows[i][j]);
                        }
                    }
                    assert forall|i: int, j: int, k: int, l: int|
                        0 <= i < after.rows.len() && 0 <= j < after.rows[i].len() && 0 <= k
                            < after.rows.len() && 0 <= l < after.rows[k].len()
                            && #[trigger] after.rows[i][j]
                            == #[trigger] after.rows[k][l] implies i == k && j == l by {
                        if i == row && j != at {
                            assert(after.rows[i][j] == game.rows[i][j - shift]);
                        } else if i != row {
                            assert(after.rows[i][j] == game.rows[i][j]);
                        }
                        if k == row && l != at {
                            assert(after.rows[k][l] == game.rows[k][l - shift]);
                        } else if k != row {
                            assert(after.rows[k][l] == game.rows[k][l]);
                        }
                    }
                }
            }
        },
        Err(_) => {},
    }
}

/// Placement: where every card is in one place at the start, no sequence of
/// moves brings a card into the deck and onto the table at once, or onto the
/// table twice.
pub proof fn lemma_placement(game: GameView, moves: Seq<Move>)
    requires
        game.deck.wf(),
        game.placed(),
    ensures
        game.play_all(moves).placed(),
    decreases moves.len(),
{
    if moves.len() > 0 {
        let before = game.play_all(moves.drop_last());
        let last = moves.last();
        lemma_placement(game, moves.drop_last());
        lemma_conservation(game, moves.drop_last());
        lemma_play_placed(before, last.row, last.command, last.card);
    }
}

/// Dealing: where the first cards of the rows can be drawn from a deck one
/// after the other, the deck is left well formed and smaller by their
/// number, none of them is in the deck any more, and no two of them are the
/// same card. So the game starts with every card in one place.
pub proof fn lemma_deal(deck: DeckView, cards: Seq<Seq<char>>)
    requires
        deck.wf(),
    ensures
        match draw_all(deck, cards) {
            Ok(after) => {
                let game = GameView { deck: after, rows: rows_of(cards) };
                &&& after.wf()
                &&& game.cards() == deck.size
                &&& game.placed()
                &&& after.rank_counts.dom() == deck.rank_counts.dom()
                &&& forall|card: Seq<char>|
                    after.has_card(card) <==> deck.has_card(card) && !cards.contains(card)
            },
            Err(_) => true,
        },
    decreases cards.len(),
{
    match draw_all(deck, cards) {
        Ok(after) => {
            let game = GameView { deck: after, rows: rows_of(cards) };
            lemma_rows_of(cards);
            if cards.len() > 0 {
                let rest = cards.drop_last();
                let last = cards.last();
                let before = draw_all(deck, rest)->Ok_0;
                lemma_deal(deck, rest);
                lemma_rows_of(rest);
                before.lemma_remove_wf(last);
                assert(after.rank_counts.dom() =~= deck.rank_counts.dom());
                assert(!rest.contains(last));
                assert forall|card: Seq<char>|
                    after.has_card(card) <==> deck.has_card(card) && !cards.contains(card) by {
                    if cards.contains(card) {
                        let i = choose|i: int| 0 <= i < cards.len() && cards[i] == card;
                        if i < rest.len() {
                            assert(rest[i] == card);
                        }
                    }
                    if rest.contains(card) {
                        let i = choose|i: int| 0 <= i < rest.len() && rest[i] == card;
                        assert(cards[i] == card);
                    }
                    assert(cards[cards.len() - 1] == last);
                }
                assert forall|i: int, j: int|
                    0 <= i < game.rows.len() && 0 <= j < game.rows[i].len()
                    implies !after.has_card(#[trigger] game.rows[i][j]) by {
                    assert(game.rows[i][j] == cards[i]);
                    assert(cards.contains(cards[i]));
                }
                assert forall|i: int, j: int, k: int, l: int|
                    0 <= i < game.rows.len() && 0 <= j < game.rows[i].len() && 0 <= k
                        < game.rows.len() && 0 <= l < game.rows[k].len()
                        && #[trigger] game.rows[i][j]
                        == #[trigger] game.rows[k][l] implies i == k && j == l by {
                    let earlier = GameView { deck: before, rows: rows_of(rest) };
                    assert(game.rows[i][j] == cards[i]);
                    assert(game.rows[k][l] == cards[k]);
                    if i < rest.len() && k < rest.len() {
                        assert(earlier.rows[i][j] == rest[i]);
                        assert(earlier.rows[k][l] == rest[k]);
                    } else if i < rest.len() {
                        assert(rest[i] == last);
                    } else if k < rest.len() {
                        assert(rest[k] == last);
                    }
                }
            } else {
                assert(forall|card: Seq<char>| !cards.contains(card));
            }
        },
        Err(_) => {},
    }
}

/// A card that has been drawn can be put back, and the deck is then what it
/// was before.
pub proof fn lemma_draw_undone(deck: DeckView, card: Seq<char>)
    requires
        deck.wf(),
        deck.draw(card) is Ok,
    ensures
        deck.draw(card)->Ok_0.wf(),
        deck.draw(card)->Ok_0.is_card(card),
        deck.draw(card)->Ok_0.size + 1 == deck.size,
        deck.draw(card)->Ok_0.add(card) == deck,
{
    let after = deck.remove(card);
    deck.lemma_remove_wf(card);
    assert(after.rank_counts.dom() =~= deck.rank_counts.dom());
    assert(after.add(card).membership =~= deck.membership);
    assert(after.add(card).rank_counts =~= deck.rank_counts);
    assert(after.add(card) =~= deck);
}

/// Once a card cannot be drawn, the cards after it do not matter.
pub proof fn lemma_draw_all_refused(deck: DeckView, cards: Seq<Seq<char>>, k: int)
    requires
        0 <= k <= cards.len(),
        draw_all(deck, cards.take(k)) is Err,
    ensures
        draw_all(deck, cards) == draw_all(deck, cards.take(k)),
    decreases cards.len(),
{
    if k < cards.len() {
        assert(cards.drop_last().take(k) =~= cards.take(k));
        lemma_draw_all_refused(deck, cards.drop_last(), k);
    } else {
        assert(cards.take(k) =~= cards);
    }
}

/// True counts stay true when cards come back of which none was in the deck
/// and no two are the same.
pub proof fn lemma_add_all_exact(deck: DeckView, cards: Seq<Seq<char>>)
    requires
        deck.wf(),
        deck.exact(),
        all_cards(deck, cards),
        cards.no_duplicates(),
        forall|i: int| 0 <= i < cards.len() ==> !deck.has_card(#[trigger] cards[i]),
    ensures
        add_all(deck, cards).exact(),
    decreases cards.len(),
{
    if cards.len() > 0 {
        let rest = cards.drop_last();
        let last = cards.last();
        let before = add_all(deck, rest);
        assert forall|i: int| 0 <= i < rest.len() implies deck.is_card(#[trigger] rest[i])
            && !deck.has_card(rest[i]) by {
            assert(rest[i] == cards[i]);
        }
        lemma_add_all_exact(deck, rest);
        lemma_add_all(deck, rest);
        assert(deck.is_card(last));
        assert(!rest.contains(last)) by {
            if rest.contains(last) {
                let i = choose|i: int| 0 <= i < rest.len() && rest[i] == last;
                assert(cards[i] == cards[cards.len() - 1]);
            }
        }
        before.lemma_add_exact(last);
    }
}

/// True counts, for one move: in a game in which every card is in one
/// place, a move leaves the counts of the deck true.
pub proof fn lemma_play_exact(game: GameView, row: int, command: Command, card: Option<Seq<char>>)
    requires
        game.deck.wf(),
        game.deck.exact(),
        game.placed(),
    ensures
        match game.play(row, command, card) {
            Ok(after) => after.deck.exact(),
            Err(e) => e != Error::NotFound,
        },
{
    match game.play(row, command, card) {
        Ok(after) => {
            let cards = game.rows[row];
            if command == Command::RemoveLeft {
                assert(cards.first() == game.rows[row][0]);
                game.deck.lemma_add_exact(cards.first());
            } else if command == Command::RemoveRight {
                assert(cards.last() == game.rows[row][cards.len() - 1]);
                game.deck.lemma_add_exact(cards.last());
            } else {
                let laid = card->0;
                let drawn = game.deck.remove(laid);
                game.deck.lemma_remove_exact(laid);
                game.deck.lemma_remove_wf(laid);
                if command == Command::Collapse {
                    lemma_dealt_deck_takes_back(game.deck, laid, cards);
                    assert forall|i: int| 0 <= i < cards.len() implies !drawn.has_card(
                        #[trigger] cards[i],
                    ) by {
                        assert(cards[i] == game.rows[row][i]);
                    }
                    assert forall|i: int, j: int|
                        0 <= i < cards.len() && 0 <= j < cards.len() && i != j implies cards[i]
                        != cards[j] by {
                        assert(cards[i] == game.rows[row][i]);
                        assert(cards[j] == game.rows[row][j]);
                    }
                    lemma_add_all_exact(drawn, cards);
                }
            }
        },
        Err(e) => {
            if command.lays_card() && card is Some && game.deck.has_card(card->0) {
                game.deck.lemma_remove_exact(card->0);
            }
        },
    }
}

/// True counts: in a game that starts with true counts and with every card
/// in one place, the counts of the deck stay true through every sequence of
/// moves.
pub proof fn lemma_exactness(game: GameView, moves: Seq<Move>)
    requires
        game.deck.wf(),
        game.deck.exact(),
        game.placed(),
    ensures
        game.play_all(moves).deck.exact(),
    decreases moves.len(),
{
    if moves.len() > 0 {
        let before = game.play_all(moves.drop_last());
        let last = moves.last();
        lemma_exactness(game, moves.drop_last());
        lemma_placement(game, moves.drop_last());
        lemma_conservation(game, moves.drop_last());
        lemma_play_exact(before, last.row, last.command, last.card);
    }
}

/// Dealing from a deck with true counts leaves the counts true, and is
/// refused only for a card that is no card of the deck or is not in it.
pub proof fn lemma_deal_exact(deck: DeckView, cards: Seq<Seq<char>>)
    requires
        deck.wf(),
        deck.exact(),
    ensures
        match draw_all(deck, cards) {
            Ok(after) => after.exact(),
            Err(e) => e == Error::Validation || e == Error::NotInDeck,
        },
    decreases cards.len(),
{
    if cards.len() > 0 {
        lemma_deal_exact(deck, cards.drop_last());
        match draw_all(deck, cards.drop_last()) {
            Ok(before) => {
                before.lemma_draw_exact(cards.last());
            },
            Err(_) => {},
        }
    }
}

/// Every game: take a deck as it is made, deal the first cards from it, and
/// make any moves. Then the deck and the table together hold as many cards
/// as the deck was made with, every card is in one place, and the deck counts
/// of every rank the cards that are in it.
pub proof fn lemma_every_game(ranks: nat, first: Seq<Seq<char>>, moves: Seq<Move>)
    requires
        ranks <= ACE - 1,
        draw_all(DeckView::fresh(ranks), first) is Ok,
    ensures
        ({
            let dealt = draw_all(DeckView::fresh(ranks), first)->Ok_0;
            let game = GameView { deck: dealt, rows: rows_of(first) }.play_all(moves);
            &&& game.cards() == 4 * ranks
            &&& game.placed()
            &&& game.deck.wf()
            &&& game.deck.exact()
        }),
{
    let made = DeckView::fresh(ranks);
    let start = GameView { deck: draw_all(made, first)->Ok_0, rows: rows_of(first) };
    DeckView::lemma_fresh_wf(ranks);
    DeckView::lemma_fresh_exact(ranks);
    lemma_deal(made, first);
    lemma_deal_exact(made, first);
    lemma_conservation(start, moves);
    lemma_placement(start, moves);
    lemma_exactness(start, moves);
}

} // verus!
