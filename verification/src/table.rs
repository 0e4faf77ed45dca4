//! The table: the rows of cards in play.

use vstd::prelude::*;
use crate::deck::{Deck, DeckView};
use crate::error::Error;
use crate::game::{
    cards_on_table, draw_all, identifiers, lemma_cards_on_part, lemma_deal, lemma_deal_exact,
    lemma_dealt_deck_takes_back, lemma_draw_all_refused, lemma_draw_undone,
    lemma_play_conserves, lemma_play_exact, lemma_play_placed, rows_of,
    Command, GameView,
};
use crate::row::{lemma_add_all, Row};

verus! {

/// The identifier of the card that a move is given, if it is given one.
pub open spec fn identifier(card: Option<String>) -> Option<Seq<char>> {
    match card {
        Some(c) => Some(c@),
        None => None,
    }
}

/// The rows of cards in play, from the first row to the last.
pub struct Table {
    /// The rows, each with the cards that lie in it.
    pub rows: Vec<Row>,
}

impl View for Table {
    type V = Seq<Seq<Seq<char>>>;

    open spec fn view(&self) -> Seq<Seq<Seq<char>>> {
        Seq::new(self.rows@.len(), |i: int| self.rows@[i]@)
    }
}

impl Table {
    /// No row of the table is empty.
    pub open spec fn wf(&self) -> bool {
        forall|i: int| 0 <= i < self@.len() ==> (#[trigger] self@[i]).len() > 0
    }

    /// Makes a table of `row_count` rows, the row at each place starting with
    /// the card at that place in `cards`. Refused is a `row_count` that is
    /// not the number of cards.
    pub fn new(row_count: usize, cards: Vec<String>) -> (r: Result<Table, Error>)
        ensures
            match r {
                Ok(table) => {
                    &&& row_count == cards@.len()
                    &&& table@ == rows_of(identifiers(cards@))
                    &&& table.wf()
                },
                Err(e) => row_count != cards@.len() && e == Error::Construction,
            },
    {
        if row_count != cards.len() {
            return Err(Error::Construction);
        }
        let mut rows: Vec<Row> = Vec::new();
        let mut i: usize = 0;
        while i < row_count
            invariant
                row_count == cards@.len(),
                i <= row_count,
                rows@.len() == i,
                forall|j: int| 0 <= j < i ==> (#[trigger] rows@[j])@ == seq![cards@[j]@],
            decreases row_count - i,
        {
            rows.push(Row::new(cards[i].clone()));
            i = i + 1;
        }
        let table = Table { rows };
        assert(table@ =~= rows_of(identifiers(cards@)));
        Ok(table)
    }

    /// Whether the table has a row with this number, counted from zero.
    pub fn has_row(&self, row_num: usize) -> (b: bool)
        ensures
            b == (row_num < self@.len()),
    {
        row_num < self.rows.len()
    }

    /// How many cards lie on the table; `None` where their number does not
    /// fit a machine word.
    pub fn count_cards(&self) -> (n: Option<usize>)
        ensures
            match n {
                Some(k) => k == cards_on_table(self@),
                None => cards_on_table(self@) > usize::MAX,
            },
    {
        let rows: usize = self.rows.len();
        let mut count: usize = 0;
        let mut i: usize = 0;
        while i < rows
            invariant
                rows == self@.len(),
                i <= rows,
                count == cards_on_table(self@.take(i as int)),
            decreases rows - i,
        {
            proof {
                assert(self@.take(i + 1).drop_last() =~= self@.take(i as int));
                assert(self@.take(i + 1).last() == self@[i as int]);
                lemma_cards_on_part(self@, i + 1);
            }
            let n: usize = self.rows[i].len();
            if n > usize::MAX - count {
                return None;
            }
            count = count + n;
            i = i + 1;
        }
        assert(self@.take(rows as int) =~= self@);
        Some(count)
    }

    /// The number, counted from zero, of the row that a player calls by
    /// `number`, counted from one; `None` where the table has no such row.
    pub fn row_index(&self, number: usize) -> (index: Option<usize>)
        ensures
            match index {
                Some(i) => 1 <= number <= self@.len() && i == number - 1,
                None => number == 0 || number > self@.len(),
            },
    {
        if number >= 1 && self.has_row(number - 1) {
            Some(number - 1)
        } else {
            None
        }
    }

    /// The game that the table makes with a deck.
    pub open spec fn with(&self, deck: &Deck) -> GameView {
        GameView { deck: deck@, rows: self@ }
    }

    /// Deals the first cards: draws each of `cards` from the deck, one after
    /// the other, and makes the table of `row_count` rows that they start.
    /// Refused, with the deck unchanged, are a `row_count` that is not the
    /// number of cards, and cards of which one cannot be drawn: one that is
    /// no card of the deck, is not in it, or is given twice.
    ///
    /// The game starts with every card in one place, and with as many cards
    /// as the deck held.
    pub fn deal(deck: &mut Deck, row_count: usize, cards: Vec<String>) -> (r: Result<Table, Error>)
        requires
            old(deck).wf(),
        ensures
            final(deck).wf(),
            old(deck)@.exact() ==> final(deck)@.exact(),
            match r {
                Ok(table) => {
                    &&& row_count == cards@.len()
                    &&& draw_all(old(deck)@, identifiers(cards@)) == Ok::<DeckView, Error>(
                        final(deck)@,
                    )
                    &&& table@ == rows_of(identifiers(cards@))
                    &&& table.wf()
                    &&& table.with(final(deck)).placed()
                    &&& table.with(final(deck)).cards() == old(deck)@.size
                },
                Err(e) => {
                    &&& final(deck)@ == old(deck)@
                    &&& if row_count != cards@.len() {
                        e == Error::Construction
                    } else {
                        draw_all(old(deck)@, identifiers(cards@)) == Err::<DeckView, Error>(e)
                    }
                },
            },
    {
        if row_count != cards.len() {
            return Err(Error::Construction);
        }
        let ghost start = deck@;
        let ghost wanted = identifiers(cards@);
        proof {
            deck.lemma_size_fits();
        }
        let n: usize = cards.len();
        let mut i: usize = 0;
        while i < n
            invariant
                n == cards@.len(),
                wanted == identifiers(cards@),
                i <= n,
                row_count == n,
                start == old(deck)@,
                start.wf(),
                start.size <= usize::MAX,
                deck.wf(),
                draw_all(start, wanted.take(i as int)) == Ok::<DeckView, Error>(deck@),
            decreases n - i,
        {
            proof {
                assert(wanted.take(i + 1).drop_last() =~= wanted.take(i as int));
                assert(wanted.take(i + 1).last() == cards@[i as int]@);
            }
            match deck.draw(&cards[i]) {
                Ok(()) => {
                    i = i + 1;
                },
                Err(e) => {
                    proof {
                        lemma_draw_all_refused(start, wanted, i + 1);
                    }
                    let mut j: usize = i;
                    while j > 0
                        invariant
                            n == cards@.len(),
                            wanted == identifiers(cards@),
                            j <= i < n,
                            row_count == n,
                            start == old(deck)@,
                            start.wf(),
                            start.size <= usize::MAX,
                            draw_all(start, wanted) == Err::<DeckView, Error>(e),
                            deck.wf(),
                            draw_all(start, wanted.take(j as int)) == Ok::<DeckView, Error>(
                                deck@,
                            ),
                        decreases j,
                    {
                        j = j - 1;
                        proof {
                            let earlier = draw_all(start, wanted.take(j as int));
                            assert(wanted.take(j + 1).drop_last() =~= wanted.take(j as int));
                            assert(wanted.take(j + 1).last() == cards@[j as int]@);
                            assert(earlier is Ok);
                            lemma_deal(start, wanted.take(j as int));
                            lemma_draw_undone(earlier->Ok_0, cards@[j as int]@);
                        }
                        let back = deck.add(cards[j].clone());
                        assert(back is Ok);
                    }
                    assert(wanted.take(0) =~= Seq::<Seq<char>>::empty());
                    return Err(e);
                },
            }
        }
        proof {
            assert(wanted.take(n as int) =~= wanted);
            lemma_deal(start, wanted);
            if start.exact() {
                lemma_deal_exact(start, wanted);
            }
        }
        Table::new(row_count, cards)
    }

    /// Makes a move on the row numbered `row_num`: takes a card off one end
    /// of it and puts it back into the deck, or draws `card` from the deck
    /// and lays it at one end, or in place of the whole row. What is done,
    /// and what refused, is what [`GameView::play`] says. A move that is
    /// refused changes nothing.
    ///
    /// Whatever the move, the game holds as many cards after it as before;
    /// and where every card was in one place before, it is so after, and
    /// counts of the deck that were true stay true. The size of the deck
    /// after the move has to fit a machine word.
    pub fn play(
        &mut self,
        deck: &mut Deck,
        row_num: usize,
        command: Command,
        card: Option<String>,
    ) -> (r: Result<(), Error>)
        requires
            old(deck).wf(),
            match old(self).with(old(deck)).play(row_num as int, command, identifier(card)) {
                Ok(after) => after.deck.size <= usize::MAX,
                Err(_) => true,
            },
        ensures
            final(deck).wf(),
            old(self).wf() ==> final(self).wf(),
            final(self).with(final(deck)).cards() == old(self).with(old(deck)).cards(),
            old(self).with(old(deck)).placed() ==> final(self).with(final(deck)).placed(),
            old(self).with(old(deck)).placed() && old(deck)@.exact() ==> final(deck)@.exact(),
            match r {
                Ok(()) => old(self).with(old(deck)).play(
                    row_num as int,
                    command,
                    identifier(card),
                ) == Ok::<GameView, Error>(final(self).with(final(deck))),
                Err(e) => {
                    &&& old(self).with(old(deck)).play(row_num as int, command, identifier(card))
                        == Err::<GameView, Error>(e)
                    &&& final(self)@ == old(self)@
                    &&& final(deck)@ == old(deck)@
                },
            },
    {
        let ghost game = self.with(deck);
        proof {
            lemma_play_conserves(game, row_num as int, command, identifier(card));
            if game.placed() {
                lemma_play_placed(game, row_num as int, command, identifier(card));
                if game.deck.exact() {
                    lemma_play_exact(game, row_num as int, command, identifier(card));
                }
            }
        }
        if row_num >= self.rows.len() {
            return Err(Error::NoRow);
        }
        match command {
            Command::RemoveLeft => {
                let r = self.rows[row_num].remove_left(deck);
                proof {
                    if r is Ok {
                        assert(self@ =~= game.rows.update(
                            row_num as int,
                            game.rows[row_num as int].drop_first(),
                        ));
                    } else {
                        assert(self@ =~= game.rows);
                    }
                }
                r
            },
            Command::RemoveRight => {
                let r = self.rows[row_num].remove_right(deck);
                proof {
                    if r is Ok {
                        assert(self@ =~= game.rows.update(
                            row_num as int,
                            game.rows[row_num as int].drop_last(),
                        ));
                    } else {
                        assert(self@ =~= game.rows);
                    }
                }
                r
            },
            _ => {
                let laid = match card {
                    Some(c) => c,
                    None => {
                        return Err(Error::NoCard);
                    },
                };
                if command == Command::Collapse {
                    if !deck.is_card(&laid) {
                        return Err(Error::Validation);
                    }
                    if !deck.has_card(&laid) {
                        return Err(Error::NotInDeck);
                    }
                    if !self.rows[row_num].returnable(deck) {
                        return Err(Error::Validation);
                    }
                }
                match deck.draw(&laid) {
                    Ok(()) => {},
                    Err(e) => {
                        return Err(e);
                    },
                }
                proof {
                    game.deck.lemma_remove_wf(laid@);
                }
                match command {
                    Command::Collapse => {
                        proof {
                            lemma_dealt_deck_takes_back(
                                game.deck,
                                laid@,
                                game.rows[row_num as int],
                            );
                            lemma_add_all(game.deck.remove(laid@), game.rows[row_num as int]);
                        }
                        let r = self.rows[row_num].collapse(laid, deck);
                        assert(r is Ok);
                        assert(self@ =~= game.rows.update(row_num as int, seq![laid@]));
                    },
                    Command::AddLeft => {
                        self.rows[row_num].add_left(laid);
                        assert(self@ =~= game.rows.update(
                            row_num as int,
                            seq![laid@] + game.rows[row_num as int],
                        ));
                    },
                    _ => {
                        self.rows[row_num].add_right(laid);
                        assert(self@ =~= game.rows.update(
                            row_num as int,
                            game.rows[row_num as int].push(laid@),
                        ));
                    },
                }
                Ok(())
            },
        }
    }
}

} // verus!
