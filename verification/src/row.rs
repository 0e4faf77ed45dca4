//! A row of cards on the table, open at both ends.

use vstd::prelude::*;
use crate::card::rank_of;
use crate::deck::{Deck, DeckView};
use crate::error::Error;

verus! {

/// The deck after the cards of a row have come back to it, one after the
/// other from the left.
pub open spec fn add_all(deck: DeckView, cards: Seq<Seq<char>>) -> DeckView
    decreases cards.len(),
{
    if cards.len() == 0 {
        deck
    } else {
        add_all(deck, cards.drop_last()).add(cards.last())
    }
}

/// Every card of the row is an identifier of a card that the deck was made
/// with, so that the deck takes it back.
pub open spec fn all_cards(deck: DeckView, cards: Seq<Seq<char>>) -> bool {
    forall|i: int| 0 <= i < cards.len() ==> deck.is_card(#[trigger] cards[i])
}

/// Cards that come back leave the tracked ranks as they were, make the deck
/// larger by their number, and are in the deck afterwards beside those that
/// were in it before.
pub proof fn lemma_add_all(deck: DeckView, cards: Seq<Seq<char>>)
    requires
        deck.wf(),
        all_cards(deck, cards),
    ensures
        add_all(deck, cards).wf(),
        add_all(deck, cards).size == deck.size + cards.len(),
        add_all(deck, cards).rank_counts.dom() == deck.rank_counts.dom(),
        forall|card: Seq<char>|
            add_all(deck, cards).has_card(card) <==> deck.has_card(card) || cards.contains(card),
    decreases cards.len(),
{
    if cards.len() > 0 {
        let rest = cards.drop_last();
        let before = add_all(deck, rest);
        assert forall|i: int| 0 <= i < rest.len() implies deck.is_card(#[trigger] rest[i]) by {
            assert(rest[i] == cards[i]);
        }
        lemma_add_all(deck, rest);
        assert(deck.is_card(cards.last()));
        assert(before.tracks(rank_of(cards.last())));
        before.lemma_add_wf(cards.last());
        let after = before.add(cards.last());
        assert(after.rank_counts.dom() =~= deck.rank_counts.dom());
        assert forall|card: Seq<char>|
            after.has_card(card) <==> deck.has_card(card) || cards.contains(card) by {
            if cards.contains(card) {
                let i = choose|i: int| 0 <= i < cards.len() && cards[i] == card;
                if i < rest.len() {
                    assert(rest[i] == card);
                    assert(rest.contains(card));
                }
            }
            if rest.contains(card) {
                let i = choose|i: int| 0 <= i < rest.len() && rest[i] == card;
                assert(cards[i] == card);
            }
            assert(cards[cards.len() - 1] == cards.last());
        }
    }
}

/// A row of cards on the table. It is never empty.
pub struct Row {
    cards: Vec<String>,
}

impl View for Row {
    type V = Seq<Seq<char>>;

    closed spec fn view(&self) -> Seq<Seq<char>> {
        Seq::new(self.cards@.len(), |i: int| self.cards@[i]@)
    }
}

impl Row {
    /// The row holds at least one card.
    pub open spec fn wf(&self) -> bool {
        self@.len() > 0
    }

    /// A row of the one card given.
    pub fn new(card: String) -> (row: Row)
        ensures
            row@ == seq![card@],
            row.wf(),
    {
        let mut cards: Vec<String> = Vec::new();
        cards.push(card);
        let row = Row { cards };
        assert(row@ =~= seq![card@]);
        row
    }

    /// How many cards the row holds.
    pub fn len(&self) -> (n: usize)
        ensures
            n == self@.len(),
    {
        self.cards.len()
    }

    /// The cards of the row, from left to right.
    pub fn cards(&self) -> (cards: &Vec<String>)
        ensures
            cards@.len() == self@.len(),
            forall|i: int| 0 <= i < cards@.len() ==> (#[trigger] cards@[i])@ == self@[i],
    {
        &self.cards
    }

    /// The card at the left end.
    pub fn get_left(&self) -> (card: &String)
        requires
            self.wf(),
        ensures
            card@ == self@.first(),
    {
        &self.cards[0]
    }

    /// The card at the right end.
    pub fn get_right(&self) -> (card: &String)
        requires
            self.wf(),
        ensures
            card@ == self@.last(),
    {
        &self.cards[self.cards.len() - 1]
    }

    /// Lays `card` at the left end. The deck is not touched: who lays a card
    /// has taken it out of the deck before.
    pub fn add_left(&mut self, card: String)
        ensures
            final(self)@ == seq![card@] + old(self)@,
            final(self).wf(),
    {
        self.cards.insert(0, card);
        assert(self@ =~= seq![card@] + old(self)@);
    }

    /// Lays `card` at the right end. The deck is not touched: who lays a card
    /// has taken it out of the deck before.
    pub fn add_right(&mut self, card: String)
        ensures
            final(self)@ == old(self)@.push(card@),
            final(self).wf(),
    {
        self.cards.push(card);
        assert(self@ =~= old(self)@.push(card@));
    }

    /// Takes the card at the left end off the row and puts it back into the
    /// deck. Refused, with nothing changed, are a row of fewer than two
    /// cards, which would be left empty, and a card that the deck does not
    /// take back. The size of the deck with the card has to fit a machine
    /// word.
    pub fn remove_left(&mut self, deck: &mut Deck) -> (r: Result<(), Error>)
        requires
            old(deck).wf(),
            old(self)@.len() >= 2 && old(deck)@.is_card(old(self)@.first()) ==> old(deck)@.size
                < usize::MAX,
        ensures
            final(deck).wf(),
            old(self).wf() ==> final(self).wf(),
            match r {
                Ok(()) => {
                    &&& old(self)@.len() >= 2
                    &&& old(deck)@.is_card(old(self)@.first())
                    &&& final(self)@ == old(self)@.drop_first()
                    &&& final(deck)@ == old(deck)@.add(old(self)@.first())
                },
                Err(e) => {
                    &&& final(self)@ == old(self)@
                    &&& final(deck)@ == old(deck)@
                    &&& if old(self)@.len() < 2 {
                        e == Error::LastCard
                    } else {
                        !old(deck)@.is_card(old(self)@.first()) && e == Error::Validation
                    }
                },
            },
    {
        if self.cards.len() < 2 {
            return Err(Error::LastCard);
        }
        let card = self.cards[0].clone();
        match deck.add(card) {
            Ok(()) => {
                self.cards.remove(0);
                assert(self@ =~= old(self)@.drop_first());
                Ok(())
            },
            Err(e) => Err(e),
        }
    }

    /// Takes the card at the right end off the row and puts it back into the
    /// deck. Refused, with nothing changed, are a row of fewer than two
    /// cards, which would be left empty, and a card that the deck does not
    /// take back. The size of the deck with the card has to fit a machine
    /// word.
    pub fn remove_right(&mut self, deck: &mut Deck) -> (r: Result<(), Error>)
        requires
            old(deck).wf(),
            old(self)@.len() >= 2 && old(deck)@.is_card(old(self)@.last()) ==> old(deck)@.size
                < usize::MAX,
        ensures
            final(deck).wf(),
            old(self).wf() ==> final(self).wf(),
            match r {
                Ok(()) => {
                    &&& old(self)@.len() >= 2
                    &&& old(deck)@.is_card(old(self)@.last())
                    &&& final(self)@ == old(self)@.drop_last()
                    &&& final(deck)@ == old(deck)@.add(old(self)@.last())
                },
                Err(e) => {
                    &&& final(self)@ == old(self)@
                    &&& final(deck)@ == old(deck)@
                    &&& if old(self)@.len() < 2 {
                        e == Error::LastCard
                    } else {
                        !old(deck)@.is_card(old(self)@.last()) && e == Error::Validation
                    }
                },
            },
    {
        let n: usize = self.cards.len();
        if n < 2 {
            return Err(Error::LastCard);
        }
        let card = self.cards[n - 1].clone();
        match deck.add(card) {
            Ok(()) => {
                self.cards.pop();
                assert(self@ =~= old(self)@.drop_last());
                Ok(())
            },
            Err(e) => Err(e),
        }
    }

    /// Whether the deck takes every card of the row back: whether each is an
    /// identifier of a card that the deck was made with.
    pub fn returnable(&self, deck: &Deck) -> (b: bool)
        ensures
            b == all_cards(deck@, self@),
    {
        let n: usize = self.cards.len();
        let mut i: usize = 0;
        while i < n
            invariant
                n == self.cards@.len(),
                i <= n,
                forall|j: int| 0 <= j < i ==> deck@.is_card(#[trigger] self@[j]),
            decreases n - i,
        {
            if !deck.is_card(&self.cards[i]) {
                assert(!deck@.is_card(self@[i as int]));
                return false;
            }
            i = i + 1;
        }
        true
    }

    /// Resolves the row: puts every card of it back into the deck, and
    /// leaves `card` as the only card of the row. As with the laying of a
    /// card, who collapses a row has taken `card` out of the deck before.
    /// Refused, with nothing changed, is a row with a card that the deck does
    /// not take back. The size of the deck with the cards of the row has to
    /// fit a machine word.
    pub fn collapse(&mut self, card: String, deck: &mut Deck) -> (r: Result<(), Error>)
        requires
            old(deck).wf(),
            all_cards(old(deck)@, old(self)@) ==> old(deck)@.size + old(self)@.len()
                <= usize::MAX,
        ensures
            final(deck).wf(),
            match r {
                Ok(()) => {
                    &&& all_cards(old(deck)@, old(self)@)
                    &&& final(self)@ == seq![card@]
                    &&& final(self)@.len() == 1
                    &&& final(deck)@ == add_all(old(deck)@, old(self)@)
                    &&& final(deck)@.size == old(deck)@.size + old(self)@.len()
                },
                Err(e) => {
                    &&& !all_cards(old(deck)@, old(self)@)
                    &&& e == Error::Validation
                    &&& final(self)@ == old(self)@
                    &&& final(deck)@ == old(deck)@
                },
            },
    {
        if !self.returnable(deck) {
            return Err(Error::Validation);
        }
        let ghost start = deck@;
        let ghost row = self@;
        let n: usize = self.cards.len();
        let mut i: usize = 0;
        while i < n
            invariant
                n == self.cards@.len(),
                i <= n,
                row == self@,
                start.wf(),
                all_cards(start, row),
                start.size + n <= usize::MAX,
                deck.wf(),
                deck@ == add_all(start, row.take(i as int)),
            decreases n - i,
        {
            proof {
                let dealt = row.take(i as int);
                assert forall|j: int| 0 <= j < dealt.len() implies start.is_card(
                    #[trigger] dealt[j],
                ) by {
                    assert(dealt[j] == row[j]);
                }
                lemma_add_all(start, dealt);
                assert(start.is_card(row[i as int]));
                assert(row.take(i + 1).drop_last() =~= dealt);
                assert(row.take(i + 1).last() == row[i as int]);
            }
            let back = deck.add(self.cards[i].clone());
            assert(back is Ok);
            i = i + 1;
        }
        proof {
            assert(row.take(n as int) =~= row);
            lemma_add_all(start, row);
        }
        self.cards.clear();
        self.cards.push(card);
        assert(self@ =~= seq![card@]);
        Ok(())
    }
}

} // verus!
