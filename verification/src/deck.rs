//! The deck: which cards are still undealt, how many of each rank, and how a
//! card compares in rank to the cards that are left.

use std::collections::HashMap;
use vstd::hash_map::StringHashMap;
use vstd::prelude::*;
use crate::card::{
    card_name, has_rank, is_plain_token, is_suit, is_token, lemma_plain_token_unique,
    lemma_token_has_rank, lemma_token_is_plain, parse_rank, rank_of, token, token_rank, ACE,
};
use crate::error::Error;

verus! {

broadcast use vstd::std_specs::hash::group_hash_axioms;

/// The largest deck: four suits of the ranks 2 to 14.
pub const FULL_DECK: usize = 52;

/// What a deck is, as mathematics.
#[verifier::ext_equal]
pub struct DeckView {
    /// How many cards count as being in the deck.
    pub size: nat,
    /// For every card identifier the deck has met, whether it is in the deck.
    pub membership: Map<Seq<char>, bool>,
    /// For every rank the deck was made with, how many cards of it are in the
    /// deck.
    pub rank_counts: Map<nat, nat>,
}

/// How many cards of `rank` the counts hold; none of a rank that they do not
/// track.
pub open spec fn count_of(counts: Map<nat, nat>, rank: nat) -> nat {
    if counts.dom().contains(rank) {
        counts[rank]
    } else {
        0
    }
}

/// How many cards of the ranks from `lo` up to, but without, `hi` the counts
/// hold.
pub open spec fn count_between(counts: Map<nat, nat>, lo: nat, hi: nat) -> nat
    decreases hi,
{
    if lo >= hi {
        0
    } else {
        count_between(counts, lo, (hi - 1) as nat) + count_of(counts, (hi - 1) as nat)
    }
}

/// A range of ranks can be counted in two parts.
pub proof fn lemma_count_split(counts: Map<nat, nat>, lo: nat, mid: nat, hi: nat)
    requires
        lo <= mid <= hi,
    ensures
        count_between(counts, lo, hi) == count_between(counts, lo, mid) + count_between(
            counts,
            mid,
            hi,
        ),
    decreases hi,
{
    if mid < hi {
        lemma_count_split(counts, lo, mid, (hi - 1) as nat);
    }
}

/// Changing the count of one rank changes the count of a range by as much
/// where the rank lies in it, and not at all where it does not.
pub proof fn lemma_count_after_insert(counts: Map<nat, nat>, rank: nat, n: nat, lo: nat, hi: nat)
    ensures
        count_between(counts.insert(rank, n), lo, hi) == if lo <= rank < hi {
            count_between(counts, lo, hi) - count_of(counts, rank) + n
        } else {
            count_between(counts, lo, hi) as int
        },
    decreases hi,
{
    if lo < hi {
        lemma_count_after_insert(counts, rank, n, lo, (hi - 1) as nat);
    }
}

impl DeckView {
    /// The deck as it is made with the `ranks` highest ranks: the four cards
    /// of each of them, named plainly, all in the deck.
    pub open spec fn fresh(ranks: nat) -> DeckView {
        DeckView {
            size: 4 * ranks,
            membership: Map::new(
                |card: Seq<char>| is_plain_token(card) && ACE - ranks < rank_of(card) <= ACE,
                |card: Seq<char>| true,
            ),
            rank_counts: Map::new(|r: nat| ACE - ranks < r <= ACE, |r: nat| 4nat),
        }
    }

    /// The deck was made with cards of this rank.
    pub open spec fn tracks(self, rank: nat) -> bool {
        self.rank_counts.dom().contains(rank)
    }

    /// How many cards of this rank are in the deck; none of a rank the deck
    /// does not track.
    pub open spec fn count(self, rank: nat) -> nat {
        count_of(self.rank_counts, rank)
    }

    /// How many cards of all ranks are in the deck.
    pub open spec fn total(self) -> nat {
        count_between(self.rank_counts, 0, (ACE + 1) as nat)
    }

    /// The ranks the deck tracks are those from some lowest rank up to the
    /// ace, and its size is the sum of its counts.
    pub open spec fn wf(self) -> bool {
        &&& forall|r: nat| #[trigger] self.tracks(r) ==> 2 <= r <= ACE
        &&& forall|r: nat| #[trigger] self.tracks(r) && r < ACE ==> self.tracks(r + 1)
        &&& self.size == self.total()
    }

    /// `card` is an identifier of a card that this deck was made with,
    /// whether or not the card is in the deck now.
    pub open spec fn is_card(self, card: Seq<char>) -> bool {
        is_token(card) && self.tracks(rank_of(card))
    }

    /// `card` is in the deck now.
    pub open spec fn has_card(self, card: Seq<char>) -> bool {
        self.membership.dom().contains(card) && self.membership[card]
    }

    /// The deck after `card` has come back to it.
    pub open spec fn add(self, card: Seq<char>) -> DeckView {
        DeckView {
            size: self.size + 1,
            membership: self.membership.insert(card, true),
            rank_counts: self.rank_counts.insert(rank_of(card), self.count(rank_of(card)) + 1),
        }
    }

    /// `card` carries a rank of which the deck still counts a card.
    pub open spec fn can_remove(self, card: Seq<char>) -> bool {
        has_rank(card) && self.count(rank_of(card)) > 0
    }

    /// The deck after `card` has left it.
    pub open spec fn remove(self, card: Seq<char>) -> DeckView {
        DeckView {
            size: (self.size - 1) as nat,
            membership: self.membership.insert(card, false),
            rank_counts: self.rank_counts.insert(
                rank_of(card),
                (self.count(rank_of(card)) - 1) as nat,
            ),
        }
    }

    /// The cards of `rank` that are in the deck.
    pub open spec fn held(self, rank: nat) -> Set<Seq<char>> {
        Set::new(|card: Seq<char>| self.has_card(card) && rank_of(card) == rank)
    }

    /// The counts are true: every card in the deck is a card that the deck was
    /// made with, and of every tracked rank the deck counts as many cards as
    /// are in it. A deck is made so, and stays so as long as no card is
    /// removed that is not in it, and none added that is.
    pub open spec fn exact(self) -> bool {
        &&& forall|card: Seq<char>| #[trigger] self.has_card(card) ==> self.is_card(card)
        &&& forall|r: nat| #[trigger]
            self.tracks(r) ==> self.held(r).finite() && self.held(r).len() == self.count(r)
    }

    /// What comes of drawing `card` to lay it on the table: the deck
    /// without it, where it is a card of this deck, is in the deck, and the
    /// deck still counts a card of its rank.
    pub open spec fn draw(self, card: Seq<char>) -> Result<DeckView, Error> {
        if !self.is_card(card) {
            Err(Error::Validation)
        } else if !self.has_card(card) {
            Err(Error::NotInDeck)
        } else if self.count(rank_of(card)) == 0 {
            Err(Error::NotFound)
        } else {
            Ok(self.remove(card))
        }
    }

    /// How many cards in the deck rank strictly below `rank`.
    pub open spec fn lower(self, rank: nat) -> nat {
        count_between(self.rank_counts, 0, rank)
    }

    /// How many cards in the deck rank strictly above `rank`.
    pub open spec fn higher(self, rank: nat) -> nat {
        count_between(self.rank_counts, rank + 1, (ACE + 1) as nat)
    }

    /// The ranks that a deck tracks are those from the lowest of them up to
    /// the ace.
    pub proof fn lemma_tracked_range(self, lowest: nat, rank: nat)
        requires
            self.wf(),
            self.tracks(lowest),
            forall|r: nat| #[trigger] self.tracks(r) ==> lowest <= r,
        ensures
            self.tracks(rank) <==> lowest <= rank <= ACE,
        decreases rank,
    {
        if lowest < rank <= ACE {
            self.lemma_tracked_range(lowest, (rank - 1) as nat);
            assert(self.tracks((rank - 1) as nat));
        }
    }

    /// Above the ace there is nothing to count.
    pub proof fn lemma_count_above_ace(self, lo: nat, hi: nat)
        requires
            self.wf(),
            ACE < lo,
        ensures
            count_between(self.rank_counts, lo, hi) == 0,
        decreases hi,
    {
        if lo < hi {
            self.lemma_count_above_ace(lo, (hi - 1) as nat);
            assert(!self.tracks((hi - 1) as nat));
        }
    }

    /// No rank holds more cards than the whole deck.
    pub proof fn lemma_count_le_size(self, rank: nat)
        requires
            self.wf(),
        ensures
            self.count(rank) <= self.size,
    {
        if self.tracks(rank) {
            lemma_count_split(self.rank_counts, 0, rank, (ACE + 1) as nat);
            lemma_count_split(self.rank_counts, rank, rank + 1, (ACE + 1) as nat);
            assert(count_between(self.rank_counts, rank, rank) == 0);
        }
    }

    /// A deck as it is made is well formed.
    pub proof fn lemma_fresh_wf(ranks: nat)
        requires
            ranks <= ACE - 1,
        ensures
            Self::fresh(ranks).wf(),
        decreases ranks,
    {
        let deck = Self::fresh(ranks);
        let top = (ACE + 1) as nat;
        if ranks == 0 {
            assert(deck.rank_counts =~= Map::empty());
            assert(count_between(deck.rank_counts, 0, top) == 0) by {
                reveal_with_fuel(count_between, 16);
            }
        } else {
            let fewer = Self::fresh((ranks - 1) as nat);
            let lowest = (ACE - ranks + 1) as nat;
            Self::lemma_fresh_wf((ranks - 1) as nat);
            assert(deck.rank_counts =~= fewer.rank_counts.insert(lowest, 4));
            assert(!fewer.tracks(lowest));
            lemma_count_after_insert(fewer.rank_counts, lowest, 4, 0, top);
        }
        assert forall|r: nat| #[trigger] deck.tracks(r) && r < ACE implies deck.tracks(r + 1) by {}
    }

    /// The counts of a deck as it is made are true.
    pub proof fn lemma_fresh_exact(ranks: nat)
        requires
            ranks <= ACE - 1,
        ensures
            Self::fresh(ranks).exact(),
    {
        let deck = Self::fresh(ranks);
        assert forall|r: nat| #[trigger] deck.tracks(r) implies deck.held(r).finite()
            && deck.held(r).len() == deck.count(r) by {
            let four = set![token('a', r), token('b', r), token('c', r), token('d', r)];
            lemma_token_is_plain('a', r);
            lemma_token_is_plain('b', r);
            lemma_token_is_plain('c', r);
            lemma_token_is_plain('d', r);
            assert forall|card: Seq<char>| #[trigger]
                deck.held(r).contains(card) implies four.contains(card) by {
                lemma_plain_token_unique(card);
                assert(is_suit(card[0]));
            }
            assert(deck.held(r) =~= four);
            assert(four.len() == 4);
        }
    }

    /// True counts stay true when a card leaves that was in the deck; and of
    /// the rank of such a card the deck counts at least one.
    pub proof fn lemma_remove_exact(self, card: Seq<char>)
        requires
            self.exact(),
            self.has_card(card),
        ensures
            self.count(rank_of(card)) > 0,
            self.remove(card).exact(),
    {
        let rank = rank_of(card);
        let after = self.remove(card);
        assert(self.is_card(card));
        assert(self.tracks(rank));
        assert(self.held(rank).contains(card));
        assert(after.rank_counts.dom() =~= self.rank_counts.dom());
        assert forall|other: Seq<char>| #[trigger] after.has_card(other) implies after.is_card(
            other,
        ) by {
            assert(self.has_card(other));
        }
        assert forall|r: nat| #[trigger] after.tracks(r) implies after.held(r).finite()
            && after.held(r).len() == after.count(r) by {
            assert(self.tracks(r));
            if r == rank {
                assert(after.held(r) =~= self.held(r).remove(card));
            } else {
                assert(after.held(r) =~= self.held(r));
            }
        }
    }

    /// True counts stay true when a card comes back that was not in the
    /// deck.
    pub proof fn lemma_add_exact(self, card: Seq<char>)
        requires
            self.exact(),
            self.is_card(card),
            !self.has_card(card),
        ensures
            self.add(card).exact(),
    {
        let rank = rank_of(card);
        let after = self.add(card);
        assert(after.rank_counts.dom() =~= self.rank_counts.dom());
        assert forall|other: Seq<char>| #[trigger] after.has_card(other) implies after.is_card(
            other,
        ) by {
            if other != card {
                assert(self.has_card(other));
            }
        }
        assert forall|r: nat| #[trigger] after.tracks(r) implies after.held(r).finite()
            && after.held(r).len() == after.count(r) by {
            assert(self.tracks(r));
            if r == rank {
                assert(after.held(r) =~= self.held(r).insert(card));
            } else {
                assert(after.held(r) =~= self.held(r));
            }
        }
    }

    /// From a deck with true counts every card that is in it can be drawn,
    /// and the counts stay true.
    pub proof fn lemma_draw_exact(self, card: Seq<char>)
        requires
            self.exact(),
        ensures
            self.draw(card) is Ok <==> self.has_card(card),
            self.draw(card) is Ok ==> self.draw(card)->Ok_0.exact(),
    {
        if self.has_card(card) {
            self.lemma_remove_exact(card);
        }
    }

    /// Every card in the deck ranks below, equal to or above any given rank,
    /// and only one of the three.
    pub proof fn lemma_partition(self, rank: nat)
        requires
            self.wf(),
        ensures
            self.lower(rank) + self.count(rank) + self.higher(rank) == self.size,
    {
        let top = (ACE + 1) as nat;
        if rank < top {
            lemma_count_split(self.rank_counts, 0, rank, top);
            lemma_count_split(self.rank_counts, rank, rank + 1, top);
            assert(count_between(self.rank_counts, rank, rank) == 0);
        } else {
            lemma_count_split(self.rank_counts, 0, top, rank);
            self.lemma_count_above_ace(top, rank);
            assert(!self.tracks(rank));
        }
    }

    /// A deck that is well formed stays so when a card of a tracked rank
    /// comes back.
    pub proof fn lemma_add_wf(self, card: Seq<char>)
        requires
            self.wf(),
            self.tracks(rank_of(card)),
        ensures
            self.add(card).wf(),
    {
        let rank = rank_of(card);
        let after = self.add(card);
        lemma_count_after_insert(
            self.rank_counts,
            rank,
            self.count(rank) + 1,
            0,
            (ACE + 1) as nat,
        );
        assert forall|r: nat| #[trigger] after.tracks(r) implies 2 <= r <= ACE by {
            assert(self.tracks(r));
        }
        assert forall|r: nat| #[trigger] after.tracks(r) && r < ACE implies after.tracks(
            r + 1,
        ) by {
            assert(self.tracks(r));
            assert(self.tracks(r + 1));
        }
    }

    /// A deck that is well formed stays so when a card leaves of whose rank
    /// it still counted one.
    pub proof fn lemma_remove_wf(self, card: Seq<char>)
        requires
            self.wf(),
            self.count(rank_of(card)) > 0,
        ensures
            self.remove(card).wf(),
            self.size > 0,
    {
        let rank = rank_of(card);
        let after = self.remove(card);
        assert(self.tracks(rank));
        self.lemma_count_le_size(rank);
        lemma_count_after_insert(
            self.rank_counts,
            rank,
            (self.count(rank) - 1) as nat,
            0,
            (ACE + 1) as nat,
        );
        assert forall|r: nat| #[trigger] after.tracks(r) implies 2 <= r <= ACE by {
            assert(self.tracks(r));
        }
        assert forall|r: nat| #[trigger] after.tracks(r) && r < ACE implies after.tracks(
            r + 1,
        ) by {
            assert(self.tracks(r));
            assert(self.tracks(r + 1));
        }
    }
}

/// The deck of cards that are not on the table.
///
/// The deck keeps two books: which identifiers are in it, and how many cards
/// of each rank it counts. `add` and `remove` write both, and neither asks
/// the first book before it writes the second; `draw` does.
pub struct Deck {
    /// How many cards count as being in the deck.
    size: usize,
    /// Whether each identifier that the deck has met is in the deck.
    cards: StringHashMap<bool>,
    /// How many cards the deck counts of each rank that it was made with.
    values: HashMap<usize, usize>,
}

impl View for Deck {
    type V = DeckView;

    closed spec fn view(&self) -> DeckView {
        DeckView {
            size: self.size as nat,
            membership: self.cards@,
            rank_counts: Map::new(
                |r: nat| r <= usize::MAX && self.values@.contains_key(r as usize),
                |r: nat| self.values@[r as usize] as nat,
            ),
        }
    }
}

impl Deck {
    /// The deck holds what a deck may hold.
    pub open spec fn wf(&self) -> bool {
        self@.wf()
    }

    /// The size of a deck fits a machine word.
    pub proof fn lemma_size_fits(&self)
        ensures
            self@.size <= usize::MAX,
    {
    }

    /// Makes a deck of `size` cards: the four suits of the `size / 4` highest
    /// ranks, from the ace down, all in the deck. A `size` that is over
    /// [`FULL_DECK`] or no multiple of four is refused. A deck of no cards
    /// can be made; nothing can be played with it.
    pub fn new(size: usize) -> (r: Result<Deck, Error>)
        ensures
            match r {
                Ok(deck) => {
                    &&& size <= FULL_DECK
                    &&& size % 4 == 0
                    &&& deck@ == DeckView::fresh(size as nat / 4)
                    &&& deck.wf()
                    &&& deck@.exact()
                },
                Err(e) => (size > FULL_DECK || size % 4 != 0) && e == Error::Construction,
            },
    {
        Deck::with_limit(size, FULL_DECK)
    }

    /// Makes a deck as [`Deck::new`] does, of at most `limit` cards. No limit
    /// lets a deck hold more than [`FULL_DECK`] cards: below the rank 2 there
    /// are no cards.
    pub fn with_limit(size: usize, limit: usize) -> (r: Result<Deck, Error>)
        ensures
            match r {
                Ok(deck) => {
                    &&& size <= limit
                    &&& size <= FULL_DECK
                    &&& size % 4 == 0
                    &&& deck@ == DeckView::fresh(size as nat / 4)
                    &&& deck.wf()
                    &&& deck@.exact()
                },
                Err(e) => (size > limit || size > FULL_DECK || size % 4 != 0) && e
                    == Error::Construction,
            },
    {
        if size > limit || size > FULL_DECK || size % 4 != 0 {
            return Err(Error::Construction);
        }
        let ranks: usize = size / 4;
        let mut cards: StringHashMap<bool> = StringHashMap::new();
        let mut values: HashMap<usize, usize> = HashMap::new();
        let mut done: usize = 0;
        while done < ranks
            invariant
                done <= ranks <= ACE - 1,
                cards@ =~= DeckView::fresh(done as nat).membership,
                forall|r: usize| #[trigger]
                    values@.contains_key(r) <==> ACE - done < r <= ACE,
                forall|r: usize| #[trigger] values@.contains_key(r) ==> values@[r] == 4,
            decreases ranks - done,
        {
            let val: usize = ACE - done;
            values.insert(val, 4);
            let ghost before = cards@;
            cards.insert(card_name(0, val), true);
            cards.insert(card_name(1, val), true);
            cards.insert(card_name(2, val), true);
            cards.insert(card_name(3, val), true);
            proof {
                let rank = val as nat;
                let after = DeckView::fresh((done + 1) as nat).membership;
                lemma_token_is_plain('a', rank);
                lemma_token_is_plain('b', rank);
                lemma_token_is_plain('c', rank);
                lemma_token_is_plain('d', rank);
                assert(cards@ == before.insert(token('a', rank), true).insert(
                    token('b', rank),
                    true,
                ).insert(token('c', rank), true).insert(token('d', rank), true));
                assert forall|card: Seq<char>| #[trigger]
                    after.dom().contains(card) implies cards@.dom().contains(card) by {
                    if rank_of(card) == rank {
                        lemma_plain_token_unique(card);
                        assert(is_suit(card[0]));
                    }
                }
                assert(cards@ =~= after);
            }
            done = done + 1;
        }
        proof {
            DeckView::lemma_fresh_wf(ranks as nat);
            DeckView::lemma_fresh_exact(ranks as nat);
        }
        let deck = Deck { size, cards, values };
        assert(deck@.rank_counts =~= DeckView::fresh(ranks as nat).rank_counts);
        assert(deck@ =~= DeckView::fresh(ranks as nat));
        Ok(deck)
    }

    /// How many cards count as being in the deck.
    pub fn size(&self) -> (n: usize)
        ensures
            n == self@.size,
    {
        self.size
    }

    /// How many cards of `rank` are in the deck, where the deck tracks the
    /// rank.
    pub fn rank_count(&self, rank: usize) -> (n: Option<usize>)
        ensures
            match n {
                Some(k) => self@.tracks(rank as nat) && k == self@.count(rank as nat),
                None => !self@.tracks(rank as nat),
            },
    {
        match self.values.get(&rank) {
            Some(k) => Some(*k),
            None => None,
        }
    }

    /// Reads the rank out of a card identifier: what follows its first
    /// character, as a decimal number.
    pub fn parse_value(card: &String) -> (r: Result<usize, Error>)
        ensures
            match r {
                Ok(v) => has_rank(card@) && v == rank_of(card@),
                Err(e) => !has_rank(card@) && e == Error::Parse,
            },
    {
        parse_rank(card.as_str())
    }

    /// Whether `card` is an identifier of a card that this deck was made
    /// with. That the card has been dealt makes no difference.
    pub fn is_card(&self, card: &String) -> (b: bool)
        ensures
            b == self@.is_card(card@),
    {
        match token_rank(card.as_str()) {
            Some(v) => self.values.contains_key(&v),
            None => false,
        }
    }

    /// Puts `card` back into the deck: marks it as in the deck and counts one
    /// more card, in all and of its rank. Whether the card was in the deck
    /// already is not asked, so a card that comes back twice counts twice.
    /// A `card` that is no identifier of this deck is refused; `remove` is
    /// less strict and lets any identifier with a tracked rank pass. The
    /// size of the deck with the card has to fit a machine word.
    pub fn add(&mut self, card: String) -> (r: Result<(), Error>)
        requires
            old(self).wf(),
            old(self)@.is_card(card@) ==> old(self)@.size < usize::MAX,
        ensures
            final(self).wf(),
            old(self)@.exact() && !old(self)@.has_card(card@) ==> final(self)@.exact(),
            match r {
                Ok(()) => old(self)@.is_card(card@) && final(self)@ == old(self)@.add(card@),
                Err(e) => !old(self)@.is_card(card@) && e == Error::Validation && final(self)@
                    == old(self)@,
            },
    {
        let rank: usize = match token_rank(card.as_str()) {
            Some(v) => v,
            None => {
                return Err(Error::Validation);
            },
        };
        let count: usize = match self.values.get(&rank) {
            Some(n) => *n,
            None => {
                return Err(Error::Validation);
            },
        };
        proof {
            self@.lemma_count_le_size(rank as nat);
            self@.lemma_add_wf(card@);
            if self@.exact() && !self@.has_card(card@) {
                self@.lemma_add_exact(card@);
            }
        }
        self.cards.insert(card, true);
        self.values.insert(rank, count + 1);
        self.size = self.size + 1;
        assert(self@.rank_counts =~= old(self)@.add(card@).rank_counts);
        Ok(())
    }

    /// Takes `card` out of the deck: marks it as not in the deck and counts
    /// one card less, in all and of its rank. Whether the card was in the
    /// deck is not asked, so a card that leaves twice is counted off twice;
    /// ask `has_card` first, or call `draw`. Nor is it asked whether `card`
    /// begins with a suit, as `add` asks. Refused are a `card` without a
    /// rank, and a rank of which the deck counts no card: one that it does
    /// not track, or one that has been counted down to nothing.
    pub fn remove(&mut self, card: &String) -> (r: Result<(), Error>)
        requires
            old(self).wf(),
        ensures
            final(self).wf(),
            old(self)@.exact() && old(self)@.has_card(card@) ==> final(self)@.exact(),
            match r {
                Ok(()) => old(self)@.can_remove(card@) && final(self)@ == old(self)@.remove(
                    card@,
                ),
                Err(e) => {
                    &&& !old(self)@.can_remove(card@)
                    &&& final(self)@ == old(self)@
                    &&& e == if has_rank(card@) {
                        Error::NotFound
                    } else {
                        Error::Parse
                    }
                },
            },
    {
        let rank: usize = match parse_rank(card.as_str()) {
            Ok(v) => v,
            Err(e) => {
                return Err(e);
            },
        };
        let count: usize = match self.values.get(&rank) {
            Some(n) => *n,
            None => {
                return Err(Error::NotFound);
            },
        };
        if count == 0 {
            return Err(Error::NotFound);
        }
        proof {
            self@.lemma_remove_wf(card@);
            if self@.exact() && self@.has_card(card@) {
                self@.lemma_remove_exact(card@);
            }
        }
        self.cards.insert(card.clone(), false);
        self.values.insert(rank, count - 1);
        self.size = self.size - 1;
        assert(self@.rank_counts =~= old(self)@.remove(card@).rank_counts);
        Ok(())
    }

    /// Draws `card` from the deck to lay it on the table: removes it, once it
    /// is found to be a card of this deck and in the deck. Refused, with
    /// nothing changed, is a `card` that fails one of the two, or of whose
    /// rank the deck counts no card.
    pub fn draw(&mut self, card: &String) -> (r: Result<(), Error>)
        requires
            old(self).wf(),
        ensures
            final(self).wf(),
            old(self)@.exact() ==> final(self)@.exact(),
            match r {
                Ok(()) => old(self)@.draw(card@) == Ok::<DeckView, Error>(final(self)@),
                Err(e) => old(self)@.draw(card@) == Err::<DeckView, Error>(e) && final(self)@
                    == old(self)@,
            },
    {
        if !self.is_card(card) {
            return Err(Error::Validation);
        }
        if !self.has_card(card) {
            return Err(Error::NotInDeck);
        }
        proof {
            lemma_token_has_rank(card@);
        }
        self.remove(card)
    }

    /// How the cards in the deck compare to `card`: how many rank higher, how
    /// many equal and how many lower. Each count over the size of the deck is
    /// the chance that the next card compares so; together they are the whole
    /// deck. Whether `card` itself is in the deck is not asked: its own rank
    /// counts among the equal ones as long as it has not been removed.
    /// Refused are a `card` without a rank, and a deck with no card in it.
    pub fn calc(&self, card: &String) -> (r: Result<(usize, usize, usize), Error>)
        requires
            self.wf(),
        ensures
            match r {
                Ok((higher, equal, lower)) => {
                    &&& has_rank(card@)
                    &&& self@.size > 0
                    &&& higher == self@.higher(rank_of(card@))
                    &&& equal == self@.count(rank_of(card@))
                    &&& lower == self@.lower(rank_of(card@))
                    &&& higher + equal + lower == self@.size
                },
                Err(e) => if has_rank(card@) {
                    self@.size == 0 && e == Error::EmptyDeck
                } else {
                    e == Error::Parse
                },
            },
    {
        let rank: usize = match parse_rank(card.as_str()) {
            Ok(v) => v,
            Err(e) => {
                return Err(e);
            },
        };
        if self.size == 0 {
            return Err(Error::EmptyDeck);
        }
        let ghost counts = self@.rank_counts;
        let mut higher: usize = 0;
        let mut equal: usize = 0;
        let mut lower: usize = 0;
        let mut r: usize = 0;
        while r <= ACE
            invariant
                self.wf(),
                counts == self@.rank_counts,
                r <= ACE + 1,
                lower == count_between(
                    counts,
                    0,
                    if r <= rank {
                        r as nat
                    } else {
                        rank as nat
                    },
                ),
                equal == if rank < r {
                    count_of(counts, rank as nat)
                } else {
                    0
                },
                higher == if rank < r {
                    count_between(counts, (rank + 1) as nat, r as nat)
                } else {
                    0
                },
                lower + equal + higher == count_between(counts, 0, r as nat),
            decreases ACE + 1 - r,
        {
            let n: usize = match self.values.get(&r) {
                Some(k) => *k,
                None => 0,
            };
            proof {
                assert(n == count_of(counts, r as nat));
                lemma_count_split(counts, 0, (r + 1) as nat, (ACE + 1) as nat);
                assert(count_between(counts, (rank + 1) as nat, (rank + 1) as nat) == 0);
            }
            if r > rank {
                higher = higher + n;
            } else if r == rank {
                equal = equal + n;
            } else {
                lower = lower + n;
            }
            r = r + 1;
        }
        proof {
            self@.lemma_partition(rank as nat);
            if rank > ACE {
                lemma_count_split(counts, 0, (ACE + 1) as nat, rank as nat);
                self@.lemma_count_above_ace((ACE + 1) as nat, rank as nat);
                assert(!self@.tracks(rank as nat));
            }
        }
        Ok((higher, equal, lower))
    }

    /// Whether `card` is in the deck now. Of an identifier that the deck has
    /// never met this is false.
    pub fn has_card(&self, card: &String) -> (b: bool)
        ensures
            b == self@.has_card(card@),
    {
        match self.cards.get(card.as_str()) {
            Some(flag) => *flag,
            None => false,
        }
    }
}

} // verus!
