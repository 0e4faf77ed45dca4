//! How cards and rows are written on a terminal: a suit glyph and a rank in
//! square brackets, the red suits in red.

use vstd::prelude::*;
use vstd::string::*;
use crate::row::Row;

verus! {

/// What switches a terminal to red text.
pub open spec fn red_code() -> Seq<char> {
    "\x1B[38;5;1m"@
}

/// What switches a terminal back to its own text colour.
pub open spec fn reset_code() -> Seq<char> {
    "\x1B[39m"@
}

/// The glyph of the suit that an identifier begins with; nothing where it
/// begins with no suit letter.
pub open spec fn glyph(card: Seq<char>) -> Seq<char> {
    if card.len() == 0 {
        seq![]
    } else if card[0] == 'a' {
        seq!['♣']
    } else if card[0] == 'b' {
        seq!['♠']
    } else if card[0] == 'c' {
        seq!['♥']
    } else if card[0] == 'd' {
        seq!['♦']
    } else {
        seq![]
    }
}

/// The identifier begins with the letter of a red suit.
pub open spec fn is_red(card: Seq<char>) -> bool {
    card.len() > 0 && (card[0] == 'c' || card[0] == 'd')
}

/// What follows the first character of an identifier.
pub open spec fn value_text(card: Seq<char>) -> Seq<char> {
    if card.len() == 0 {
        seq![]
    } else {
        card.skip(1)
    }
}

/// What is shown for the rank: a letter for the ace and the court cards, and
/// else what follows the first character of the identifier, as it stands.
pub open spec fn face(card: Seq<char>) -> Seq<char> {
    let value = value_text(card);
    if value == seq!['1', '4'] {
        seq!['A']
    } else if value == seq!['1', '3'] {
        seq!['K']
    } else if value == seq!['1', '2'] {
        seq!['Q']
    } else if value == seq!['1', '1'] {
        seq!['J']
    } else {
        value
    }
}

/// What is shown for the rank takes one column: it is one ASCII character.
pub open spec fn is_narrow(shown: Seq<char>) -> bool {
    shown.len() == 1 && shown[0] as int <= 127
}

/// A card as it is written without colour: the glyph and the rank in
/// brackets, the rank padded to two columns.
pub open spec fn plain_text(card: Seq<char>) -> Seq<char> {
    seq!['['] + glyph(card) + seq![' '] + (if is_narrow(face(card)) {
        seq![' ']
    } else {
        seq![]
    }) + face(card) + seq![']']
}

/// A card as it is written where `red` switches to red text and `reset`
/// switches back: a card of a red suit stands between the two.
pub open spec fn card_text(card: Seq<char>, red: Seq<char>, reset: Seq<char>) -> Seq<char> {
    if is_red(card) {
        red + plain_text(card) + reset
    } else {
        plain_text(card)
    }
}

/// A row as it is written: its cards from left to right, with one space
/// between two of them.
pub open spec fn row_text(cards: Seq<Seq<char>>, red: Seq<char>, reset: Seq<char>) -> Seq<char>
    decreases cards.len(),
{
    if cards.len() == 0 {
        seq![]
    } else if cards.len() == 1 {
        card_text(cards[0], red, reset)
    } else {
        row_text(cards.drop_last(), red, reset) + seq![' '] + card_text(cards.last(), red, reset)
    }
}

/// What `termion::color::Fg(termion::color::Red)` writes when it is
/// displayed.
///
/// Not proved. By termion's source that is the escape sequence for the
/// colour 1 of the 256-colour palette, and nothing at all in a process that
/// found the environment variable `NO_COLOR` set, so either may come back.
#[verifier::external_body]
fn fg_red() -> (code: String)
    ensures
        code@ == red_code() || code@ == Seq::<char>::empty(),
{
    format!("{}", termion::color::Fg(termion::color::Red))
}

/// What `termion::color::Fg(termion::color::Reset)` writes when it is
/// displayed.
///
/// Not proved. By termion's source that is always the escape sequence that
/// resets the foreground colour.
#[verifier::external_body]
fn fg_reset() -> (code: String)
    ensures
        code@ == reset_code(),
{
    format!("{}", termion::color::Fg(termion::color::Reset))
}

impl Row {
    /// Writes a card, with `red` before and `reset` after a card of a red
    /// suit.
    pub fn format_card_with(card: &String, red: &str, reset: &str) -> (text: String)
        ensures
            text@ == card_text(card@, red@, reset@),
    {
        let name = card.as_str();
        let n: usize = name.unicode_len();
        let mut colored: bool = false;
        let mut suit: &str = "";
        proof {
            reveal_strlit("");
            reveal_strlit("♣");
            reveal_strlit("♠");
            reveal_strlit("♥");
            reveal_strlit("♦");
            reveal_strlit("A");
            reveal_strlit("K");
            reveal_strlit("Q");
            reveal_strlit("J");
            reveal_strlit("[");
            reveal_strlit("]");
            reveal_strlit(" ");
        }
        if n > 0 {
            let first: char = name.get_char(0);
            if first == 'a' {
                suit = "♣";
            } else if first == 'b' {
                suit = "♠";
            } else if first == 'c' {
                colored = true;
                suit = "♥";
            } else if first == 'd' {
                colored = true;
                suit = "♦";
            }
        }
        assert(suit@ =~= glyph(card@));
        assert(colored == is_red(card@));
        let mut value: &str = if n > 0 {
            name.substring_char(1, n)
        } else {
            ""
        };
        assert(value@ =~= value_text(card@));
        if n == 3 && name.get_char(1) == '1' {
            let second: char = name.get_char(2);
            if second == '4' {
                value = "A";
            } else if second == '3' {
                value = "K";
            } else if second == '2' {
                value = "Q";
            } else if second == '1' {
                value = "J";
            }
        }
        assert(value@ =~= face(card@)) by {
            let rest = value_text(card@);
            if n == 3 {
                assert(rest =~= seq![card@[1], card@[2]]);
                assert(seq![card@[1], card@[2]][0] == card@[1]);
                assert(seq![card@[1], card@[2]][1] == card@[2]);
            } else {
                assert(rest.len() != 2);
            }
        }
        let narrow: bool = value.unicode_len() == 1 && (value.get_char(0) as u32) <= 127;
        let mut text = String::from_str("");
        if colored {
            text.append(red);
        }
        text.append("[");
        text.append(suit);
        text.append(" ");
        if narrow {
            text.append(" ");
        }
        text.append(value);
        text.append("]");
        if colored {
            text.append(reset);
        }
        assert(text@ =~= card_text(card@, red@, reset@));
        text
    }

    /// Writes a card for a terminal: a card of a red suit between what
    /// switches the terminal to red and what switches it back. Where the
    /// process runs with colours switched off, nothing switches to red.
    pub fn format_card(card: &String) -> (text: String)
        ensures
            text@ == card_text(card@, red_code(), reset_code()) || text@ == card_text(
                card@,
                Seq::<char>::empty(),
                reset_code(),
            ),
    {
        let red = fg_red();
        let reset = fg_reset();
        Row::format_card_with(card, red.as_str(), reset.as_str())
    }

    /// Writes the row, with `red` before and `reset` after each card of a
    /// red suit.
    pub fn to_string_with(&self, red: &str, reset: &str) -> (text: String)
        ensures
            text@ == row_text(self@, red@, reset@),
    {
        let cards = self.cards();
        let n: usize = cards.len();
        let mut text = String::from_str("");
        let mut i: usize = 0;
        proof {
            reveal_strlit("");
            reveal_strlit(" ");
        }
        while i < n
            invariant
                n == cards@.len(),
                n == self@.len(),
                forall|j: int| 0 <= j < n ==> (#[trigger] cards@[j])@ == self@[j],
                i <= n,
                text@ == row_text(self@.take(i as int), red@, reset@),
            decreases n - i,
        {
            proof {
                reveal_strlit(" ");
                assert(self@.take(i + 1).drop_last() =~= self@.take(i as int));
                assert(self@.take(i + 1).last() == self@[i as int]);
                assert(self@.take(i + 1)[0] == self@[0]);
            }
            if i > 0 {
                text.append(" ");
            }
            let shown = Row::format_card_with(&cards[i], red, reset);
            text.append(shown.as_str());
            assert(text@ =~= row_text(self@.take(i + 1), red@, reset@));
            i = i + 1;
        }
        assert(self@.take(n as int) =~= self@);
        text
    }

    /// Writes the row for a terminal: its cards as [`Row::format_card`]
    /// writes them, with one space between two of them.
    pub fn to_string(&self) -> (text: String)
        ensures
            text@ == row_text(self@, red_code(), reset_code()) || text@ == row_text(
                self@,
                Seq::<char>::empty(),
                reset_code(),
            ),
    {
        let red = fg_red();
        let reset = fg_reset();
        self.to_string_with(red.as_str(), reset.as_str())
    }
}

} // verus!
