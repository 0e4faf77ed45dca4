//! The grammar of card identifiers: a suit letter followed by a decimal rank.

use regex::Regex;
use vstd::prelude::*;
use vstd::string::*;
use crate::error::Error;

verus! {

/// The highest rank, the ace.
pub const ACE: usize = 14;

/// One of the four suit letters.
pub open spec fn is_suit(c: char) -> bool {
    c == 'a' || c == 'b' || c == 'c' || c == 'd'
}

/// One of the ten ASCII digits.
pub open spec fn is_digit(c: char) -> bool {
    '0' <= c && c <= '9'
}

/// The number a digit stands for.
pub open spec fn digit_value(c: char) -> nat {
    (c as int - '0' as int) as nat
}

/// Every element is an ASCII digit.
pub open spec fn all_digits(s: Seq<char>) -> bool {
    forall|i: int| 0 <= i < s.len() ==> is_digit(#[trigger] s[i])
}

/// The number that a sequence of digits denotes in base ten.
pub open spec fn decimal(s: Seq<char>) -> nat
    decreases s.len(),
{
    if s.len() == 0 {
        0
    } else {
        decimal(s.drop_last()) * 10 + digit_value(s.last())
    }
}

/// Where the digits begin of a number that is written from the place `from`
/// on: after one plus sign, if one stands there.
pub open spec fn digits_start(text: Seq<char>, from: int) -> int {
    if from < text.len() && text[from] == '+' {
        from + 1
    } else {
        from
    }
}

/// The digits of a number that is written from the place `from` on.
pub open spec fn digits_from(text: Seq<char>, from: int) -> Seq<char> {
    text.subrange(digits_start(text, from), text.len() as int)
}

/// From the place `from` on the text is a number: an optional plus sign, then
/// one or more digits, to the end, whose number fits a machine word.
pub open spec fn is_number_from(text: Seq<char>, from: int) -> bool {
    &&& digits_start(text, from) < text.len()
    &&& all_digits(digits_from(text, from))
    &&& decimal(digits_from(text, from)) <= usize::MAX
}

/// The text is a number.
pub open spec fn is_number(text: Seq<char>) -> bool {
    is_number_from(text, 0)
}

/// The number that the text is.
pub open spec fn number_of(text: Seq<char>) -> nat {
    decimal(digits_from(text, 0))
}

/// Where the digits of the rank begin: after the first character, and after
/// one plus sign if it follows directly.
pub open spec fn rank_start(card: Seq<char>) -> int {
    digits_start(card, 1)
}

/// The digits of the rank of a card identifier.
pub open spec fn rank_digits(card: Seq<char>) -> Seq<char> {
    digits_from(card, 1)
}

/// The identifier carries a rank: what follows its first character is a
/// number.
pub open spec fn has_rank(card: Seq<char>) -> bool {
    is_number_from(card, 1)
}

/// The rank that a card identifier carries.
pub open spec fn rank_of(card: Seq<char>) -> nat {
    decimal(rank_digits(card))
}

/// The pieces that a text falls into at its commas. A text without a comma
/// is one piece, and so is the empty text.
pub open spec fn pieces(text: Seq<char>) -> Seq<Seq<char>>
    decreases text.len(),
{
    if text.len() == 0 {
        seq![seq![]]
    } else {
        let before = pieces(text.drop_last());
        if text.last() == ',' {
            before.push(seq![])
        } else {
            before.update(before.len() - 1, before.last().push(text.last()))
        }
    }
}

/// A card identifier: a suit letter followed by one or two digits.
pub open spec fn is_token(card: Seq<char>) -> bool {
    &&& 2 <= card.len() <= 3
    &&& is_suit(card[0])
    &&& forall|i: int| 1 <= i < card.len() ==> is_digit(#[trigger] card[i])
}

/// A card identifier whose rank is written without a leading zero.
pub open spec fn is_plain_token(card: Seq<char>) -> bool {
    is_token(card) && card[1] != '0'
}

/// The letter of the suit with the given number, counted from zero.
pub open spec fn suit_letter(k: nat) -> char {
    if k == 0 {
        'a'
    } else if k == 1 {
        'b'
    } else if k == 2 {
        'c'
    } else {
        'd'
    }
}

/// The digit that stands for a number below ten.
pub open spec fn digit_char(d: nat) -> char {
    if d == 0 {
        '0'
    } else if d == 1 {
        '1'
    } else if d == 2 {
        '2'
    } else if d == 3 {
        '3'
    } else if d == 4 {
        '4'
    } else if d == 5 {
        '5'
    } else if d == 6 {
        '6'
    } else if d == 7 {
        '7'
    } else if d == 8 {
        '8'
    } else {
        '9'
    }
}

/// The identifier of the card of a suit and a rank below a hundred.
pub open spec fn token(suit: char, rank: nat) -> Seq<char> {
    if rank < 10 {
        seq![suit, digit_char(rank)]
    } else {
        seq![suit, digit_char(rank / 10), digit_char(rank % 10)]
    }
}

/// The regular expression that card identifiers are matched against.
pub open spec fn card_pattern() -> Seq<char> {
    "^[abcd]\\d{1,2}$"@
}

/// What every text that the card pattern matches has in common: a suit
/// letter, then one or two characters of which the ASCII ones are digits.
pub open spec fn shaped_like_token(text: Seq<char>) -> bool {
    &&& 2 <= text.len() <= 3
    &&& is_suit(text[0])
    &&& forall|i: int|
        1 <= i < text.len() && (#[trigger] text[i]) as int <= 127 ==> is_digit(text[i])
}

/// A number only grows when digits are appended to it.
pub proof fn lemma_decimal_prefix(s: Seq<char>, k: int)
    requires
        0 <= k <= s.len(),
    ensures
        decimal(s.take(k)) <= decimal(s),
    decreases s.len(),
{
    if k < s.len() {
        assert(s.drop_last().take(k) =~= s.take(k));
        lemma_decimal_prefix(s.drop_last(), k);
    } else {
        assert(s.take(k) =~= s);
    }
}

/// Reads the number that is written in `text` from the place `from` on.
fn parse_from(text: &str, from: usize) -> (r: Result<usize, Error>)
    ensures
        match r {
            Ok(v) => is_number_from(text@, from as int) && v == decimal(
                digits_from(text@, from as int),
            ),
            Err(e) => !is_number_from(text@, from as int) && e == Error::Parse,
        },
{
    let n: usize = text.unicode_len();
    if from >= n {
        return Err(Error::Parse);
    }
    let mut i: usize = from;
    if text.get_char(from) == '+' {
        i = from + 1;
    }
    if i >= n {
        return Err(Error::Parse);
    }
    let start: usize = i;
    let ghost digits = digits_from(text@, from as int);
    let mut value: usize = 0;
    while i < n
        invariant
            start == digits_start(text@, from as int),
            digits == digits_from(text@, from as int),
            n == text@.len(),
            start <= i <= n,
            all_digits(digits.take(i - start)),
            value == decimal(digits.take(i - start)),
        decreases n - i,
    {
        let c: char = text.get_char(i);
        let code: u32 = c as u32;
        if code < 48 || code > 57 {
            assert(!is_digit(digits[i - start]));
            return Err(Error::Parse);
        }
        let d: usize = (code - 48) as usize;
        proof {
            let next = digits.take(i - start + 1);
            assert(next.drop_last() =~= digits.take(i - start));
            assert(next.last() == c);
            assert(decimal(next) == value * 10 + d);
            lemma_decimal_prefix(digits, i - start + 1);
        }
        if value > (usize::MAX - d) / 10 {
            return Err(Error::Parse);
        }
        value = value * 10 + d;
        i = i + 1;
    }
    proof {
        assert(digits.take(i - start) =~= digits);
    }
    Ok(value)
}

/// Reads a number: decimal digits, with or without a plus sign before them.
/// Refused is a text that is anything else, and a number too large for a
/// machine word.
pub fn parse_number(text: &str) -> (r: Result<usize, Error>)
    ensures
        match r {
            Ok(v) => is_number(text@) && v == number_of(text@),
            Err(e) => !is_number(text@) && e == Error::Parse,
        },
{
    parse_from(text, 0)
}

/// Reads the rank out of a card identifier: the number that follows its
/// first character.
pub fn parse_rank(card: &str) -> (r: Result<usize, Error>)
    ensures
        match r {
            Ok(v) => has_rank(card@) && v == rank_of(card@),
            Err(e) => !has_rank(card@) && e == Error::Parse,
        },
{
    parse_from(card, 1)
}

/// Cuts a list of card identifiers at its commas.
pub fn split_cards(text: &str) -> (cards: Vec<String>)
    ensures
        cards@.len() == pieces(text@).len(),
        forall|i: int| 0 <= i < cards@.len() ==> (#[trigger] cards@[i])@ == pieces(text@)[i],
{
    let n: usize = text.unicode_len();
    let mut cards: Vec<String> = Vec::new();
    let mut start: usize = 0;
    let mut i: usize = 0;
    while i < n
        invariant
            n == text@.len(),
            start <= i <= n,
            pieces(text@.take(i as int)).len() == cards@.len() + 1,
            forall|j: int|
                0 <= j < cards@.len() ==> (#[trigger] cards@[j])@ == pieces(
                    text@.take(i as int),
                )[j],
            pieces(text@.take(i as int)).last() == text@.subrange(start as int, i as int),
        decreases n - i,
    {
        let c: char = text.get_char(i);
        proof {
            assert(text@.take(i + 1).drop_last() =~= text@.take(i as int));
            assert(text@.take(i + 1).last() == c);
        }
        if c == ',' {
            cards.push(String::from_str(text.substring_char(start, i)));
            start = i + 1;
            assert(text@.subrange(start as int, i + 1) =~= Seq::<char>::empty());
        } else {
            assert(text@.subrange(start as int, i + 1) =~= text@.subrange(
                start as int,
                i as int,
            ).push(c));
        }
        i = i + 1;
    }
    cards.push(String::from_str(text.substring_char(start, n)));
    assert(text@.take(n as int) =~= text@);
    cards
}

/// A card identifier always carries a rank, written without a sign.
pub proof fn lemma_token_has_rank(card: Seq<char>)
    requires
        is_token(card),
    ensures
        has_rank(card),
        rank_start(card) == 1,
        rank_of(card) <= 99,
{
    let digits = rank_digits(card);
    assert(is_digit(card[1]));
    assert forall|i: int| 0 <= i < digits.len() implies is_digit(#[trigger] digits[i]) by {
        assert(digits[i] == card[i + 1]);
    }
    reveal_with_fuel(decimal, 3);
    if digits.len() == 2 {
        assert(digits.drop_last().len() == 1);
        assert(is_digit(digits[0]) && is_digit(digits[1]));
        assert(digits.drop_last().last() == digits[0]);
        assert(digits.drop_last().drop_last().len() == 0);
    } else {
        assert(is_digit(digits[0]));
        assert(digits.drop_last().len() == 0);
    }
}

/// The identifier made of a suit and a rank is a card identifier of that
/// rank, written plainly.
pub proof fn lemma_token_is_plain(suit: char, rank: nat)
    requires
        is_suit(suit),
        1 <= rank <= 99,
    ensures
        is_plain_token(token(suit, rank)),
        rank_of(token(suit, rank)) == rank,
        token(suit, rank)[0] == suit,
{
    let card = token(suit, rank);
    let digits = rank_digits(card);
    reveal_with_fuel(decimal, 3);
    if rank < 10 {
        assert(digits =~= seq![digit_char(rank)]);
        assert(digits.drop_last().len() == 0);
    } else {
        assert(digits =~= seq![digit_char(rank / 10), digit_char(rank % 10)]);
        assert(digits.drop_last() =~= seq![digit_char(rank / 10)]);
        assert(digits.drop_last().drop_last().len() == 0);
    }
}

/// A plainly written card identifier is determined by its suit and its rank.
pub proof fn lemma_plain_token_unique(card: Seq<char>)
    requires
        is_plain_token(card),
    ensures
        card == token(card[0], rank_of(card)),
        1 <= rank_of(card) <= 99,
{
    let digits = rank_digits(card);
    lemma_token_has_rank(card);
    reveal_with_fuel(decimal, 3);
    assert(is_digit(card[1]));
    if card.len() == 2 {
        assert(digits =~= seq![card[1]]);
        assert(digits.drop_last().len() == 0);
        assert(card =~= token(card[0], rank_of(card)));
    } else {
        assert(is_digit(card[2]));
        assert(digits =~= seq![card[1], card[2]]);
        assert(digits.drop_last() =~= seq![card[1]]);
        assert(digits.drop_last().drop_last().len() == 0);
        assert(card =~= token(card[0], rank_of(card)));
    }
}

/// Compiles `pattern` with `regex::Regex::new` and, where that succeeds, asks
/// `Regex::is_match` whether `text` matches it; `None` where the pattern does
/// not compile.
///
/// Not proved. Claimed of the card pattern only, from the syntax that the
/// regex crate documents: `^` and `$` anchor at both ends of the text,
/// `[abcd]` is one of the four letters, `\d` is a Unicode decimal digit (of
/// the ASCII characters exactly `0` to `9`), and `{1,2}` asks for one or two
/// of them. So the pattern compiles, a match has the shape of a token, and
/// every token matches. Whether a non-ASCII digit matches is left open.
#[verifier::external_body]
fn regex_is_match(pattern: &str, text: &str) -> (found: Option<bool>)
    ensures
        pattern@ == card_pattern() ==> found is Some,
        pattern@ == card_pattern() && found == Some(true) ==> shaped_like_token(text@),
        pattern@ == card_pattern() && is_token(text@) ==> found == Some(true),
{
    match Regex::new(pattern) {
        Ok(re) => Some(re.is_match(text)),
        Err(_) => None,
    }
}

/// The digit of a number below ten, as a text.
fn digit_text(d: usize) -> (text: &'static str)
    requires
        d < 10,
    ensures
        text@ == seq![digit_char(d as nat)],
{
    proof {
        reveal_strlit("0");
        reveal_strlit("1");
        reveal_strlit("2");
        reveal_strlit("3");
        reveal_strlit("4");
        reveal_strlit("5");
        reveal_strlit("6");
        reveal_strlit("7");
        reveal_strlit("8");
        reveal_strlit("9");
    }
    let text = if d == 0 {
        "0"
    } else if d == 1 {
        "1"
    } else if d == 2 {
        "2"
    } else if d == 3 {
        "3"
    } else if d == 4 {
        "4"
    } else if d == 5 {
        "5"
    } else if d == 6 {
        "6"
    } else if d == 7 {
        "7"
    } else if d == 8 {
        "8"
    } else {
        "9"
    };
    assert(text@ =~= seq![digit_char(d as nat)]);
    text
}

/// The letter of a suit, as a text.
fn suit_text(k: usize) -> (text: &'static str)
    requires
        k < 4,
    ensures
        text@ == seq![suit_letter(k as nat)],
{
    proof {
        reveal_strlit("a");
        reveal_strlit("b");
        reveal_strlit("c");
        reveal_strlit("d");
    }
    let text = if k == 0 {
        "a"
    } else if k == 1 {
        "b"
    } else if k == 2 {
        "c"
    } else {
        "d"
    };
    assert(text@ =~= seq![suit_letter(k as nat)]);
    text
}

/// Writes the identifier of the card of the suit numbered `k` and of `rank`.
pub fn card_name(k: usize, rank: usize) -> (name: String)
    requires
        k < 4,
        rank <= 99,
    ensures
        name@ == token(suit_letter(k as nat), rank as nat),
{
    let mut name = String::from_str(suit_text(k));
    if rank >= 10 {
        name.append(digit_text(rank / 10));
    }
    name.append(digit_text(rank % 10));
    assert(name@ =~= token(suit_letter(k as nat), rank as nat));
    name
}

/// The rank of `card` where it is a card identifier, and `None` where it is
/// not.
pub fn token_rank(card: &str) -> (r: Option<usize>)
    ensures
        match r {
            Some(v) => is_token(card@) && v == rank_of(card@),
            None => !is_token(card@),
        },
{
    let found = regex_is_match("^[abcd]\\d{1,2}$", card);
    let matched = match found {
        Some(m) => m,
        None => false,
    };
    if !matched {
        return None;
    }
    proof {
        if is_token(card@) {
            lemma_token_has_rank(card@);
        }
    }
    match parse_rank(card) {
        Ok(v) => {
            proof {
                let digits = rank_digits(card@);
                if card@[1] == '+' {
                    assert(!is_digit(card@[1]));
                }
                assert forall|i: int| 1 <= i < card@.len() implies is_digit(
                    #[trigger] card@[i],
                ) by {
                    assert(digits[i - 1] == card@[i]);
                }
            }
            Some(v)
        },
        Err(_) => None,
    }
}

} // verus!
