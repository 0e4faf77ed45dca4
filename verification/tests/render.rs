use hilo::{Error, Row};
use termion::color;

const RED: &str = "\x1B[38;5;1m";
const RESET: &str = "\x1B[39m";

fn card(text: &str) -> String {
    String::from(text)
}

#[test]
fn row_formats_cards_correctly() {
    let cards = [
        String::from("a4"),
        String::from("b10"),
        String::from("c12"),
        String::from("d14"),
    ];
    assert_eq!(Row::format_card(&cards[0]), String::from("[♣  4]"));
    assert_eq!(Row::format_card(&cards[1]), String::from("[♠ 10]"));
    assert_eq!(
        Row::format_card(&cards[2]),
        format!("{}[♥  Q]{}", color::Fg(color::Red), color::Fg(color::Reset))
    );
    assert_eq!(
        Row::format_card(&cards[3]),
        format!("{}[♦  A]{}", color::Fg(color::Red), color::Fg(color::Reset))
    );
}

#[test]
fn row_formats_correctly() {
    let cards = [String::from("a4"), String::from("b3"), String::from("c12")];
    let mut row = Row::new(cards[1].clone());
    row.add_left(cards[0].clone());
    row.add_right(cards[2].clone());
    assert_eq!(
        row.to_string(),
        format!(
            "{} {} {}",
            Row::format_card(row.cards().get(0).unwrap()),
            Row::format_card(row.cards().get(1).unwrap()),
            Row::format_card(row.cards().get(2).unwrap())
        )
    );
}

#[test]
fn red_suits_stand_between_the_codes_given() {
    assert_eq!(Row::format_card_with(&card("c12"), RED, RESET), "\x1B[38;5;1m[♥  Q]\x1B[39m");
    assert_eq!(Row::format_card_with(&card("d2"), "<", ">"), "<[♦  2]>");
    assert_eq!(Row::format_card_with(&card("c10"), "", RESET), "[♥ 10]\x1B[39m");
    assert_eq!(Row::format_card_with(&card("a12"), RED, RESET), "[♣  Q]");
    assert_eq!(Row::format_card_with(&card("b2"), "<", ">"), "[♠  2]");
}

#[test]
fn court_cards_and_the_ace_are_shown_by_a_letter() {
    assert_eq!(Row::format_card_with(&card("a11"), "", ""), "[♣  J]");
    assert_eq!(Row::format_card_with(&card("a12"), "", ""), "[♣  Q]");
    assert_eq!(Row::format_card_with(&card("a13"), "", ""), "[♣  K]");
    assert_eq!(Row::format_card_with(&card("a14"), "", ""), "[♣  A]");
    assert_eq!(Row::format_card_with(&card("a10"), "", ""), "[♣ 10]");
    assert_eq!(Row::format_card_with(&card("a15"), "", ""), "[♣ 15]");
    assert_eq!(Row::format_card_with(&card("a014"), "", ""), "[♣ 014]");
    assert_eq!(Row::format_card_with(&card("a1"), "", ""), "[♣  1]");
}

#[test]
fn what_is_no_card_is_written_as_it_stands() {
    assert_eq!(Row::format_card_with(&card("x9"), "<", ">"), "[  9]");
    assert_eq!(Row::format_card_with(&card("x"), "<", ">"), "[ ]");
    assert_eq!(Row::format_card_with(&card("a"), "<", ">"), "[♣ ]");
    assert_eq!(Row::format_card_with(&card(""), "<", ">"), "[ ]");
    assert_eq!(Row::format_card_with(&card("dxyz"), "<", ">"), "<[♦ xyz]>");
    assert_eq!(Row::format_card_with(&card("aé"), "<", ">"), "[♣ é]");
    assert_eq!(Row::format_card_with(&card("a?"), "<", ">"), "[♣  ?]");
}

#[test]
fn format_card_uses_the_codes_of_the_terminal() {
    let shown = Row::format_card(&card("d13"));
    assert!(shown == "\x1B[38;5;1m[♦  K]\x1B[39m" || shown == "[♦  K]\x1B[39m");
    assert_eq!(Row::format_card(&card("b13")), "[♠  K]");
}

#[test]
fn a_row_is_written_with_a_space_between_its_cards() {
    let mut row = Row::new(card("a2"));
    assert_eq!(row.to_string_with("<", ">"), "[♣  2]");
    row.add_left(card("c4"));
    row.add_right(card("d10"));
    row.add_right(card("b14"));
    assert_eq!(row.to_string_with("<", ">"), "<[♥  4]> [♣  2] <[♦ 10]> [♠  A]");
    assert_eq!(row.to_string_with(RED, RESET), format!(
        "{}[♥  4]{} [♣  2] {}[♦ 10]{} [♠  A]",
        RED, RESET, RED, RESET
    ));
}

#[test]
fn a_row_is_written_with_the_codes_of_the_terminal() {
    let mut row = Row::new(card("a2"));
    row.add_right(card("c3"));
    let shown = row.to_string();
    assert!(shown == "[♣  2] \x1B[38;5;1m[♥  3]\x1B[39m" || shown == "[♣  2] [♥  3]\x1B[39m");
}

#[test]
fn errors_have_a_message() {
    assert_eq!(Error::Construction.message(), "Invalid deck size or card amount");
    assert_eq!(Error::Validation.message(), "Invalid card");
    assert_eq!(Error::NotFound.message(), "Card value not in deck");
    assert_eq!(Error::Parse.message(), "Invalid card value");
    assert_eq!(Error::EmptyDeck.message(), "No cards left in deck");
    assert_eq!(Error::LastCard.message(), "Cannot remove last card in row");
    assert_eq!(Error::NotInDeck.message(), "Card not in deck");
    assert_eq!(Error::NoRow.message(), "Row does not exist");
    assert_eq!(Error::NoCard.message(), "No card given");
}
