use hilo::{Deck, Error, Row};

fn card(text: &str) -> String {
    String::from(text)
}

fn row_of(cards: &[&str]) -> Row {
    let mut row = Row::new(card(cards[0]));
    for text in &cards[1..] {
        row.add_right(card(text));
    }
    row
}

#[test]
fn row_can_add_cards() {
    let card1 = String::from("a1");
    let mut row = Row::new(card1.clone());
    let card_left = String::from("c4");
    let card_right = String::from("d10");
    row.add_left(card_left.clone());
    row.add_right(card_right.clone());
    assert_eq!(*row.cards(), vec![card_left, card1, card_right]);
}

#[test]
fn row_can_collapse_into_deck() {
    let mut deck = Deck::new(16).unwrap();
    let cards = [
        String::from("a14"),
        String::from("b13"),
        String::from("c13"),
    ];
    deck.remove(&cards[0]).unwrap();
    deck.remove(&cards[1]).unwrap();
    let mut row = Row::new(cards[0].clone());
    row.add_right(cards[1].clone());
    assert_eq!(deck.size(), 14);
    assert!(!deck.has_card(&cards[0]));
    assert!(!deck.has_card(&cards[1]));
    assert_eq!(row.cards(), &vec![cards[0].clone(), cards[1].clone()]);
    deck.remove(&cards[2]).unwrap();
    row.collapse(cards[2].clone(), &mut deck).unwrap();
    assert_eq!(deck.size(), 15);
    assert!(deck.has_card(&cards[0]));
    assert!(deck.has_card(&cards[1]));
}

#[test]
fn new_row_holds_one_card() {
    let row = Row::new(card("a2"));
    assert_eq!(row.len(), 1);
    assert_eq!(row.get_left(), "a2");
    assert_eq!(row.get_right(), "a2");
    assert_eq!(*row.cards(), vec![card("a2")]);
}

#[test]
fn row_ends_are_the_first_and_the_last_card() {
    let row = row_of(&["c4", "a2", "d10"]);
    assert_eq!(row.len(), 3);
    assert_eq!(row.get_left(), "c4");
    assert_eq!(row.get_right(), "d10");
}

#[test]
fn remove_left_puts_the_left_card_back_into_the_deck() {
    let mut deck = Deck::new(8).unwrap();
    deck.remove(&card("a14")).unwrap();
    deck.remove(&card("b13")).unwrap();
    let mut row = row_of(&["a14", "b13"]);
    assert_eq!(row.remove_left(&mut deck), Ok(()));
    assert_eq!(*row.cards(), vec![card("b13")]);
    assert_eq!(deck.size(), 7);
    assert!(deck.has_card(&card("a14")));
    assert!(!deck.has_card(&card("b13")));
    assert_eq!(deck.rank_count(14), Some(4));
}

#[test]
fn remove_right_puts_the_right_card_back_into_the_deck() {
    let mut deck = Deck::new(8).unwrap();
    deck.remove(&card("a14")).unwrap();
    deck.remove(&card("b13")).unwrap();
    let mut row = row_of(&["a14", "b13"]);
    assert_eq!(row.remove_right(&mut deck), Ok(()));
    assert_eq!(*row.cards(), vec![card("a14")]);
    assert_eq!(deck.size(), 7);
    assert!(deck.has_card(&card("b13")));
    assert!(!deck.has_card(&card("a14")));
    assert_eq!(deck.rank_count(13), Some(4));
}

#[test]
fn remove_from_a_row_of_one_card_is_refused_and_changes_nothing() {
    let mut deck = Deck::new(8).unwrap();
    deck.remove(&card("a14")).unwrap();
    let mut row = Row::new(card("a14"));
    assert_eq!(row.remove_left(&mut deck), Err(Error::LastCard));
    assert_eq!(row.remove_right(&mut deck), Err(Error::LastCard));
    assert_eq!(*row.cards(), vec![card("a14")]);
    assert_eq!(deck.size(), 7);
    assert!(!deck.has_card(&card("a14")));
    assert_eq!(deck.rank_count(14), Some(3));
}

#[test]
fn remove_of_a_card_that_the_deck_does_not_take_is_refused() {
    let mut deck = Deck::new(8).unwrap();
    let mut row = row_of(&["a2", "b13", "x9"]);
    assert_eq!(row.remove_left(&mut deck), Err(Error::Validation));
    assert_eq!(row.remove_right(&mut deck), Err(Error::Validation));
    assert_eq!(row.len(), 3);
    assert_eq!(deck.size(), 8);
}

#[test]
fn collapse_leaves_the_new_card_alone_in_the_row() {
    let mut deck = Deck::new(16).unwrap();
    for text in ["a14", "b13", "c12", "d11"] {
        deck.remove(&card(text)).unwrap();
    }
    let mut row = row_of(&["a14", "b13", "c12"]);
    assert_eq!(deck.size(), 12);
    assert_eq!(row.collapse(card("d11"), &mut deck), Ok(()));
    assert_eq!(*row.cards(), vec![card("d11")]);
    assert_eq!(row.len(), 1);
    assert_eq!(deck.size(), 15);
    for text in ["a14", "b13", "c12"] {
        assert!(deck.has_card(&card(text)));
    }
    assert!(!deck.has_card(&card("d11")));
    assert_eq!(deck.rank_count(14), Some(4));
    assert_eq!(deck.rank_count(11), Some(3));
}

#[test]
fn collapse_does_not_ask_what_the_new_card_is() {
    let mut deck = Deck::new(16).unwrap();
    deck.remove(&card("a14")).unwrap();
    deck.remove(&card("b13")).unwrap();
    let mut row = Row::new(card("a14"));
    row.add_right(card("b13"));
    assert_eq!(deck.size(), 14);
    assert_eq!(row.collapse(card("a1"), &mut deck), Ok(()));
    assert_eq!(*row.cards(), vec![card("a1")]);
    assert_eq!(deck.size(), 16);
}

#[test]
fn collapse_of_a_row_with_a_card_that_the_deck_does_not_take_is_refused() {
    let mut deck = Deck::new(8).unwrap();
    deck.remove(&card("a14")).unwrap();
    let mut row = row_of(&["a14", "a2"]);
    assert!(!row.returnable(&deck));
    assert_eq!(row.collapse(card("b14"), &mut deck), Err(Error::Validation));
    assert_eq!(*row.cards(), vec![card("a14"), card("a2")]);
    assert_eq!(deck.size(), 7);
    assert!(!deck.has_card(&card("a14")));
}

#[test]
fn returnable_asks_every_card_of_the_row() {
    let deck = Deck::new(8).unwrap();
    assert!(row_of(&["a14", "b13", "c14"]).returnable(&deck));
    assert!(!row_of(&["a14", "b13", "c12"]).returnable(&deck));
    assert!(!row_of(&["a1"]).returnable(&deck));
}
