use hilo::{Command, Deck, Error, Table};

fn card(text: &str) -> String {
    String::from(text)
}

fn cards(texts: &[&str]) -> Vec<String> {
    texts.iter().map(|text| String::from(*text)).collect()
}

fn on_table(table: &Table) -> usize {
    table.rows.iter().map(|row| row.len()).sum()
}

fn lying(table: &Table, row: usize) -> Vec<String> {
    table.rows[row].cards().clone()
}

#[test]
fn table_can_be_created() {
    let cards = vec![String::from("a1"), String::from("b2"), String::from("c3")];
    let table = Table::new(3, cards.clone()).unwrap();
    for i in 0..3 {
        assert_eq!(
            table.rows.get(i).unwrap().cards().get(0).unwrap(),
            cards.get(i).unwrap()
        )
    }
}

#[test]
fn table_rows_start_with_one_card_each() {
    let table = Table::new(2, cards(&["a2", "b3"])).unwrap();
    assert_eq!(table.rows.len(), 2);
    assert_eq!(table.rows[0].len(), 1);
    assert_eq!(table.rows[1].len(), 1);
    assert_eq!(lying(&table, 1), cards(&["b3"]));
}

#[test]
fn table_refuses_a_row_count_that_is_not_the_number_of_cards() {
    assert!(matches!(Table::new(3, cards(&["a1", "b2"])), Err(Error::Construction)));
    assert!(matches!(Table::new(0, cards(&["a1"])), Err(Error::Construction)));
    assert!(Table::new(0, Vec::new()).is_ok());
}

#[test]
fn table_rows_take_cards_at_both_ends() {
    let mut table = Table::new(1, cards(&["a2"])).unwrap();
    table.rows[0].add_left(card("c4"));
    table.rows[0].add_right(card("d10"));
    assert_eq!(lying(&table, 0), cards(&["c4", "a2", "d10"]));
}

#[test]
fn cards_on_the_table_are_counted() {
    let mut table = Table::new(3, cards(&["a2", "b3", "c4"])).unwrap();
    assert_eq!(table.count_cards(), Some(3));
    table.rows[1].add_left(card("d5"));
    table.rows[1].add_right(card("d6"));
    table.rows[2].add_right(card("d7"));
    assert_eq!(table.count_cards(), Some(6));
    assert_eq!(table.count_cards(), Some(on_table(&table)));
    let none = Table::new(0, Vec::new()).unwrap();
    assert_eq!(none.count_cards(), Some(0));
}

#[test]
fn has_row_checks_the_bounds() {
    let table = Table::new(2, cards(&["a2", "b3"])).unwrap();
    assert!(table.has_row(0));
    assert!(table.has_row(1));
    assert!(!table.has_row(2));
    assert!(!table.has_row(usize::MAX));
    let none = Table::new(0, Vec::new()).unwrap();
    assert!(!none.has_row(0));
}

#[test]
fn deal_draws_the_first_cards_from_the_deck() {
    let mut deck = Deck::new(16).unwrap();
    let table = Table::deal(&mut deck, 3, cards(&["a14", "b13", "c12"])).unwrap();
    assert_eq!(deck.size(), 13);
    assert_eq!(on_table(&table), 3);
    assert_eq!(lying(&table, 0), cards(&["a14"]));
    assert_eq!(lying(&table, 1), cards(&["b13"]));
    assert_eq!(lying(&table, 2), cards(&["c12"]));
    for text in ["a14", "b13", "c12"] {
        assert!(!deck.has_card(&card(text)));
    }
    assert_eq!(deck.rank_count(14), Some(3));
}

#[test]
fn deal_refuses_a_wrong_number_of_cards() {
    let mut deck = Deck::new(16).unwrap();
    assert!(matches!(
        Table::deal(&mut deck, 3, cards(&["a14", "b13"])),
        Err(Error::Construction)
    ));
    assert_eq!(deck.size(), 16);
    assert!(deck.has_card(&card("a14")));
}

#[test]
fn deal_refuses_a_card_given_twice_and_leaves_the_deck_as_it_was() {
    let mut deck = Deck::new(16).unwrap();
    assert!(matches!(
        Table::deal(&mut deck, 3, cards(&["a14", "b13", "a14"])),
        Err(Error::NotInDeck)
    ));
    assert_eq!(deck.size(), 16);
    assert!(deck.has_card(&card("a14")));
    assert!(deck.has_card(&card("b13")));
    assert_eq!(deck.rank_count(14), Some(4));
    assert_eq!(deck.rank_count(13), Some(4));
}

#[test]
fn deal_refuses_what_is_no_card_of_the_deck() {
    let mut deck = Deck::new(8).unwrap();
    assert!(matches!(
        Table::deal(&mut deck, 2, cards(&["a14", "a12"])),
        Err(Error::Validation)
    ));
    assert!(matches!(
        Table::deal(&mut deck, 2, cards(&["a12", "a14"])),
        Err(Error::Validation)
    ));
    assert_eq!(deck.size(), 8);
    assert!(deck.has_card(&card("a14")));
    assert_eq!(deck.rank_count(14), Some(4));
}

#[test]
fn deal_reports_the_first_card_that_cannot_be_drawn() {
    let mut deck = Deck::new(8).unwrap();
    deck.remove(&card("b14")).unwrap();
    assert!(matches!(
        Table::deal(&mut deck, 3, cards(&["a14", "b14", "zz"])),
        Err(Error::NotInDeck)
    ));
    assert!(matches!(
        Table::deal(&mut deck, 3, cards(&["a14", "zz", "b14"])),
        Err(Error::Validation)
    ));
    assert_eq!(deck.size(), 7);
    assert!(deck.has_card(&card("a14")));
}

#[test]
fn play_lays_a_card_at_the_left() {
    let mut deck = Deck::new(16).unwrap();
    let mut table = Table::deal(&mut deck, 2, cards(&["a14", "b13"])).unwrap();
    assert_eq!(table.play(&mut deck, 1, Command::AddLeft, Some(card("c12"))), Ok(()));
    assert_eq!(lying(&table, 0), cards(&["a14"]));
    assert_eq!(lying(&table, 1), cards(&["c12", "b13"]));
    assert_eq!(deck.size(), 13);
    assert!(!deck.has_card(&card("c12")));
    assert_eq!(deck.rank_count(12), Some(3));
}

#[test]
fn play_lays_a_card_at_the_right() {
    let mut deck = Deck::new(16).unwrap();
    let mut table = Table::deal(&mut deck, 2, cards(&["a14", "b13"])).unwrap();
    assert_eq!(table.play(&mut deck, 0, Command::AddRight, Some(card("c12"))), Ok(()));
    assert_eq!(lying(&table, 0), cards(&["a14", "c12"]));
    assert_eq!(lying(&table, 1), cards(&["b13"]));
    assert_eq!(deck.size(), 13);
    assert!(!deck.has_card(&card("c12")));
}

#[test]
fn play_takes_a_card_off_either_end() {
    let mut deck = Deck::new(16).unwrap();
    let mut table = Table::deal(&mut deck, 1, cards(&["a14"])).unwrap();
    table.play(&mut deck, 0, Command::AddRight, Some(card("b13"))).unwrap();
    table.play(&mut deck, 0, Command::AddRight, Some(card("c12"))).unwrap();
    assert_eq!(deck.size(), 13);
    assert_eq!(table.play(&mut deck, 0, Command::RemoveLeft, None), Ok(()));
    assert_eq!(lying(&table, 0), cards(&["b13", "c12"]));
    assert!(deck.has_card(&card("a14")));
    assert_eq!(table.play(&mut deck, 0, Command::RemoveRight, None), Ok(()));
    assert_eq!(lying(&table, 0), cards(&["b13"]));
    assert!(deck.has_card(&card("c12")));
    assert_eq!(deck.size(), 15);
}

#[test]
fn play_ignores_a_card_given_to_a_move_that_lays_none() {
    let mut deck = Deck::new(16).unwrap();
    let mut table = Table::deal(&mut deck, 1, cards(&["a14"])).unwrap();
    table.play(&mut deck, 0, Command::AddRight, Some(card("b13"))).unwrap();
    assert_eq!(table.play(&mut deck, 0, Command::RemoveLeft, Some(card("c12"))), Ok(()));
    assert_eq!(lying(&table, 0), cards(&["b13"]));
    assert!(deck.has_card(&card("c12")));
    assert_eq!(deck.size(), 15);
}

#[test]
fn play_collapses_a_row() {
    let mut deck = Deck::new(16).unwrap();
    let mut table = Table::deal(&mut deck, 2, cards(&["a14", "d11"])).unwrap();
    table.play(&mut deck, 0, Command::AddRight, Some(card("b13"))).unwrap();
    table.play(&mut deck, 0, Command::AddLeft, Some(card("c12"))).unwrap();
    assert_eq!(deck.size(), 12);
    assert_eq!(table.play(&mut deck, 0, Command::Collapse, Some(card("a11"))), Ok(()));
    assert_eq!(lying(&table, 0), cards(&["a11"]));
    assert_eq!(lying(&table, 1), cards(&["d11"]));
    assert_eq!(deck.size(), 14);
    for text in ["a14", "b13", "c12"] {
        assert!(deck.has_card(&card(text)));
    }
    assert!(!deck.has_card(&card("a11")));
    assert!(!deck.has_card(&card("d11")));
    assert_eq!(deck.rank_count(11), Some(2));
}

#[test]
fn play_refuses_a_row_that_is_not_there() {
    let mut deck = Deck::new(16).unwrap();
    let mut table = Table::deal(&mut deck, 2, cards(&["a14", "b13"])).unwrap();
    for command in [
        Command::Collapse,
        Command::AddLeft,
        Command::AddRight,
        Command::RemoveLeft,
        Command::RemoveRight,
    ] {
        assert_eq!(table.play(&mut deck, 2, command, Some(card("c12"))), Err(Error::NoRow));
    }
    assert_eq!(deck.size(), 14);
    assert!(deck.has_card(&card("c12")));
}

#[test]
fn play_refuses_to_take_the_last_card_of_a_row() {
    let mut deck = Deck::new(16).unwrap();
    let mut table = Table::deal(&mut deck, 2, cards(&["a14", "b13"])).unwrap();
    assert_eq!(table.play(&mut deck, 0, Command::RemoveLeft, None), Err(Error::LastCard));
    assert_eq!(table.play(&mut deck, 1, Command::RemoveRight, None), Err(Error::LastCard));
    assert_eq!(lying(&table, 0), cards(&["a14"]));
    assert_eq!(lying(&table, 1), cards(&["b13"]));
    assert_eq!(deck.size(), 14);
    assert!(!deck.has_card(&card("a14")));
}

#[test]
fn play_refuses_to_lay_without_a_card() {
    let mut deck = Deck::new(16).unwrap();
    let mut table = Table::deal(&mut deck, 1, cards(&["a14"])).unwrap();
    for command in [Command::Collapse, Command::AddLeft, Command::AddRight] {
        assert_eq!(table.play(&mut deck, 0, command, None), Err(Error::NoCard));
    }
    assert_eq!(lying(&table, 0), cards(&["a14"]));
    assert_eq!(deck.size(), 15);
}

#[test]
fn play_refuses_to_lay_what_is_no_card_of_the_deck() {
    let mut deck = Deck::new(8).unwrap();
    let mut table = Table::deal(&mut deck, 1, cards(&["a14"])).unwrap();
    for command in [Command::Collapse, Command::AddLeft, Command::AddRight] {
        assert_eq!(table.play(&mut deck, 0, command, Some(card("a12"))), Err(Error::Validation));
        assert_eq!(table.play(&mut deck, 0, command, Some(card("zz"))), Err(Error::Validation));
    }
    assert_eq!(lying(&table, 0), cards(&["a14"]));
    assert_eq!(deck.size(), 7);
}

#[test]
fn play_refuses_to_lay_a_card_that_is_on_the_table() {
    let mut deck = Deck::new(8).unwrap();
    let mut table = Table::deal(&mut deck, 2, cards(&["a14", "b14"])).unwrap();
    for command in [Command::Collapse, Command::AddLeft, Command::AddRight] {
        assert_eq!(table.play(&mut deck, 0, command, Some(card("b14"))), Err(Error::NotInDeck));
        assert_eq!(table.play(&mut deck, 0, command, Some(card("a14"))), Err(Error::NotInDeck));
    }
    assert_eq!(lying(&table, 0), cards(&["a14"]));
    assert_eq!(lying(&table, 1), cards(&["b14"]));
    assert_eq!(deck.size(), 6);
}

#[test]
fn play_refuses_a_collapse_when_the_deck_does_not_take_the_row_back() {
    let mut deck = Deck::new(8).unwrap();
    let mut table = Table::new(1, cards(&["a2"])).unwrap();
    assert_eq!(
        table.play(&mut deck, 0, Command::Collapse, Some(card("a14"))),
        Err(Error::Validation)
    );
    assert_eq!(lying(&table, 0), cards(&["a2"]));
    assert_eq!(deck.size(), 8);
    assert!(deck.has_card(&card("a14")));
    assert_eq!(table.play(&mut deck, 0, Command::AddRight, Some(card("a14"))), Ok(()));
    assert_eq!(table.play(&mut deck, 0, Command::RemoveLeft, None), Err(Error::Validation));
    assert_eq!(lying(&table, 0), cards(&["a2", "a14"]));
    assert_eq!(deck.size(), 7);
}

#[test]
fn play_refuses_to_draw_from_a_rank_that_was_counted_off() {
    let mut deck = Deck::new(8).unwrap();
    let mut table = Table::deal(&mut deck, 1, cards(&["a13"])).unwrap();
    for _ in 0..4 {
        deck.remove(&card("a14")).unwrap();
    }
    for command in [Command::Collapse, Command::AddLeft, Command::AddRight] {
        assert_eq!(table.play(&mut deck, 0, command, Some(card("b14"))), Err(Error::NotFound));
    }
    assert!(deck.has_card(&card("b14")));
    assert_eq!(lying(&table, 0), cards(&["a13"]));
    assert_eq!(deck.size(), 3);
}

#[test]
fn cards_are_conserved_through_a_game() {
    let mut deck = Deck::new(52).unwrap();
    let mut table = Table::deal(&mut deck, 3, cards(&["a2", "b7", "c14"])).unwrap();
    assert_eq!(deck.size() + on_table(&table), 52);
    let moves = [
        (0, Command::AddLeft, Some("d5")),
        (0, Command::AddRight, Some("d6")),
        (1, Command::AddRight, Some("zz")),
        (1, Command::AddRight, Some("a10")),
        (2, Command::RemoveLeft, None),
        (0, Command::RemoveLeft, None),
        (5, Command::AddLeft, Some("a3")),
        (1, Command::Collapse, Some("a11")),
        (1, Command::AddLeft, Some("b7")),
        (1, Command::AddLeft, Some("a11")),
        (0, Command::Collapse, None),
        (0, Command::RemoveRight, None),
        (0, Command::RemoveRight, None),
        (2, Command::Collapse, Some("c13")),
        (2, Command::AddRight, Some("c14")),
    ];
    for (row, command, laid) in moves {
        let _ = table.play(&mut deck, row, command, laid.map(card));
        assert_eq!(deck.size() + on_table(&table), 52);
    }
    assert_eq!(lying(&table, 0), cards(&["a2"]));
    assert_eq!(lying(&table, 1), cards(&["b7", "a11"]));
    assert_eq!(lying(&table, 2), cards(&["c13", "c14"]));
}

#[test]
fn no_card_is_in_the_deck_and_on_the_table_at_once() {
    let mut deck = Deck::new(16).unwrap();
    let mut table = Table::deal(&mut deck, 2, cards(&["a14", "b13"])).unwrap();
    let moves = [
        (0, Command::AddLeft, Some("c12")),
        (1, Command::AddRight, Some("c12")),
        (0, Command::AddRight, Some("d11")),
        (0, Command::RemoveLeft, None),
        (1, Command::Collapse, Some("c12")),
        (0, Command::Collapse, Some("b13")),
        (1, Command::AddLeft, Some("a14")),
        (1, Command::RemoveRight, None),
    ];
    for (row, command, laid) in moves {
        let _ = table.play(&mut deck, row, command, laid.map(card));
        let mut seen: Vec<String> = Vec::new();
        for row in table.rows.iter() {
            for lying in row.cards().iter() {
                assert!(!deck.has_card(lying));
                assert!(!seen.contains(lying));
                seen.push(lying.clone());
            }
        }
    }
}

#[test]
fn collapse_returns_the_row_and_takes_one_card() {
    let mut deck = Deck::new(52).unwrap();
    let mut table = Table::deal(&mut deck, 1, cards(&["a2"])).unwrap();
    for text in ["a3", "a4", "a5", "a6"] {
        table.play(&mut deck, 0, Command::AddRight, Some(card(text))).unwrap();
    }
    let before = deck.size();
    let n = table.rows[0].len();
    assert_eq!(n, 5);
    table.play(&mut deck, 0, Command::Collapse, Some(card("a7"))).unwrap();
    assert_eq!(table.rows[0].len(), 1);
    assert_eq!(deck.size(), before + n - 1);
}

#[test]
fn commands_that_lay_a_card_need_one() {
    assert!(Command::Collapse.needs_card());
    assert!(Command::AddLeft.needs_card());
    assert!(Command::AddRight.needs_card());
    assert!(!Command::RemoveLeft.needs_card());
    assert!(!Command::RemoveRight.needs_card());
}
