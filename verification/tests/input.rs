use hilo::card::{card_name, parse_number, parse_rank, split_cards, token_rank};
use hilo::{Command, Error, Table};

fn cards(texts: &[&str]) -> Vec<String> {
    texts.iter().map(|text| String::from(*text)).collect()
}

#[test]
fn commands_are_read_from_their_words() {
    assert_eq!(Command::parse("c"), Some(Command::Collapse));
    assert_eq!(Command::parse("al"), Some(Command::AddLeft));
    assert_eq!(Command::parse("ar"), Some(Command::AddRight));
    assert_eq!(Command::parse("dl"), Some(Command::RemoveLeft));
    assert_eq!(Command::parse("dr"), Some(Command::RemoveRight));
}

#[test]
fn other_words_are_no_commands() {
    for word in ["", "a", "d", "l", "r", "cc", "la", "rd", "ad", "dd", "al ", " c", "C", "AL", "alr", "collapse"] {
        assert_eq!(Command::parse(word), None, "{:?}", word);
    }
}

#[test]
fn rows_are_called_by_numbers_from_one() {
    let table = Table::new(3, cards(&["a1", "b2", "c3"])).unwrap();
    assert_eq!(table.row_index(0), None);
    assert_eq!(table.row_index(1), Some(0));
    assert_eq!(table.row_index(3), Some(2));
    assert_eq!(table.row_index(4), None);
    assert_eq!(table.row_index(usize::MAX), None);
    let none = Table::new(0, Vec::new()).unwrap();
    assert_eq!(none.row_index(0), None);
    assert_eq!(none.row_index(1), None);
}

#[test]
fn numbers_are_read_in_base_ten() {
    assert_eq!(parse_number("0"), Ok(0));
    assert_eq!(parse_number("7"), Ok(7));
    assert_eq!(parse_number("52"), Ok(52));
    assert_eq!(parse_number("+52"), Ok(52));
    assert_eq!(parse_number("0052"), Ok(52));
    assert_eq!(parse_number("1234567890"), Ok(1234567890));
    assert_eq!(parse_number(&format!("{}", usize::MAX)), Ok(usize::MAX));
}

#[test]
fn what_is_no_number_is_refused() {
    for text in ["", "+", "-1", "1-", " 1", "1 ", "1,2", "1.5", "0x10", "ten", "++1", "1+", "٣"] {
        assert_eq!(parse_number(text), Err(Error::Parse), "{:?}", text);
    }
    assert_eq!(parse_number(&format!("{}0", usize::MAX)), Err(Error::Parse));
    assert_eq!(parse_number(&format!("1{}", usize::MAX)), Err(Error::Parse));
}

#[test]
fn numbers_are_read_as_the_standard_library_reads_them() {
    for text in ["0", "12", "+12", "012", "", "+", "-12", "1 2", "a", "18446744073709551615", "18446744073709551616", "99999999999999999999999"] {
        assert_eq!(parse_number(text).ok(), text.parse::<usize>().ok(), "{:?}", text);
    }
}

#[test]
fn ranks_follow_the_first_character() {
    assert_eq!(parse_rank("a14"), Ok(14));
    assert_eq!(parse_rank("14"), Ok(4));
    assert_eq!(parse_rank("+14"), Ok(14));
    assert_eq!(parse_rank("++14"), Ok(14));
    assert_eq!(parse_rank("a"), Err(Error::Parse));
    assert_eq!(parse_rank("+"), Err(Error::Parse));
    assert_eq!(parse_rank(""), Err(Error::Parse));
}

#[test]
fn identifiers_are_a_suit_and_one_or_two_digits() {
    assert_eq!(token_rank("a2"), Some(2));
    assert_eq!(token_rank("d14"), Some(14));
    assert_eq!(token_rank("b99"), Some(99));
    assert_eq!(token_rank("c0"), Some(0));
    assert_eq!(token_rank("c07"), Some(7));
    for text in ["", "a", "2", "e2", "a222", "a+2", "a2a", "aa", "A2", "a 2", "a2\n", "a٣", "٣2"] {
        assert_eq!(token_rank(text), None, "{:?}", text);
    }
}

#[test]
fn cards_are_named_by_suit_and_rank() {
    assert_eq!(card_name(0, 14), "a14");
    assert_eq!(card_name(1, 10), "b10");
    assert_eq!(card_name(2, 9), "c9");
    assert_eq!(card_name(3, 2), "d2");
    assert_eq!(card_name(0, 0), "a0");
    assert_eq!(card_name(3, 99), "d99");
}

#[test]
fn a_list_of_cards_is_cut_at_its_commas() {
    assert_eq!(split_cards("a14,b13,c12"), cards(&["a14", "b13", "c12"]));
    assert_eq!(split_cards("a14"), cards(&["a14"]));
    assert_eq!(split_cards(""), cards(&[""]));
    assert_eq!(split_cards(","), cards(&["", ""]));
    assert_eq!(split_cards("a14,"), cards(&["a14", ""]));
    assert_eq!(split_cards(",a14"), cards(&["", "a14"]));
    assert_eq!(split_cards("a,,b"), cards(&["a", "", "b"]));
    assert_eq!(split_cards("a14, b13"), cards(&["a14", " b13"]));
    assert_eq!(split_cards("é,♣4"), cards(&["é", "♣4"]));
}

#[test]
fn a_list_is_cut_as_the_standard_library_cuts_it() {
    for text in ["", ",", ",,", "a", "a,b", "a,b,", ",a,,b,", "a14,b13,c12,d11"] {
        let expected: Vec<String> = text.split(",").map(String::from).collect();
        assert_eq!(split_cards(text), expected, "{:?}", text);
    }
}
