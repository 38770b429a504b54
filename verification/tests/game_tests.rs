use oxidado::game::{parse_players_number, rounds_and_cards};

#[test]
fn number_of_players() {
    assert_eq!(parse_players_number(b"4"), Some(4));
    assert_eq!(parse_players_number(b"6"), Some(6));
    assert_eq!(parse_players_number(b"+8"), Some(8));
    assert_eq!(parse_players_number(b"5"), None);
    assert_eq!(parse_players_number(b"2"), None);
    assert_eq!(parse_players_number(b"0"), None);
    assert_eq!(parse_players_number(b"cuatro"), None);
    assert_eq!(parse_players_number(b""), None);
    assert_eq!(parse_players_number(b"-4"), None);
}

#[test]
fn rounds_and_dealt_cards() {
    assert_eq!(rounds_and_cards(4), (12, 48));
    assert_eq!(rounds_and_cards(6), (8, 48));
    assert_eq!(rounds_and_cards(10), (4, 40));
    assert_eq!(rounds_and_cards(14), (3, 42));
    assert_eq!(rounds_and_cards(5), (9, 45));
    assert_eq!(rounds_and_cards(50), (0, 0));
}
