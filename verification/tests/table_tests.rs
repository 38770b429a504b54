use oxidado::table::{
    get_and_send_dealt_cards, get_and_send_players_choices, get_and_send_put_cards,
    get_and_send_round_type, Delivery, Recipient,
};

fn msgs(texts: &[&str]) -> Vec<Vec<u8>> {
    texts.iter().map(|t| t.as_bytes().to_vec()).collect()
}

fn plain(sends: &[Delivery]) -> Vec<(Recipient, String)> {
    sends.iter().map(|d| (d.to, String::from_utf8(d.message.clone()).unwrap())).collect()
}

#[test]
fn deals_around_the_table() {
    let sends = get_and_send_dealt_cards(3, msgs(&["a", "b", "c", "d", "e"]));
    assert_eq!(
        plain(&sends),
        vec![
            (Recipient::Player(0), "a".to_string()),
            (Recipient::Player(1), "b".to_string()),
            (Recipient::Player(2), "c".to_string()),
            (Recipient::Player(0), "d".to_string()),
            (Recipient::Player(1), "e".to_string()),
        ]
    );
}

#[test]
fn each_player_is_dealt_the_rounds() {
    let cards: Vec<Vec<u8>> = (0..48).map(|i: u32| i.to_string().into_bytes()).collect();
    let sends = get_and_send_dealt_cards(4, cards);
    for p in 0..4 {
        assert_eq!(sends.iter().filter(|d| d.to == Recipient::Player(p)).count(), 12);
    }
}

#[test]
fn passes_the_round_type_to_each_player() {
    let sends = get_and_send_round_type(4, &b"hablada".to_vec());
    assert_eq!(
        plain(&sends),
        (0..4).map(|p| (Recipient::Player(p), "hablada".to_string())).collect::<Vec<_>>()
    );
    assert!(get_and_send_round_type(0, &b"hablada".to_vec()).is_empty());
}

#[test]
fn passes_each_choice_to_all() {
    let sends = get_and_send_players_choices(2, &msgs(&["1:Paso", "2:Oxidado"]));
    assert_eq!(
        plain(&sends),
        vec![
            (Recipient::Coordinator, "1:Paso".to_string()),
            (Recipient::Player(0), "1:Paso".to_string()),
            (Recipient::Player(1), "1:Paso".to_string()),
            (Recipient::Coordinator, "2:Oxidado".to_string()),
            (Recipient::Player(0), "2:Oxidado".to_string()),
            (Recipient::Player(1), "2:Oxidado".to_string()),
        ]
    );
}

#[test]
fn passes_the_cards_to_the_coordinator() {
    let sends = get_and_send_put_cards(2, &msgs(&["1:3 de Oros", "2:4 de Copas"]));
    assert_eq!(
        plain(&sends),
        vec![
            (Recipient::Coordinator, "1:3 de Oros".to_string()),
            (Recipient::Coordinator, "2:4 de Copas".to_string()),
        ]
    );
}
