use oxidado::cards::{card_text, deal_cards, draw_card, new_deck, parse_card_value, Card, Suit, TOTAL_CARDS};

#[test]
fn deck_has_each_card_once() {
    let deck = new_deck();
    assert_eq!(deck.len(), 48);
    assert_eq!(deck[0], Card { value: 1, suit: Suit::Copas });
    assert_eq!(deck[1], Card { value: 1, suit: Suit::Oros });
    assert_eq!(deck[2], Card { value: 1, suit: Suit::Bastos });
    assert_eq!(deck[3], Card { value: 1, suit: Suit::Espadas });
    assert_eq!(deck[5], Card { value: 2, suit: Suit::Oros });
    assert_eq!(deck[47], Card { value: 12, suit: Suit::Espadas });
    for i in 0..deck.len() {
        assert!(deck[i].value >= 1 && deck[i].value <= 12);
        for j in 0..i {
            assert_ne!(deck[i], deck[j]);
        }
    }
}

#[test]
fn card_texts() {
    assert_eq!(card_text(Card { value: 7, suit: Suit::Oros }), b"7 de Oros".to_vec());
    assert_eq!(card_text(Card { value: 12, suit: Suit::Espadas }), b"12 de Espadas".to_vec());
    assert_eq!(card_text(Card { value: 1, suit: Suit::Copas }), b"1 de Copas".to_vec());
    assert_eq!(card_text(Card { value: 10, suit: Suit::Bastos }), b"10 de Bastos".to_vec());
}

#[test]
fn card_values() {
    assert_eq!(parse_card_value(b"12 de Espadas"), Some(12));
    assert_eq!(parse_card_value(b"3 de Copas"), Some(3));
    assert_eq!(parse_card_value(b"7"), Some(7));
    assert_eq!(parse_card_value(b"x de Copas"), None);
    assert_eq!(parse_card_value(b""), None);
    assert_eq!(parse_card_value(b" 3 de Copas"), None);
    for card in new_deck() {
        assert_eq!(parse_card_value(&card_text(card)), Some(card.value));
    }
}

#[test]
fn draws_the_card_at_an_index() {
    let mut deck = new_deck();
    let card = draw_card(&mut deck, 5);
    assert_eq!(card, Card { value: 2, suit: Suit::Oros });
    assert_eq!(deck.len(), 47);
    assert_eq!(deck[5], Card { value: 2, suit: Suit::Bastos });
    assert_eq!(deck[4], Card { value: 2, suit: Suit::Copas });
}

#[test]
fn deals_distinct_cards_of_the_deck() {
    for total in [0u32, 1, 10, 45, TOTAL_CARDS] {
        let dealt = deal_cards(total);
        assert_eq!(dealt.len(), total as usize);
        for i in 0..dealt.len() {
            assert!(dealt[i].value >= 1 && dealt[i].value <= 12);
            for j in 0..i {
                assert_ne!(dealt[i], dealt[j]);
            }
        }
    }
}

#[test]
fn a_full_deal_uses_the_whole_deck() {
    let dealt = deal_cards(TOTAL_CARDS);
    for card in new_deck() {
        assert!(dealt.contains(&card));
    }
}
