use oxidado::message::RoundType;
use oxidado::player::{get_dealt_cards, listen_round_type, put_card, tell_choice_and_listen};

fn msgs(texts: &[&str]) -> Vec<Vec<u8>> {
    texts.iter().map(|t| t.as_bytes().to_vec()).collect()
}

#[test]
fn keeps_dealt_cards() {
    let mut cards = Vec::new();
    assert_eq!(get_dealt_cards(&mut cards, b"3 de Oros".to_vec()), 1);
    assert_eq!(get_dealt_cards(&mut cards, b"7 de Copas".to_vec()), 2);
    assert_eq!(cards, msgs(&["3 de Oros", "7 de Copas"]));
}

#[test]
fn hears_the_round_type() {
    assert_eq!(listen_round_type(b"hablada"), RoundType::Spoken);
    assert_eq!(listen_round_type(b"silenciosa"), RoundType::Silent);
}

#[test]
fn hears_the_other_players() {
    let heard = tell_choice_and_listen(2, &msgs(&["1:Paso", "2:Oxidado", "3:Oxidado", "4:Paso"]));
    assert_eq!(
        heard,
        vec![
            (b"1".to_vec(), b"Paso".to_vec()),
            (b"3".to_vec(), b"Oxidado".to_vec()),
            (b"4".to_vec(), b"Paso".to_vec()),
        ]
    );
}

#[test]
fn own_message_is_skipped_even_without_a_choice() {
    let heard = tell_choice_and_listen(2, &msgs(&["2", "1:Paso", "x:Paso"]));
    assert_eq!(heard, vec![(b"1".to_vec(), b"Paso".to_vec()), (b"x".to_vec(), b"Paso".to_vec())]);
}

#[test]
fn puts_the_last_card() {
    let mut cards = msgs(&["3 de Oros", "7 de Copas"]);
    assert_eq!(put_card(4, &mut cards), b"4:7 de Copas".to_vec());
    assert_eq!(cards, msgs(&["3 de Oros"]));
    assert_eq!(put_card(4, &mut cards), b"4:3 de Oros".to_vec());
    assert!(cards.is_empty());
}
