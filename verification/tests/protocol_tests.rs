use oxidado::cards::{card_text, Card, Suit};
use oxidado::coordinator::{get_players_cards, listen_to_players};
use oxidado::message::{player_message, RoundType};
use oxidado::player::tell_choice_and_listen;

#[test]
fn coordinator_reads_the_cards_that_players_put() {
    let put = vec![
        player_message(2, &card_text(Card { value: 11, suit: Suit::Bastos })),
        player_message(1, &card_text(Card { value: 4, suit: Suit::Copas })),
    ];
    let (cards, first, last) = get_players_cards(&put);
    assert_eq!(cards.get(b"2"), Some(&11));
    assert_eq!(cards.get(b"1"), Some(&4));
    assert_eq!(first, b"2".to_vec());
    assert_eq!(last, b"1".to_vec());
}

#[test]
fn coordinator_reads_the_choices_that_players_say() {
    let said = vec![player_message(3, b"Oxidado"), player_message(1, b"Paso")];
    let choices = listen_to_players(RoundType::Spoken, &said);
    assert_eq!(choices.get(b"3"), Some(&b"Oxidado".to_vec()));
    assert_eq!(choices.get(b"1"), Some(&b"Paso".to_vec()));
}

#[test]
fn a_player_hears_only_the_others() {
    let said = vec![player_message(1, b"Paso"), player_message(12, b"Oxidado"), player_message(2, b"Paso")];
    assert_eq!(
        tell_choice_and_listen(1, &said),
        vec![(b"12".to_vec(), b"Oxidado".to_vec()), (b"2".to_vec(), b"Paso".to_vec())]
    );
    assert_eq!(
        tell_choice_and_listen(12, &said),
        vec![(b"1".to_vec(), b"Paso".to_vec()), (b"2".to_vec(), b"Paso".to_vec())]
    );
}
