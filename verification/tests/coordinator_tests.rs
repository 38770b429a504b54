use oxidado::coordinator::{get_players_cards, get_players_with_higher_card, listen_to_players, tell_winners};
use oxidado::idmap::IdMap;
use oxidado::message::RoundType;

fn msgs(texts: &[&str]) -> Vec<Vec<u8>> {
    texts.iter().map(|t| t.as_bytes().to_vec()).collect()
}

fn card_map(entries: &[(&str, u32)]) -> IdMap<u32> {
    let mut m = IdMap::new();
    for (id, v) in entries {
        m.insert(id.as_bytes().to_vec(), *v);
    }
    m
}

#[test]
fn silent_round_has_no_choices() {
    let choices = listen_to_players(RoundType::Silent, &msgs(&["1:Oxidado", "sin dos puntos"]));
    assert_eq!(choices.len(), 0);
    assert_eq!(choices.get(b"1"), None);
}

#[test]
fn spoken_round_keeps_each_choice() {
    let choices = listen_to_players(RoundType::Spoken, &msgs(&["2:Oxidado", "1:Paso", "3:Oxidado", "4:Paso"]));
    assert_eq!(choices.len(), 4);
    assert_eq!(choices.get(b"1"), Some(&b"Paso".to_vec()));
    assert_eq!(choices.get(b"2"), Some(&b"Oxidado".to_vec()));
    assert_eq!(choices.get(b"3"), Some(&b"Oxidado".to_vec()));
    assert_eq!(choices.get(b"4"), Some(&b"Paso".to_vec()));
    assert_eq!(choices.get(b"5"), None);
}

#[test]
fn later_choice_of_a_player_wins() {
    let choices = listen_to_players(RoundType::Spoken, &msgs(&["2:Oxidado", "2:Paso"]));
    assert_eq!(choices.len(), 1);
    assert_eq!(choices.get(b"2"), Some(&b"Paso".to_vec()));
}

#[test]
fn choices_are_kept_by_the_id_as_written() {
    let choices = listen_to_players(RoundType::Spoken, &msgs(&["x:Paso", "3:Oxidado", "+3:Paso", "03:Paso", "4:a:b"]));
    assert_eq!(choices.len(), 5);
    assert_eq!(choices.get(b"x"), Some(&b"Paso".to_vec()));
    assert_eq!(choices.get(b"3"), Some(&b"Oxidado".to_vec()));
    assert_eq!(choices.get(b"+3"), Some(&b"Paso".to_vec()));
    assert_eq!(choices.get(b"03"), Some(&b"Paso".to_vec()));
    assert_eq!(choices.get(b"4"), Some(&b"a".to_vec()));
}

#[test]
fn reads_the_cards_of_a_round() {
    let (cards, first, last) =
        get_players_cards(&msgs(&["3:5 de Copas", "1:12 de Oros", "4:1 de Bastos", "2:12 de Espadas"]));
    assert_eq!(first, b"3".to_vec());
    assert_eq!(last, b"2".to_vec());
    assert_eq!(cards.len(), 4);
    assert_eq!(cards.get(b"3"), Some(&5));
    assert_eq!(cards.get(b"1"), Some(&12));
    assert_eq!(cards.get(b"4"), Some(&1));
    assert_eq!(cards.get(b"2"), Some(&12));
}

#[test]
fn cards_are_kept_by_the_id_as_written() {
    let (cards, first, last) = get_players_cards(&msgs(&["x:5", "3:7 de Oros", "03:9 de Copas", "3:2 de Copas"]));
    assert_eq!(first, b"x".to_vec());
    assert_eq!(last, b"3".to_vec());
    assert_eq!(cards.len(), 3);
    assert_eq!(cards.get(b"x"), Some(&5));
    assert_eq!(cards.get(b"3"), Some(&2));
    assert_eq!(cards.get(b"03"), Some(&9));
}

#[test]
fn first_and_last_need_enough_cards() {
    let (cards, first, last) = get_players_cards(&msgs(&["3:5 de Copas"]));
    assert_eq!(cards.len(), 1);
    assert_eq!(first, b"3".to_vec());
    assert!(last.is_empty());
    let (cards, first, last) = get_players_cards(&msgs(&[]));
    assert_eq!(cards.len(), 0);
    assert!(first.is_empty());
    assert!(last.is_empty());
}

fn sorted(mut v: Vec<Vec<u8>>) -> Vec<Vec<u8>> {
    v.sort();
    v
}

#[test]
fn players_with_the_highest_card() {
    let cards = card_map(&[("1", 12), ("2", 5), ("3", 12), ("4", 1)]);
    assert_eq!(sorted(get_players_with_higher_card(cards)), msgs(&["1", "3"]));
    let cards = card_map(&[("1", 3), ("2", 7)]);
    assert_eq!(get_players_with_higher_card(cards), msgs(&["2"]));
}

#[test]
fn highest_card_edge_cases() {
    assert!(get_players_with_higher_card(IdMap::new()).is_empty());
    let cards = card_map(&[("5", 0), ("6", 0)]);
    assert_eq!(sorted(get_players_with_higher_card(cards)), msgs(&["5", "6"]));
    let cards = card_map(&[("3", 9), ("03", 9), ("x", 2)]);
    assert_eq!(sorted(get_players_with_higher_card(cards)), msgs(&["03", "3"]));
}

#[test]
fn winners_of_a_game() {
    assert_eq!(tell_winners(vec![3, 10, -2, 7]), (vec![2], 10));
    assert_eq!(tell_winners(vec![5, 1, 5, 5]), (vec![1, 3, 4], 5));
    assert_eq!(tell_winners(vec![-4]), (vec![1], -4));
    assert_eq!(tell_winners(vec![-4, -1, -1]), (vec![2, 3], -1));
}

#[test]
fn highest_players_come_in_the_order_of_their_entries() {
    let cards = card_map(&[("4", 7), ("2", 5), ("1", 7), ("3", 7)]);
    assert_eq!(get_players_with_higher_card(cards), msgs(&["4", "1", "3"]));
    let cards = card_map(&[("2", 1), ("2", 9), ("5", 9)]);
    assert_eq!(get_players_with_higher_card(cards), msgs(&["2", "5"]));
}
