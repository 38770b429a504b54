use oxidado::idmap::IdMap;
use oxidado::message::RoundType;
use oxidado::score::{tell_players_score, Award, AwardReason};

fn choices(entries: &[(&str, &str)]) -> IdMap<Vec<u8>> {
    let mut m = IdMap::new();
    for (p, c) in entries {
        m.insert(p.as_bytes().to_vec(), c.as_bytes().to_vec());
    }
    m
}

fn ids(v: &[&str]) -> Vec<Vec<u8>> {
    v.iter().map(|t| t.as_bytes().to_vec()).collect()
}

fn award(player: &str, points: i32, reason: AwardReason) -> Award {
    Award { player: player.as_bytes().to_vec(), points, reason }
}

fn entries(m: &IdMap<Vec<u8>>) -> Vec<(Vec<u8>, Vec<u8>)> {
    (0..m.len()).map(|i| {
        let (id, v) = m.entry(i);
        (id.clone(), v.clone())
    }).collect()
}

#[test]
fn silent_round_scores() {
    let mut scoreboard = vec![0, 0, 0, 0];
    let mut ch = IdMap::new();
    let awards = tell_players_score(RoundType::Silent, &mut scoreboard, &mut ch, b"2".to_vec(), b"4".to_vec(), ids(&["1", "3"]));
    assert_eq!(scoreboard, vec![10, 1, 10, -1]);
    assert_eq!(
        awards,
        vec![
            award("2", 1, AwardReason::FirstToPlay),
            award("4", -1, AwardReason::LastToPlay),
            award("1", 10, AwardReason::HighestCard),
            award("3", 10, AwardReason::HighestCard),
        ]
    );
}

#[test]
fn silent_round_ignores_choices() {
    let mut scoreboard = vec![0, 0];
    let mut ch = choices(&[("1", "Oxidado"), ("2", "Oxidado")]);
    let awards = tell_players_score(RoundType::Silent, &mut scoreboard, &mut ch, b"1".to_vec(), b"2".to_vec(), ids(&["2"]));
    assert_eq!(scoreboard, vec![1, 9]);
    assert_eq!(awards.len(), 3);
    assert_eq!(ch.len(), 2);
}

#[test]
fn spoken_round_scores() {
    let mut scoreboard = vec![5, 5, 5, 5];
    let mut ch = choices(&[("1", "Oxidado"), ("2", "Oxidado"), ("3", "Paso"), ("4", "Oxidado")]);
    let awards = tell_players_score(RoundType::Spoken, &mut scoreboard, &mut ch, b"3".to_vec(), b"2".to_vec(), ids(&["1", "3"]));
    // 1: highest and rusty: +15; 2: last and rusty without the highest: -6;
    // 3: first and highest: +11; 4: rusty without the highest: -5
    assert_eq!(scoreboard, vec![20, -1, 16, 0]);
    assert_eq!(
        awards,
        vec![
            award("3", 1, AwardReason::FirstToPlay),
            award("2", -1, AwardReason::LastToPlay),
            award("1", 10, AwardReason::HighestCard),
            award("1", 5, AwardReason::RustyWithHighest),
            award("3", 10, AwardReason::HighestCard),
            award("2", -5, AwardReason::RustyWithoutHighest),
            award("4", -5, AwardReason::RustyWithoutHighest),
        ]
    );
    // the player who won the bonus leaves the choices
    assert_eq!(entries(&ch), vec![
        (b"2".to_vec(), b"Oxidado".to_vec()),
        (b"3".to_vec(), b"Paso".to_vec()),
        (b"4".to_vec(), b"Oxidado".to_vec()),
    ]);
}

#[test]
fn first_player_can_also_be_last() {
    let mut scoreboard = vec![0];
    let mut ch = IdMap::new();
    let awards = tell_players_score(RoundType::Silent, &mut scoreboard, &mut ch, b"1".to_vec(), b"1".to_vec(), ids(&["1"]));
    assert_eq!(scoreboard, vec![10]);
    assert_eq!(awards.len(), 3);
}

#[test]
fn scores_add_up_to_the_awards() {
    let mut scoreboard = vec![0, 0, 0, 0, 0, 0];
    let mut ch = choices(&[("1", "Paso"), ("2", "Oxidado"), ("3", "Oxidado"), ("4", "Paso"), ("5", "Oxidado"), ("6", "Paso")]);
    let awards = tell_players_score(RoundType::Spoken, &mut scoreboard, &mut ch, b"6".to_vec(), b"5".to_vec(), ids(&["2", "4"]));
    for p in 1..=6usize {
        let total: i32 = awards
            .iter()
            .filter(|a| String::from_utf8(a.player.clone()).unwrap().parse::<usize>().unwrap() == p)
            .map(|a| a.points)
            .sum();
        assert_eq!(scoreboard[p - 1], total);
    }
    assert_eq!(scoreboard, vec![0, 15, -5, 10, -6, 1]);
}

#[test]
fn ids_written_otherwise_name_the_same_score() {
    // "03" and "+3" name the third score, as the number they read as
    let mut scoreboard = vec![0, 0, 0];
    let mut ch = choices(&[("3", "Paso"), ("03", "Oxidado"), ("+3", "Oxidado")]);
    let awards = tell_players_score(RoundType::Spoken, &mut scoreboard, &mut ch, b"01".to_vec(), b"+2".to_vec(), ids(&["3", "03"]));
    // 03 wins the bonus; +3 is not among the highest: minus 5 on the same score
    assert_eq!(scoreboard, vec![1, -1, 20]);
    assert_eq!(
        awards,
        vec![
            award("01", 1, AwardReason::FirstToPlay),
            award("+2", -1, AwardReason::LastToPlay),
            award("3", 10, AwardReason::HighestCard),
            award("03", 10, AwardReason::HighestCard),
            award("03", 5, AwardReason::RustyWithHighest),
            award("+3", -5, AwardReason::RustyWithoutHighest),
        ]
    );
    assert_eq!(entries(&ch), vec![(b"3".to_vec(), b"Paso".to_vec()), (b"+3".to_vec(), b"Oxidado".to_vec())]);
}

#[test]
fn a_player_listed_twice_without_the_bonus_scores_twice() {
    let mut scoreboard = vec![0, 0];
    let mut ch = choices(&[("1", "Paso"), ("2", "Paso")]);
    tell_players_score(RoundType::Spoken, &mut scoreboard, &mut ch, b"2".to_vec(), b"2".to_vec(), ids(&["1", "1"]));
    assert_eq!(scoreboard, vec![20, 0]);
}
