use oxidado::message::{
    choice_from_number, choose_rusty_or_pass, is_rusty, parse_player_message, player_message,
    round_type_from_number, round_type_of_text, round_type_text, tell_round_type, RoundType,
};

#[test]
fn player_messages() {
    assert_eq!(player_message(3, b"Oxidado"), b"3:Oxidado".to_vec());
    assert_eq!(player_message(12, b"5 de Copas"), b"12:5 de Copas".to_vec());
    assert_eq!(parse_player_message(b"3:Oxidado"), Some((b"3".to_vec(), b"Oxidado".to_vec())));
    assert_eq!(parse_player_message(b"12:5 de Copas"), Some((b"12".to_vec(), b"5 de Copas".to_vec())));
    assert_eq!(parse_player_message(b"4:a:b"), Some((b"4".to_vec(), b"a".to_vec())));
    assert_eq!(parse_player_message(b"4:"), Some((b"4".to_vec(), Vec::new())));
    assert_eq!(parse_player_message(b"Oxidado"), None);
    assert_eq!(parse_player_message(b"x:Oxidado"), Some((b"x".to_vec(), b"Oxidado".to_vec())));
    assert_eq!(parse_player_message(b":Paso"), Some((Vec::new(), b"Paso".to_vec())));
}

#[test]
fn player_message_reads_back() {
    for (p, payload) in [(1u32, &b"Paso"[..]), (4, b"7 de Oros"), (4294967295, b"")] {
        assert_eq!(
            parse_player_message(&player_message(p, payload)),
            Some((p.to_string().into_bytes(), payload.to_vec()))
        );
    }
}

#[test]
fn round_types() {
    assert_eq!(round_type_text(RoundType::Silent), b"silenciosa".to_vec());
    assert_eq!(round_type_text(RoundType::Spoken), b"hablada".to_vec());
    assert_eq!(round_type_of_text(b"hablada"), RoundType::Spoken);
    assert_eq!(round_type_of_text(b"silenciosa"), RoundType::Silent);
    assert_eq!(round_type_of_text(b"Hablada"), RoundType::Silent);
    assert_eq!(round_type_of_text(b""), RoundType::Silent);
    for r in [RoundType::Silent, RoundType::Spoken] {
        assert_eq!(round_type_of_text(&round_type_text(r)), r);
    }
}

#[test]
fn round_type_draws() {
    assert_eq!(round_type_from_number(0), RoundType::Silent);
    assert_eq!(round_type_from_number(1), RoundType::Spoken);
    assert_eq!(round_type_from_number(7), RoundType::Spoken);
    for _ in 0..20 {
        let r = tell_round_type();
        assert!(r == RoundType::Silent || r == RoundType::Spoken);
    }
}

#[test]
fn choices() {
    assert_eq!(choice_from_number(0), b"Paso".to_vec());
    assert_eq!(choice_from_number(1), b"Oxidado".to_vec());
    assert!(is_rusty(b"Oxidado"));
    assert!(!is_rusty(b"Paso"));
    assert!(!is_rusty(b"oxidado"));
    for _ in 0..20 {
        let c = choose_rusty_or_pass();
        assert!(c == b"Paso".to_vec() || c == b"Oxidado".to_vec());
    }
}
