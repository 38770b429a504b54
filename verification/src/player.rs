//! A player's part: keeping the cards dealt, hearing the type of a round
//! and the other players' choices, and putting a card on the pile.

use crate::message::{
    colon, lemma_decimal_injective, lemma_player_message_fields, player_message, player_message_text, round_type_of_text, round_type_of_text_spec,
    RoundType,
};
use crate::text::{bytes_eq, decimal, encode_u32, first_field, first_two_fields, split_first, split_first_two, texts};
use vstd::prelude::*;

verus! {

/// Keeps `card`, a card dealt to the player, and returns how many cards the
/// player then holds.
pub fn get_dealt_cards(cards: &mut Vec<Vec<u8>>, card: Vec<u8>) -> (held: usize)
    requires
        old(cards)@.len() < usize::MAX,
    ensures
        final(cards)@ == old(cards)@.push(card),
        held == final(cards)@.len(),
{
    cards.push(card);
    cards.len()
}

/// The type of the round that the table's message `message` announces.
pub fn listen_round_type(message: &[u8]) -> (round_type: RoundType)
    ensures
        round_type == round_type_of_text_spec(message@),
{
    round_type_of_text(message)
}

/// Whether `m` is the player's own message: its first field is the
/// player's number.
pub open spec fn is_own_message(player: u32, m: Seq<u8>) -> bool {
    first_field(m, colon()) == decimal(player as nat)
}

/// Whether each message of another player among `msgs` holds a `:`.
pub open spec fn others_have_colon(player: u32, msgs: Seq<Seq<u8>>) -> bool {
    forall|i: int|
        0 <= i < msgs.len() && !is_own_message(player, #[trigger] msgs[i]) ==> first_two_fields(
            msgs[i],
            colon(),
        ) is Some
}

/// What a player hears of the choices that the table passes on: for each
/// message "<speaker>:<choice>" of another player, the speaker and the
/// choice, in order; the player's own message (the one whose first field
/// is the player's number) is skipped.
pub open spec fn heard_choices(player: u32, msgs: Seq<Seq<u8>>) -> Seq<(Seq<u8>, Seq<u8>)>
    decreases msgs.len(),
{
    if msgs.len() == 0 {
        Seq::empty()
    } else {
        let prev = heard_choices(player, msgs.drop_last());
        let m = msgs.last();
        if is_own_message(player, m) {
            prev
        } else {
            prev.push(first_two_fields(m, colon()).unwrap())
        }
    }
}

/// Whether a message is not the player's own.
pub open spec fn others_pred(player: u32) -> spec_fn(Seq<u8>) -> bool {
    |m: Seq<u8>| !is_own_message(player, m)
}

/// What a player hears is, in order, the speaker and the choice of each
/// message that is not its own.
pub proof fn lemma_heard_is_others_messages(player: u32, msgs: Seq<Seq<u8>>)
    ensures
        heard_choices(player, msgs) == msgs.filter(others_pred(player)).map_values(
            |m: Seq<u8>| first_two_fields(m, colon()).unwrap(),
        ),
    decreases msgs.len(),
{
    reveal(Seq::filter);
    if msgs.len() > 0 {
        lemma_heard_is_others_messages(player, msgs.drop_last());
        let prev = msgs.drop_last().filter(others_pred(player));
        if others_pred(player)(msgs.last()) {
            assert(prev.push(msgs.last()).map_values(|m: Seq<u8>| first_two_fields(m, colon()).unwrap())
                =~= prev.map_values(|m: Seq<u8>| first_two_fields(m, colon()).unwrap()).push(
                first_two_fields(msgs.last(), colon()).unwrap(),
            ));
        }
    } else {
        assert(msgs.filter(others_pred(player)).map_values(
            |m: Seq<u8>| first_two_fields(m, colon()).unwrap(),
        ) =~= Seq::<(Seq<u8>, Seq<u8>)>::empty());
    }
}

/// Pairs of texts, each taken as its bytes.
pub open spec fn text_pairs(v: Seq<(Vec<u8>, Vec<u8>)>) -> Seq<(Seq<u8>, Seq<u8>)> {
    v.map_values(|x: (Vec<u8>, Vec<u8>)| (x.0@, x.1@))
}

/// After saying its choice, the player listens to the choices that the
/// table passes on: it returns what it heard of the other players, each
/// speaker with their choice, in order (see `heard_choices`). Each message
/// of another player must hold a `:`.
pub fn tell_choice_and_listen(player_number: u32, heard: &Vec<Vec<u8>>) -> (others: Vec<(Vec<u8>, Vec<u8>)>)
    requires
        others_have_colon(player_number, texts(heard@)),
    ensures
        text_pairs(others@) == heard_choices(player_number, texts(heard@)),
        // the speaker and the choice of each message that is not the
        // player's own, in order
        text_pairs(others@) == texts(heard@).filter(others_pred(player_number)).map_values(
            |m: Seq<u8>| first_two_fields(m, colon()).unwrap(),
        ),
{
    let own = encode_u32(player_number);
    let mut others: Vec<(Vec<u8>, Vec<u8>)> = Vec::new();
    let ghost all = texts(heard@);
    assert(text_pairs(others@) =~= Seq::empty());
    assert(all.take(0) =~= Seq::<Seq<u8>>::empty());
    let mut i: usize = 0;
    while i < heard.len()
        invariant
            i <= heard@.len(),
            own@ == decimal(player_number as nat),
            all == texts(heard@),
            others_have_colon(player_number, all),
            heard_choices(player_number, all.take(i as int)) == text_pairs(others@),
        decreases heard@.len() - i,
    {
        let ghost before = others@;
        assert(all.take(i + 1).drop_last() =~= all.take(i as int));
        assert(all.take(i + 1).last() == heard@[i as int]@);
        let speaker = split_first(heard[i].as_slice(), 58u8);
        if !bytes_eq(speaker.as_slice(), own.as_slice()) {
            assert(!is_own_message(player_number, all[i as int]));
            let (s, c) = split_first_two(heard[i].as_slice(), 58u8).unwrap();
            let ghost pair = (s@, c@);
            others.push((s, c));
            assert(text_pairs(others@) =~= text_pairs(before).push(pair));
        }
        i = i + 1;
    }
    assert(all.take(i as int) =~= all);
    proof {
        lemma_heard_is_others_messages(player_number, all);
    }
    others
}

/// Puts the player's last card on the pile: takes it from `cards` and
/// returns the message "<player>:<card>" that tells the table.
pub fn put_card(player_number: u32, cards: &mut Vec<Vec<u8>>) -> (message: Vec<u8>)
    requires
        old(cards)@.len() > 0,
    ensures
        final(cards)@ == old(cards)@.drop_last(),
        message@ == player_message_text(player_number, old(cards)@.last()@),
{
    let card = cards.pop().unwrap();
    player_message(player_number, card.as_slice())
}

/// A player hears, of one player's message, nothing where it is the
/// player's own, and the speaker's number and the choice where it is
/// another's.
pub proof fn lemma_hears_only_others(player: u32, speaker: u32, choice: Seq<u8>)
    requires
        !choice.contains(colon()),
    ensures
        heard_choices(player, seq![player_message_text(speaker, choice)]) == (if player == speaker {
            Seq::<(Seq<u8>, Seq<u8>)>::empty()
        } else {
            seq![(decimal(speaker as nat), choice)]
        }),
{
    let msgs = seq![player_message_text(speaker, choice)];
    lemma_player_message_fields(speaker, choice);
    assert(msgs.drop_last() =~= Seq::<Seq<u8>>::empty());
    assert(heard_choices(player, msgs.drop_last()) == Seq::<(Seq<u8>, Seq<u8>)>::empty());
    assert(msgs.last() == player_message_text(speaker, choice));
    assert(Seq::<(Seq<u8>, Seq<u8>)>::empty().push((decimal(speaker as nat), choice)) =~= seq![
        (decimal(speaker as nat), choice),
    ]);
    if decimal(speaker as nat) == decimal(player as nat) {
        lemma_decimal_injective(speaker, player);
    }
}

} // verus!
