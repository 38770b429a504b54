//! The coordinator's rules: the choices and the cards of a round, the
//! players with the highest card, and the winners.

use crate::cards::{card_text_spec, card_value_spec, lemma_card_text_value, parse_card_value, Card};
use crate::idmap::{lemma_value_of_entry, IdMap};
use crate::message::{
    colon, lemma_player_message_round_trip, parse_player_message, player_message_spec,
    player_message_text, RoundType,
};
use crate::text::{copy_bytes, decimal, lemma_decimal_is_digits, texts};
use vstd::prelude::*;

verus! {

/// A map whose values are texts, with each value taken as its bytes.
pub open spec fn text_map(m: Map<Seq<u8>, Vec<u8>>) -> Map<Seq<u8>, Seq<u8>> {
    m.map_values(|v: Vec<u8>| v@)
}

/// Whether each of `msgs` is a player's message "<id>:<payload>".
pub open spec fn all_player_messages(msgs: Seq<Seq<u8>>) -> bool {
    forall|i: int| 0 <= i < msgs.len() ==> (#[trigger] player_message_spec(msgs[i])) is Some
}

/// The id of the player who sent the player's message `msg`.
pub open spec fn sender(msg: Seq<u8>) -> Seq<u8> {
    player_message_spec(msg).unwrap().0
}

/// The payload of the player's message `msg`.
pub open spec fn payload(msg: Seq<u8>) -> Seq<u8> {
    player_message_spec(msg).unwrap().1
}

/// The choices that the messages "<id>:<choice>" of a spoken round tell,
/// kept by the id as it is written, a later message of an id replacing an
/// earlier one.
pub open spec fn choices_spec(msgs: Seq<Seq<u8>>) -> Map<Seq<u8>, Seq<u8>>
    decreases msgs.len(),
{
    if msgs.len() == 0 {
        Map::empty()
    } else {
        choices_spec(msgs.drop_last()).insert(sender(msgs.last()), payload(msgs.last()))
    }
}

/// Whether no message after the `i`-th of `msgs` comes from its sender.
pub open spec fn last_of_sender(msgs: Seq<Seq<u8>>, i: int) -> bool {
    forall|j: int| i < j < msgs.len() ==> sender(#[trigger] msgs[j]) != sender(msgs[i])
}

/// The choices of a spoken round hold an entry for the sender of every
/// message and for no one else, and each sender's choice is the one of
/// its last message.
pub proof fn lemma_choices_from_messages(msgs: Seq<Seq<u8>>)
    ensures
        forall|i: int|
            0 <= i < msgs.len() ==> choices_spec(msgs).contains_key(#[trigger] sender(msgs[i])),
        forall|i: int|
            0 <= i < msgs.len() && last_of_sender(msgs, i) ==> choices_spec(msgs)[#[trigger] sender(
                msgs[i],
            )] == payload(msgs[i]),
        forall|k: Seq<u8>|
            #[trigger] choices_spec(msgs).contains_key(k) ==> exists|i: int|
                0 <= i < msgs.len() && sender(msgs[i]) == k,
    decreases msgs.len(),
{
    if msgs.len() > 0 {
        let prev = msgs.drop_last();
        lemma_choices_from_messages(prev);
        let n = msgs.len() - 1;
        assert forall|i: int| 0 <= i < msgs.len() implies choices_spec(msgs).contains_key(
            #[trigger] sender(msgs[i]),
        ) by {
            if i < n {
                assert(prev[i] == msgs[i]);
                assert(choices_spec(prev).contains_key(sender(prev[i])));
            }
        }
        assert forall|i: int| 0 <= i < msgs.len() && last_of_sender(msgs, i) implies choices_spec(
            msgs,
        )[#[trigger] sender(msgs[i])] == payload(msgs[i]) by {
            if i < n {
                assert(prev[i] == msgs[i]);
                assert(sender(msgs[n]) != sender(msgs[i]));
                assert forall|j: int| i < j < prev.len() implies sender(#[trigger] prev[j]) != sender(
                    prev[i],
                ) by {
                    assert(prev[j] == msgs[j]);
                }
                assert(choices_spec(prev)[sender(prev[i])] == payload(prev[i]));
            }
        }
        assert forall|k: Seq<u8>| #[trigger] choices_spec(msgs).contains_key(k) implies exists|i: int|
            0 <= i < msgs.len() && sender(msgs[i]) == k by {
            if k != sender(msgs[n]) {
                assert(choices_spec(prev).contains_key(k));
                let i = choose|i: int| 0 <= i < prev.len() && sender(prev[i]) == k;
                assert(prev[i] == msgs[i]);
            }
        }
    }
}

/// The cards of a round hold an entry for the sender of every message and
/// for no one else, and each sender's value is that of the card of its
/// last message.
pub proof fn lemma_cards_from_messages(msgs: Seq<Seq<u8>>)
    ensures
        forall|i: int|
            0 <= i < msgs.len() ==> played_cards_spec(msgs).contains_key(#[trigger] sender(msgs[i])),
        forall|i: int|
            0 <= i < msgs.len() && last_of_sender(msgs, i) ==> played_cards_spec(msgs)[#[trigger] sender(
                msgs[i],
            )] == card_value_spec(payload(msgs[i])).unwrap(),
        forall|k: Seq<u8>|
            #[trigger] played_cards_spec(msgs).contains_key(k) ==> exists|i: int|
                0 <= i < msgs.len() && sender(msgs[i]) == k,
    decreases msgs.len(),
{
    if msgs.len() > 0 {
        let prev = msgs.drop_last();
        lemma_cards_from_messages(prev);
        let n = msgs.len() - 1;
        assert forall|i: int| 0 <= i < msgs.len() implies played_cards_spec(msgs).contains_key(
            #[trigger] sender(msgs[i]),
        ) by {
            if i < n {
                assert(prev[i] == msgs[i]);
                assert(played_cards_spec(prev).contains_key(sender(prev[i])));
            }
        }
        assert forall|i: int| 0 <= i < msgs.len() && last_of_sender(msgs, i) implies played_cards_spec(
            msgs,
        )[#[trigger] sender(msgs[i])] == card_value_spec(payload(msgs[i])).unwrap() by {
            if i < n {
                assert(prev[i] == msgs[i]);
                assert(sender(msgs[n]) != sender(msgs[i]));
                assert forall|j: int| i < j < prev.len() implies sender(#[trigger] prev[j]) != sender(
                    prev[i],
                ) by {
                    assert(prev[j] == msgs[j]);
                }
                assert(played_cards_spec(prev)[sender(prev[i])] == card_value_spec(payload(prev[i])).unwrap());
            }
        }
        assert forall|k: Seq<u8>| #[trigger] played_cards_spec(msgs).contains_key(k) implies exists|i: int|
            0 <= i < msgs.len() && sender(msgs[i]) == k by {
            if k != sender(msgs[n]) {
                assert(played_cards_spec(prev).contains_key(k));
                let i = choose|i: int| 0 <= i < prev.len() && sender(prev[i]) == k;
                assert(prev[i] == msgs[i]);
            }
        }
    }
}

/// The choices that the players tell in a round: none in a silent round;
/// in a spoken one, what each message "<id>:<choice>" says, by the id as
/// it is written. Each message of a spoken round must hold a `:`.
pub fn listen_to_players(round_type: RoundType, messages: &Vec<Vec<u8>>) -> (choices: IdMap<Vec<u8>>)
    requires
        round_type == RoundType::Spoken ==> all_player_messages(texts(messages@)),
    ensures
        choices.well_formed(),
        round_type == RoundType::Silent ==> choices.map().dom().is_empty(),
        round_type == RoundType::Spoken ==> text_map(choices.map()) == choices_spec(
            texts(messages@),
        ),
        // in a spoken round every sender has a choice, the one of its last
        // message, and no one else has one
        round_type == RoundType::Spoken ==> forall|i: int|
            0 <= i < messages@.len() ==> choices.map().contains_key(
                #[trigger] sender(texts(messages@)[i]),
            ),
        round_type == RoundType::Spoken ==> forall|i: int|
            0 <= i < messages@.len() && last_of_sender(texts(messages@), i) ==> choices.map()[#[trigger] sender(
                texts(messages@)[i],
            )]@ == payload(texts(messages@)[i]),
        forall|k: Seq<u8>|
            #[trigger] choices.map().contains_key(k) ==> exists|i: int|
                0 <= i < messages@.len() && sender(texts(messages@)[i]) == k,
{
    let mut choices: IdMap<Vec<u8>> = IdMap::new();
    if round_type == RoundType::Silent {
        assert(choices.map().dom() =~= Set::empty());
        return choices;
    }
    let ghost all = texts(messages@);
    assert(all.take(0) =~= Seq::<Seq<u8>>::empty());
    assert(text_map(choices.map()) =~= Map::empty());
    let mut i: usize = 0;
    while i < messages.len()
        invariant
            i <= messages@.len(),
            all == texts(messages@),
            all_player_messages(all),
            choices.well_formed(),
            choices_spec(all.take(i as int)) == text_map(choices.map()),
        decreases messages@.len() - i,
    {
        let ghost before = choices.map();
        assert(all.take(i + 1).drop_last() =~= all.take(i as int));
        assert(all.take(i + 1).last() == messages@[i as int]@);
        assert(player_message_spec(all[i as int]) is Some);
        let parsed = parse_player_message(messages[i].as_slice());
        let (id, choice) = parsed.unwrap();
        let ghost cv = choice@;
        let ghost iv = id@;
        choices.insert(id, choice);
        assert(text_map(choices.map()) =~= text_map(before).insert(iv, cv));
        i = i + 1;
    }
    assert(all.take(i as int) =~= all);
    proof {
        lemma_choices_from_messages(all);
        let m = choices.map();
        assert forall|k: Seq<u8>| #[trigger] m.contains_key(k) implies choices_spec(all).contains_key(k) by {
            assert(text_map(m).contains_key(k));
        }
        assert forall|i: int| 0 <= i < all.len() && last_of_sender(all, i) implies m[#[trigger] sender(
            all[i],
        )]@ == payload(all[i]) by {
            assert(choices_spec(all).contains_key(sender(all[i])));
            assert(text_map(m).contains_key(sender(all[i])));
            assert(text_map(m)[sender(all[i])] == m[sender(all[i])]@);
        }
        assert forall|i: int| 0 <= i < all.len() implies m.contains_key(#[trigger] sender(all[i])) by {
            assert(choices_spec(all).contains_key(sender(all[i])));
            assert(text_map(m).contains_key(sender(all[i])));
        }
    }
    choices
}

/// Whether each of `msgs` is a player's message "<id>:<card>" whose card
/// has a value (its first word is a number).
pub open spec fn all_card_messages(msgs: Seq<Seq<u8>>) -> bool {
    forall|i: int|
        0 <= i < msgs.len() ==> (#[trigger] player_message_spec(msgs[i])) is Some
            && card_value_spec(payload(msgs[i])) is Some
}

/// The cards that the messages "<id>:<card>" of a round tell: for each id,
/// as it is written, the value of the card, a later message of an id
/// replacing an earlier one.
pub open spec fn played_cards_spec(msgs: Seq<Seq<u8>>) -> Map<Seq<u8>, u32>
    decreases msgs.len(),
{
    if msgs.len() == 0 {
        Map::empty()
    } else {
        played_cards_spec(msgs.drop_last()).insert(
            sender(msgs.last()),
            card_value_spec(payload(msgs.last())).unwrap(),
        )
    }
}

/// The cards that the players put on the pile in a round, from their
/// messages "<id>:<card>" in the order they came: the value of each
/// player's card, the id of the player who put a card first, and that of
/// the one who put one last. The last id is empty where fewer than two
/// cards came, and the first where none came. Each message must be a
/// player's message whose card has a value.
pub fn get_players_cards(messages: &Vec<Vec<u8>>) -> (played: (IdMap<u32>, Vec<u8>, Vec<u8>))
    requires
        all_card_messages(texts(messages@)),
    ensures
        played.0.well_formed(),
        played.0.map() == played_cards_spec(texts(messages@)),
        // every sender has the value of the card of its last message, and
        // no one else has a card
        forall|i: int|
            0 <= i < messages@.len() ==> played.0.map().contains_key(
                #[trigger] sender(texts(messages@)[i]),
            ),
        forall|i: int|
            0 <= i < messages@.len() && last_of_sender(texts(messages@), i) ==> played.0.map()[#[trigger] sender(
                texts(messages@)[i],
            )] == card_value_spec(payload(texts(messages@)[i])).unwrap(),
        forall|k: Seq<u8>|
            #[trigger] played.0.map().contains_key(k) ==> exists|i: int|
                0 <= i < messages@.len() && sender(texts(messages@)[i]) == k,
        played.1@ == (if messages@.len() >= 1 {
            sender(messages@[0]@)
        } else {
            Seq::<u8>::empty()
        }),
        played.2@ == (if messages@.len() >= 2 {
            sender(messages@[messages@.len() - 1]@)
        } else {
            Seq::<u8>::empty()
        }),
{
    let mut cards: IdMap<u32> = IdMap::new();
    let mut first: Vec<u8> = Vec::new();
    let mut last: Vec<u8> = Vec::new();
    let n = messages.len();
    let ghost all = texts(messages@);
    assert(all.take(0) =~= Seq::<Seq<u8>>::empty());
    let mut i: usize = 0;
    while i < n
        invariant
            i <= n == messages@.len(),
            all == texts(messages@),
            all_card_messages(all),
            cards.well_formed(),
            played_cards_spec(all.take(i as int)) == cards.map(),
            first@ == (if i >= 1 { sender(messages@[0]@) } else { Seq::<u8>::empty() }),
            last@ == (if i >= 2 && i == n {
                sender(messages@[n - 1]@)
            } else {
                Seq::<u8>::empty()
            }),
        decreases n - i,
    {
        assert(all.take(i + 1).drop_last() =~= all.take(i as int));
        assert(all.take(i + 1).last() == messages@[i as int]@);
        assert(player_message_spec(all[i as int]) is Some);
        let (id, card) = parse_player_message(messages[i].as_slice()).unwrap();
        let value = parse_card_value(card.as_slice()).unwrap();
        if i == 0 {
            first = copy_bytes(id.as_slice());
        } else if i == n - 1 {
            last = copy_bytes(id.as_slice());
        }
        cards.insert(id, value);
        i = i + 1;
    }
    assert(all.take(i as int) =~= all);
    proof {
        lemma_cards_from_messages(all);
    }
    (cards, first, last)
}

/// Whether the player `id` holds a card of `cards` that no other card
/// beats.
pub open spec fn has_highest_card(cards: Map<Seq<u8>, u32>, id: Seq<u8>) -> bool {
    &&& cards.contains_key(id)
    &&& forall|q: Seq<u8>| #[trigger] cards.contains_key(q) ==> cards[q] <= cards[id]
}

/// The highest value among the entries `s`, or 0 where there is none
/// higher.
pub open spec fn highest_value(s: Seq<(Seq<u8>, u32)>) -> u32
    decreases s.len(),
{
    if s.len() == 0 {
        0
    } else {
        let prev = highest_value(s.drop_last());
        if s.last().1 > prev {
            s.last().1
        } else {
            prev
        }
    }
}

/// The ids of the entries of `s` whose value is `v`, in the order of the
/// entries.
pub open spec fn ids_with_value(s: Seq<(Seq<u8>, u32)>, v: u32) -> Seq<Seq<u8>>
    decreases s.len(),
{
    if s.len() == 0 {
        Seq::empty()
    } else {
        ids_with_value(s.drop_last(), v) + (if s.last().1 == v {
            seq![s.last().0]
        } else {
            Seq::empty()
        })
    }
}

proof fn lemma_no_ids_with_higher_value(s: Seq<(Seq<u8>, u32)>, v: u32)
    requires
        forall|j: int| 0 <= j < s.len() ==> s[j].1 < v,
    ensures
        ids_with_value(s, v) == Seq::<Seq<u8>>::empty(),
    decreases s.len(),
{
    if s.len() > 0 {
        lemma_no_ids_with_higher_value(s.drop_last(), v);
        assert(s[s.len() - 1].1 < v);
    }
}

/// The players whose card no other card beats, each once, in the order of
/// the entries of `players_cards`.
pub fn get_players_with_higher_card(players_cards: IdMap<u32>) -> (max_players: Vec<Vec<u8>>)
    requires
        players_cards.well_formed(),
    ensures
        texts(max_players@) == ids_with_value(
            players_cards.entries(),
            highest_value(players_cards.entries()),
        ),
        texts(max_players@).no_duplicates(),
        forall|id: Seq<u8>|
            #[trigger] texts(max_players@).contains(id) <==> has_highest_card(
                players_cards.map(),
                id,
            ),
{
    let mut max_card: u32 = 0;
    let mut max_players: Vec<Vec<u8>> = Vec::new();
    let ghost s = players_cards.entries();
    let n = players_cards.len();
    let mut i: usize = 0;
    while i < n
        invariant
            i <= n == s.len(),
            s == players_cards.entries(),
            players_cards.well_formed(),
            forall|j: int| 0 <= j < i ==> s[j].1 <= max_card,
            max_card == highest_value(s.take(i as int)),
            texts(max_players@) == ids_with_value(s.take(i as int), max_card),
            max_card == 0 || exists|j: int| 0 <= j < i && s[j].1 == max_card,
            texts(max_players@).no_duplicates(),
            forall|id: Seq<u8>|
                #[trigger] texts(max_players@).contains(id) <==> exists|j: int|
                    0 <= j < i && s[j].0 == id && s[j].1 == max_card,
        decreases n - i,
    {
        let ghost before = texts(max_players@);
        let ghost old_max = max_card;
        let (id, card) = players_cards.entry(i);
        let ghost idv = s[i as int].0;
        let ghost prefix = s.take(i as int);
        assert(s.take(i + 1).drop_last() =~= prefix);
        assert(s.take(i + 1).last() == s[i as int]);
        // the id of this entry was not seen before
        assert forall|j: int| 0 <= j < i implies s[j].0 != idv by {}
        if *card > max_card {
            max_card = *card;
            max_players = Vec::new();
            max_players.push(copy_bytes(id.as_slice()));
            assert(texts(max_players@) =~= seq![idv]);
            proof {
                assert forall|j: int| 0 <= j < prefix.len() implies prefix[j].1 < max_card by {
                    assert(s[j].1 <= old_max);
                }
                lemma_no_ids_with_higher_value(prefix, max_card);
                assert(ids_with_value(s.take(i + 1), max_card) =~= seq![idv]);
            }
            assert forall|x: Seq<u8>| #[trigger] texts(max_players@).contains(x) <==> exists|j: int|
                0 <= j < i + 1 && s[j].0 == x && s[j].1 == max_card by {
                if texts(max_players@).contains(x) {
                    assert(texts(max_players@)[0] == x);
                    assert(s[i as int].0 == x);
                }
                if exists|j: int| 0 <= j < i + 1 && s[j].0 == x && s[j].1 == max_card {
                    let j = choose|j: int| 0 <= j < i + 1 && s[j].0 == x && s[j].1 == max_card;
                    if j < i {
                        assert(s[j].1 <= old_max);
                    }
                    assert(texts(max_players@)[0] == x);
                }
            }
        } else if *card == max_card {
            assert(!before.contains(idv)) by {
                if before.contains(idv) {
                    let j = choose|j: int| 0 <= j < i && s[j].0 == idv && s[j].1 == max_card;
                }
            }
            max_players.push(copy_bytes(id.as_slice()));
            assert(texts(max_players@) =~= before.push(idv));
            assert(ids_with_value(s.take(i + 1), max_card) =~= before.push(idv));
            assert forall|x: Seq<u8>| #[trigger] texts(max_players@).contains(x) <==> exists|j: int|
                0 <= j < i + 1 && s[j].0 == x && s[j].1 == max_card by {
                if texts(max_players@).contains(x) && x != idv {
                    let k = choose|k: int| 0 <= k < texts(max_players@).len() && texts(max_players@)[k] == x;
                    assert(before[k] == x);
                    assert(before.contains(x));
                }
                if x == idv {
                    assert(texts(max_players@)[before.len() as int] == x);
                }
                if exists|j: int| 0 <= j < i + 1 && s[j].0 == x && s[j].1 == max_card {
                    if x != idv {
                        assert(before.contains(x));
                        let k = choose|k: int| 0 <= k < before.len() && before[k] == x;
                        assert(texts(max_players@)[k] == x);
                    }
                }
            }
        } else {
            assert forall|x: Seq<u8>| #[trigger] texts(max_players@).contains(x) <==> exists|j: int|
                0 <= j < i + 1 && s[j].0 == x && s[j].1 == max_card by {
                if exists|j: int| 0 <= j < i + 1 && s[j].0 == x && s[j].1 == max_card {
                    let j = choose|j: int| 0 <= j < i + 1 && s[j].0 == x && s[j].1 == max_card;
                    assert(j != i);
                }
            }
        }
        i = i + 1;
    }
    assert(s.take(n as int) =~= s);
    let ghost m = players_cards.map();
    assert forall|id: Seq<u8>| #[trigger] texts(max_players@).contains(id) <==> has_highest_card(m, id) by {
        if texts(max_players@).contains(id) {
            let j = choose|j: int| 0 <= j < n && s[j].0 == id && s[j].1 == max_card;
            lemma_value_of_entry(s, j);
            assert forall|q: Seq<u8>| #[trigger] m.contains_key(q) implies m[q] <= m[id] by {
                let k = choose|k: int| 0 <= k < s.len() && s[k].0 == q;
                lemma_value_of_entry(s, k);
            }
        }
        if has_highest_card(m, id) {
            let j = choose|j: int| 0 <= j < s.len() && s[j].0 == id;
            lemma_value_of_entry(s, j);
            if max_card != 0 {
                let k = choose|k: int| 0 <= k < n && s[k].1 == max_card;
                lemma_value_of_entry(s, k);
            }
        }
    }
    max_players
}

/// The winners of a game and their score: the players (numbered from 1)
/// whose score no other score beats, in increasing order.
pub fn tell_winners(scoreboard: Vec<i32>) -> (result: (Vec<usize>, i32))
    requires
        scoreboard@.len() > 0,
    ensures
        exists|i: int| 0 <= i < scoreboard@.len() && scoreboard@[i] == result.1,
        forall|i: int| 0 <= i < scoreboard@.len() ==> scoreboard@[i] <= result.1,
        forall|a: int, b: int|
            0 <= a < b < result.0@.len() ==> result.0@[a] < result.0@[b],
        forall|w: usize|
            #[trigger] result.0@.contains(w) <==> 1 <= w <= scoreboard@.len()
                && scoreboard@[w - 1] == result.1,
{
    let mut max_score = scoreboard[0];
    let mut winners: Vec<usize> = Vec::new();
    let mut player: usize = 0;
    while player < scoreboard.len()
        invariant
            player <= scoreboard@.len(),
            scoreboard@.len() > 0,
            max_score == scoreboard@[0] || exists|i: int| 0 <= i < player && scoreboard@[i] == max_score,
            forall|i: int| 0 <= i < player ==> scoreboard@[i] <= max_score,
            scoreboard@[0] <= max_score,
            forall|a: int, b: int| 0 <= a < b < winners@.len() ==> winners@[a] < winners@[b],
            forall|a: int| 0 <= a < winners@.len() ==> winners@[a] <= player,
            forall|w: usize|
                #[trigger] winners@.contains(w) <==> 1 <= w <= player && scoreboard@[w - 1]
                    == max_score,
        decreases scoreboard@.len() - player,
    {
        let ghost before = winners@;
        if scoreboard[player] > max_score {
            max_score = scoreboard[player];
            winners = Vec::new();
            winners.push(player + 1);
            assert forall|w: usize| #[trigger] winners@.contains(w) <==> 1 <= w <= player + 1
                && scoreboard@[w - 1] == max_score by {
                if winners@.contains(w) {
                    assert(winners@[0] == w);
                }
                if w == player + 1 {
                    assert(winners@[0] == w);
                }
            }
        } else if scoreboard[player] == max_score {
            winners.push(player + 1);
            assert forall|w: usize| #[trigger] winners@.contains(w) <==> 1 <= w <= player + 1
                && scoreboard@[w - 1] == max_score by {
                if winners@.contains(w) && w != player + 1 {
                    let k = choose|k: int| 0 <= k < winners@.len() && winners@[k] == w;
                    assert(before[k] == w);
                    assert(before.contains(w));
                }
                if 1 <= w <= player && scoreboard@[w - 1] == max_score {
                    assert(before.contains(w));
                    let k = choose|k: int| 0 <= k < before.len() && before[k] == w;
                    assert(winners@[k] == w);
                }
                if w == player + 1 {
                    assert(winners@[winners@.len() - 1] == w);
                }
            }
        } else {
            assert forall|w: usize| #[trigger] winners@.contains(w) <==> 1 <= w <= player + 1
                && scoreboard@[w - 1] == max_score by {
                if winners@.contains(w) {
                    let k = choose|k: int| 0 <= k < winners@.len() && winners@[k] == w;
                }
            }
        }
        player = player + 1;
    }
    (winners, max_score)
}

/// The text of a card holds no `:`, so that it can travel in a player's
/// message.
pub proof fn lemma_card_text_has_no_colon(c: Card)
    ensures
        !card_text_spec(c).contains(colon()),
{
    let t = card_text_spec(c);
    let d = decimal(c.value as nat);
    lemma_decimal_is_digits(c.value as nat);
    assert forall|k: int| 0 <= k < t.len() implies t[k] != colon() by {
        if k < d.len() {
            assert(t[k] == d[k]);
            assert(crate::text::is_digit(d[k]));
        }
    }
}

/// The coordinator reads from a player's message with the text of a card
/// the player's id, the decimal text of its number, and the value of the
/// card.
pub proof fn lemma_reads_played_card(player: u32, c: Card)
    ensures
        played_cards_spec(seq![player_message_text(player, card_text_spec(c))]) == Map::<
            Seq<u8>,
            u32,
        >::empty().insert(decimal(player as nat), c.value),
{
    let msgs = seq![player_message_text(player, card_text_spec(c))];
    lemma_card_text_has_no_colon(c);
    lemma_player_message_round_trip(player, card_text_spec(c));
    lemma_card_text_value(c);
    assert(msgs.drop_last() =~= Seq::<Seq<u8>>::empty());
    assert(played_cards_spec(msgs.drop_last()) == Map::<Seq<u8>, u32>::empty());
    assert(msgs.last() == player_message_text(player, card_text_spec(c)));
}

/// The coordinator reads from a player's message with a choice (a text
/// without `:`) the player's id, the decimal text of its number, and the
/// choice.
pub proof fn lemma_reads_choice(player: u32, choice: Seq<u8>)
    requires
        !choice.contains(colon()),
    ensures
        choices_spec(seq![player_message_text(player, choice)]) == Map::<
            Seq<u8>,
            Seq<u8>,
        >::empty().insert(decimal(player as nat), choice),
{
    let msgs = seq![player_message_text(player, choice)];
    lemma_player_message_round_trip(player, choice);
    assert(msgs.drop_last() =~= Seq::<Seq<u8>>::empty());
    assert(choices_spec(msgs.drop_last()) == Map::<Seq<u8>, Seq<u8>>::empty());
    assert(msgs.last() == player_message_text(player, choice));
}

} // verus!
