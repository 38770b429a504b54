//! The texts that the coordinator, the table and the players send each
//! other: a player's message "<player>:<payload>", the type of a round and
//! a player's choice.

use crate::random::random_below;
use crate::text::{
    bytes_eq, decimal, encode_u32, first_field, first_two_fields, lemma_decimal_is_digits, lemma_field_end,
    lemma_parse_decimal, parse_u32_spec, push_bytes, split_first_two,
};
use vstd::prelude::*;

verus! {

/// The byte `:` that ends the player's number in a player's message.
pub open spec fn colon() -> u8 {
    58
}

/// What a player's message "<player>:<payload>" holds: the player's id as
/// it is written, the text before the first `:`, and the payload, the text
/// between the first `:` and the next one (or the end). `None` where there
/// is no `:`.
pub open spec fn player_message_spec(msg: Seq<u8>) -> Option<(Seq<u8>, Seq<u8>)> {
    first_two_fields(msg, colon())
}

/// The message in which `player` sends `payload`.
pub open spec fn player_message_text(player: u32, payload: Seq<u8>) -> Seq<u8> {
    decimal(player as nat) + seq![colon()] + payload
}

/// Reads a player's message: the player's id and the payload.
pub fn parse_player_message(msg: &[u8]) -> (parsed: Option<(Vec<u8>, Vec<u8>)>)
    ensures
        match parsed {
            Some((id, payload)) => player_message_spec(msg@) == Some((id@, payload@)),
            None => player_message_spec(msg@) is None,
        },
{
    split_first_two(msg, 58u8)
}

/// The message in which `player` sends `payload`, as "3:Oxidado".
pub fn player_message(player: u32, payload: &[u8]) -> (msg: Vec<u8>)
    ensures
        msg@ == player_message_text(player, payload@),
{
    let mut msg = encode_u32(player);
    msg.push(58u8);
    push_bytes(&mut msg, payload);
    assert(msg@ =~= player_message_text(player, payload@));
    msg
}

/// The fields of a player's message: the player's number, then the
/// payload, where the payload holds no `:`.
pub proof fn lemma_player_message_fields(player: u32, payload: Seq<u8>)
    requires
        !payload.contains(colon()),
    ensures
        first_two_fields(player_message_text(player, payload), colon()) == Some(
            (decimal(player as nat), payload),
        ),
        first_field(player_message_text(player, payload), colon()) == decimal(player as nat),
{
    let m = player_message_text(player, payload);
    let d = decimal(player as nat);
    lemma_decimal_is_digits(player as nat);
    assert forall|k: int| 0 <= k < d.len() implies m[k] != colon() by {
        assert(m[k] == d[k]);
        assert(crate::text::is_digit(d[k]));
    }
    assert(m[d.len() as int] == colon());
    lemma_field_end(m, colon(), 0, d.len() as int);
    assert forall|k: int| d.len() + 1 <= k < m.len() implies m[k] != colon() by {
        assert(m[k] == payload[k - d.len() - 1]);
    }
    lemma_field_end(m, colon(), (d.len() + 1) as int, m.len() as int);
    assert(m.take(d.len() as int) =~= d);
    assert(m.subrange((d.len() + 1) as int, m.len() as int) =~= payload);
}

/// Reading a player's message gives back the player, as the decimal text
/// of its number, and the payload that it was made of, where the payload
/// holds no `:`; the id reads back as the number.
pub proof fn lemma_player_message_round_trip(player: u32, payload: Seq<u8>)
    requires
        !payload.contains(colon()),
    ensures
        player_message_spec(player_message_text(player, payload)) == Some(
            (decimal(player as nat), payload),
        ),
        parse_u32_spec(decimal(player as nat)) == Some(player),
{
    lemma_player_message_fields(player, payload);
    lemma_parse_decimal(player);
}

/// Two numbers with the same decimal text are the same number.
pub proof fn lemma_decimal_injective(a: u32, b: u32)
    requires
        decimal(a as nat) == decimal(b as nat),
    ensures
        a == b,
{
    lemma_parse_decimal(a);
    lemma_parse_decimal(b);
}

/// The two types of round.
#[derive(Clone, Copy, Debug, PartialEq, Eq, Structural)]
pub enum RoundType {
    /// "silenciosa": the players say nothing.
    Silent,
    /// "hablada": each player says "Oxidado" or "Paso".
    Spoken,
}

/// The text "silenciosa".
pub open spec fn silent_text() -> Seq<u8> {
    seq![115u8, 105, 108, 101, 110, 99, 105, 111, 115, 97]
}

/// The text "hablada".
pub open spec fn spoken_text() -> Seq<u8> {
    seq![104u8, 97, 98, 108, 97, 100, 97]
}

/// The text of a round type.
pub open spec fn round_type_text_spec(r: RoundType) -> Seq<u8> {
    match r {
        RoundType::Silent => silent_text(),
        RoundType::Spoken => spoken_text(),
    }
}

/// The round type that a text announces: a spoken round where the text is
/// "hablada", a silent one for any other text.
pub open spec fn round_type_of_text_spec(text: Seq<u8>) -> RoundType {
    if text == spoken_text() {
        RoundType::Spoken
    } else {
        RoundType::Silent
    }
}

/// The text of a round type: "silenciosa" or "hablada".
pub fn round_type_text(round_type: RoundType) -> (text: Vec<u8>)
    ensures
        text@ == round_type_text_spec(round_type),
{
    let mut text: Vec<u8> = Vec::new();
    match round_type {
        RoundType::Silent => push_bytes(&mut text, &[115u8, 105, 108, 101, 110, 99, 105, 111, 115, 97]),
        RoundType::Spoken => push_bytes(&mut text, &[104u8, 97, 98, 108, 97, 100, 97]),
    }
    assert(text@ =~= round_type_text_spec(round_type));
    text
}

/// The round type that `text` announces.
pub fn round_type_of_text(text: &[u8]) -> (round_type: RoundType)
    ensures
        round_type == round_type_of_text_spec(text@),
{
    let spoken: [u8; 7] = [104u8, 97, 98, 108, 97, 100, 97];
    let same = bytes_eq(text, &spoken);
    assert(spoken@ =~= spoken_text());
    if same {
        RoundType::Spoken
    } else {
        RoundType::Silent
    }
}

/// Reading the text of a round type gives the round type back.
pub proof fn lemma_round_type_round_trip(r: RoundType)
    ensures
        round_type_of_text_spec(round_type_text_spec(r)) == r,
{
    if r == RoundType::Silent {
        assert(silent_text()[0] != spoken_text()[0]);
    }
}

/// The round type that the coordinator announces for a draw `n`: silent
/// for 0, spoken for any other number.
pub fn round_type_from_number(n: usize) -> (round_type: RoundType)
    ensures
        round_type == (if n == 0 { RoundType::Silent } else { RoundType::Spoken }),
{
    if n == 0 {
        RoundType::Silent
    } else {
        RoundType::Spoken
    }
}

/// Chooses the type of the next round at random, each type for one of the
/// two draws 0 and 1.
pub fn tell_round_type() -> (round_type: RoundType)
    ensures
        round_type_text_spec(round_type) == silent_text() || round_type_text_spec(round_type)
            == spoken_text(),
{
    let n = random_below(2);
    round_type_from_number(n)
}

/// The text "Oxidado".
pub open spec fn rusty_text() -> Seq<u8> {
    seq![79u8, 120, 105, 100, 97, 100, 111]
}

/// The text "Paso".
pub open spec fn pass_text() -> Seq<u8> {
    seq![80u8, 97, 115, 111]
}

/// Whether `text` is the choice "Oxidado".
pub fn is_rusty(text: &[u8]) -> (rusty: bool)
    ensures
        rusty == (text@ == rusty_text()),
{
    let rusty: [u8; 7] = [79u8, 120, 105, 100, 97, 100, 111];
    assert(rusty@ =~= rusty_text());
    bytes_eq(text, &rusty)
}

/// The choice that a player makes for a draw `n`: "Paso" for 0, "Oxidado"
/// for any other number.
pub fn choice_from_number(n: usize) -> (choice: Vec<u8>)
    ensures
        choice@ == (if n == 0 { pass_text() } else { rusty_text() }),
{
    let mut choice: Vec<u8> = Vec::new();
    if n == 0 {
        push_bytes(&mut choice, &[80u8, 97, 115, 111]);
        assert(choice@ =~= pass_text());
    } else {
        push_bytes(&mut choice, &[79u8, 120, 105, 100, 97, 100, 111]);
        assert(choice@ =~= rusty_text());
    }
    choice
}

/// A player's choice in a spoken round, at random: "Paso" or "Oxidado".
pub fn choose_rusty_or_pass() -> (choice: Vec<u8>)
    ensures
        choice@ == pass_text() || choice@ == rusty_text(),
{
    let n = random_below(2);
    choice_from_number(n)
}

} // verus!
