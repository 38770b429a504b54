//! The size of a game: how many players may play, how many rounds they
//! play and how many cards are dealt.

use crate::cards::TOTAL_CARDS;
use crate::text::{parse_u32, parse_u32_spec};
use vstd::prelude::*;

verus! {

/// Whether `n` players may play: at least four, and an even number.
pub open spec fn valid_players_number(n: u32) -> bool {
    n >= 4 && n % 2 == 0
}

/// Reads the number of players from `text` (already trimmed): `Some` where
/// it is a number of players who may play, `None` for any other text.
pub fn parse_players_number(text: &[u8]) -> (n: Option<u32>)
    ensures
        n == (match parse_u32_spec(text@) {
            Some(v) => if valid_players_number(v) { Some(v) } else { None::<u32> },
            None => None::<u32>,
        }),
{
    match parse_u32(text) {
        Some(v) => if v >= 4 && v % 2 == 0 { Some(v) } else { None },
        None => None,
    }
}

/// The number of rounds of a game of `players_number` players, and the
/// number of cards dealt: as many rounds as each player can have a card of
/// the deck for.
pub fn rounds_and_cards(players_number: u32) -> (sizes: (u32, u32))
    requires
        players_number > 0,
    ensures
        sizes.0 == TOTAL_CARDS / players_number,
        sizes.1 == sizes.0 * players_number,
        sizes.1 <= TOTAL_CARDS,
        TOTAL_CARDS - sizes.1 < players_number,
{
    let rounds = TOTAL_CARDS / players_number;
    assert(rounds * players_number <= TOTAL_CARDS) by (nonlinear_arith)
        requires
            rounds == TOTAL_CARDS / players_number,
            players_number > 0,
    ;
    assert(TOTAL_CARDS - rounds * players_number < players_number) by (nonlinear_arith)
        requires
            rounds == TOTAL_CARDS / players_number,
            players_number > 0,
    ;
    (rounds, rounds * players_number)
}

} // verus!
