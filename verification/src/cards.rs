//! The Spanish deck of the game, the text of a card, and the dealing of
//! cards at random.

use crate::random::random_below;
use crate::text::{
    decimal, encode_u32, first_field, lemma_field_end, lemma_parse_decimal,
    parse_u32, parse_u32_spec, push_bytes, split_first,
};

use vstd::prelude::*;

verus! {

/// The four suits of the deck.
#[derive(Clone, Copy, Debug, PartialEq, Eq, Structural)]
pub enum Suit {
    Copas,
    Oros,
    Bastos,
    Espadas,
}

/// A card: its value (1 to 12) and its suit.
#[derive(Clone, Copy, Debug, PartialEq, Eq, Structural)]
pub struct Card {
    pub value: u32,
    pub suit: Suit,
}

/// The number of cards in the deck.
pub const TOTAL_CARDS: u32 = 48;

/// The suit at position `i` (0 to 3) of each group of four cards.
pub open spec fn suit_at(i: int) -> Suit {
    if i == 0 {
        Suit::Copas
    } else if i == 1 {
        Suit::Oros
    } else if i == 2 {
        Suit::Bastos
    } else {
        Suit::Espadas
    }
}

/// The position of a suit in each group of four cards.
pub open spec fn suit_index(s: Suit) -> int {
    match s {
        Suit::Copas => 0,
        Suit::Oros => 1,
        Suit::Bastos => 2,
        Suit::Espadas => 3,
    }
}

/// The deck in its order before dealing: values 1 to 12, each in the four
/// suits Copas, Oros, Bastos, Espadas.
pub open spec fn deck_spec() -> Seq<Card> {
    Seq::new(48, |i: int| Card { value: (i / 4 + 1) as u32, suit: suit_at(i % 4) })
}

/// Whether `c` is a card of the deck.
pub open spec fn is_deck_card(c: Card) -> bool {
    1 <= c.value <= 12
}

/// The deck holds each card of values 1 to 12 in each suit once, and no
/// other card.
pub proof fn lemma_deck_complete_and_distinct()
    ensures
        deck_spec().len() == TOTAL_CARDS,
        deck_spec().no_duplicates(),
        forall|c: Card| #[trigger] deck_spec().contains(c) <==> is_deck_card(c),
{
    let d = deck_spec();
    assert forall|i: int, j: int| 0 <= i < d.len() && 0 <= j < d.len() && i != j implies d[i]
        != d[j] by {
        if d[i] == d[j] {
            assert(i / 4 == j / 4);
            assert(suit_index(suit_at(i % 4)) == i % 4);
            assert(suit_index(suit_at(j % 4)) == j % 4);
        }
    }
    assert forall|c: Card| #[trigger] d.contains(c) <==> is_deck_card(c) by {
        if is_deck_card(c) {
            let k = 4 * (c.value - 1) + suit_index(c.suit);
            assert(k / 4 == c.value - 1);
            assert(k % 4 == suit_index(c.suit));
            assert(d[k] == c);
        }
        if d.contains(c) {
            let k = choose|k: int| 0 <= k < d.len() && d[k] == c;
            assert(d[k].value == k / 4 + 1);
        }
    }
}

/// A new deck, in the order of `deck_spec`.
pub fn new_deck() -> (deck: Vec<Card>)
    ensures
        deck@ == deck_spec(),
{
    let mut deck: Vec<Card> = Vec::new();
    let mut value: u32 = 1;
    while value < 13
        invariant
            1 <= value <= 13,
            deck@ == deck_spec().take(4 * (value - 1)),
        decreases 13 - value,
    {
        let ghost k = 4 * (value - 1);
        deck.push(Card { value, suit: Suit::Copas });
        deck.push(Card { value, suit: Suit::Oros });
        deck.push(Card { value, suit: Suit::Bastos });
        deck.push(Card { value, suit: Suit::Espadas });
        assert((k + 0) / 4 == value - 1 && (k + 0) % 4 == 0);
        assert((k + 1) / 4 == value - 1 && (k + 1) % 4 == 1);
        assert((k + 2) / 4 == value - 1 && (k + 2) % 4 == 2);
        assert((k + 3) / 4 == value - 1 && (k + 3) % 4 == 3);
        value = value + 1;
        assert(deck@ =~= deck_spec().take(4 * (value - 1)));
    }
    assert(deck@ =~= deck_spec());
    deck
}

/// Takes the card at `index` out of `deck`.
pub fn draw_card(deck: &mut Vec<Card>, index: usize) -> (card: Card)
    requires
        index < old(deck)@.len(),
    ensures
        card == old(deck)@[index as int],
        final(deck)@ == old(deck)@.remove(index as int),
{
    deck.remove(index)
}

/// What dealing by the draws `draws` gives, from a new deck: the cards
/// dealt, in order, and the cards left. Each draw takes out the card at its
/// position in what is left of the deck.
pub open spec fn deal_by_draws(draws: Seq<usize>) -> (Seq<Card>, Seq<Card>)
    decreases draws.len(),
{
    if draws.len() == 0 {
        (Seq::empty(), deck_spec())
    } else {
        let (dealt, left) = deal_by_draws(draws.drop_last());
        (dealt.push(left[draws.last() as int]), left.remove(draws.last() as int))
    }
}

/// Deals `total_cards` cards: each is drawn at random from what is left of
/// a new deck. Whatever the draws, the cards dealt are distinct cards of
/// the deck.
pub fn deal_cards(total_cards: u32) -> (dealt: Vec<Card>)
    requires
        total_cards <= TOTAL_CARDS,
    ensures
        dealt@.len() == total_cards,
        // the cards are those of some draws, each a position in what is left
        exists|draws: Seq<usize>|
            draws.len() == total_cards && (forall|i: int|
                0 <= i < draws.len() ==> #[trigger] draws[i] < TOTAL_CARDS - i)
                && dealt@ == deal_by_draws(draws).0,
        dealt@.no_duplicates(),
        forall|i: int| 0 <= i < dealt@.len() ==> is_deck_card(#[trigger] dealt@[i]),
{
    broadcast use vstd::seq_lib::group_to_multiset_ensures, vstd::multiset::group_multiset_axioms;

    let mut deck = new_deck();
    let mut dealt: Vec<Card> = Vec::new();
    let mut n: u32 = 0;
    let ghost mut draws: Seq<usize> = Seq::empty();
    proof {
        lemma_deck_complete_and_distinct();
        assert(dealt@.to_multiset() =~= vstd::multiset::Multiset::empty());
    }
    while n < total_cards
        invariant
            n <= total_cards <= TOTAL_CARDS,
            dealt@.len() == n,
            deck@.len() == TOTAL_CARDS - n,
            dealt@.to_multiset().add(deck@.to_multiset()) == deck_spec().to_multiset(),
            draws.len() == n,
            forall|i: int| 0 <= i < draws.len() ==> #[trigger] draws[i] < TOTAL_CARDS - i,
            deal_by_draws(draws) == (dealt@, deck@),
        decreases total_cards - n,
    {
        let ghost before = deck@;
        let ghost dealt_before = dealt@;
        let index = random_below(deck.len());
        let card = draw_card(&mut deck, index);
        dealt.push(card);
        proof {
            let prev = draws;
            draws = draws.push(index);
            assert(draws.drop_last() =~= prev);
            vstd::seq_lib::to_multiset_remove(before, index as int);
            vstd::seq_lib::to_multiset_contains(before, card);
            vstd::seq_lib::to_multiset_build(dealt_before, card);
            assert(before[index as int] == card);
            assert(before.contains(card));
            assert(before.to_multiset().contains(card));
            assert(dealt@.to_multiset().add(deck@.to_multiset()) =~= deck_spec().to_multiset());
        }
        n = n + 1;
    }
    proof {
        lemma_deck_complete_and_distinct();
        deck_spec().lemma_multiset_has_no_duplicates();
        let full = deck_spec().to_multiset();
        assert forall|c: Card| #[trigger] dealt@.to_multiset().contains(c) implies dealt@.to_multiset().count(c) == 1 by {
            assert(full.count(c) >= dealt@.to_multiset().count(c));
            assert(full.contains(c));
        }
        dealt@.lemma_multiset_has_no_duplicates_conv();
        assert forall|i: int| 0 <= i < dealt@.len() implies is_deck_card(#[trigger] dealt@[i]) by {
            let c = dealt@[i];
            assert(dealt@.to_multiset().contains(c));
            assert(full.contains(c));
            assert(deck_spec().contains(c));
        }
    }
    dealt
}

/// The name of a suit, as the text of a card spells it.
pub open spec fn suit_name(s: Suit) -> Seq<u8> {
    match s {
        Suit::Copas => seq![67u8, 111, 112, 97, 115],
        Suit::Oros => seq![79u8, 114, 111, 115],
        Suit::Bastos => seq![66u8, 97, 115, 116, 111, 115],
        Suit::Espadas => seq![69u8, 115, 112, 97, 100, 97, 115],
    }
}

/// The text of a card: its value, " de " and its suit, as "7 de Oros".
pub open spec fn card_text_spec(c: Card) -> Seq<u8> {
    decimal(c.value as nat) + seq![32u8, 100, 101, 32] + suit_name(c.suit)
}

/// The value that the text of a card gives: its first word (up to the
/// first space) read as a number.
pub open spec fn card_value_spec(text: Seq<u8>) -> Option<u32> {
    parse_u32_spec(first_field(text, 32))
}

/// The text of `card`, as "7 de Oros".
pub fn card_text(card: Card) -> (text: Vec<u8>)
    ensures
        text@ == card_text_spec(card),
{
    let mut text = encode_u32(card.value);
    push_bytes(&mut text, &[32u8, 100, 101, 32]);
    match card.suit {
        Suit::Copas => push_bytes(&mut text, &[67u8, 111, 112, 97, 115]),
        Suit::Oros => push_bytes(&mut text, &[79u8, 114, 111, 115]),
        Suit::Bastos => push_bytes(&mut text, &[66u8, 97, 115, 116, 111, 115]),
        Suit::Espadas => push_bytes(&mut text, &[69u8, 115, 112, 97, 100, 97, 115]),
    }
    assert(text@ =~= card_text_spec(card));
    text
}

/// The value of the card whose text is `text`: its first word read as a
/// number; `None` where that word is no number.
pub fn parse_card_value(text: &[u8]) -> (value: Option<u32>)
    ensures
        value == card_value_spec(text@),
{
    let word = split_first(text, 32u8);
    parse_u32(word.as_slice())
}

/// Reading the value back from the text of a card gives its value.
pub proof fn lemma_card_text_value(c: Card)
    ensures
        card_value_spec(card_text_spec(c)) == Some(c.value),
{
    let t = card_text_spec(c);
    let d = decimal(c.value as nat);
    crate::text::lemma_decimal_is_digits(c.value as nat);
    assert forall|k: int| 0 <= k < d.len() implies t[k] != 32u8 by {
        assert(t[k] == d[k]);
        assert(crate::text::is_digit(d[k]));
    }
    assert(t[d.len() as int] == 32u8);
    lemma_field_end(t, 32u8, 0, d.len() as int);
    assert(first_field(t, 32u8) =~= d);
    lemma_parse_decimal(c.value);
}

} // verus!
