//! The table: it passes every message of the game on, from the coordinator
//! to the players and from the players to the coordinator and each other.
//! Each function returns the sends that the table makes, in their order.

use crate::text::{copy_bytes, texts};
use vstd::prelude::*;

verus! {

/// Who a message of the table goes to.
#[derive(Clone, Copy, Debug, PartialEq, Eq, Structural)]
pub enum Recipient {
    Coordinator,
    /// The player at this position (from 0) of the table's list of players.
    Player(usize),
}

/// A message that the table sends.
#[derive(Debug)]
pub struct Delivery {
    pub to: Recipient,
    pub message: Vec<u8>,
}

/// The sends that the table makes, each as its recipient and its text.
pub open spec fn deliveries_view(d: Seq<Delivery>) -> Seq<(Recipient, Seq<u8>)> {
    d.map_values(|x: Delivery| (x.to, x.message@))
}

/// Deals the cards that the coordinator sent: the first to the first
/// player, the next to the next one, and so on around the table. With no
/// player there can be no card to deal.
pub fn get_and_send_dealt_cards(players_number: u32, cards: Vec<Vec<u8>>) -> (sends: Vec<Delivery>)
    requires
        players_number > 0 || cards@.len() == 0,
    ensures
        sends@.len() == cards@.len(),
        forall|i: int|
            0 <= i < cards@.len() ==> #[trigger] deliveries_view(sends@)[i] == (
                Recipient::Player((i % players_number as int) as usize),
                cards@[i]@,
            ),
{
    let n = players_number as usize;
    let mut sends: Vec<Delivery> = Vec::new();
    if n == 0 {
        return sends;
    }
    let mut current_player: usize = 0;
    let mut i: usize = 0;
    while i < cards.len()
        invariant
            n == players_number as usize,
            n > 0,
            i <= cards@.len(),
            current_player == i % n,
            sends@.len() == i,
            forall|j: int|
                0 <= j < i ==> #[trigger] deliveries_view(sends@)[j] == (
                    Recipient::Player((j % n as int) as usize),
                    cards@[j]@,
                ),
        decreases cards@.len() - i,
    {
        let ghost before = sends@;
        let message = copy_bytes(&cards[i]);
        sends.push(Delivery { to: Recipient::Player(current_player), message });
        assert(deliveries_view(sends@)[i as int] == (
            Recipient::Player((i as int % n as int) as usize),
            cards@[i as int]@,
        ));
        assert forall|j: int| 0 <= j < i + 1 implies #[trigger] deliveries_view(sends@)[j] == (
            Recipient::Player((j % n as int) as usize),
            cards@[j]@,
        ) by {
            if j < i {
                assert(sends@[j] == before[j]);
                assert(deliveries_view(before)[j] == deliveries_view(sends@)[j]);
            }
        }
        current_player = (current_player + 1) % n;
        proof {
            vstd::arithmetic::div_mod::lemma_add_mod_noop_right(1, i as int, n as int);
        }
        i = i + 1;
    }
    sends
}

/// How many of the first `total` cards that `get_and_send_dealt_cards`
/// deals around `n` players go to the player at position `p`: those at the
/// positions `i` with `i % n == p`.
pub open spec fn cards_dealt_to(n: nat, total: nat, p: nat) -> nat
    decreases total,
{
    if total == 0 {
        0
    } else {
        cards_dealt_to(n, (total - 1) as nat, p) + (if (total - 1) % (n as int) == p {
            1nat
        } else {
            0nat
        })
    }
}

proof fn lemma_cards_dealt_partial(n: nat, rounds: nat, k: nat, p: nat)
    requires
        n > 0,
        p < n,
        k <= n,
    ensures
        cards_dealt_to(n, rounds * n + k, p) == rounds + (if p < k { 1nat } else { 0nat }),
    decreases rounds, k,
{
    if k == 0 {
        if rounds > 0 {
            lemma_cards_dealt_partial(n, (rounds - 1) as nat, n, p);
            assert((rounds - 1) * n + n == rounds * n) by (nonlinear_arith)
                requires
                    rounds > 0,
            ;
        } else {
            assert(rounds * n == 0) by (nonlinear_arith)
                requires
                    rounds == 0,
            ;
        }
    } else {
        lemma_cards_dealt_partial(n, rounds, (k - 1) as nat, p);
        let i = rounds * n + k - 1;
        vstd::arithmetic::div_mod::lemma_mod_multiples_vanish(rounds as int, k - 1, n as int);
        vstd::arithmetic::div_mod::lemma_small_mod((k - 1) as nat, n);
        assert(n * rounds == rounds * n) by (nonlinear_arith);
        assert(i % (n as int) == k - 1);
    }
}

/// Dealing `rounds * n` cards around `n` players gives each player
/// `rounds` cards.
pub proof fn lemma_each_player_dealt_rounds(n: nat, rounds: nat, p: nat)
    requires
        n > 0,
        p < n,
    ensures
        cards_dealt_to(n, rounds * n, p) == rounds,
{
    lemma_cards_dealt_partial(n, rounds, 0, p);
}

/// The same message to each of the `n` players, in the order of the table.
pub open spec fn to_each_player(n: nat, message: Seq<u8>) -> Seq<(Recipient, Seq<u8>)> {
    Seq::new(n, |p: int| (Recipient::Player(p as usize), message))
}

/// Appends to `sends` a copy of `message` for each of the `n` players.
fn send_to_each_player(sends: &mut Vec<Delivery>, n: usize, message: &Vec<u8>)
    ensures
        deliveries_view(final(sends)@) == deliveries_view(old(sends)@) + to_each_player(
            n as nat,
            message@,
        ),
{
    let ghost start = sends@;
    let mut p: usize = 0;
    while p < n
        invariant
            p <= n,
            deliveries_view(sends@) == deliveries_view(start) + to_each_player(p as nat, message@),
        decreases n - p,
    {
        let ghost before = sends@;
        let copy = copy_bytes(message);
        sends.push(Delivery { to: Recipient::Player(p), message: copy });
        assert(deliveries_view(sends@) =~= deliveries_view(before).push(
            (Recipient::Player(p), message@),
        ));
        p = p + 1;
        assert(deliveries_view(sends@) =~= deliveries_view(start) + to_each_player(
            p as nat,
            message@,
        ));
    }
}

/// Passes the type of the round that the coordinator announced on to each
/// player.
pub fn get_and_send_round_type(players_number: u32, round_type: &Vec<u8>) -> (sends: Vec<Delivery>)
    ensures
        deliveries_view(sends@) == to_each_player(players_number as nat, round_type@),
{
    let mut sends: Vec<Delivery> = Vec::new();
    send_to_each_player(&mut sends, players_number as usize, round_type);
    assert(deliveries_view(sends@) =~= to_each_player(players_number as nat, round_type@));
    sends
}

/// The sends for the players' choices, in the order they came: each to the
/// coordinator, then to every player.
pub open spec fn choice_sends(n: nat, choices: Seq<Seq<u8>>) -> Seq<(Recipient, Seq<u8>)>
    decreases choices.len(),
{
    if choices.len() == 0 {
        Seq::empty()
    } else {
        choice_sends(n, choices.drop_last()) + seq![(Recipient::Coordinator, choices.last())]
            + to_each_player(n, choices.last())
    }
}

/// The sends for the players' choices come in blocks of `n + 1`, one block
/// for each choice in order: the `j`-th send carries choice `j / (n + 1)`,
/// to the coordinator where `j % (n + 1)` is 0 and else to the player
/// `j % (n + 1) - 1`.
pub proof fn lemma_choice_sends_layout(n: nat, cs: Seq<Seq<u8>>)
    ensures
        choice_sends(n, cs).len() == cs.len() * (n + 1),
        forall|j: int|
            0 <= j < choice_sends(n, cs).len() ==> #[trigger] choice_sends(n, cs)[j] == (if j % (n
                + 1) as int == 0 {
                (Recipient::Coordinator, cs[j / (n + 1) as int])
            } else {
                (Recipient::Player((j % (n + 1) as int - 1) as usize), cs[j / (n + 1) as int])
            }),
    decreases cs.len(),
{
    let d = (n + 1) as int;
    if cs.len() == 0 {
        assert(choice_sends(n, cs).len() == 0);
    } else {
        let prev = cs.drop_last();
        let l = prev.len() as int;
        lemma_choice_sends_layout(n, prev);
        let ps = choice_sends(n, prev);
        let last = cs.last();
        let all = choice_sends(n, cs);
        assert(all == ps + seq![(Recipient::Coordinator, last)] + to_each_player(n, last));
        assert(ps.len() == l * d);
        assert((l + 1) * d == l * d + d) by (nonlinear_arith);
        assert(cs.len() == l + 1);
        assert forall|j: int| 0 <= j < all.len() implies #[trigger] all[j] == (if j % d == 0 {
            (Recipient::Coordinator, cs[j / d])
        } else {
            (Recipient::Player((j % d - 1) as usize), cs[j / d])
        }) by {
            vstd::arithmetic::div_mod::lemma_fundamental_div_mod(j, d);
            let q = j / d;
            let r = j % d;
            assert(0 <= r < d) by {
                vstd::arithmetic::div_mod::lemma_mod_bound(j, d);
            }
            if j < l * d {
                assert(all[j] == ps[j]);
                assert(q < l) by (nonlinear_arith)
                    requires
                        j == d * q + r,
                        0 <= r,
                        j < l * d,
                        d > 0,
                ;
                assert(q >= 0) by (nonlinear_arith)
                    requires
                        j == d * q + r,
                        r < d,
                        j >= 0,
                        d > 0,
                ;
                assert(cs[q] == prev[q]);
            } else {
                let r2 = j - l * d;
                vstd::arithmetic::div_mod::lemma_fundamental_div_mod_converse(j, d, l, r2);
                assert(cs[l] == last);
                if r2 > 0 {
                    assert(all[j] == to_each_player(n, last)[r2 - 1]);
                }
            }
        }
    }
}

/// Passes each player's choice on to the coordinator and to every player.
pub fn get_and_send_players_choices(players_number: u32, choices: &Vec<Vec<u8>>) -> (sends: Vec<
    Delivery,
>)
    ensures
        deliveries_view(sends@) == choice_sends(players_number as nat, texts(choices@)),
        // each choice goes to the coordinator and then to every player, in
        // the order the choices came
        sends@.len() == choices@.len() * (players_number + 1),
        forall|i: int, p: int|
            0 <= i < choices@.len() && 0 <= p <= players_number ==> #[trigger] deliveries_view(
                sends@,
            )[i * (players_number + 1) + p] == (if p == 0 {
                (Recipient::Coordinator, choices@[i]@)
            } else {
                (Recipient::Player((p - 1) as usize), choices@[i]@)
            }),
{
    let n = players_number as usize;
    let mut sends: Vec<Delivery> = Vec::new();
    let ghost all = texts(choices@);
    assert(deliveries_view(sends@) =~= choice_sends(n as nat, all.take(0)));
    let mut i: usize = 0;
    while i < choices.len()
        invariant
            n == players_number as usize,
            i <= choices@.len(),
            all == texts(choices@),
            deliveries_view(sends@) == choice_sends(n as nat, all.take(i as int)),
        decreases choices@.len() - i,
    {
        let ghost before = sends@;
        let copy = copy_bytes(&choices[i]);
        sends.push(Delivery { to: Recipient::Coordinator, message: copy });
        assert(deliveries_view(sends@) =~= deliveries_view(before).push(
            (Recipient::Coordinator, choices@[i as int]@),
        ));
        send_to_each_player(&mut sends, n, &choices[i]);
        assert(all.take(i + 1).drop_last() =~= all.take(i as int));
        assert(all.take(i + 1).last() == choices@[i as int]@);
        i = i + 1;
        assert(deliveries_view(sends@) =~= choice_sends(n as nat, all.take(i as int)));
    }
    assert(all.take(i as int) =~= all);
    proof {
        let d = (players_number + 1) as int;
        lemma_choice_sends_layout(players_number as nat, all);
        assert forall|i: int, p: int| 0 <= i < choices@.len() && 0 <= p <= players_number implies #[trigger] deliveries_view(
            sends@,
        )[i * (players_number + 1) + p] == (if p == 0 {
            (Recipient::Coordinator, choices@[i]@)
        } else {
            (Recipient::Player((p - 1) as usize), choices@[i]@)
        }) by {
            let j = i * d + p;
            vstd::arithmetic::div_mod::lemma_fundamental_div_mod_converse(j, d, i, p);
            assert(j < all.len() * d) by (nonlinear_arith)
                requires
                    j == i * d + p,
                    0 <= p < d,
                    0 <= i,
                    i + 1 <= all.len(),
            ;
            assert(j == i * (players_number + 1) + p);
        }
    }
    sends
}

/// Passes the cards that the players put, in the order they came, on to
/// the coordinator.
pub fn get_and_send_put_cards(players_number: u32, cards: &Vec<Vec<u8>>) -> (sends: Vec<Delivery>)
    ensures
        sends@.len() == cards@.len(),
        forall|i: int|
            0 <= i < cards@.len() ==> #[trigger] deliveries_view(sends@)[i] == (
                Recipient::Coordinator,
                cards@[i]@,
            ),
{
    let mut sends: Vec<Delivery> = Vec::new();
    let mut i: usize = 0;
    while i < cards.len()
        invariant
            i <= cards@.len(),
            sends@.len() == i,
            forall|j: int|
                0 <= j < i ==> #[trigger] deliveries_view(sends@)[j] == (
                    Recipient::Coordinator,
                    cards@[j]@,
                ),
        decreases cards@.len() - i,
    {
        let ghost before = sends@;
        let copy = copy_bytes(&cards[i]);
        sends.push(Delivery { to: Recipient::Coordinator, message: copy });
        assert forall|j: int| 0 <= j < i + 1 implies #[trigger] deliveries_view(sends@)[j] == (
            Recipient::Coordinator,
            cards@[j]@,
        ) by {
            if j < i {
                assert(sends@[j] == before[j]);
                assert(deliveries_view(before)[j] == deliveries_view(sends@)[j]);
            }
        }
        i = i + 1;
    }
    sends
}

} // verus!
