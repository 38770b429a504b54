//! The scoring of a round.
//!
//! Players are named by their ids, as the texts that came in their
//! messages; the score of the player whose id reads as the number `n` is
//! the entry `n - 1` of the scoreboard.

use crate::idmap::{distinct_ids, has_id, lemma_value_of_entry, IdMap};
use crate::message::{is_rusty, rusty_text, RoundType};
use crate::text::{
    copy_bytes, decimal, is_digit, lemma_decimal_is_digits, parse_usize, parse_usize_spec, texts,
};
use vstd::prelude::*;

verus! {

/// Why a player wins or loses points in a round.
#[derive(Clone, Copy, Debug, PartialEq, Eq, Structural)]
pub enum AwardReason {
    /// The player put a card first: 1 point.
    FirstToPlay,
    /// The player put a card last: minus 1 point.
    LastToPlay,
    /// No card beats the player's: 10 points.
    HighestCard,
    /// The player said "Oxidado" and no card beats theirs: 5 points.
    RustyWithHighest,
    /// The player said "Oxidado" and a card beats theirs: minus 5 points.
    RustyWithoutHighest,
}

/// Points that a player wins (or loses, where negative) in a round.
#[derive(Clone, Debug, PartialEq, Eq)]
pub struct Award {
    /// The id of the player.
    pub player: Vec<u8>,
    pub points: i32,
    pub reason: AwardReason,
}

/// An award as a value: the player's id, the points and the reason.
pub open spec fn award_view(a: Award) -> (Seq<u8>, i32, AwardReason) {
    (a.player@, a.points, a.reason)
}

/// A list of awards as values.
pub open spec fn awards_view(s: Seq<Award>) -> Seq<(Seq<u8>, i32, AwardReason)> {
    s.map_values(|a: Award| award_view(a))
}

/// Whether the id `id` names the entry `i` of the scoreboard: it reads as
/// the number `i + 1`.
pub open spec fn is_slot(id: Seq<u8>, i: int) -> bool {
    match parse_usize_spec(id) {
        Some(n) => n == i + 1,
        None => false,
    }
}

/// Whether `id` names one of the `players` entries of a scoreboard: it
/// reads as a number from 1 to `players`.
pub open spec fn valid_id(id: Seq<u8>, players: nat) -> bool {
    match parse_usize_spec(id) {
        Some(n) => 1 <= n <= players,
        None => false,
    }
}

/// The points that the awards `s` give to the entry `i`, counting only the
/// awards that add points.
pub open spec fn gain_at(s: Seq<(Seq<u8>, i32, AwardReason)>, i: int) -> int
    decreases s.len(),
{
    if s.len() == 0 {
        0
    } else {
        gain_at(s.drop_last(), i) + (if is_slot(s.last().0, i) && s.last().1 > 0 {
            s.last().1 as int
        } else {
            0int
        })
    }
}

/// The points that the awards `s` take from the entry `i`, counting only
/// the awards that take points.
pub open spec fn loss_at(s: Seq<(Seq<u8>, i32, AwardReason)>, i: int) -> int
    decreases s.len(),
{
    if s.len() == 0 {
        0
    } else {
        loss_at(s.drop_last(), i) + (if is_slot(s.last().0, i) && s.last().1 < 0 {
            -(s.last().1 as int)
        } else {
            0int
        })
    }
}

/// The points that the awards `s` give to the entry `i`, in all.
pub open spec fn points_at(s: Seq<(Seq<u8>, i32, AwardReason)>, i: int) -> int {
    gain_at(s, i) - loss_at(s, i)
}

/// Whether the player `p` said "Oxidado" in the choices `choices`.
pub open spec fn said_rusty(choices: Map<Seq<u8>, Vec<u8>>, p: Seq<u8>) -> bool {
    choices.contains_key(p) && choices[p]@ == rusty_text()
}

/// Whether `p` wins the bonus of 5 points: a spoken round, `p` said
/// "Oxidado", and no card beats `p`'s.
pub open spec fn rusty_bonus(
    round_type: RoundType,
    choices: Map<Seq<u8>, Vec<u8>>,
    max_players: Seq<Seq<u8>>,
    p: Seq<u8>,
) -> bool {
    round_type == RoundType::Spoken && said_rusty(choices, p) && max_players.contains(p)
}

/// The awards that open a round: 1 point for the first player to put a
/// card, minus 1 for the last.
pub open spec fn opening_awards(first: Seq<u8>, last: Seq<u8>) -> Seq<(Seq<u8>, i32, AwardReason)> {
    seq![(first, 1i32, AwardReason::FirstToPlay), (last, -1i32, AwardReason::LastToPlay)]
}

/// The awards for the players with the highest card, in their order: 10
/// points each, followed, in a spoken round, by 5 points for one who said
/// "Oxidado".
pub open spec fn highest_awards(
    round_type: RoundType,
    choices: Map<Seq<u8>, Vec<u8>>,
    max_players: Seq<Seq<u8>>,
) -> Seq<(Seq<u8>, i32, AwardReason)>
    decreases max_players.len(),
{
    if max_players.len() == 0 {
        Seq::empty()
    } else {
        let p = max_players.last();
        highest_awards(round_type, choices, max_players.drop_last()) + seq![
            (p, 10i32, AwardReason::HighestCard),
        ] + (if round_type == RoundType::Spoken && said_rusty(choices, p) {
            seq![(p, 5i32, AwardReason::RustyWithHighest)]
        } else {
            Seq::empty()
        })
    }
}

/// The awards of minus 5 points, in a spoken round, for each player of the
/// choice entries `entries` who said "Oxidado" and is not among the
/// players with the highest card, in the order of the entries.
pub open spec fn penalty_awards(
    round_type: RoundType,
    entries: Seq<(Seq<u8>, Vec<u8>)>,
    max_players: Seq<Seq<u8>>,
) -> Seq<(Seq<u8>, i32, AwardReason)>
    decreases entries.len(),
{
    if entries.len() == 0 {
        Seq::empty()
    } else {
        let e = entries.last();
        penalty_awards(round_type, entries.drop_last(), max_players) + (if round_type
            == RoundType::Spoken && e.1@ == rusty_text() && !max_players.contains(e.0) {
            seq![(e.0, -5i32, AwardReason::RustyWithoutHighest)]
        } else {
            Seq::empty()
        })
    }
}

/// The awards of a round, in the order they are given: to the first and
/// the last player to put a card, to the players with the highest card,
/// and to the other players who said "Oxidado".
pub open spec fn round_awards(
    round_type: RoundType,
    choices: IdMap<Vec<u8>>,
    first: Seq<u8>,
    last: Seq<u8>,
    max_players: Seq<Seq<u8>>,
) -> Seq<(Seq<u8>, i32, AwardReason)> {
    opening_awards(first, last) + highest_awards(round_type, choices.map(), max_players)
        + penalty_awards(round_type, choices.entries(), max_players)
}

/// Whether an award is one for having the highest card.
pub open spec fn highest_pred() -> spec_fn((Seq<u8>, i32, AwardReason)) -> bool {
    |x: (Seq<u8>, i32, AwardReason)| x.2 == AwardReason::HighestCard
}

/// The award of 10 points to `p` for having the highest card.
pub open spec fn highest_card_award(p: Seq<u8>) -> (Seq<u8>, i32, AwardReason) {
    (p, 10i32, AwardReason::HighestCard)
}

proof fn lemma_filter_single<A>(x: A, pred: spec_fn(A) -> bool)
    ensures
        seq![x].filter(pred) == (if pred(x) {
            seq![x]
        } else {
            Seq::<A>::empty()
        }),
{
    reveal(Seq::filter);
    assert(seq![x].drop_last() =~= Seq::<A>::empty());
    assert(Seq::<A>::empty().filter(pred) == Seq::<A>::empty());
    assert(seq![x].last() == x);
    if pred(x) {
        assert(Seq::<A>::empty().push(x) =~= seq![x]);
    }
}

proof fn lemma_filter_none<A>(s: Seq<A>, pred: spec_fn(A) -> bool)
    requires
        forall|j: int| 0 <= j < s.len() ==> !pred(#[trigger] s[j]),
    ensures
        s.filter(pred) == Seq::<A>::empty(),
    decreases s.len(),
{
    reveal(Seq::filter);
    if s.len() > 0 {
        lemma_filter_none(s.drop_last(), pred);
        assert(!pred(s[s.len() - 1]));
    }
}

/// The awards for the highest card among those of the players with the
/// highest card are 10 points to each of them, in their order.
proof fn lemma_highest_filter(round_type: RoundType, choices: Map<Seq<u8>, Vec<u8>>, maxs: Seq<Seq<u8>>)
    ensures
        highest_awards(round_type, choices, maxs).filter(highest_pred()) == maxs.map_values(
            |p: Seq<u8>| highest_card_award(p),
        ),
    decreases maxs.len(),
{
    if maxs.len() == 0 {
        reveal(Seq::filter);
        assert(maxs.map_values(|p: Seq<u8>| highest_card_award(p)) =~= Seq::empty());
    } else {
        let prev = maxs.drop_last();
        let p = maxs.last();
        lemma_highest_filter(round_type, choices, prev);
        let hp = highest_awards(round_type, choices, prev);
        let ten = seq![(p, 10i32, AwardReason::HighestCard)];
        let five: Seq<(Seq<u8>, i32, AwardReason)> = if round_type == RoundType::Spoken && said_rusty(
            choices,
            p,
        ) {
            seq![(p, 5i32, AwardReason::RustyWithHighest)]
        } else {
            Seq::empty()
        };
        assert(highest_awards(round_type, choices, maxs) == hp + ten + five);
        Seq::filter_distributes_over_add(hp + ten, five, highest_pred());
        Seq::filter_distributes_over_add(hp, ten, highest_pred());
        lemma_filter_single((p, 10i32, AwardReason::HighestCard), highest_pred());
        lemma_filter_none(five, highest_pred());
        assert(maxs.map_values(|p: Seq<u8>| highest_card_award(p)) =~= prev.map_values(
            |p: Seq<u8>| highest_card_award(p),
        ).push(highest_card_award(p)));
        assert(ten =~= seq![highest_card_award(p)]);
        assert(hp.filter(highest_pred()) + ten + Seq::<(Seq<u8>, i32, AwardReason)>::empty()
            =~= prev.map_values(|p: Seq<u8>| highest_card_award(p)).push(highest_card_award(p)));
    }
}

/// What the awards of the players with the highest card are made of: 10
/// points or a bonus of 5, a bonus to each of them who said "Oxidado" in a
/// spoken round, and at most one bonus for each player.
proof fn lemma_highest_members(round_type: RoundType, choices: Map<Seq<u8>, Vec<u8>>, maxs: Seq<Seq<u8>>)
    requires
        forall|i: int, j: int|
            0 <= i < j < maxs.len() && round_type == RoundType::Spoken && said_rusty(
                choices,
                #[trigger] maxs[i],
            ) ==> maxs[i] != #[trigger] maxs[j],
    ensures
        forall|j: int|
            0 <= j < highest_awards(round_type, choices, maxs).len() ==> {
                let x = #[trigger] highest_awards(round_type, choices, maxs)[j];
                ||| x.2 == AwardReason::HighestCard
                ||| x.2 == AwardReason::RustyWithHighest && x.1 == 5 && round_type == RoundType::Spoken
                    && said_rusty(choices, x.0) && maxs.contains(x.0)
            },
        forall|i: int|
            0 <= i < maxs.len() && round_type == RoundType::Spoken && said_rusty(
                choices,
                #[trigger] maxs[i],
            ) ==> highest_awards(round_type, choices, maxs).contains(
                (maxs[i], 5i32, AwardReason::RustyWithHighest),
            ),
        forall|a: int, b: int|
            0 <= a < b < highest_awards(round_type, choices, maxs).len()
                && (#[trigger] highest_awards(round_type, choices, maxs)[a]).2
                == AwardReason::RustyWithHighest && (#[trigger] highest_awards(
                round_type,
                choices,
                maxs,
            )[b]).2 == AwardReason::RustyWithHighest ==> highest_awards(round_type, choices, maxs)[a].0
                != highest_awards(round_type, choices, maxs)[b].0,
    decreases maxs.len(),
{
    if maxs.len() > 0 {
        let n = maxs.len() - 1;
        let prev = maxs.drop_last();
        let p = maxs.last();
        assert forall|i: int, j: int|
            0 <= i < j < prev.len() && round_type == RoundType::Spoken && said_rusty(
                choices,
                #[trigger] prev[i],
            ) implies prev[i] != #[trigger] prev[j] by {
            assert(prev[i] == maxs[i] && prev[j] == maxs[j]);
        }
        lemma_highest_members(round_type, choices, prev);
        let hp = highest_awards(round_type, choices, prev);
        let ten = seq![(p, 10i32, AwardReason::HighestCard)];
        let rusty = round_type == RoundType::Spoken && said_rusty(choices, p);
        let five: Seq<(Seq<u8>, i32, AwardReason)> = if rusty {
            seq![(p, 5i32, AwardReason::RustyWithHighest)]
        } else {
            Seq::empty()
        };
        let h = highest_awards(round_type, choices, maxs);
        assert(h == hp + ten + five);
        assert(maxs[n] == p);
        assert forall|j: int| 0 <= j < h.len() implies {
            let x = #[trigger] h[j];
            ||| x.2 == AwardReason::HighestCard
            ||| x.2 == AwardReason::RustyWithHighest && x.1 == 5 && round_type == RoundType::Spoken
                && said_rusty(choices, x.0) && maxs.contains(x.0)
        } by {
            if j < hp.len() {
                assert(h[j] == hp[j]);
                if hp[j].2 == AwardReason::RustyWithHighest {
                    let w = choose|w: int| 0 <= w < prev.len() && prev[w] == hp[j].0;
                    assert(maxs[w] == prev[w]);
                }
            }
        }
        assert forall|i: int|
            0 <= i < maxs.len() && round_type == RoundType::Spoken && said_rusty(
                choices,
                #[trigger] maxs[i],
            ) implies h.contains((maxs[i], 5i32, AwardReason::RustyWithHighest)) by {
            if i < n {
                assert(prev[i] == maxs[i]);
                let x = (maxs[i], 5i32, AwardReason::RustyWithHighest);
                assert(hp.contains(x));
                let w = choose|w: int| 0 <= w < hp.len() && hp[w] == x;
                assert(h[w] == x);
            } else {
                assert(h[hp.len() + 1int] == (p, 5i32, AwardReason::RustyWithHighest));
            }
        }
        assert forall|a: int, b: int|
            0 <= a < b < h.len() && (#[trigger] h[a]).2 == AwardReason::RustyWithHighest && (
            #[trigger] h[b]).2 == AwardReason::RustyWithHighest implies h[a].0 != h[b].0 by {
            if b < hp.len() {
                assert(h[a] == hp[a] && h[b] == hp[b]);
            } else {
                assert(b == hp.len() + 1);
                assert(rusty);
                assert(h[b].0 == p);
                assert(a < hp.len());
                assert(h[a] == hp[a]);
                let w = choose|w: int| 0 <= w < prev.len() && prev[w] == hp[a].0;
                assert(maxs[w] == prev[w]);
                assert(said_rusty(choices, maxs[w]));
                assert(maxs[w] != maxs[n]);
            }
        }
    }
}

/// What the penalties of the choice entries `s` are made of: minus 5 points
/// to players who said "Oxidado" in a spoken round and are not among the
/// players with the highest card, one to each such player of `s`, and at
/// most one to each player.
proof fn lemma_penalty_members(round_type: RoundType, s: Seq<(Seq<u8>, Vec<u8>)>, maxs: Seq<Seq<u8>>)
    requires
        distinct_ids(s),
    ensures
        forall|j: int|
            0 <= j < penalty_awards(round_type, s, maxs).len() ==> {
                let x = #[trigger] penalty_awards(round_type, s, maxs)[j];
                &&& x.1 == -5
                &&& x.2 == AwardReason::RustyWithoutHighest
                &&& round_type == RoundType::Spoken
                &&& !maxs.contains(x.0)
                &&& exists|i: int| 0 <= i < s.len() && s[i].0 == x.0 && s[i].1@ == rusty_text()
            },
        forall|i: int|
            0 <= i < s.len() && round_type == RoundType::Spoken && (#[trigger] s[i]).1@ == rusty_text()
                && !maxs.contains(s[i].0) ==> penalty_awards(round_type, s, maxs).contains(
                (s[i].0, -5i32, AwardReason::RustyWithoutHighest),
            ),
        forall|a: int, b: int|
            0 <= a < b < penalty_awards(round_type, s, maxs).len() ==> (#[trigger] penalty_awards(
                round_type,
                s,
                maxs,
            )[a]).0 != (#[trigger] penalty_awards(round_type, s, maxs)[b]).0,
    decreases s.len(),
{
    if s.len() > 0 {
        let n = s.len() - 1;
        let prev = s.drop_last();
        let e = s.last();
        assert forall|a: int, b: int| 0 <= a < b < prev.len() implies prev[a].0 != prev[b].0 by {
            assert(prev[a] == s[a] && prev[b] == s[b]);
        }
        lemma_penalty_members(round_type, prev, maxs);
        let pp = penalty_awards(round_type, prev, maxs);
        let hit = round_type == RoundType::Spoken && e.1@ == rusty_text() && !maxs.contains(e.0);
        let tail: Seq<(Seq<u8>, i32, AwardReason)> = if hit {
            seq![(e.0, -5i32, AwardReason::RustyWithoutHighest)]
        } else {
            Seq::empty()
        };
        let pa = penalty_awards(round_type, s, maxs);
        assert(pa == pp + tail);
        assert(s[n] == e);
        assert forall|j: int| 0 <= j < pa.len() implies {
            let x = #[trigger] pa[j];
            &&& x.1 == -5
            &&& x.2 == AwardReason::RustyWithoutHighest
            &&& round_type == RoundType::Spoken
            &&& !maxs.contains(x.0)
            &&& exists|i: int| 0 <= i < s.len() && s[i].0 == x.0 && s[i].1@ == rusty_text()
        } by {
            if j < pp.len() {
                assert(pa[j] == pp[j]);
                let i = choose|i: int| 0 <= i < prev.len() && prev[i].0 == pp[j].0 && prev[i].1@ == rusty_text();
                assert(s[i] == prev[i]);
            } else {
                assert(pa[j] == (e.0, -5i32, AwardReason::RustyWithoutHighest));
            }
        }
        assert forall|i: int|
            0 <= i < s.len() && round_type == RoundType::Spoken && (#[trigger] s[i]).1@ == rusty_text()
                && !maxs.contains(s[i].0) implies pa.contains(
                (s[i].0, -5i32, AwardReason::RustyWithoutHighest),
            ) by {
            if i < n {
                assert(prev[i] == s[i]);
                let x = (s[i].0, -5i32, AwardReason::RustyWithoutHighest);
                assert(pp.contains(x));
                let w = choose|w: int| 0 <= w < pp.len() && pp[w] == x;
                assert(pa[w] == x);
            } else {
                assert(pa[pp.len() as int] == (e.0, -5i32, AwardReason::RustyWithoutHighest));
            }
        }
        assert forall|a: int, b: int| 0 <= a < b < pa.len() implies (#[trigger] pa[a]).0 != (
        #[trigger] pa[b]).0 by {
            if b < pp.len() {
                assert(pa[a] == pp[a] && pa[b] == pp[b]);
            } else {
                assert(pa[b].0 == e.0);
                assert(pa[a] == pp[a]);
                let i = choose|i: int| 0 <= i < prev.len() && prev[i].0 == pp[a].0 && prev[i].1@ == rusty_text();
                assert(s[i] == prev[i]);
                assert(s[i].0 != s[n].0);
            }
        }
    }
}

/// The rules of scoring a round, said of the list of awards `aw` given in
/// it: first 1 point to the first player to put a card and minus 1 to the
/// last, no other award of those kinds; 10 points to each player with the
/// highest card, in their order; in a spoken round, 5 more to each of them
/// who said "Oxidado" and minus 5 to each other player who said it, each
/// such player once; no other awards of these kinds.
pub open spec fn follows_round_rules(
    aw: Seq<(Seq<u8>, i32, AwardReason)>,
    round_type: RoundType,
    choices: Map<Seq<u8>, Vec<u8>>,
    first: Seq<u8>,
    last: Seq<u8>,
    max_players: Seq<Seq<u8>>,
) -> bool {
    &&& aw.len() >= 2
    &&& aw[0] == (first, 1i32, AwardReason::FirstToPlay)
    &&& aw[1] == (last, -1i32, AwardReason::LastToPlay)
    &&& forall|j: int|
        2 <= j < aw.len() ==> (#[trigger] aw[j]).2 != AwardReason::FirstToPlay && aw[j].2
            != AwardReason::LastToPlay
    &&& aw.filter(highest_pred()) == max_players.map_values(|p: Seq<u8>| highest_card_award(p))
    &&& forall|j: int|
        0 <= j < aw.len() && (#[trigger] aw[j]).2 == AwardReason::RustyWithHighest ==> aw[j].1 == 5
            && rusty_bonus(round_type, choices, max_players, aw[j].0)
    &&& forall|k: Seq<u8>|
        #[trigger] rusty_bonus(round_type, choices, max_players, k) ==> aw.contains(
            (k, 5i32, AwardReason::RustyWithHighest),
        )
    &&& forall|j: int|
        0 <= j < aw.len() && (#[trigger] aw[j]).2 == AwardReason::RustyWithoutHighest ==> aw[j].1
            == -5 && round_type == RoundType::Spoken && said_rusty(choices, aw[j].0)
            && !max_players.contains(aw[j].0)
    &&& forall|k: Seq<u8>|
        round_type == RoundType::Spoken && #[trigger] said_rusty(choices, k)
            && !max_players.contains(k) ==> aw.contains((k, -5i32, AwardReason::RustyWithoutHighest))
    &&& forall|a: int, b: int|
        0 <= a < b < aw.len() && (#[trigger] aw[a]).2 == (#[trigger] aw[b]).2 && (aw[a].2
            == AwardReason::RustyWithHighest || aw[a].2 == AwardReason::RustyWithoutHighest) ==> aw[a].0
            != aw[b].0
}

/// The awards of a round follow the rules of scoring, for any choices,
/// first and last player and players with the highest card, where a player
/// who said "Oxidado" in a spoken round is listed once among the latter.
pub proof fn lemma_round_awards_follow_rules(
    round_type: RoundType,
    choices: IdMap<Vec<u8>>,
    first: Seq<u8>,
    last: Seq<u8>,
    maxs: Seq<Seq<u8>>,
)
    requires
        choices.well_formed(),
        forall|i: int, j: int|
            0 <= i < j < maxs.len() && round_type == RoundType::Spoken && said_rusty(
                choices.map(),
                #[trigger] maxs[i],
            ) ==> maxs[i] != #[trigger] maxs[j],
    ensures
        follows_round_rules(
            round_awards(round_type, choices, first, last, maxs),
            round_type,
            choices.map(),
            first,
            last,
            maxs,
        ),
{
    let m = choices.map();
    let s = choices.entries();
    let o = opening_awards(first, last);
    let h = highest_awards(round_type, m, maxs);
    let pa = penalty_awards(round_type, s, maxs);
    let t = round_awards(round_type, choices, first, last, maxs);
    assert(t == o + h + pa);
    lemma_highest_members(round_type, m, maxs);
    lemma_penalty_members(round_type, s, maxs);
    lemma_highest_filter(round_type, m, maxs);
    let hl = h.len() as int;
    // where each award of `t` comes from
    assert forall|j: int| 2 <= j < 2 + hl implies t[j] == h[j - 2] by {}
    assert forall|j: int| 2 + hl <= j < t.len() implies t[j] == pa[j - 2 - hl] by {}
    assert forall|j: int| 2 <= j < t.len() implies (#[trigger] t[j]).2 != AwardReason::FirstToPlay
        && t[j].2 != AwardReason::LastToPlay by {
        if j < 2 + hl {
            assert(t[j] == h[j - 2]);
        } else {
            assert(t[j] == pa[j - 2 - hl]);
        }
    }
    // the awards for the highest card
    lemma_filter_none(o, highest_pred());
    assert forall|j: int| 0 <= j < pa.len() implies !highest_pred()(#[trigger] pa[j]) by {}
    lemma_filter_none(pa, highest_pred());
    Seq::filter_distributes_over_add(o + h, pa, highest_pred());
    Seq::filter_distributes_over_add(o, h, highest_pred());
    assert(t.filter(highest_pred()) =~= maxs.map_values(|p: Seq<u8>| highest_card_award(p)));
    // the bonuses
    assert forall|j: int| 0 <= j < t.len() && (#[trigger] t[j]).2 == AwardReason::RustyWithHighest
        implies t[j].1 == 5 && rusty_bonus(round_type, m, maxs, t[j].0) by {
        if j >= 2 + hl {
            assert(t[j] == pa[j - 2 - hl]);
        } else {
            assert(t[j] == h[j - 2]);
        }
    }
    assert forall|k: Seq<u8>| #[trigger] rusty_bonus(round_type, m, maxs, k) implies t.contains(
        (k, 5i32, AwardReason::RustyWithHighest),
    ) by {
        let i = choose|i: int| 0 <= i < maxs.len() && maxs[i] == k;
        let x = (k, 5i32, AwardReason::RustyWithHighest);
        assert(h.contains(x));
        let w = choose|w: int| 0 <= w < h.len() && h[w] == x;
        assert(t[w + 2] == x);
    }
    // the penalties
    assert forall|j: int| 0 <= j < t.len() && (#[trigger] t[j]).2 == AwardReason::RustyWithoutHighest
        implies t[j].1 == -5 && round_type == RoundType::Spoken && said_rusty(m, t[j].0)
        && !maxs.contains(t[j].0) by {
        if j >= 2 + hl {
            assert(t[j] == pa[j - 2 - hl]);
            let x = pa[j - 2 - hl];
            let i = choose|i: int| 0 <= i < s.len() && s[i].0 == x.0 && s[i].1@ == rusty_text();
            lemma_value_of_entry(s, i);
        } else {
            assert(t[j] == h[j - 2]);
        }
    }
    assert forall|k: Seq<u8>|
        round_type == RoundType::Spoken && #[trigger] said_rusty(m, k) && !maxs.contains(k) implies t.contains(
        (k, -5i32, AwardReason::RustyWithoutHighest),
    ) by {
        assert(has_id(s, k));
        let i = choose|i: int| 0 <= i < s.len() && s[i].0 == k;
        lemma_value_of_entry(s, i);
        let x = (k, -5i32, AwardReason::RustyWithoutHighest);
        assert(s[i].1@ == rusty_text());
        assert(pa.contains(x));
        let w = choose|w: int| 0 <= w < pa.len() && pa[w] == x;
        assert(t[w + 2 + hl] == x);
    }
    // each player at most once for a bonus or a penalty
    assert forall|a: int, b: int|
        0 <= a < b < t.len() && (#[trigger] t[a]).2 == (#[trigger] t[b]).2 && (t[a].2
            == AwardReason::RustyWithHighest || t[a].2 == AwardReason::RustyWithoutHighest) implies t[a].0
        != t[b].0 by {
        if t[a].2 == AwardReason::RustyWithHighest {
            assert(a >= 2 && b >= 2);
            if b >= 2 + hl {
                assert(t[b] == pa[b - 2 - hl]);
            }
            if a >= 2 + hl {
                assert(t[a] == pa[a - 2 - hl]);
            }
            assert(t[a] == h[a - 2] && t[b] == h[b - 2]);
        } else {
            if a < 2 + hl {
                assert(t[a] == h[a - 2]);
            }
            if b < 2 + hl {
                assert(t[b] == h[b - 2]);
            }
            assert(t[a] == pa[a - 2 - hl] && t[b] == pa[b - 2 - hl]);
        }
    }
}

/// The id that a player's messages carry, the decimal text of its number
/// `p`, names the entry `p - 1` of the scoreboard, which a game of
/// `players` players holds where `p <= players`.
pub proof fn lemma_player_id_names_score(p: u32, players: nat)
    requires
        1 <= p,
    ensures
        is_slot(decimal(p as nat), p - 1),
        p <= players ==> valid_id(decimal(p as nat), players),
{
    lemma_decimal_is_digits(p as nat);
    assert(is_digit(decimal(p as nat)[0]));
}

proof fn lemma_counts_push(s: Seq<(Seq<u8>, i32, AwardReason)>, a: (Seq<u8>, i32, AwardReason), i: int)
    ensures
        gain_at(s.push(a), i) == gain_at(s, i) + (if is_slot(a.0, i) && a.1 > 0 {
            a.1 as int
        } else {
            0int
        }),
        loss_at(s.push(a), i) == loss_at(s, i) + (if is_slot(a.0, i) && a.1 < 0 {
            -(a.1 as int)
        } else {
            0int
        }),
{
    assert(s.push(a).drop_last() =~= s);
}

proof fn lemma_counts_nonnegative(s: Seq<(Seq<u8>, i32, AwardReason)>, i: int)
    ensures
        gain_at(s, i) >= 0,
        loss_at(s, i) >= 0,
    decreases s.len(),
{
    if s.len() > 0 {
        lemma_counts_nonnegative(s.drop_last(), i);
    }
}

/// What a list of awards gives an entry of the scoreboard adds up the
/// points of its awards to that entry: nothing for no award, and each
/// award adds its points to the entry its player's id names, and nothing
/// to any other.
pub proof fn lemma_points_at_adds_up(s: Seq<(Seq<u8>, i32, AwardReason)>, a: (Seq<u8>, i32, AwardReason), i: int)
    ensures
        points_at(Seq::empty(), i) == 0,
        points_at(s.push(a), i) == points_at(s, i) + (if is_slot(a.0, i) {
            a.1 as int
        } else {
            0int
        }),
{
    lemma_counts_push(s, a, i);
}

/// What a prefix of a list of awards gives or takes is at most what the
/// whole list gives or takes.
proof fn lemma_prefix_counts(p: Seq<(Seq<u8>, i32, AwardReason)>, t: Seq<(Seq<u8>, i32, AwardReason)>, i: int)
    requires
        p.is_prefix_of(t),
    ensures
        gain_at(p, i) <= gain_at(t, i),
        loss_at(p, i) <= loss_at(t, i),
    decreases t.len() - p.len(),
{
    if p.len() == t.len() {
        assert(p =~= t);
    } else {
        assert(p.is_prefix_of(t.drop_last())) by {
            assert(p =~= t.drop_last().subrange(0, p.len() as int));
        }
        lemma_prefix_counts(p, t.drop_last(), i);
    }
}

/// The awards of the first `k` players with the highest card come first
/// among those of all of them.
proof fn lemma_highest_prefix(
    round_type: RoundType,
    choices: Map<Seq<u8>, Vec<u8>>,
    max_players: Seq<Seq<u8>>,
    k: int,
)
    requires
        0 <= k <= max_players.len(),
    ensures
        highest_awards(round_type, choices, max_players.take(k)).is_prefix_of(
            highest_awards(round_type, choices, max_players),
        ),
    decreases max_players.len(),
{
    if k == max_players.len() {
        assert(max_players.take(k) =~= max_players);
    } else {
        let shorter = max_players.drop_last();
        assert(shorter.take(k) =~= max_players.take(k));
        lemma_highest_prefix(round_type, choices, shorter, k);
        let a = highest_awards(round_type, choices, max_players.take(k));
        let b = highest_awards(round_type, choices, shorter);
        let c = highest_awards(round_type, choices, max_players);
        assert(c.subrange(0, b.len() as int) =~= b);
        assert(c.subrange(0, a.len() as int) =~= b.subrange(0, a.len() as int));
    }
}

/// The penalties of the first `k` entries come first among those of all
/// the entries.
proof fn lemma_penalty_prefix(
    round_type: RoundType,
    entries: Seq<(Seq<u8>, Vec<u8>)>,
    max_players: Seq<Seq<u8>>,
    k: int,
)
    requires
        0 <= k <= entries.len(),
    ensures
        penalty_awards(round_type, entries.take(k), max_players).is_prefix_of(
            penalty_awards(round_type, entries, max_players),
        ),
    decreases entries.len(),
{
    if k == entries.len() {
        assert(entries.take(k) =~= entries);
    } else {
        let shorter = entries.drop_last();
        assert(shorter.take(k) =~= entries.take(k));
        lemma_penalty_prefix(round_type, shorter, max_players, k);
        let a = penalty_awards(round_type, entries.take(k), max_players);
        let b = penalty_awards(round_type, shorter, max_players);
        let c = penalty_awards(round_type, entries, max_players);
        assert(c.subrange(0, b.len() as int) =~= b);
        assert(c.subrange(0, a.len() as int) =~= b.subrange(0, a.len() as int));
    }
}

/// Taking out an entry of a player with the highest card leaves the
/// penalties as they were.
proof fn lemma_penalty_remove(
    round_type: RoundType,
    entries: Seq<(Seq<u8>, Vec<u8>)>,
    max_players: Seq<Seq<u8>>,
    i: int,
)
    requires
        0 <= i < entries.len(),
        max_players.contains(entries[i].0),
    ensures
        penalty_awards(round_type, entries.remove(i), max_players) == penalty_awards(
            round_type,
            entries,
            max_players,
        ),
    decreases entries.len(),
{
    if i == entries.len() - 1 {
        assert(entries.remove(i) =~= entries.drop_last());
        assert(penalty_awards(round_type, entries, max_players) =~= penalty_awards(
            round_type,
            entries.drop_last(),
            max_players,
        ));
    } else {
        let shorter = entries.drop_last();
        lemma_penalty_remove(round_type, shorter, max_players, i);
        assert(entries.remove(i).drop_last() =~= shorter.remove(i));
        assert(entries.remove(i).last() == entries.last());
    }
}

/// Gives `award`: adds its points to the score of its player and puts it
/// at the end of `awards`. The awards so far, with this one, come first in
/// `total`, whose awards keep every score of `base` in the range of `i32`.
fn give(
    scoreboard: &mut Vec<i32>,
    awards: &mut Vec<Award>,
    award: Award,
    Ghost(base): Ghost<Seq<i32>>,
    Ghost(total): Ghost<Seq<(Seq<u8>, i32, AwardReason)>>,
)
    requires
        valid_id(award.player@, base.len()),
        old(scoreboard)@.len() == base.len(),
        awards_view(old(awards)@).push(award_view(award)).is_prefix_of(total),
        forall|i: int|
            0 <= i < base.len() ==> #[trigger] old(scoreboard)@[i] == base[i] + points_at(
                awards_view(old(awards)@),
                i,
            ),
        forall|i: int|
            0 <= i < base.len() ==> base[i] + gain_at(total, i) <= i32::MAX && base[i] - loss_at(
                total,
                i,
            ) >= i32::MIN,
    ensures
        final(awards)@ == old(awards)@.push(award),
        awards_view(final(awards)@) == awards_view(old(awards)@).push(award_view(award)),
        final(scoreboard)@.len() == base.len(),
        forall|i: int|
            0 <= i < base.len() ==> #[trigger] final(scoreboard)@[i] == base[i] + points_at(
                awards_view(final(awards)@),
                i,
            ),
{
    let ghost before = awards_view(awards@);
    let ghost after = before.push(award_view(award));
    let n = parse_usize(award.player.as_slice()).unwrap();
    let slot = n - 1;
    proof {
        lemma_counts_push(before, award_view(award), slot as int);
        lemma_prefix_counts(after, total, slot as int);
        lemma_counts_nonnegative(after, slot as int);
        lemma_counts_nonnegative(before, slot as int);
        assert(is_slot(award.player@, slot as int));
        assert(base[slot as int] + gain_at(total, slot as int) <= i32::MAX);
        assert(base[slot as int] - loss_at(total, slot as int) >= i32::MIN);
    }
    let score = scoreboard[slot] + award.points;
    scoreboard.set(slot, score);
    let ghost sb = scoreboard@;
    awards.push(award);
    assert(awards_view(awards@) =~= after);
    assert forall|i: int| 0 <= i < base.len() implies #[trigger] sb[i] == base[i] + points_at(
        after,
        i,
    ) by {
        lemma_counts_push(before, award_view(award), i);
        if i != slot {
            assert(!is_slot(award_view(award).0, i));
        }
    }
}

/// Scores a round. The first player to put a card wins 1 point, the last
/// loses 1, each player whose card no other beats wins 10; in a spoken
/// round, each of those who said "Oxidado" wins 5 more and leaves
/// `choices`, and then each other player who said "Oxidado" loses 5.
/// A player's score is the entry of the scoreboard that the player's id
/// names (the id "3" names the third). Returns the awards in the order
/// they are given; the last kind in the order of the entries of `choices`.
pub fn tell_players_score(
    round_type: RoundType,
    scoreboard: &mut Vec<i32>,
    choices: &mut IdMap<Vec<u8>>,
    first_player: Vec<u8>,
    last_player: Vec<u8>,
    max_players: Vec<Vec<u8>>,
) -> (awards: Vec<Award>)
    requires
        old(choices).well_formed(),
        // every id that is counted names an entry of the scoreboard
        valid_id(first_player@, old(scoreboard)@.len()),
        valid_id(last_player@, old(scoreboard)@.len()),
        forall|i: int|
            0 <= i < max_players@.len() ==> valid_id(
                #[trigger] texts(max_players@)[i],
                old(scoreboard)@.len(),
            ),
        forall|k: Seq<u8>|
            round_type == RoundType::Spoken && #[trigger] said_rusty(old(choices).map(), k)
                && !texts(max_players@).contains(k) ==> valid_id(k, old(scoreboard)@.len()),
        // in a spoken round every player with the highest card has a choice,
        round_type == RoundType::Spoken ==> forall|i: int|
            0 <= i < max_players@.len() ==> old(choices).map().contains_key(
                #[trigger] texts(max_players@)[i],
            ),
        // and one who said "Oxidado" is listed once
        forall|i: int, j: int|
            0 <= i < j < max_players@.len() && round_type == RoundType::Spoken && said_rusty(
                old(choices).map(),
                #[trigger] texts(max_players@)[i],
            ) ==> texts(max_players@)[i] != #[trigger] texts(max_players@)[j],
        // no score leaves the range of `i32`
        forall|i: int|
            0 <= i < old(scoreboard)@.len() ==> #[trigger] old(scoreboard)@[i] + gain_at(
                round_awards(
                    round_type,
                    *old(choices),
                    first_player@,
                    last_player@,
                    texts(max_players@),
                ),
                i,
            ) <= i32::MAX && old(scoreboard)@[i] - loss_at(
                round_awards(
                    round_type,
                    *old(choices),
                    first_player@,
                    last_player@,
                    texts(max_players@),
                ),
                i,
            ) >= i32::MIN,
    ensures
        awards_view(awards@) == round_awards(
            round_type,
            *old(choices),
            first_player@,
            last_player@,
            texts(max_players@),
        ),
        // the awards follow the rules of scoring
        follows_round_rules(
            awards_view(awards@),
            round_type,
            old(choices).map(),
            first_player@,
            last_player@,
            texts(max_players@),
        ),
        // each score changes by the points that the awards give it
        final(scoreboard)@.len() == old(scoreboard)@.len(),
        forall|i: int|
            0 <= i < old(scoreboard)@.len() ==> #[trigger] final(scoreboard)@[i] == old(
                scoreboard,
            )@[i] + points_at(awards_view(awards@), i),
        // the players who won the bonus leave the choices
        final(choices).well_formed(),
        forall|k: Seq<u8>|
            #[trigger] final(choices).map().contains_key(k) <==> old(choices).map().contains_key(k)
                && !rusty_bonus(round_type, old(choices).map(), texts(max_players@), k),
        forall|k: Seq<u8>| #[trigger]
            final(choices).map().contains_key(k) ==> final(choices).map()[k] == old(
                choices,
            ).map()[k],
{
    let spoken = round_type == RoundType::Spoken;
    let ghost base = scoreboard@;
    let ghost m0 = choices.map();
    let ghost s0 = choices.entries();
    let ghost maxs = texts(max_players@);
    let ghost opening = opening_awards(first_player@, last_player@);
    let ghost total = round_awards(round_type, *choices, first_player@, last_player@, maxs);
    let ghost all_highest = highest_awards(round_type, m0, maxs);
    let ghost all_pen = penalty_awards(round_type, s0, maxs);
    assert(total == opening + all_highest + all_pen);
    let mut awards: Vec<Award> = Vec::new();

    // the first and the last player to put a card
    assert(awards_view(awards@) =~= Seq::<(Seq<u8>, i32, AwardReason)>::empty());
    assert forall|i: int| 0 <= i < base.len() implies #[trigger] scoreboard@[i] == base[i] + points_at(
        awards_view(awards@),
        i,
    ) by {}
    let first = Award { player: first_player, points: 1, reason: AwardReason::FirstToPlay };
    assert(awards_view(awards@).push(award_view(first)) =~= total.subrange(0, 1));
    give(scoreboard, &mut awards, first, Ghost(base), Ghost(total));
    let last = Award { player: last_player, points: -1, reason: AwardReason::LastToPlay };
    assert(awards_view(awards@).push(award_view(last)) =~= total.subrange(0, 2));
    give(scoreboard, &mut awards, last, Ghost(base), Ghost(total));
    assert(awards_view(awards@) =~= opening);

    // the players with the highest card
    let n = max_players.len();
    let mut k: usize = 0;
    assert(maxs.take(0) =~= Seq::<Seq<u8>>::empty());
    assert(opening + highest_awards(round_type, m0, maxs.take(0)) =~= opening);
    while k < n
        invariant
            k <= n == max_players@.len() == maxs.len(),
            maxs == texts(max_players@),
            spoken == (round_type == RoundType::Spoken),
            base.len() == scoreboard@.len(),
            total == opening + all_highest + all_pen,
            all_highest == highest_awards(round_type, m0, maxs),
            all_pen == penalty_awards(round_type, s0, maxs),
            opening.len() == 2,
            forall|i: int| 0 <= i < n ==> valid_id(#[trigger] maxs[i], base.len()),
            spoken ==> forall|i: int| 0 <= i < n ==> m0.contains_key(#[trigger] maxs[i]),
            forall|i: int, j: int|
                0 <= i < j < n && spoken && said_rusty(m0, #[trigger] maxs[i]) ==> maxs[i]
                    != #[trigger] maxs[j],
            forall|i: int|
                0 <= i < base.len() ==> base[i] + gain_at(total, i) <= i32::MAX && base[i]
                    - loss_at(total, i) >= i32::MIN,
            awards_view(awards@) == opening + highest_awards(round_type, m0, maxs.take(k as int)),
            forall|i: int|
                0 <= i < base.len() ==> #[trigger] scoreboard@[i] == base[i] + points_at(
                    awards_view(awards@),
                    i,
                ),
            choices.well_formed(),
            forall|q: Seq<u8>|
                #[trigger] choices.map().contains_key(q) <==> m0.contains_key(q) && !(spoken
                    && said_rusty(m0, q) && maxs.take(k as int).contains(q)),
            forall|q: Seq<u8>| #[trigger]
                choices.map().contains_key(q) ==> choices.map()[q] == m0[q],
            penalty_awards(round_type, choices.entries(), maxs) == all_pen,
        decreases n - k,
    {
        let ghost prefix = maxs.take(k as int);
        let ghost next = maxs.take(k + 1);
        let ghost p = maxs[k as int];
        assert(next.drop_last() =~= prefix);
        assert(next.last() == p);
        let ghost done = awards_view(awards@);
        let ghost step = opening + highest_awards(round_type, m0, next);
        proof {
            lemma_highest_prefix(round_type, m0, maxs, k + 1);
            let h = highest_awards(round_type, m0, next);
            assert(step.is_prefix_of(total)) by {
                assert(total.subrange(0, step.len() as int) =~= opening + all_highest.subrange(
                    0,
                    h.len() as int,
                ));
            }
        }
        let id = &max_players[k];
        assert(id@ == p);
        let ten = Award { player: copy_bytes(id.as_slice()), points: 10, reason: AwardReason::HighestCard };
        assert(done.push(award_view(ten)).is_prefix_of(total)) by {
            assert(done.push(award_view(ten)) =~= step.subrange(0, (done.len() + 1) as int));
        }
        give(scoreboard, &mut awards, ten, Ghost(base), Ghost(total));
        let mut rusty = false;
        if spoken {
            // the player still has a choice: one who won the bonus is listed once
            assert(!(said_rusty(m0, p) && prefix.contains(p))) by {
                if said_rusty(m0, p) && prefix.contains(p) {
                    let j = choose|j: int| 0 <= j < prefix.len() && prefix[j] == p;
                    assert(maxs[j] == p);
                }
            }
            assert(m0.contains_key(maxs[k as int]));
            match choices.get(id.as_slice()) {
                Some(choice) => {
                    rusty = is_rusty(choice.as_slice());
                },
                None => {},
            }
            assert(rusty == said_rusty(m0, p));
        }
        if rusty {
            let ghost s_before = choices.entries();
            choices.remove(id.as_slice());
            proof {
                assert(has_id(s_before, p));
                let i = choose|i: int|
                    0 <= i < s_before.len() && s_before[i].0 == p && choices.entries()
                        == s_before.remove(i);
                assert(maxs.contains(p)) by {
                    assert(maxs[k as int] == p);
                }
                lemma_penalty_remove(round_type, s_before, maxs, i);
            }
            let five = Award {
                player: copy_bytes(id.as_slice()),
                points: 5,
                reason: AwardReason::RustyWithHighest,
            };
            assert(awards_view(awards@).push(award_view(five)) =~= step.subrange(0, (done.len() + 2) as int));
            give(scoreboard, &mut awards, five, Ghost(base), Ghost(total));
        }
        assert(awards_view(awards@) =~= step);
        assert forall|q: Seq<u8>|
            #[trigger] choices.map().contains_key(q) <==> m0.contains_key(q) && !(spoken
                && said_rusty(m0, q) && next.contains(q)) by {
            if next.contains(q) && q != p {
                let j = choose|j: int| 0 <= j < next.len() && next[j] == q;
                assert(prefix[j] == q);
            }
            if prefix.contains(q) {
                let j = choose|j: int| 0 <= j < prefix.len() && prefix[j] == q;
                assert(next[j] == q);
            }
            assert(next[k as int] == p);
        }
        k = k + 1;
    }
    assert(maxs.take(n as int) =~= maxs);
    assert(awards_view(awards@) == opening + all_highest);

    // the other players who said "Oxidado"
    let ghost s1 = choices.entries();
    let ghost m1 = choices.map();
    let len = choices.len();
    let mut j: usize = 0;
    assert(s1.take(0) =~= Seq::<(Seq<u8>, Vec<u8>)>::empty());
    assert(opening + all_highest + penalty_awards(round_type, s1, maxs).take(0) =~= opening
        + all_highest);
    assert(penalty_awards(round_type, s1.take(0), maxs) =~= Seq::<(Seq<u8>, i32, AwardReason)>::empty());
    assert(awards_view(awards@) =~= opening + all_highest + penalty_awards(round_type, s1.take(0), maxs));
    while j < len
        invariant
            j <= len == s1.len(),
            s1 == choices.entries(),
            m1 == choices.map(),
            choices.well_formed(),
            spoken == (round_type == RoundType::Spoken),
            base.len() == scoreboard@.len(),
            total == opening + all_highest + all_pen,
            all_pen == penalty_awards(round_type, s1, maxs),
            forall|q: Seq<u8>|
                #[trigger] m1.contains_key(q) <==> m0.contains_key(q) && !(spoken && said_rusty(
                    m0,
                    q,
                ) && maxs.contains(q)),
            forall|q: Seq<u8>| #[trigger] m1.contains_key(q) ==> m1[q] == m0[q],
            forall|q: Seq<u8>|
                spoken && #[trigger] said_rusty(m0, q) && !maxs.contains(q) ==> valid_id(
                    q,
                    base.len(),
                ),
            forall|i: int|
                0 <= i < base.len() ==> base[i] + gain_at(total, i) <= i32::MAX && base[i]
                    - loss_at(total, i) >= i32::MIN,
            awards_view(awards@) == opening + all_highest + penalty_awards(
                round_type,
                s1.take(j as int),
                maxs,
            ),
            forall|i: int|
                0 <= i < base.len() ==> #[trigger] scoreboard@[i] == base[i] + points_at(
                    awards_view(awards@),
                    i,
                ),
        decreases len - j,
    {
        let ghost prefix = s1.take(j as int);
        let ghost next = s1.take(j + 1);
        assert(next.drop_last() =~= prefix);
        assert(next.last() == s1[j as int]);
        let ghost done = awards_view(awards@);
        let ghost step = opening + all_highest + penalty_awards(round_type, next, maxs);
        proof {
            lemma_penalty_prefix(round_type, s1, maxs, j + 1);
            let pn = penalty_awards(round_type, next, maxs);
            assert(step.is_prefix_of(total)) by {
                assert(total.subrange(0, step.len() as int) =~= opening + all_highest
                    + all_pen.subrange(0, pn.len() as int));
            }
        }
        let (id, choice) = choices.entry(j);
        let rusty = is_rusty(choice.as_slice());
        proof {
            lemma_value_of_entry(s1, j as int);
        }
        if spoken && rusty {
            // the player has no card that beats all others: had it one, its
            // choice would have left with the bonus
            assert(said_rusty(m0, id@));
            assert(!maxs.contains(id@));
            let penalty = Award {
                player: copy_bytes(id.as_slice()),
                points: -5,
                reason: AwardReason::RustyWithoutHighest,
            };
            assert(done.push(award_view(penalty)) =~= step.subrange(0, (done.len() + 1) as int));
            give(scoreboard, &mut awards, penalty, Ghost(base), Ghost(total));
        }
        assert(awards_view(awards@) =~= step);
        j = j + 1;
    }
    assert(s1.take(len as int) =~= s1);
    assert(awards_view(awards@) =~= total);
    proof {
        lemma_round_awards_follow_rules(round_type, *old(choices), first_player@, last_player@, maxs);
    }
    awards
}

} // verus!
