//! The record of a finished game.

use crate::card::Card;
use crate::player::{all_but, PlayerInfo};
use crate::trick::{copy_tricks, same_tricks, CompletedTrick, SEATS};
use vstd::prelude::*;

verus! {

/// A finished game: what is kept of the players, the thirteen tricks in
/// the order in which they were played, whether a Heart was played, and
/// the winner. The winner is the seat with the lowest score; where seats
/// tie for it, the first of them.
#[derive(Debug)]
pub struct CompletedHeartsGame {
    pub players: Vec<PlayerInfo>,
    pub previous_tricks: Vec<CompletedTrick>,
    pub hearts_broken: bool,
    pub winner_index: usize,
}

impl CompletedHeartsGame {
    /// The seat that makes the `m`-th move of the game.
    pub open spec fn seat_of(&self, m: int) -> int {
        seat_of_move(self.previous_tricks@, m)
    }

    /// The card of the `m`-th move of the game.
    pub open spec fn card_of(&self, m: int) -> Card {
        card_of_move(self.previous_tricks@, m)
    }

    /// The hands before the `m`-th move of the game.
    pub open spec fn hands_at(&self, m: int) -> Seq<Seq<Card>> {
        hands_before(initial_hands(self.players@), self.previous_tricks@, m)
    }

    /// Each of the first `n` moves of the game plays a card that its seat
    /// holds.
    pub open spec fn held_upto(&self, n: int) -> bool {
        moves_held(initial_hands(self.players@), self.previous_tricks@, n)
    }

    /// The record can be played again from the dealt hands: it is of four
    /// players and of tricks of four cards, and every move plays a card
    /// that its seat holds.
    pub open spec fn replayable(&self) -> bool {
        &&& self.players.len() == SEATS
        &&& four_by_four(self.previous_tricks@)
        &&& self.held_upto(4 * self.previous_tricks.len())
    }

    /// The two records hold the same players, tricks, flag and winner.
    pub open spec fn same_as(&self, other: CompletedHeartsGame) -> bool {
        &&& same_players(self.players@, other.players@)
        &&& same_tricks(self.previous_tricks@, other.previous_tricks@)
        &&& self.hearts_broken == other.hearts_broken
        &&& self.winner_index == other.winner_index
    }
}

impl Clone for CompletedHeartsGame {
    fn clone(&self) -> (copy: Self)
        ensures
            copy.same_as(*self),
    {
        CompletedHeartsGame {
            players: copy_players(&self.players),
            previous_tricks: copy_tricks(&self.previous_tricks),
            hearts_broken: self.hearts_broken,
            winner_index: self.winner_index,
        }
    }
}

/// The same players, one by one.
pub open spec fn same_players(a: Seq<PlayerInfo>, b: Seq<PlayerInfo>) -> bool {
    &&& a.len() == b.len()
    &&& forall|i: int| 0 <= i < a.len() ==> (#[trigger] a[i]).same_as(b[i])
}

/// Seat `w` has the lowest score, and is the first seat that has it.
pub open spec fn leads_on_points(players: Seq<PlayerInfo>, w: int) -> bool {
    &&& 0 <= w < players.len()
    &&& forall|i: int| 0 <= i < players.len() ==> players[w].score <= (#[trigger] players[i]).score
    &&& forall|i: int| 0 <= i < w ==> players[w].score < (#[trigger] players[i]).score
}

/// The first seat with the lowest score; seat 0 where there is no player.
pub fn lowest_score_seat(players: &Vec<PlayerInfo>) -> (seat: usize)
    ensures
        players.len() > 0 ==> leads_on_points(players@, seat as int),
        players.len() == 0 ==> seat == 0,
{
    let mut best: usize = 0;
    let mut i: usize = 1;
    while i < players.len()
        invariant
            1 <= i,
            players.len() > 0 ==> i <= players.len() && best < i,
            players.len() == 0 ==> best == 0,
            forall|k: int|
                0 <= k < i && k < players.len() ==> players[best as int].score <= (
                #[trigger] players[k]).score,
            forall|k: int| 0 <= k < best ==> players[best as int].score < (#[trigger] players[k]).score,
        decreases players.len() - i,
    {
        if players[i].score < players[best].score {
            best = i;
        }
        i += 1;
    }
    best
}

/// A copy of `players`.
pub fn copy_players(players: &Vec<PlayerInfo>) -> (copy: Vec<PlayerInfo>)
    ensures
        same_players(copy@, players@),
{
    let mut copy: Vec<PlayerInfo> = Vec::new();
    let mut i: usize = 0;
    while i < players.len()
        invariant
            i <= players.len(),
            copy.len() == i,
            forall|k: int| 0 <= k < i ==> (#[trigger] copy[k]).same_as(players[k]),
        decreases players.len() - i,
    {
        copy.push(players[i].clone());
        i += 1;
    }
    copy
}

/// The seat that makes the `m`-th move of `tricks`: the moves of a trick
/// go round from its leader.
pub open spec fn seat_of_move(tricks: Seq<CompletedTrick>, m: int) -> int {
    (tricks[m / 4].first_player_index + m % 4) % 4
}

/// The card of the `m`-th move of `tricks`.
pub open spec fn card_of_move(tricks: Seq<CompletedTrick>, m: int) -> Card {
    tricks[m / 4].cards[seat_of_move(tricks, m)]
}

/// The hands that `players` were dealt.
pub open spec fn initial_hands(players: Seq<PlayerInfo>) -> Seq<Seq<Card>> {
    Seq::new(players.len(), |p: int| players[p].initial_hand@)
}

/// The hands before the `m`-th move, from the hands `dealt`: every earlier
/// move has taken its card out of the hand of its seat, where it lies
/// first.
pub open spec fn hands_before(dealt: Seq<Seq<Card>>, tricks: Seq<CompletedTrick>, m: int) -> Seq<
    Seq<Card>,
>
    decreases m,
{
    if m <= 0 {
        dealt
    } else {
        let hands = hands_before(dealt, tricks, m - 1);
        let seat = seat_of_move(tricks, m - 1);
        hands.update(seat, hands[seat].remove_value(card_of_move(tricks, m - 1)))
    }
}

/// Each of the first `n` moves plays a card that its seat holds.
pub open spec fn moves_held(dealt: Seq<Seq<Card>>, tricks: Seq<CompletedTrick>, n: int) -> bool
    decreases n,
{
    if n <= 0 {
        true
    } else {
        moves_held(dealt, tricks, n - 1) && hands_before(dealt, tricks, n - 1)[seat_of_move(
            tricks,
            n - 1,
        )].contains(card_of_move(tricks, n - 1))
    }
}

/// Tricks of four cards that a seat at the table led.
pub open spec fn four_by_four(tricks: Seq<CompletedTrick>) -> bool {
    forall|t: int|
        0 <= t < tricks.len() ==> (#[trigger] tricks[t]).cards.len() == SEATS
            && tricks[t].first_player_index < SEATS
}

/// Moves that are held up to `n` are held up to any earlier move.
pub proof fn lemma_moves_held_before(
    dealt: Seq<Seq<Card>>,
    tricks: Seq<CompletedTrick>,
    m: int,
    n: int,
)
    requires
        m <= n,
        moves_held(dealt, tricks, n),
    ensures
        moves_held(dealt, tricks, m),
    decreases n - m,
{
    if m < n {
        if n > 0 {
            lemma_moves_held_before(dealt, tricks, m, n - 1);
        }
    }
}

/// The first `k` tricks of `a` and of `b` hold the same cards and leaders.
pub open spec fn agree_upto(a: Seq<CompletedTrick>, b: Seq<CompletedTrick>, k: int) -> bool {
    &&& k <= a.len()
    &&& k <= b.len()
    &&& forall|i: int|
        0 <= i < k ==> (#[trigger] a[i]).cards@ == b[i].cards@ && a[i].first_player_index
            == b[i].first_player_index
}

/// The play of the first tricks does not depend on the tricks that
/// follow.
pub proof fn lemma_replay_of_prefix(
    dealt: Seq<Seq<Card>>,
    a: Seq<CompletedTrick>,
    b: Seq<CompletedTrick>,
    k: int,
    m: int,
)
    requires
        agree_upto(a, b, k),
        m <= 4 * k,
    ensures
        hands_before(dealt, a, m) == hands_before(dealt, b, m),
        moves_held(dealt, a, m) == moves_held(dealt, b, m),
    decreases m,
{
    if m > 0 {
        lemma_replay_of_prefix(dealt, a, b, k, m - 1);
        let t = (m - 1) / 4;
        assert(0 <= t < k);
        assert(a[t].cards@ == b[t].cards@ && a[t].first_player_index == b[t].first_player_index);
    }
}

/// The play of one trick: where every seat holds the card that it plays
/// in the trick when the trick begins, the four moves of the trick are
/// held, and each takes the card out of the hand of its seat.
pub proof fn lemma_trick_replayed(dealt: Seq<Seq<Card>>, tricks: Seq<CompletedTrick>, t: int)
    requires
        0 <= t < tricks.len(),
        tricks[t].cards.len() == SEATS,
        tricks[t].first_player_index < SEATS,
        hands_before(dealt, tricks, 4 * t).len() == SEATS,
        moves_held(dealt, tricks, 4 * t),
        forall|p: int|
            0 <= p < SEATS ==> (#[trigger] hands_before(dealt, tricks, 4 * t)[p]).contains(
                tricks[t].cards[p],
            ),
    ensures
        moves_held(dealt, tricks, 4 * t + 4),
        hands_before(dealt, tricks, 4 * t + 4).len() == SEATS,
        forall|p: int|
            0 <= p < SEATS ==> #[trigger] hands_before(dealt, tricks, 4 * t + 4)[p] == hands_before(
                dealt,
                tricks,
                4 * t,
            )[p].remove_value(tricks[t].cards[p]),
{
    let trick = tricks[t];
    let first = trick.first_player_index as int;
    let h0 = hands_before(dealt, tricks, 4 * t);
    let h1 = hands_before(dealt, tricks, 4 * t + 1);
    let h2 = hands_before(dealt, tricks, 4 * t + 2);
    let h3 = hands_before(dealt, tricks, 4 * t + 3);
    let h4 = hands_before(dealt, tricks, 4 * t + 4);
    let s0 = first % 4;
    let s1 = (first + 1) % 4;
    let s2 = (first + 2) % 4;
    let s3 = (first + 3) % 4;
    assert((4 * t) / 4 == t && (4 * t) % 4 == 0);
    assert((4 * t + 1) / 4 == t && (4 * t + 1) % 4 == 1);
    assert((4 * t + 2) / 4 == t && (4 * t + 2) % 4 == 2);
    assert((4 * t + 3) / 4 == t && (4 * t + 3) % 4 == 3);
    assert(seat_of_move(tricks, 4 * t) == s0);
    assert(seat_of_move(tricks, 4 * t + 1) == s1);
    assert(seat_of_move(tricks, 4 * t + 2) == s2);
    assert(seat_of_move(tricks, 4 * t + 3) == s3);
    assert(h0[s0].contains(trick.cards[s0]));
    assert(h0[s1].contains(trick.cards[s1]));
    assert(h0[s2].contains(trick.cards[s2]));
    assert(h0[s3].contains(trick.cards[s3]));
    assert(h1 == h0.update(s0, h0[s0].remove_value(trick.cards[s0])));
    assert(h2 == h1.update(s1, h1[s1].remove_value(trick.cards[s1])));
    assert(h3 == h2.update(s2, h2[s2].remove_value(trick.cards[s2])));
    assert(h4 == h3.update(s3, h3[s3].remove_value(trick.cards[s3])));
    assert(moves_held(dealt, tricks, 4 * t + 1));
    assert(moves_held(dealt, tricks, 4 * t + 2));
    assert(moves_held(dealt, tricks, 4 * t + 3));
    assert(moves_held(dealt, tricks, 4 * t + 4));
    assert forall|p: int| 0 <= p < SEATS implies #[trigger] h4[p] == h0[p].remove_value(
        trick.cards[p],
    ) by {
        assert(p == s0 || p == s1 || p == s2 || p == s3);
    }
}

/// Taking out a card that lies once in a hand is taking it out where it
/// lies first.
pub proof fn lemma_single_removed(hand: Seq<Card>, card: Card)
    requires
        hand.to_multiset().count(card) == 1,
    ensures
        hand.filter(all_but(card)) == hand.remove_value(card),
    decreases hand.len(),
{
    broadcast use vstd::multiset::group_multiset_axioms;

    vstd::seq_lib::to_multiset_contains(hand, card);
    hand.index_of_first_ensures(card);
    let first = hand.index_of_first(card)->0;
    let last = hand.last();
    let rest = hand.drop_last();
    assert(rest.push(last) == hand);
    vstd::seq_lib::to_multiset_build(rest, last);
    rest.lemma_filter_push(last, all_but(card));
    if last == card {
        assert(rest.to_multiset().count(card) == 0);
        vstd::seq_lib::to_multiset_contains(rest, card);
        assert forall|i: int| 0 <= i < rest.len() implies all_but(card)(rest[i]) by {
            if rest[i] == card {
                assert(rest.contains(card));
            }
        }
        crate::rules::lemma_filter_all(rest, all_but(card));
        if first < hand.len() - 1 {
            assert(rest[first] == card);
            assert(rest.contains(card));
        }
        assert(hand.remove(first) == rest);
    } else {
        assert(rest.to_multiset().count(card) == 1);
        lemma_single_removed(rest, card);
        rest.index_of_first_ensures(card);
        let first_of_rest = rest.index_of_first(card)->0;
        assert(hand[first_of_rest] == card);
        if first < first_of_rest {
            assert(rest[first] == card);
        } else if first_of_rest < first {
            assert(hand[first_of_rest] != card);
        }
        assert(hand.remove(first) == rest.remove(first_of_rest).push(last));
    }
}

} // verus!
