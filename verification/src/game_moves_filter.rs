//! Which moves of a finished game are worth learning from.

use crate::player::PlayerInfo;
use crate::record::CompletedHeartsGame;
use crate::trick::CompletedTrick;
use vstd::prelude::*;

verus! {

/// The scores of `players`, seat by seat.
pub open spec fn scores_of(players: Seq<PlayerInfo>) -> Seq<u8> {
    players.map_values(|p: PlayerInfo| p.score)
}

/// The lowest and the second lowest of `scores`, counted with repetition:
/// of two equal lowest scores the second lowest is that score again. With
/// fewer scores than two, 256 stands for what is missing.
pub open spec fn lowest_two(scores: Seq<u8>) -> (int, int)
    decreases scores.len(),
{
    if scores.len() == 0 {
        (256, 256)
    } else {
        let (lowest, second) = lowest_two(scores.drop_last());
        let score = scores.last() as int;
        if score < lowest {
            (score, lowest)
        } else if score < second {
            (lowest, score)
        } else {
            (lowest, second)
        }
    }
}

/// A score is good if it is among the better-scoring half: no higher
/// than the second lowest score.
pub open spec fn is_good_score(scores: Seq<u8>, score: int) -> bool {
    score <= lowest_two(scores).1
}

/// The seats with a good score, as a predicate.
pub open spec fn has_good_score(scores: Seq<u8>) -> spec_fn(usize) -> bool {
    |seat: usize| 0 <= seat < scores.len() && is_good_score(scores, scores[seat as int] as int)
}

/// The seats, in their order.
pub open spec fn seats(n: nat) -> Seq<usize> {
    Seq::new(n, |i: int| i as usize)
}

/// The seats with a good score, in the order of the seats.
pub open spec fn good_seats(scores: Seq<u8>) -> Seq<usize> {
    seats(scores.len()).filter(has_good_score(scores))
}

/// Seats `a` and `b` hold the two lowest scores: no seat scores below
/// `a`, and no other seat below `b`.
pub open spec fn hold_lowest_two(scores: Seq<u8>, a: int, b: int) -> bool {
    &&& 0 <= a < scores.len()
    &&& 0 <= b < scores.len()
    &&& a != b
    &&& scores[a] == lowest_two(scores).0
    &&& scores[b] == lowest_two(scores).1
    &&& forall|i: int| 0 <= i < scores.len() ==> scores[a] <= scores[i]
    &&& forall|i: int| 0 <= i < scores.len() && i != a ==> scores[b] <= scores[i]
}

/// The two lowest scores are the scores of two seats, and no seat scores
/// below them.
pub proof fn lemma_lowest_two(scores: Seq<u8>) -> (seats: (int, int))
    requires
        scores.len() >= 2,
    ensures
        hold_lowest_two(scores, seats.0, seats.1),
    decreases scores.len(),
{
    let rest = scores.drop_last();
    let n = scores.len() - 1;
    if scores.len() == 2 {
        assert(rest.drop_last().len() == 0);
        assert(lowest_two(rest.drop_last()) == (256int, 256int));
        assert(rest.last() == scores[0]);
        assert(lowest_two(rest) == (scores[0] as int, 256int));
        if scores[1] < scores[0] {
            (1, 0)
        } else {
            (0, 1)
        }
    } else {
        let (a, b) = lemma_lowest_two(rest);
        assert(rest[a] == scores[a] && rest[b] == scores[b]);
        assert forall|i: int| 0 <= i < rest.len() implies scores[a] <= scores[i] by {
            assert(rest[i] == scores[i]);
        }
        assert forall|i: int| 0 <= i < rest.len() && i != a implies scores[b] <= scores[i] by {
            assert(rest[i] == scores[i]);
        }
        if scores[n] < rest[a] {
            (n, a)
        } else if scores[n] < rest[b] {
            (a, n)
        } else {
            (a, b)
        }
    }
}

/// The players of one finished game whose moves are worth learning from:
/// those with a good score.
#[derive(Debug)]
pub struct GameMovesFilter {
    good_players: Vec<usize>,
}

impl View for GameMovesFilter {
    type V = Seq<usize>;

    closed spec fn view(&self) -> Seq<usize> {
        self.good_players@
    }
}

impl GameMovesFilter {
    /// The filter of `completed_game`: its good players are the seats of
    /// the better-scoring half, whose score is no higher than the second
    /// lowest score.
    pub fn new(completed_game: &CompletedHeartsGame) -> (filter: GameMovesFilter)
        requires
            completed_game.players.len() >= 2,
        ensures
            filter@ == good_seats(scores_of(completed_game.players@)),
    {
        let players = &completed_game.players;
        let ghost scores = scores_of(players@);
        let mut lowest: u16 = 256;
        let mut second: u16 = 256;
        let mut i: usize = 0;
        assert(scores.take(0) =~= Seq::<u8>::empty());
        while i < players.len()
            invariant
                i <= players.len(),
                scores == scores_of(players@),
                lowest_two(scores.take(i as int)) == (lowest as int, second as int),
                i >= 1 ==> lowest <= second && lowest < 256,
                i >= 2 ==> second < 256,
                lowest <= 256,
                second <= 256,
            decreases players.len() - i,
        {
            assert(scores.take(i + 1).drop_last() == scores.take(i as int));
            let score = players[i].score as u16;
            if score < lowest {
                second = lowest;
                lowest = score;
            } else if score < second {
                second = score;
            }
            i += 1;
        }
        assert(scores.take(players.len() as int) == scores);
        let mut good_players: Vec<usize> = Vec::new();
        let mut seat: usize = 0;
        assert(seats(scores.len()).take(0) =~= Seq::<usize>::empty());
        while seat < players.len()
            invariant
                seat <= players.len(),
                scores == scores_of(players@),
                lowest_two(scores) == (lowest as int, second as int),
                lowest <= second < 256,
                good_players@ == seats(scores.len()).take(seat as int).filter(has_good_score(scores)),
            decreases players.len() - seat,
        {
            proof {
                let all = seats(scores.len());
                assert(all.take(seat + 1) == all.take(seat as int).push(seat));
                all.take(seat as int).lemma_filter_push(seat, has_good_score(scores));
            }
            let score = players[seat].score as u16;
            if score <= second {
                good_players.push(seat);
            }
            seat += 1;
        }
        assert(seats(scores.len()).take(players.len() as int) == seats(scores.len()));
        GameMovesFilter { good_players }
    }

    /// The good players, in the order of the seats.
    pub fn good_players(&self) -> (seats: &Vec<usize>)
        ensures
            seats@ == self@,
    {
        &self.good_players
    }

    pub open spec fn spec_filter(&self, player_index: usize, trick: &CompletedTrick) -> bool {
        self@.contains(player_index) && !(trick.winner == player_index && trick.points > 0)
    }

    /// Whether the card that `player_index` played in `trick` is worth
    /// learning from: the player is a good player and did not both win the
    /// trick and take penalty points in it.
    #[verifier::when_used_as_spec(spec_filter)]
    pub fn filter(&self, player_index: usize, trick: &CompletedTrick) -> (keep: bool)
        ensures
            keep == self.spec_filter(player_index, trick),
    {
        let mut good = false;
        let mut i: usize = 0;
        while i < self.good_players.len()
            invariant
                i <= self.good_players.len(),
                good == exists|k: int| 0 <= k < i && self.good_players[k] == player_index,
            decreases self.good_players.len() - i,
        {
            if self.good_players[i] == player_index {
                good = true;
            }
            i += 1;
        }
        good && !(trick.winner == player_index && trick.points > 0)
    }
}

} // verus!
