//! The result of a game in short, and the figures drawn from it.

use crate::record::CompletedHeartsGame;
use crate::trick::{copy_tricks, same_tricks, CompletedTrick};
use vstd::prelude::*;

verus! {

/// The result of a game: the tricks, the final score of every player by
/// name, and the name of the winner.
#[derive(Debug)]
pub struct GameResult {
    pub tricks: Vec<CompletedTrick>,
    pub final_scores: Vec<(String, u8)>,
    pub winner: String,
}

/// The figures of one game of a series.
#[derive(Debug)]
pub struct GameStats {
    pub game_id: usize,
    pub winner: String,
    pub scores: Vec<(String, u8)>,
    pub tricks: Vec<CompletedTrick>,
    pub total_points: u8,
}

/// The sum of `scores`.
pub open spec fn total_of(scores: Seq<(String, u8)>) -> nat
    decreases scores.len(),
{
    if scores.len() == 0 {
        0
    } else {
        total_of(scores.drop_last()) + scores.last().1 as nat
    }
}

/// The same names and scores, one by one.
pub open spec fn same_scores(a: Seq<(String, u8)>, b: Seq<(String, u8)>) -> bool {
    &&& a.len() == b.len()
    &&& forall|i: int| 0 <= i < a.len() ==> (#[trigger] a[i]).0@ == b[i].0@ && a[i].1 == b[i].1
}

/// The first scores add up to no more than all.
pub proof fn lemma_total_of_prefix(scores: Seq<(String, u8)>, n: int)
    requires
        0 <= n <= scores.len(),
    ensures
        total_of(scores.take(n)) <= total_of(scores),
    decreases scores.len() - n,
{
    if n < scores.len() {
        assert(scores.take(n + 1).drop_last() == scores.take(n));
        lemma_total_of_prefix(scores, n + 1);
    } else {
        assert(scores.take(n) == scores);
    }
}

/// A copy of `scores`.
pub fn copy_scores(scores: &Vec<(String, u8)>) -> (copy: Vec<(String, u8)>)
    ensures
        same_scores(copy@, scores@),
{
    let mut copy: Vec<(String, u8)> = Vec::new();
    let mut i: usize = 0;
    while i < scores.len()
        invariant
            i <= scores.len(),
            copy.len() == i,
            forall|k: int| 0 <= k < i ==> (#[trigger] copy[k]).0@ == scores[k].0@ && copy[k].1 == scores[k].1,
        decreases scores.len() - i,
    {
        copy.push((scores[i].0.clone(), scores[i].1));
        i += 1;
    }
    copy
}

impl GameResult {
    /// The result of the game that `record` holds: its tricks, the score
    /// of every player by name, and the name of its winner.
    pub fn from_completed_game(record: &CompletedHeartsGame) -> (result: GameResult)
        requires
            record.winner_index < record.players.len(),
        ensures
            same_tricks(result.tricks@, record.previous_tricks@),
            result.final_scores.len() == record.players.len(),
            forall|p: int|
                0 <= p < record.players.len() ==> (#[trigger] result.final_scores[p]).0@
                    == record.players[p].name@ && result.final_scores[p].1
                    == record.players[p].score,
            result.winner@ == record.players[record.winner_index as int].name@,
    {
        let mut final_scores: Vec<(String, u8)> = Vec::new();
        let mut p: usize = 0;
        while p < record.players.len()
            invariant
                p <= record.players.len(),
                final_scores.len() == p,
                forall|k: int|
                    0 <= k < p ==> (#[trigger] final_scores[k]).0@ == record.players[k].name@
                        && final_scores[k].1 == record.players[k].score,
            decreases record.players.len() - p,
        {
            final_scores.push((record.players[p].name.clone(), record.players[p].score));
            p += 1;
        }
        GameResult {
            tricks: copy_tricks(&record.previous_tricks),
            final_scores,
            winner: record.players[record.winner_index].name.clone(),
        }
    }
}

/// The figures of the game `game_id` with the result `result`: the winner,
/// the scores, the tricks, and the sum of the scores.
pub fn create_game_stats(game_id: usize, result: &GameResult) -> (stats: GameStats)
    requires
        total_of(result.final_scores@) <= u8::MAX,
    ensures
        stats.game_id == game_id,
        stats.winner@ == result.winner@,
        same_scores(stats.scores@, result.final_scores@),
        same_tricks(stats.tricks@, result.tricks@),
        stats.total_points == total_of(result.final_scores@),
{
    let mut total_points: u8 = 0;
    let mut i: usize = 0;
    assert(result.final_scores@.take(0) =~= Seq::<(String, u8)>::empty());
    while i < result.final_scores.len()
        invariant
            i <= result.final_scores.len(),
            total_points == total_of(result.final_scores@.take(i as int)),
            total_of(result.final_scores@) <= u8::MAX,
        decreases result.final_scores.len() - i,
    {
        proof {
            assert(result.final_scores@.take(i + 1).drop_last() == result.final_scores@.take(
                i as int,
            ));
            lemma_total_of_prefix(result.final_scores@, i + 1);
        }
        total_points = total_points + result.final_scores[i].1;
        i += 1;
    }
    assert(result.final_scores@.take(result.final_scores.len() as int) == result.final_scores@);
    GameStats {
        game_id,
        winner: result.winner.clone(),
        scores: copy_scores(&result.final_scores),
        tricks: copy_tricks(&result.tricks),
        total_points,
    }
}

} // verus!
