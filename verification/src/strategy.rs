//! Decision policies: how a player picks one of its legal moves.

use crate::card::{contains_card, Card};
use crate::state::GameState;
use crate::tactical::{tactical_choice, MyStrategy};
use rand::seq::SliceRandom;
use vstd::prelude::*;

verus! {

/// A policy that picks a card among the legal moves. The state of the game
/// is handed to the policies that ask for it.
pub trait PlayingStrategy {
    fn choose_card(&self, valid_moves: &[Card], game_state: Option<GameState>) -> (card: Card)
        requires
            valid_moves.len() > 0,
            game_state matches Some(s) ==> s.countable(),
        ensures
            valid_moves@.contains(card),
    ;
}

/// `rand::seq::SliceRandom::choose` on `moves`, drawing from
/// `rand::thread_rng()`. It hands out nothing for an empty slice and
/// otherwise the card at an index that it draws below the length; which
/// one is left open.
#[verifier::external_body]
fn choose_at_random(moves: &[Card]) -> (pick: Option<Card>)
    ensures
        moves.len() == 0 ==> pick is None,
        moves.len() > 0 ==> pick is Some && moves@.contains(pick->0),
{
    moves.choose(&mut rand::thread_rng()).copied()
}

/// Picks uniformly at random.
#[derive(Debug, Clone, Copy)]
pub struct RandomStrategy;

impl PlayingStrategy for RandomStrategy {
    fn choose_card(&self, valid_moves: &[Card], _game_state: Option<GameState>) -> (card: Card) {
        match choose_at_random(valid_moves) {
            Some(card) => card,
            None => valid_moves[0],
        }
    }
}

/// The key by which a card is ranked when points are to be avoided or
/// sought: the rank, and 13 more for a penalty card.
pub open spec fn spec_penalty_key(card: Card) -> int {
    if card.spec_is_penalty() {
        card.rank + 13
    } else {
        card.rank as int
    }
}

/// The key of `card`: its rank, and 13 more for a penalty card.
pub fn penalty_key(card: Card) -> (key: u16)
    ensures
        key == spec_penalty_key(card),
{
    if card.is_penalty() {
        card.rank as u16 + 13
    } else {
        card.rank as u16
    }
}

/// `i` is the first place in `moves` where the key is lowest.
pub open spec fn is_first_lowest(moves: Seq<Card>, i: int) -> bool {
    &&& 0 <= i < moves.len()
    &&& forall|j: int|
        0 <= j < moves.len() ==> spec_penalty_key(moves[i]) <= spec_penalty_key(#[trigger] moves[j])
    &&& forall|j: int| 0 <= j < i ==> spec_penalty_key(moves[i]) < spec_penalty_key(#[trigger] moves[j])
}

/// `i` is the last place in `moves` where the key is highest.
pub open spec fn is_last_highest(moves: Seq<Card>, i: int) -> bool {
    &&& 0 <= i < moves.len()
    &&& forall|j: int|
        0 <= j < moves.len() ==> spec_penalty_key(#[trigger] moves[j]) <= spec_penalty_key(moves[i])
    &&& forall|j: int|
        i < j < moves.len() ==> spec_penalty_key(#[trigger] moves[j]) < spec_penalty_key(moves[i])
}

/// The card that avoids points: the first of the lowest key.
pub open spec fn avoid_points_choice(moves: Seq<Card>) -> Card {
    moves[choose|i: int| is_first_lowest(moves, i)]
}

/// The card that seeks points: the last of the highest key.
pub open spec fn aggressive_choice(moves: Seq<Card>) -> Card {
    moves[choose|i: int| is_last_highest(moves, i)]
}

/// The lowest key has one first place.
pub proof fn lemma_first_lowest_unique(moves: Seq<Card>, i: int, k: int)
    requires
        is_first_lowest(moves, i),
        is_first_lowest(moves, k),
    ensures
        i == k,
{
    if i < k {
        assert(spec_penalty_key(moves[k]) < spec_penalty_key(moves[i]));
    } else if k < i {
        assert(spec_penalty_key(moves[i]) < spec_penalty_key(moves[k]));
    }
}

/// The highest key has one last place.
pub proof fn lemma_last_highest_unique(moves: Seq<Card>, i: int, k: int)
    requires
        is_last_highest(moves, i),
        is_last_highest(moves, k),
    ensures
        i == k,
{
    if i < k {
        assert(spec_penalty_key(moves[k]) < spec_penalty_key(moves[i]));
    } else if k < i {
        assert(spec_penalty_key(moves[i]) < spec_penalty_key(moves[k]));
    }
}

/// Plays the card of the lowest key, so that any card without penalty goes
/// before any penalty card of no lower rank.
#[derive(Debug, Clone, Copy)]
pub struct AvoidPointsStrategy;

impl PlayingStrategy for AvoidPointsStrategy {
    fn choose_card(&self, valid_moves: &[Card], _game_state: Option<GameState>) -> (card: Card)
        ensures
            card == avoid_points_choice(valid_moves@),
    {
        let mut best: usize = 0;
        let mut i: usize = 1;
        while i < valid_moves.len()
            invariant
                1 <= i <= valid_moves.len(),
                best < i,
                forall|j: int|
                    0 <= j < i ==> spec_penalty_key(valid_moves[best as int]) <= spec_penalty_key(
                        #[trigger] valid_moves[j],
                    ),
                forall|j: int|
                    0 <= j < best ==> spec_penalty_key(valid_moves[best as int]) < spec_penalty_key(
                        #[trigger] valid_moves[j],
                    ),
            decreases valid_moves.len() - i,
        {
            if penalty_key(valid_moves[i]) < penalty_key(valid_moves[best]) {
                best = i;
            }
            i += 1;
        }
        proof {
            assert(is_first_lowest(valid_moves@, best as int));
            let k = choose|k: int| is_first_lowest(valid_moves@, k);
            lemma_first_lowest_unique(valid_moves@, best as int, k);
        }
        valid_moves[best]
    }
}

/// Plays the card of the highest key, so that any penalty card goes before
/// any card without penalty of no higher rank.
#[derive(Debug, Clone, Copy)]
pub struct AggressiveStrategy;

impl PlayingStrategy for AggressiveStrategy {
    fn choose_card(&self, valid_moves: &[Card], _game_state: Option<GameState>) -> (card: Card)
        ensures
            card == aggressive_choice(valid_moves@),
    {
        let mut best: usize = 0;
        let mut i: usize = 1;
        while i < valid_moves.len()
            invariant
                1 <= i <= valid_moves.len(),
                best < i,
                forall|j: int|
                    0 <= j < i ==> spec_penalty_key(#[trigger] valid_moves[j]) <= spec_penalty_key(
                        valid_moves[best as int],
                    ),
                forall|j: int|
                    best < j < i ==> spec_penalty_key(#[trigger] valid_moves[j]) < spec_penalty_key(
                        valid_moves[best as int],
                    ),
            decreases valid_moves.len() - i,
        {
            if penalty_key(valid_moves[i]) >= penalty_key(valid_moves[best]) {
                best = i;
            }
            i += 1;
        }
        proof {
            assert(is_last_highest(valid_moves@, best as int));
            let k = choose|k: int| is_last_highest(valid_moves@, k);
            lemma_last_highest_unique(valid_moves@, best as int, k);
        }
        valid_moves[best]
    }
}

/// The card that a remote predictor names.
#[derive(Debug, Clone, Copy, PartialEq, Eq, Structural)]
pub struct Prediction {
    pub suit: char,
    pub rank: u8,
}

/// What came back from a remote predictor.
#[derive(Debug, Clone, Copy, PartialEq, Eq, Structural)]
pub enum RemoteReply {
    /// An answer that names a card.
    Predicted(Prediction),
    /// The exchange failed.
    Unreachable,
    /// An answer that could not be read.
    Unparseable,
}

/// Why a remote decision cannot be played.
#[derive(Debug, Clone, Copy, PartialEq, Eq, Structural)]
pub enum StrategyError {
    /// The exchange with the predictor failed.
    Unreachable,
    /// The predictor's answer could not be read.
    Unparseable,
    /// The predictor named a card that is no legal move.
    IllegalPrediction,
    /// The player's policy asks no predictor.
    NotRemote,
}

/// What a reply of the predictor decides: the card it names, if that is a
/// legal move, and an error in every other case.
pub open spec fn remote_decision(moves: Seq<Card>, reply: RemoteReply) -> Result<Card, StrategyError> {
    match reply {
        RemoteReply::Predicted(p) => {
            let card = Card { suit: p.suit, rank: p.rank };
            if moves.contains(card) {
                Ok(card)
            } else {
                Err(StrategyError::IllegalPrediction)
            }
        },
        RemoteReply::Unreachable => Err(StrategyError::Unreachable),
        RemoteReply::Unparseable => Err(StrategyError::Unparseable),
    }
}

/// A policy that asks a remote predictor, reached at `endpoint`. The
/// exchange itself is the caller's; the policy decides on the reply.
#[derive(Debug)]
pub struct AIStrategy {
    pub endpoint: String,
}

impl Clone for AIStrategy {
    fn clone(&self) -> (copy: Self)
        ensures
            copy == *self,
    {
        AIStrategy { endpoint: self.endpoint.clone() }
    }
}

impl AIStrategy {
    /// The policy that asks the predictor at `endpoint`.
    pub fn new(endpoint: String) -> (strategy: AIStrategy)
        ensures
            strategy.endpoint == endpoint,
    {
        AIStrategy { endpoint }
    }

    /// The card to play on `reply`. A failed exchange, an unreadable answer
    /// and a card that is no legal move are errors: nothing is played in
    /// their place.
    pub fn choose_from_reply(&self, valid_moves: &[Card], reply: RemoteReply) -> (decision: Result<
        Card,
        StrategyError,
    >)
        ensures
            decision == remote_decision(valid_moves@, reply),
    {
        match reply {
            RemoteReply::Predicted(p) => {
                let card = Card::new(p.suit, p.rank);
                if contains_card(valid_moves, card) {
                    Ok(card)
                } else {
                    Err(StrategyError::IllegalPrediction)
                }
            },
            RemoteReply::Unreachable => Err(StrategyError::Unreachable),
            RemoteReply::Unparseable => Err(StrategyError::Unparseable),
        }
    }
}

/// The policy of a player.
#[derive(Debug)]
pub enum Strategy {
    Random(RandomStrategy),
    AvoidPoints(AvoidPointsStrategy),
    Aggressive(AggressiveStrategy),
    AI(AIStrategy),
    My(MyStrategy),
}

impl Clone for Strategy {
    fn clone(&self) -> (copy: Self)
        ensures
            copy == *self,
    {
        match self {
            Strategy::Random(_) => Strategy::Random(RandomStrategy),
            Strategy::AvoidPoints(_) => Strategy::AvoidPoints(AvoidPointsStrategy),
            Strategy::Aggressive(_) => Strategy::Aggressive(AggressiveStrategy),
            Strategy::AI(predictor) => Strategy::AI(predictor.clone()),
            Strategy::My(_) => Strategy::My(MyStrategy),
        }
    }
}

impl Strategy {
    pub open spec fn spec_needs_game_state(&self) -> bool {
        self is AI || self is My
    }

    /// Whether the decision is taken outside, by a remote predictor.
    pub open spec fn spec_is_remote(&self) -> bool {
        self is AI
    }

    /// What the policy may answer on `moves`: nothing for a remote
    /// predictor, any of the moves for the random policy, and for the
    /// others the one card that the policy names.
    pub open spec fn may_choose(
        &self,
        moves: Seq<Card>,
        game_state: Option<GameState>,
        choice: Option<Card>,
    ) -> bool {
        match self {
            Strategy::Random(_) => choice matches Some(c) && moves.contains(c),
            Strategy::AvoidPoints(_) => choice == Some(avoid_points_choice(moves)),
            Strategy::Aggressive(_) => choice == Some(aggressive_choice(moves)),
            Strategy::AI(_) => choice is None,
            Strategy::My(_) => choice == Some(
                match game_state {
                    Some(s) => tactical_choice(moves, s),
                    None => moves[0],
                },
            ),
        }
    }

    /// Whether the policy reads the state of the game.
    #[verifier::when_used_as_spec(spec_needs_game_state)]
    pub fn needs_game_state(&self) -> (needed: bool)
        ensures
            needed == self.spec_needs_game_state(),
    {
        match self {
            Strategy::Random(_) => false,
            Strategy::AvoidPoints(_) => false,
            Strategy::Aggressive(_) => false,
            Strategy::AI(_) => true,
            Strategy::My(_) => true,
        }
    }

    /// Whether the decision is taken outside, by a remote predictor.
    #[verifier::when_used_as_spec(spec_is_remote)]
    pub fn is_remote(&self) -> (remote: bool)
        ensures
            remote == self.spec_is_remote(),
    {
        match self {
            Strategy::AI(_) => true,
            _ => false,
        }
    }

    /// The card that the policy plays, or nothing where the decision is a
    /// remote predictor's: then the caller makes the exchange and hands the
    /// reply to `AIStrategy::choose_from_reply`.
    pub fn choose_card(&self, valid_moves: &[Card], game_state: Option<GameState>) -> (card: Option<
        Card,
    >)
        requires
            valid_moves.len() > 0,
            game_state matches Some(s) ==> s.countable(),
        ensures
            self.may_choose(valid_moves@, game_state, card),
            card is None <==> self.spec_is_remote(),
            card matches Some(c) ==> valid_moves@.contains(c),
    {
        match self {
            Strategy::Random(s) => Some(s.choose_card(valid_moves, game_state)),
            Strategy::AvoidPoints(s) => Some(s.choose_card(valid_moves, game_state)),
            Strategy::Aggressive(s) => Some(s.choose_card(valid_moves, game_state)),
            Strategy::AI(_) => None,
            Strategy::My(s) => Some(s.choose_card(valid_moves, game_state)),
        }
    }
}

} // verus!
