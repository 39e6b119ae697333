//! The players of a game and what is kept of them afterwards.

use crate::card::Card;
use crate::state::GameState;
use crate::strategy::{remote_decision, RemoteReply, Strategy, StrategyError};
use vstd::prelude::*;

verus! {

/// What is kept of a player when the game is over.
#[derive(Debug)]
pub struct PlayerInfo {
    pub name: String,
    pub initial_hand: Vec<Card>,
    pub score: u8,
    pub strategy: String,
}

impl PlayerInfo {
    /// The two records hold the same name, hand, score and policy.
    pub open spec fn same_as(&self, other: PlayerInfo) -> bool {
        &&& self.name@ == other.name@
        &&& self.initial_hand@ == other.initial_hand@
        &&& self.score == other.score
        &&& self.strategy@ == other.strategy@
    }
}

impl Clone for PlayerInfo {
    fn clone(&self) -> (copy: Self)
        ensures
            copy.same_as(*self),
    {
        PlayerInfo {
            name: self.name.clone(),
            initial_hand: self.initial_hand.clone(),
            score: self.score,
            strategy: self.strategy.clone(),
        }
    }
}

/// Every card but `card`, as a predicate.
pub open spec fn all_but(card: Card) -> spec_fn(Card) -> bool {
    |c: Card| c != card
}

/// Taking out a card that lies once in the hand leaves one card less.
pub proof fn lemma_remove_single(hand: Seq<Card>, card: Card)
    requires
        hand.to_multiset().count(card) == 1,
    ensures
        hand.filter(all_but(card)).to_multiset() == hand.to_multiset().remove(card),
        hand.filter(all_but(card)).len() == hand.len() - 1,
{
    lemma_remove_counted(hand, card);
    assert(hand.filter(all_but(card)).to_multiset() =~= hand.to_multiset().remove(card));
}

/// Taking a card out of a hand takes all its copies and nothing else.
pub proof fn lemma_remove_counted(hand: Seq<Card>, card: Card)
    ensures
        hand.filter(all_but(card)).len() == hand.len() - hand.to_multiset().count(card),
        forall|c: Card|
            hand.filter(all_but(card)).to_multiset().count(c) == (if c == card {
                0
            } else {
                hand.to_multiset().count(c)
            }),
    decreases hand.len(),
{
    broadcast use vstd::multiset::group_multiset_axioms;

    if hand.len() == 0 {
        assert(hand.filter(all_but(card)) =~= Seq::<Card>::empty());
        assert forall|c: Card|
            hand.to_multiset().count(c) == 0 && hand.filter(all_but(card)).to_multiset().count(c)
                == 0 by {
            vstd::seq_lib::to_multiset_contains(hand, c);
            vstd::seq_lib::to_multiset_contains(hand.filter(all_but(card)), c);
        }
    } else {
        let rest = hand.drop_last();
        let x = hand.last();
        assert(rest.push(x) == hand);
        lemma_remove_counted(rest, card);
        rest.lemma_filter_push(x, all_but(card));
        vstd::seq_lib::to_multiset_build(rest, x);
        vstd::seq_lib::to_multiset_build(rest.filter(all_but(card)), x);
    }
}

/// Takes `card` out of `hand`, wherever it lies.
pub fn remove_card(hand: &mut Vec<Card>, card: Card)
    ensures
        final(hand)@ == old(hand)@.filter(all_but(card)),
{
    let mut kept: Vec<Card> = Vec::new();
    let mut i: usize = 0;
    assert(hand@.take(0) =~= Seq::<Card>::empty());
    while i < hand.len()
        invariant
            i <= hand.len(),
            hand@ == old(hand)@,
            kept@ == hand@.take(i as int).filter(all_but(card)),
        decreases hand.len() - i,
    {
        proof {
            assert(hand@.take(i + 1) == hand@.take(i as int).push(hand[i as int]));
            hand@.take(i as int).lemma_filter_push(hand[i as int], all_but(card));
        }
        if hand[i] != card {
            kept.push(hand[i]);
        }
        i += 1;
    }
    assert(hand@.take(hand.len() as int) == hand@);
    *hand = kept;
}

/// A player: its name, the hand it was dealt, the hand it holds, the points
/// it has taken and its policy.
#[derive(Debug)]
pub struct Player {
    pub name: String,
    pub initial_hand: Vec<Card>,
    pub hand: Vec<Card>,
    pub score: u8,
    pub strategy: Strategy,
}

impl Clone for Player {
    fn clone(&self) -> (copy: Self)
        ensures
            copy.name@ == self.name@,
            copy.initial_hand@ == self.initial_hand@,
            copy.hand@ == self.hand@,
            copy.score == self.score,
            copy.strategy == self.strategy,
    {
        Player {
            name: self.name.clone(),
            initial_hand: self.initial_hand.clone(),
            hand: self.hand.clone(),
            score: self.score,
            strategy: self.strategy.clone(),
        }
    }
}

impl Player {
    /// A player with no points who holds the hand it was dealt.
    pub fn new(name: &str, hand: Vec<Card>, strategy: Strategy) -> (player: Player)
        ensures
            player.name@ == name@,
            player.initial_hand@ == hand@,
            player.hand@ == hand@,
            player.score == 0,
            player.strategy == strategy,
    {
        Player { name: name.to_owned(), initial_hand: hand.clone(), hand, score: 0, strategy }
    }

    /// The hand and the points after the player has parted with `card`.
    pub open spec fn parted_with(&self, before: Player, card: Card) -> bool {
        &&& self.hand@ == before.hand@.filter(all_but(card))
        &&& self.initial_hand@ == before.initial_hand@
        &&& self.score == before.score
        &&& self.name == before.name
        &&& self.strategy == before.strategy
    }

    /// Takes `card` out of the hand.
    pub fn discard(&mut self, card: Card)
        ensures
            final(self).parted_with(*old(self), card),
    {
        remove_card(&mut self.hand, card);
    }

    /// Lets the policy choose among `valid_moves` and takes the chosen card
    /// out of the hand. A player whose policy is a remote predictor's
    /// chooses nothing and keeps its hand.
    pub fn play_card(&mut self, valid_moves: &[Card], game_state: Option<GameState>) -> (chosen:
        Option<Card>)
        requires
            valid_moves.len() > 0,
            game_state matches Some(s) ==> s.countable(),
        ensures
            old(self).strategy.may_choose(valid_moves@, game_state, chosen),
            chosen matches Some(card) ==> valid_moves@.contains(card) && final(self).parted_with(
                *old(self),
                card,
            ),
            chosen is None ==> *final(self) == *old(self),
    {
        let chosen = self.strategy.choose_card(valid_moves, game_state);
        match chosen {
            Some(card) => {
                self.discard(card);
            },
            None => {},
        }
        chosen
    }

    /// Decides on the reply of the remote predictor and takes the card that
    /// it names out of the hand. An error leaves the player as it was.
    pub fn play_reply(&mut self, valid_moves: &[Card], reply: RemoteReply) -> (decision: Result<
        Card,
        StrategyError,
    >)
        ensures
            decision == (if old(self).strategy.spec_is_remote() {
                remote_decision(valid_moves@, reply)
            } else {
                Err(StrategyError::NotRemote)
            }),
            decision matches Ok(card) ==> final(self).parted_with(*old(self), card),
            decision is Err ==> *final(self) == *old(self),
    {
        let decision = match &self.strategy {
            Strategy::AI(predictor) => predictor.choose_from_reply(valid_moves, reply),
            _ => Err(StrategyError::NotRemote),
        };
        match decision {
            Ok(card) => {
                self.discard(card);
            },
            Err(_) => {},
        }
        decision
    }

    pub open spec fn spec_strategy_name(&self) -> &'static str {
        match self.strategy {
            Strategy::Random(_) => "Random",
            Strategy::AvoidPoints(_) => "Avoid Points",
            Strategy::Aggressive(_) => "Aggressive",
            Strategy::AI(_) => "AI",
            Strategy::My(_) => "My Strategy",
        }
    }

    /// The name of the player's policy.
    #[verifier::when_used_as_spec(spec_strategy_name)]
    pub fn strategy_name(&self) -> (name: &'static str)
        ensures
            name == self.spec_strategy_name(),
    {
        match self.strategy {
            Strategy::Random(_) => "Random",
            Strategy::AvoidPoints(_) => "Avoid Points",
            Strategy::Aggressive(_) => "Aggressive",
            Strategy::AI(_) => "AI",
            Strategy::My(_) => "My Strategy",
        }
    }
}

} // verus!
