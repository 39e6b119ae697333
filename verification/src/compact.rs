//! Cards and tricks in the compact form of the training examples.

use crate::card::Card;
use crate::trick::{CompletedTrick, Trick};
use vstd::prelude::*;

verus! {

/// A card as a pair of suit letter and rank.
#[derive(Debug, Clone, Copy, PartialEq, Eq, Structural)]
pub struct CompactCard(pub char, pub u8);

/// A trick in progress, in compact form.
#[derive(Debug)]
pub struct CompactTrick {
    pub cards: Vec<Option<CompactCard>>,
    pub first_player: usize,
}

/// A finished trick, in compact form.
#[derive(Debug)]
pub struct CompactCompletedTrick {
    pub cards: Vec<CompactCard>,
    pub winner: usize,
    pub points: u8,
    pub first_player: usize,
}

/// A training example: what a player saw when it was to play, and the card
/// that it played.
#[derive(Debug)]
pub struct CompactTrainingData {
    pub previous_tricks: Vec<CompactCompletedTrick>,
    pub current_trick: CompactTrick,
    pub current_player_index: usize,
    pub player_hand: Vec<CompactCard>,
    pub played_card: CompactCard,
}

pub open spec fn spec_compact(card: Card) -> CompactCard {
    CompactCard(card.suit, card.rank)
}

/// `slot` in compact form.
pub open spec fn compact_slot(slot: Option<Card>) -> Option<CompactCard> {
    match slot {
        Some(c) => Some(spec_compact(c)),
        None => None,
    }
}

/// `cards` in compact form.
pub open spec fn compact_cards(cards: Seq<Card>) -> Seq<CompactCard> {
    cards.map_values(|c: Card| spec_compact(c))
}

/// `slots` in compact form.
pub open spec fn compact_slots(slots: Seq<Option<Card>>) -> Seq<Option<CompactCard>> {
    slots.map_values(|s: Option<Card>| compact_slot(s))
}

/// `card` in compact form.
#[verifier::when_used_as_spec(spec_compact)]
pub fn compact(card: Card) -> (pair: CompactCard)
    ensures
        pair == spec_compact(card),
{
    CompactCard(card.suit, card.rank)
}

/// `cards` in compact form.
pub fn compact_hand(cards: &Vec<Card>) -> (pairs: Vec<CompactCard>)
    ensures
        pairs@ == compact_cards(cards@),
{
    let mut pairs: Vec<CompactCard> = Vec::new();
    let mut i: usize = 0;
    while i < cards.len()
        invariant
            i <= cards.len(),
            pairs.len() == i,
            forall|k: int| 0 <= k < i ==> pairs[k] == spec_compact(cards[k]),
        decreases cards.len() - i,
    {
        pairs.push(compact(cards[i]));
        i += 1;
    }
    assert(pairs@ =~= compact_cards(cards@));
    pairs
}

impl CompactTrick {
    /// The compact form of `trick`.
    pub open spec fn depicts(&self, trick: Trick) -> bool {
        &&& self.cards@ == compact_slots(trick.cards@)
        &&& self.first_player == trick.first_player_index
    }

    /// The compact form of `trick`.
    pub fn from_trick(trick: &Trick) -> (pairs: CompactTrick)
        ensures
            pairs.depicts(*trick),
    {
        let mut cards: Vec<Option<CompactCard>> = Vec::new();
        let mut i: usize = 0;
        while i < trick.cards.len()
            invariant
                i <= trick.cards.len(),
                cards.len() == i,
                forall|k: int| 0 <= k < i ==> cards[k] == compact_slot(trick.cards[k]),
            decreases trick.cards.len() - i,
        {
            let slot = match trick.cards[i] {
                Some(c) => Some(compact(c)),
                None => None,
            };
            cards.push(slot);
            i += 1;
        }
        assert(cards@ =~= compact_slots(trick.cards@));
        CompactTrick { cards, first_player: trick.first_player_index }
    }
}

impl CompactCompletedTrick {
    /// The compact form of `trick`.
    pub open spec fn depicts(&self, trick: CompletedTrick) -> bool {
        &&& self.cards@ == compact_cards(trick.cards@)
        &&& self.winner == trick.winner
        &&& self.points == trick.points
        &&& self.first_player == trick.first_player_index
    }

    /// The compact form of `trick`.
    pub fn from_trick(trick: &CompletedTrick) -> (pairs: CompactCompletedTrick)
        ensures
            pairs.depicts(*trick),
    {
        CompactCompletedTrick {
            cards: compact_hand(&trick.cards),
            winner: trick.winner,
            points: trick.points,
            first_player: trick.first_player_index,
        }
    }
}

impl Clone for CompactCompletedTrick {
    fn clone(&self) -> (copy: Self)
        ensures
            copy.cards@ == self.cards@,
            copy.winner == self.winner,
            copy.points == self.points,
            copy.first_player == self.first_player,
    {
        CompactCompletedTrick {
            cards: self.cards.clone(),
            winner: self.winner,
            points: self.points,
            first_player: self.first_player,
        }
    }
}

impl Clone for CompactTrick {
    fn clone(&self) -> (copy: Self)
        ensures
            copy.cards@ == self.cards@,
            copy.first_player == self.first_player,
    {
        CompactTrick { cards: self.cards.clone(), first_player: self.first_player }
    }
}

/// `pairs` are the compact forms of `tricks`, one by one.
pub open spec fn depict_tricks(pairs: Seq<CompactCompletedTrick>, tricks: Seq<CompletedTrick>) -> bool {
    &&& pairs.len() == tricks.len()
    &&& forall|i: int| 0 <= i < pairs.len() ==> (#[trigger] pairs[i]).depicts(tricks[i])
}

/// A copy of `pairs`.
pub fn copy_compact_tricks(
    pairs: &Vec<CompactCompletedTrick>,
    Ghost(tricks): Ghost<Seq<CompletedTrick>>,
) -> (copy: Vec<CompactCompletedTrick>)
    requires
        depict_tricks(pairs@, tricks),
    ensures
        depict_tricks(copy@, tricks),
{
    let mut copy: Vec<CompactCompletedTrick> = Vec::new();
    let mut i: usize = 0;
    while i < pairs.len()
        invariant
            i <= pairs.len(),
            copy.len() == i,
            depict_tricks(pairs@, tricks),
            forall|k: int| 0 <= k < i ==> (#[trigger] copy[k]).depicts(tricks[k]),
        decreases pairs.len() - i,
    {
        assert(pairs[i as int].depicts(tricks[i as int]));
        copy.push(pairs[i].clone());
        i += 1;
    }
    copy
}

impl Clone for CompactTrainingData {
    fn clone(&self) -> (copy: Self)
        ensures
            copy.current_trick.cards@ == self.current_trick.cards@,
            copy.current_trick.first_player == self.current_trick.first_player,
            copy.current_player_index == self.current_player_index,
            copy.player_hand@ == self.player_hand@,
            copy.played_card == self.played_card,
            copy.previous_tricks.len() == self.previous_tricks.len(),
    {
        let mut previous_tricks: Vec<CompactCompletedTrick> = Vec::new();
        let mut i: usize = 0;
        while i < self.previous_tricks.len()
            invariant
                i <= self.previous_tricks.len(),
                previous_tricks.len() == i,
            decreases self.previous_tricks.len() - i,
        {
            previous_tricks.push(self.previous_tricks[i].clone());
            i += 1;
        }
        CompactTrainingData {
            previous_tricks,
            current_trick: self.current_trick.clone(),
            current_player_index: self.current_player_index,
            player_hand: self.player_hand.clone(),
            played_card: self.played_card,
        }
    }
}

} // verus!
