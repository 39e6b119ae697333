//! What a player sees of the game when it is to play.

use crate::card::{
    contains_card, count_in_suit, count_suit, lemma_count_suit_concat, of_suit, Card, QUEEN, SPADES,
};
use crate::trick::{
    cards_in_slots, copy_tricks, history_cards, lemma_history_prefix_len, same_tricks,
    CompletedTrick, Trick,
};
use vstd::prelude::*;

verus! {

/// The Queen of Spades.
pub open spec fn queen_of_spades() -> Card {
    Card { suit: SPADES, rank: QUEEN }
}

/// The visible state of a game for the player who is to play: the tricks
/// that are over, the trick in progress, the player's own hand and seat.
#[derive(Debug)]
pub struct GameState {
    pub previous_tricks: Vec<CompletedTrick>,
    pub current_trick: Trick,
    pub player_hand: Vec<Card>,
    pub current_player_index: usize,
}

impl Clone for GameState {
    fn clone(&self) -> (copy: Self)
        ensures
            copy.same_as(*self),
    {
        GameState {
            previous_tricks: copy_tricks(&self.previous_tricks),
            current_trick: self.current_trick.clone(),
            player_hand: self.player_hand.clone(),
            current_player_index: self.current_player_index,
        }
    }
}

impl GameState {
    /// The two states show the same tricks, hand and seat.
    pub open spec fn same_as(&self, other: GameState) -> bool {
        &&& same_tricks(self.previous_tricks@, other.previous_tricks@)
        &&& self.current_trick.same_as(other.current_trick)
        &&& self.player_hand@ == other.player_hand@
        &&& self.current_player_index == other.current_player_index
    }

    /// Every card that the player has seen: its hand, the tricks that are
    /// over and the trick in progress.
    pub open spec fn seen_cards(&self) -> Seq<Card> {
        self.player_hand@ + history_cards(self.previous_tricks@) + self.current_trick.played_cards()
    }

    /// The seen cards can be counted in a machine word.
    pub open spec fn countable(&self) -> bool {
        self.seen_cards().len() <= usize::MAX
    }

    /// How many cards of `suit` the player has seen.
    pub open spec fn spec_seen_in_suit(&self, suit: char) -> nat {
        count_suit(self.seen_cards(), suit)
    }

    pub open spec fn spec_queen_of_spades_seen(&self) -> bool {
        history_cards(self.previous_tricks@).contains(queen_of_spades())
    }

    /// How many cards of `suit` the player has seen.
    pub fn seen_in_suit(&self, suit: char) -> (n: usize)
        requires
            self.countable(),
        ensures
            n == self.spec_seen_in_suit(suit),
    {
        let ghost history = history_cards(self.previous_tricks@);
        let ghost played = self.current_trick.played_cards();
        let in_hand = count_in_suit(self.player_hand.as_slice(), suit);
        let mut in_history: usize = 0;
        let mut i: usize = 0;
        assert(self.previous_tricks@.take(0) =~= Seq::<CompletedTrick>::empty());
        while i < self.previous_tricks.len()
            invariant
                i <= self.previous_tricks.len(),
                history == history_cards(self.previous_tricks@),
                history.len() <= usize::MAX,
                in_history == count_suit(history_cards(self.previous_tricks@.take(i as int)), suit),
                in_history <= history_cards(self.previous_tricks@.take(i as int)).len(),
            decreases self.previous_tricks.len() - i,
        {
            let in_trick = count_in_suit(self.previous_tricks[i].cards.as_slice(), suit);
            proof {
                let before = self.previous_tricks@.take(i as int);
                let after = self.previous_tricks@.take(i + 1);
                assert(after.drop_last() == before);
                assert(after.last() == self.previous_tricks[i as int]);
                lemma_count_suit_concat(
                    history_cards(before),
                    self.previous_tricks[i as int].cards@,
                    suit,
                );
                lemma_history_prefix_len(self.previous_tricks@, i + 1);
            }
            in_history = in_history + in_trick;
            i += 1;
        }
        assert(self.previous_tricks@.take(self.previous_tricks.len() as int)
            == self.previous_tricks@);
        let mut in_trick: usize = 0;
        let mut k: usize = 0;
        assert(self.current_trick.cards@.take(0) =~= Seq::<Option<Card>>::empty());
        while k < self.current_trick.cards.len()
            invariant
                k <= self.current_trick.cards.len(),
                in_trick == count_suit(cards_in_slots(self.current_trick.cards@.take(k as int)), suit),
                in_trick <= k,
            decreases self.current_trick.cards.len() - k,
        {
            proof {
                let before = self.current_trick.cards@.take(k as int);
                let after = self.current_trick.cards@.take(k + 1);
                assert(after.drop_last() == before);
                assert(after.last() == self.current_trick.cards[k as int]);
                if let Some(c) = self.current_trick.cards[k as int] {
                    cards_in_slots(before).lemma_filter_push(c, of_suit(suit));
                }
            }
            match self.current_trick.cards[k] {
                Some(c) => {
                    if c.suit == suit {
                        in_trick += 1;
                    }
                },
                None => {},
            }
            k += 1;
        }
        proof {
            assert(self.current_trick.cards@.take(self.current_trick.cards.len() as int)
                == self.current_trick.cards@);
            lemma_count_suit_concat(self.player_hand@, history, suit);
            lemma_count_suit_concat(self.player_hand@ + history, played, suit);
            lemma_count_suit_concat(played, Seq::empty(), suit);
        }
        in_hand + in_history + in_trick
    }

    /// Whether the Queen of Spades lies in a trick that is over.
    #[verifier::when_used_as_spec(spec_queen_of_spades_seen)]
    pub fn queen_of_spades_seen(&self) -> (seen: bool)
        ensures
            seen == self.spec_queen_of_spades_seen(),
    {
        let queen = Card::new(SPADES, QUEEN);
        let mut i: usize = 0;
        assert(self.previous_tricks@.take(0) =~= Seq::<CompletedTrick>::empty());
        while i < self.previous_tricks.len()
            invariant
                i <= self.previous_tricks.len(),
                queen == queen_of_spades(),
                !history_cards(self.previous_tricks@.take(i as int)).contains(queen),
            decreases self.previous_tricks.len() - i,
        {
            let ghost before = self.previous_tricks@.take(i as int);
            let ghost after = self.previous_tricks@.take(i + 1);
            proof {
                assert(after.drop_last() == before);
                assert(after.last() == self.previous_tricks[i as int]);
                vstd::seq_lib::lemma_seq_concat_contains_all_elements(
                    history_cards(before),
                    self.previous_tricks[i as int].cards@,
                    queen,
                );
            }
            if contains_card(self.previous_tricks[i].cards.as_slice(), queen) {
                proof {
                    lemma_history_contains(self.previous_tricks@, i as int, queen);
                }
                return true;
            }
            i += 1;
        }
        assert(self.previous_tricks@.take(self.previous_tricks.len() as int)
            == self.previous_tricks@);
        false
    }
}

/// A card of one of the tricks is a card of the history.
pub proof fn lemma_history_contains(tricks: Seq<CompletedTrick>, i: int, card: Card)
    requires
        0 <= i < tricks.len(),
        tricks[i].cards@.contains(card),
    ensures
        history_cards(tricks).contains(card),
    decreases tricks.len(),
{
    vstd::seq_lib::lemma_seq_concat_contains_all_elements(
        history_cards(tricks.drop_last()),
        tricks.last().cards@,
        card,
    );
    if i < tricks.len() - 1 {
        lemma_history_contains(tricks.drop_last(), i, card);
    }
}

} // verus!
