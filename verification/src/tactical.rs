//! The rule-based policy: a handful of rules of thumb on what has been seen.

use crate::card::{
    card_order, contains_card, count_suit, lemma_sorted_cards_same, of_suit, sort_cards,
    sorted_cards, Card, CLUBS, DIAMONDS, HEARTS, QUEEN, SPADES,
};
use crate::state::{queen_of_spades, GameState};
use crate::strategy::PlayingStrategy;
use crate::trick::{carries_points, points_of};
use vstd::prelude::*;

verus! {

/// The Two of Clubs.
pub open spec fn two_of_clubs() -> Card {
    Card { suit: CLUBS, rank: 2 }
}

/// The cards of `suit` among `cards`, lowest rank first.
pub open spec fn suit_run(cards: Seq<Card>, suit: char) -> Seq<Card> {
    sorted_cards(cards.filter(of_suit(suit)))
}

/// The cards that rank below `rank`, as a predicate.
pub open spec fn below(rank: u8) -> spec_fn(Card) -> bool {
    |c: Card| c.rank < rank
}

/// The lowest card of `suit` among `cards`.
pub open spec fn lowest_of_suit(cards: Seq<Card>, suit: char) -> Option<Card> {
    let run = suit_run(cards, suit);
    if run.len() > 0 {
        Some(run.first())
    } else {
        None
    }
}

/// The highest card of `suit` among `cards`.
pub open spec fn highest_of_suit(cards: Seq<Card>, suit: char) -> Option<Card> {
    let run = suit_run(cards, suit);
    if run.len() > 0 {
        Some(run.last())
    } else {
        None
    }
}

/// The highest card of `suit` among `cards` that ranks below `rank`.
pub open spec fn highest_below(cards: Seq<Card>, suit: char, rank: u8) -> Option<Card> {
    let low = suit_run(cards, suit).filter(below(rank));
    if low.len() > 0 {
        Some(low.last())
    } else {
        None
    }
}

/// The run of a suit holds the cards of that suit among `cards`, as many
/// as there are, by ascending rank.
pub proof fn lemma_suit_run(cards: Seq<Card>, suit: char)
    ensures
        forall|c: Card|
            #[trigger] suit_run(cards, suit).contains(c) <==> (cards.contains(c) && c.suit == suit),
        forall|i: int, j: int|
            0 <= i <= j < suit_run(cards, suit).len() ==> suit_run(cards, suit)[i].rank
                <= suit_run(cards, suit)[j].rank,
        forall|i: int| 0 <= i < suit_run(cards, suit).len() ==> suit_run(cards, suit)[i].suit == suit,
        suit_run(cards, suit).len() == count_suit(cards, suit),
{
    let kept = cards.filter(of_suit(suit));
    let run = suit_run(cards, suit);
    lemma_sorted_cards_same(kept);
    assert forall|c: Card| #[trigger] run.contains(c) <==> (cards.contains(c) && c.suit == suit) by {
        vstd::seq_lib::to_multiset_contains(run, c);
        vstd::seq_lib::to_multiset_contains(kept, c);
        if kept.contains(c) {
            cards.lemma_filter_contains_rev(of_suit(suit), c);
            let k = choose|k: int| 0 <= k < kept.len() && kept[k] == c;
            cards.lemma_filter_pred(of_suit(suit), k);
        }
        if cards.contains(c) && c.suit == suit {
            let k = choose|k: int| 0 <= k < cards.len() && cards[k] == c;
            cards.lemma_filter_contains(of_suit(suit), k);
        }
    }
    assert forall|i: int| 0 <= i < run.len() implies run[i].suit == suit by {
        assert(run.contains(run[i]));
    }
    assert forall|i: int, j: int| 0 <= i <= j < run.len() implies run[i].rank <= run[j].rank by {
        assert(run.contains(run[i]));
        assert(run.contains(run[j]));
        if i < j {
            assert(card_order()(run[i], run[j]));
        }
    }
}

/// The lowest and the highest card of a suit are cards of that suit among
/// `cards`, and no card of the suit ranks below the one or above the
/// other; there is neither where `cards` hold no card of the suit.
pub proof fn lemma_extremes_of_suit(cards: Seq<Card>, suit: char)
    ensures
        match lowest_of_suit(cards, suit) {
            Some(low) => cards.contains(low) && low.suit == suit && forall|i: int|
                0 <= i < cards.len() && cards[i].suit == suit ==> low.rank <= cards[i].rank,
            None => forall|i: int| 0 <= i < cards.len() ==> cards[i].suit != suit,
        },
        match highest_of_suit(cards, suit) {
            Some(high) => cards.contains(high) && high.suit == suit && forall|i: int|
                0 <= i < cards.len() && cards[i].suit == suit ==> cards[i].rank <= high.rank,
            None => forall|i: int| 0 <= i < cards.len() ==> cards[i].suit != suit,
        },
        lowest_of_suit(cards, suit) is Some <==> highest_of_suit(cards, suit) is Some,
{
    let run = suit_run(cards, suit);
    lemma_suit_run(cards, suit);
    if run.len() > 0 {
        assert(run.contains(run.first()));
        assert(run.contains(run.last()));
        assert forall|i: int| 0 <= i < cards.len() && cards[i].suit == suit implies run.first().rank
            <= cards[i].rank && cards[i].rank <= run.last().rank by {
            assert(cards.contains(cards[i]));
            assert(run.contains(cards[i]));
            let k = choose|k: int| 0 <= k < run.len() && run[k] == cards[i];
            assert(run[0].rank <= run[k].rank);
            assert(run[k].rank <= run[run.len() - 1].rank);
        }
    } else {
        assert forall|i: int| 0 <= i < cards.len() implies cards[i].suit != suit by {
            if cards[i].suit == suit {
                assert(cards.contains(cards[i]));
                assert(run.contains(cards[i]));
            }
        }
    }
}

/// The highest card of a suit below a rank is a card of that suit among
/// `cards` that ranks below it, and no such card ranks above it; there is
/// none where `cards` hold no such card.
pub proof fn lemma_highest_below(cards: Seq<Card>, suit: char, rank: u8)
    ensures
        match highest_below(cards, suit, rank) {
            Some(c) => cards.contains(c) && c.suit == suit && c.rank < rank && forall|i: int|
                0 <= i < cards.len() && cards[i].suit == suit && cards[i].rank < rank
                    ==> cards[i].rank <= c.rank,
            None => forall|i: int|
                0 <= i < cards.len() && cards[i].suit == suit ==> cards[i].rank >= rank,
        },
{
    let run = suit_run(cards, suit);
    let low = run.filter(below(rank));
    lemma_suit_run(cards, suit);
    assert forall|i: int| 0 <= i < cards.len() && cards[i].suit == suit && cards[i].rank
        < rank implies low.contains(cards[i]) by {
        assert(cards.contains(cards[i]));
        assert(run.contains(cards[i]));
        let k = choose|k: int| 0 <= k < run.len() && run[k] == cards[i];
        run.lemma_filter_contains(below(rank), k);
    }
    if low.len() > 0 {
        let c = low.last();
        assert(low.contains(c));
        run.lemma_filter_contains_rev(below(rank), c);
        run.lemma_filter_pred(below(rank), low.len() - 1);
        assert(run.contains(c));
        lemma_filter_keeps_order(run, rank);
        assert forall|i: int| 0 <= i < cards.len() && cards[i].suit == suit && cards[i].rank
            < rank implies cards[i].rank <= c.rank by {
            assert(low.contains(cards[i]));
            let k = choose|k: int| 0 <= k < low.len() && low[k] == cards[i];
            assert(low[k].rank <= low[low.len() - 1].rank);
        }
    } else {
        assert forall|i: int| 0 <= i < cards.len() && cards[i].suit == suit implies cards[i].rank
            >= rank by {
            if cards[i].rank < rank {
                assert(low.contains(cards[i]));
            }
        }
    }
}

/// Of cards by ascending rank those below a rank are by ascending rank.
pub proof fn lemma_filter_keeps_order(run: Seq<Card>, rank: u8)
    requires
        forall|i: int, j: int| 0 <= i <= j < run.len() ==> run[i].rank <= run[j].rank,
    ensures
        forall|i: int, j: int|
            0 <= i <= j < run.filter(below(rank)).len() ==> run.filter(below(rank))[i].rank
                <= run.filter(below(rank))[j].rank,
    decreases run.len(),
{
    reveal(Seq::filter);
    if run.len() > 0 {
        let rest = run.drop_last();
        lemma_filter_keeps_order(rest, rank);
        let low = run.filter(below(rank));
        let low_rest = rest.filter(below(rank));
        assert forall|i: int, j: int| 0 <= i <= j < low.len() implies low[i].rank <= low[j].rank by {
            if j == low_rest.len() {
                if i < j {
                    assert(low_rest.contains(low_rest[i]));
                    rest.lemma_filter_contains_rev(below(rank), low_rest[i]);
                    let k = choose|k: int| 0 <= k < rest.len() && rest[k] == low_rest[i];
                    assert(run[k].rank <= run[run.len() - 1].rank);
                }
            }
        }
    }
}

/// A suit that the policy keeps away from: Hearts, and Spades as long as
/// the Queen of Spades lies in no trick that is over.
pub open spec fn shunned(state: GameState, suit: char) -> bool {
    suit == HEARTS || (suit == SPADES && !state.spec_queen_of_spades_seen())
}

/// A suit that may be led: some card of it has been seen and it is not
/// shunned.
pub open spec fn may_lead(state: GameState, suit: char) -> bool {
    state.spec_seen_in_suit(suit) > 0 && !shunned(state, suit)
}

/// A suit that may be led and of which no more cards have been seen than of
/// any other suit that may be led.
pub open spec fn is_thinnest(state: GameState, suit: char) -> bool {
    &&& may_lead(state, suit)
    &&& may_lead(state, CLUBS) ==> state.spec_seen_in_suit(suit) <= state.spec_seen_in_suit(CLUBS)
    &&& may_lead(state, DIAMONDS) ==> state.spec_seen_in_suit(suit) <= state.spec_seen_in_suit(
        DIAMONDS,
    )
    &&& may_lead(state, HEARTS) ==> state.spec_seen_in_suit(suit) <= state.spec_seen_in_suit(HEARTS)
    &&& may_lead(state, SPADES) ==> state.spec_seen_in_suit(suit) <= state.spec_seen_in_suit(SPADES)
}

/// The suit to lead: the first of Clubs, Diamonds, Hearts, Spades that is
/// thinnest, and Clubs if no suit may be led.
pub open spec fn suit_to_lead(state: GameState) -> char {
    if is_thinnest(state, CLUBS) {
        CLUBS
    } else if is_thinnest(state, DIAMONDS) {
        DIAMONDS
    } else if is_thinnest(state, HEARTS) {
        HEARTS
    } else if is_thinnest(state, SPADES) {
        SPADES
    } else {
        CLUBS
    }
}

/// The card that the rules of thumb name for leading a trick: of the suit
/// to lead the lowest card if more than 7 cards of it have been seen, else
/// the highest; without a card of that suit, the first or the last card of
/// the hand.
pub open spec fn lead_candidate(state: GameState) -> Option<Card> {
    let suit = suit_to_lead(state);
    let hand = state.player_hand@;
    if state.spec_seen_in_suit(suit) > 7 {
        match lowest_of_suit(hand, suit) {
            Some(c) => Some(c),
            None => if hand.len() > 0 {
                Some(hand.first())
            } else {
                None
            },
        }
    } else {
        match highest_of_suit(hand, suit) {
            Some(c) => Some(c),
            None => if hand.len() > 0 {
                Some(hand.last())
            } else {
                None
            },
        }
    }
}

/// The suit that the trick in progress follows; Clubs while the leader's
/// slot is empty.
pub open spec fn suit_to_follow(state: GameState) -> char {
    match state.current_trick.spec_lead_suit() {
        Some(s) => s,
        None => CLUBS,
    }
}

/// The card that the rules of thumb name for following. With a card of the
/// suit that was led: the highest of them, to take the trick, if the trick
/// carries no points, fewer than 7 cards of the suit have been seen and the
/// suit is not shunned; else the highest below the card that holds the
/// trick, and the highest if there is none below. Without one: the Queen
/// of Spades, else the highest Heart.
pub open spec fn follow_candidate(state: GameState) -> Option<Card> {
    let lead = suit_to_follow(state);
    let hand = state.player_hand@;
    let played = state.current_trick.played_cards();
    match highest_of_suit(played, lead) {
        None => None,
        Some(top) => match highest_of_suit(hand, lead) {
            Some(high) => if points_of(played) == 0 && state.spec_seen_in_suit(lead) < 7 && !shunned(
                state,
                lead,
            ) {
                Some(high)
            } else {
                match highest_below(hand, lead, top.rank) {
                    Some(c) => Some(c),
                    None => Some(high),
                }
            },
            None => if hand.contains(queen_of_spades()) {
                Some(queen_of_spades())
            } else {
                highest_of_suit(hand, HEARTS)
            },
        },
    }
}

/// The card that the rules of thumb name: for leading while the trick is
/// empty, for following else.
pub open spec fn tactical_candidate(state: GameState) -> Option<Card> {
    if state.current_trick.spec_is_first_card() {
        lead_candidate(state)
    } else {
        follow_candidate(state)
    }
}

/// The first play of the game, with the Two of Clubs among the legal
/// moves.
pub open spec fn opens_game(moves: Seq<Card>, state: GameState) -> bool {
    state.current_trick.spec_is_first_card() && state.previous_tricks.len() == 0 && moves.contains(
        two_of_clubs(),
    )
}

/// The card that the rule-based policy plays among `moves`: the Two of
/// Clubs on the first play of the game if it is a legal move; else the card
/// that the rules of thumb name, if it is a legal move; else the first
/// legal move.
pub open spec fn tactical_choice(moves: Seq<Card>, state: GameState) -> Card {
    if opens_game(moves, state) {
        two_of_clubs()
    } else {
        match tactical_candidate(state) {
            Some(c) => if moves.contains(c) {
                c
            } else {
                moves[0]
            },
            None => moves[0],
        }
    }
}

/// Whether the first legal move stands in for a card that the rules of
/// thumb name and that is no legal move.
pub open spec fn tactical_substitutes(moves: Seq<Card>, state: GameState) -> bool {
    !opens_game(moves, state) && (tactical_candidate(state) matches Some(c) && !moves.contains(c))
}

/// The cards of `run` that rank below `rank`, in their order.
fn cards_below(run: &Vec<Card>, rank: u8) -> (low: Vec<Card>)
    ensures
        low@ == run@.filter(below(rank)),
{
    let mut low: Vec<Card> = Vec::new();
    let mut i: usize = 0;
    assert(run@.take(0) =~= Seq::<Card>::empty());
    while i < run.len()
        invariant
            i <= run.len(),
            low@ == run@.take(i as int).filter(below(rank)),
        decreases run.len() - i,
    {
        proof {
            assert(run@.take(i + 1) == run@.take(i as int).push(run[i as int]));
            run@.take(i as int).lemma_filter_push(run[i as int], below(rank));
        }
        if run[i].rank < rank {
            low.push(run[i]);
        }
        i += 1;
    }
    assert(run@.take(run.len() as int) == run@);
    low
}

/// The rule-based policy.
#[derive(Debug, Clone, Copy)]
pub struct MyStrategy;

impl MyStrategy {
    /// The rule-based policy.
    pub fn new() -> (strategy: MyStrategy) {
        MyStrategy {  }
    }

    /// The cards of `suit` in `hand`, lowest rank first.
    pub fn sorted_hand_from_suit(&self, hand: &[Card], suit: char) -> (sorted: Vec<Card>)
        ensures
            sorted@ == suit_run(hand@, suit),
    {
        let mut cards_in_suit: Vec<Card> = Vec::new();
        let mut i: usize = 0;
        assert(hand@.take(0) =~= Seq::<Card>::empty());
        while i < hand.len()
            invariant
                i <= hand.len(),
                cards_in_suit@ == hand@.take(i as int).filter(of_suit(suit)),
            decreases hand.len() - i,
        {
            proof {
                assert(hand@.take(i + 1) == hand@.take(i as int).push(hand[i as int]));
                hand@.take(i as int).lemma_filter_push(hand[i as int], of_suit(suit));
            }
            if hand[i].suit == suit {
                cards_in_suit.push(hand[i]);
            }
            i += 1;
        }
        assert(hand@.take(hand.len() as int) == hand@);
        sort_cards(&mut cards_in_suit);
        cards_in_suit
    }

    /// The card that the policy plays among `valid_moves`, and whether it
    /// is the first legal move standing in for a card that the rules of
    /// thumb name and that is no legal move.
    pub fn choose_flagged(&self, valid_moves: &[Card], game_state: Option<GameState>) -> (choice: (
        Card,
        bool,
    ))
        requires
            valid_moves.len() > 0,
            game_state matches Some(s) ==> s.countable(),
        ensures
            valid_moves@.contains(choice.0),
            choice.0 == (match game_state {
                Some(s) => tactical_choice(valid_moves@, s),
                None => valid_moves[0],
            }),
            choice.1 == (match game_state {
                Some(s) => tactical_substitutes(valid_moves@, s),
                None => false,
            }),
    {
        let state = match game_state {
            Some(s) => s,
            None => {
                return (valid_moves[0], false);
            },
        };
        let leading = state.current_trick.is_first_card();
        if leading && state.previous_tricks.len() == 0 {
            let two = Card::new(CLUBS, 2);
            if contains_card(valid_moves, two) {
                return (two, false);
            }
        }
        let candidate = if leading {
            self.lead_card(&state)
        } else {
            self.follow_card(&state)
        };
        match candidate {
            Some(c) => if contains_card(valid_moves, c) {
                (c, false)
            } else {
                (valid_moves[0], true)
            },
            None => (valid_moves[0], false),
        }
    }

    /// Whether the policy keeps away from `suit`.
    fn shuns(&self, state: &GameState, suit: char) -> (shun: bool)
        ensures
            shun == shunned(*state, suit),
    {
        suit == HEARTS || (suit == SPADES && !state.queen_of_spades_seen())
    }

    /// The suit to lead.
    fn pick_suit_to_lead(&self, state: &GameState) -> (suit: char)
        requires
            state.countable(),
        ensures
            suit == suit_to_lead(*state),
    {
        let clubs = state.seen_in_suit(CLUBS);
        let diamonds = state.seen_in_suit(DIAMONDS);
        let spades = state.seen_in_suit(SPADES);
        let spades_open = !self.shuns(state, SPADES);
        let mut found = false;
        let mut suit = CLUBS;
        let mut fewest: usize = 0;
        if clubs > 0 {
            found = true;
            fewest = clubs;
        }
        if diamonds > 0 && (!found || diamonds < fewest) {
            found = true;
            suit = DIAMONDS;
            fewest = diamonds;
        }
        if spades_open && spades > 0 && (!found || spades < fewest) {
            suit = SPADES;
        }
        suit
    }

    /// The card that the rules of thumb name for leading.
    fn lead_card(&self, state: &GameState) -> (card: Option<Card>)
        requires
            state.countable(),
        ensures
            card == lead_candidate(*state),
    {
        let suit = self.pick_suit_to_lead(state);
        let run = self.sorted_hand_from_suit(state.player_hand.as_slice(), suit);
        let hand = &state.player_hand;
        if state.seen_in_suit(suit) > 7 {
            if run.len() > 0 {
                Some(run[0])
            } else if hand.len() > 0 {
                Some(hand[0])
            } else {
                None
            }
        } else {
            if run.len() > 0 {
                Some(run[run.len() - 1])
            } else if hand.len() > 0 {
                Some(hand[hand.len() - 1])
            } else {
                None
            }
        }
    }

    /// The card that the rules of thumb name for following.
    fn follow_card(&self, state: &GameState) -> (card: Option<Card>)
        requires
            state.countable(),
        ensures
            card == follow_candidate(*state),
    {
        let lead = match state.current_trick.lead_suit() {
            Some(s) => s,
            None => CLUBS,
        };
        let played = state.current_trick.played();
        let played_run = self.sorted_hand_from_suit(played.as_slice(), lead);
        if played_run.len() == 0 {
            return None;
        }
        let top = played_run[played_run.len() - 1];
        let run = self.sorted_hand_from_suit(state.player_hand.as_slice(), lead);
        if run.len() > 0 {
            let high = run[run.len() - 1];
            let take = !carries_points(played.as_slice()) && state.seen_in_suit(lead) < 7
                && !self.shuns(state, lead);
            if take {
                Some(high)
            } else {
                let low = cards_below(&run, top.rank);
                if low.len() > 0 {
                    Some(low[low.len() - 1])
                } else {
                    Some(high)
                }
            }
        } else {
            let queen = Card::new(SPADES, QUEEN);
            if contains_card(state.player_hand.as_slice(), queen) {
                Some(queen)
            } else {
                let hearts = self.sorted_hand_from_suit(state.player_hand.as_slice(), HEARTS);
                if hearts.len() > 0 {
                    Some(hearts[hearts.len() - 1])
                } else {
                    None
                }
            }
        }
    }
}

impl PlayingStrategy for MyStrategy {
    /// Plays `tactical_choice`; without a state of the game, the first
    /// legal move.
    fn choose_card(&self, valid_moves: &[Card], game_state: Option<GameState>) -> (card: Card)
        ensures
            card == (match game_state {
                Some(s) => tactical_choice(valid_moves@, s),
                None => valid_moves[0],
            }),
    {
        self.choose_flagged(valid_moves, game_state).0
    }
}

} // verus!
