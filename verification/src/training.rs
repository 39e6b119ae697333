//! Training examples from the record of a finished game.

use crate::card::Card;
use crate::compact::{
    compact, compact_cards, compact_hand, compact_slots, copy_compact_tricks, depict_tricks,
    spec_compact, CompactCompletedTrick, CompactTrainingData, CompactTrick,
};
use crate::game_moves_filter::{good_seats, scores_of, GameMovesFilter};
use crate::record::{initial_hands, lemma_moves_held_before, CompletedHeartsGame};
use crate::trick::{CompletedTrick, Trick, SEATS};
use vstd::prelude::*;

verus! {

/// Whether the `m`-th move is kept as an example: its player has a good
/// score and did not both win the trick and take penalty points in it.
pub open spec fn kept(record: CompletedHeartsGame, m: int) -> bool {
    let seat = record.seat_of(m);
    let trick = record.previous_tricks[m / 4];
    good_seats(scores_of(record.players@)).contains(seat as usize) && !(trick.winner == seat
        && trick.points > 0)
}

/// The moves among the first `n` that are kept, in the order of play.
pub open spec fn kept_moves(record: CompletedHeartsGame, n: int) -> Seq<int>
    decreases n,
{
    if n <= 0 {
        Seq::empty()
    } else if kept(record, n - 1) {
        kept_moves(record, n - 1).push(n - 1)
    } else {
        kept_moves(record, n - 1)
    }
}

/// The slots of `trick` when `j` of its cards are played.
pub open spec fn slots_before(trick: CompletedTrick, j: int) -> Seq<Option<Card>> {
    Seq::new(
        SEATS as nat,
        |s: int|
            if (s - trick.first_player_index + 4) % 4 < j {
                Some(trick.cards[s])
            } else {
                None
            },
    )
}

/// `example` is the example of the `m`-th move: the tricks before it, the
/// trick in progress and the hand of the player as they were when it was
/// to play, and the card that it played.
pub open spec fn depicts_move(example: CompactTrainingData, record: CompletedHeartsGame, m: int) -> bool {
    let trick = record.previous_tricks[m / 4];
    let seat = record.seat_of(m);
    &&& depict_tricks(example.previous_tricks@, record.previous_tricks@.take(m / 4))
    &&& example.current_trick.cards@ == compact_slots(slots_before(trick, m % 4))
    &&& example.current_trick.first_player == trick.first_player_index
    &&& example.current_player_index == seat
    &&& example.player_hand@ == compact_cards(record.hands_at(m)[seat])
    &&& example.played_card == spec_compact(record.card_of(m))
}

/// Where `card` lies first in `hand`.
pub fn position_of(hand: &Vec<Card>, card: Card) -> (position: Option<usize>)
    ensures
        position is Some <==> hand@.contains(card),
        position matches Some(i) ==> i < hand.len() && hand@.index_of_first(card) == Some(i as int),
{
    let mut i: usize = 0;
    while i < hand.len()
        invariant
            i <= hand.len(),
            forall|k: int| 0 <= k < i ==> hand[k] != card,
        decreases hand.len() - i,
    {
        if hand[i] == card {
            proof {
                hand@.index_of_first_ensures(card);
                assert(hand@[i as int] == card);
                assert(hand@.contains(card));
                let first = hand@.index_of_first(card)->0;
                if first < i {
                    assert(hand@[first] == card);
                } else if first > i {
                    assert(hand@[i as int] != card);
                }
            }
            return Some(i);
        }
        i += 1;
    }
    None
}

/// The examples of a finished game: move by move in the order of play,
/// for every move that the filter of the game keeps, what its player saw
/// when it was to play and the card that it played. A record that cannot
/// be played again from the dealt hands gives nothing.
#[verifier::rlimit(40)]
pub fn extract_training_data(completed_game: &CompletedHeartsGame) -> (training_data: Option<
    Vec<CompactTrainingData>,
>)
    ensures
        training_data is Some <==> completed_game.replayable(),
        training_data matches Some(examples) ==> {
            let moves = kept_moves(*completed_game, 4 * completed_game.previous_tricks.len());
            &&& examples.len() == moves.len()
            &&& forall|k: int|
                0 <= k < examples.len() ==> depicts_move(
                    #[trigger] examples[k],
                    *completed_game,
                    moves[k],
                )
        },
{
    let ghost record = *completed_game;
    let ghost total = 4 * completed_game.previous_tricks.len();
    if completed_game.players.len() != SEATS {
        return None;
    }
    let game_moves_filter = GameMovesFilter::new(completed_game);
    let mut training_data: Vec<CompactTrainingData> = Vec::new();
    let mut previous_tricks: Vec<CompactCompletedTrick> = Vec::new();
    let mut hands: Vec<Vec<Card>> = Vec::new();
    let mut p: usize = 0;
    while p < SEATS
        invariant
            p <= SEATS,
            completed_game.players.len() == SEATS,
            hands.len() == p,
            forall|s: int| 0 <= s < p ==> (#[trigger] hands[s])@ == completed_game.players[s].initial_hand@,
        decreases SEATS - p,
    {
        hands.push(completed_game.players[p].initial_hand.clone());
        p += 1;
    }
    let mut t: usize = 0;
    assert(completed_game.previous_tricks@.take(0) =~= Seq::<CompletedTrick>::empty());
    while t < completed_game.previous_tricks.len()
        invariant
            record == *completed_game,
            total == 4 * completed_game.previous_tricks.len(),
            completed_game.players.len() == SEATS,
            t <= completed_game.previous_tricks.len(),
            game_moves_filter@ == good_seats(scores_of(completed_game.players@)),
            hands.len() == SEATS,
            forall|s: int| 0 <= s < SEATS ==> (#[trigger] hands[s])@ == record.hands_at(4 * t)[s],
            record.hands_at(4 * t).len() == SEATS,
            record.held_upto(4 * t),
            forall|i: int|
                0 <= i < t ==> (#[trigger] record.previous_tricks[i]).cards.len() == SEATS
                    && record.previous_tricks[i].first_player_index < SEATS,
            depict_tricks(previous_tricks@, record.previous_tricks@.take(t as int)),
            training_data.len() == kept_moves(record, 4 * t).len(),
            forall|k: int|
                0 <= k < training_data.len() ==> depicts_move(
                    #[trigger] training_data[k],
                    record,
                    kept_moves(record, 4 * t)[k],
                ),
        decreases completed_game.previous_tricks.len() - t,
    {
        let trick = &completed_game.previous_tricks[t];
        if trick.cards.len() != SEATS || trick.first_player_index >= SEATS {
            return None;
        }
        let mut current_trick = Trick::led_by(trick.first_player_index);
        let mut j: usize = 0;
        assert(current_trick.cards@ =~= slots_before(*trick, 0));
        while j < SEATS
            invariant
                record == *completed_game,
                total == 4 * completed_game.previous_tricks.len(),
                completed_game.players.len() == SEATS,
                t < completed_game.previous_tricks.len(),
                *trick == completed_game.previous_tricks[t as int],
                trick.cards.len() == SEATS,
                trick.first_player_index < SEATS,
                j <= SEATS,
                game_moves_filter@ == good_seats(scores_of(completed_game.players@)),
                current_trick.wf(),
                current_trick.first_player_index == trick.first_player_index,
                current_trick.played_count() == j,
                current_trick.cards@ == slots_before(*trick, j as int),
                hands.len() == SEATS,
                forall|s: int|
                    0 <= s < SEATS ==> (#[trigger] hands[s])@ == record.hands_at(4 * t + j)[s],
                record.hands_at(4 * t + j).len() == SEATS,
                record.held_upto(4 * t + j),
                depict_tricks(previous_tricks@, record.previous_tricks@.take(t as int)),
                training_data.len() == kept_moves(record, 4 * t + j).len(),
                forall|k: int|
                    0 <= k < training_data.len() ==> depicts_move(
                        #[trigger] training_data[k],
                        record,
                        kept_moves(record, 4 * t + j)[k],
                    ),
            decreases SEATS - j,
        {
            let ghost m: int = 4 * t + j;
            let player_index = (trick.first_player_index + j) % SEATS;
            let trick_card = trick.cards[player_index];
            assert(m / 4 == t && m % 4 == j);
            assert(player_index == record.seat_of(m));
            assert(trick_card == record.card_of(m));
            let card_idx = match position_of(&hands[player_index], trick_card) {
                Some(i) => i,
                None => {
                    proof {
                        assert(!record.held_upto(m + 1));
                        if record.held_upto(total) {
                            lemma_moves_held_before(
                                initial_hands(record.players@),
                                record.previous_tricks@,
                                m + 1,
                                total,
                            );
                        }
                    }
                    return None;
                },
            };
            if game_moves_filter.filter(player_index, trick) {
                let example = CompactTrainingData {
                    previous_tricks: copy_compact_tricks(
                        &previous_tricks,
                        Ghost(record.previous_tricks@.take(t as int)),
                    ),
                    current_trick: CompactTrick::from_trick(&current_trick),
                    current_player_index: player_index,
                    player_hand: compact_hand(&hands[player_index]),
                    played_card: compact(trick_card),
                };
                assert(depicts_move(example, record, m));
                training_data.push(example);
            }
            proof {
                assert(kept(record, m) == game_moves_filter.spec_filter(player_index, trick));
                current_trick.lemma_filled_seats();
            }
            hands[player_index].remove(card_idx);
            let added = current_trick.add_card(trick_card, player_index);
            proof {
                assert(added is Ok);
                assert(current_trick.cards@ =~= slots_before(*trick, j + 1));
                let after = record.hands_at(m + 1);
                assert forall|s: int| 0 <= s < SEATS implies (#[trigger] hands[s])@ == after[s] by {}
            }
            j += 1;
        }
        previous_tricks.push(CompactCompletedTrick::from_trick(trick));
        proof {
            let before = record.previous_tricks@.take(t as int);
            let after = record.previous_tricks@.take(t + 1);
            assert forall|i: int| 0 <= i < previous_tricks.len() implies (#[trigger] previous_tricks[i]).depicts(
                after[i],
            ) by {
                if i < t {
                    assert(before[i] == after[i]);
                }
            }
        }
        t += 1;
    }
    Some(training_data)
}

} // verus!
