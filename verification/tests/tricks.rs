use hearts_game::trick::{calculate_trick_score, carries_points, determine_trick_winner};
use hearts_game::{Card, CompletedTrick, Trick, TrickError};

fn cards(list: &[(char, u8)]) -> Vec<Card> {
    list.iter().map(|(s, r)| Card::new(*s, *r)).collect()
}

#[test]
fn the_only_diamond_takes_the_trick_with_a_heart_and_the_queen_of_spades() {
    let mut trick = Trick::led_by(2);
    assert_eq!(trick.add_card(Card::new('D', 5), 2), Ok(()));
    assert_eq!(trick.add_card(Card::new('H', 9), 3), Ok(()));
    assert_eq!(trick.add_card(Card::new('S', 12), 0), Ok(()));
    assert_eq!(trick.add_card(Card::new('C', 14), 1), Ok(()));
    assert!(trick.is_completed());
    let done = trick.complete().unwrap();
    assert_eq!(done.winner, 2);
    assert_eq!(done.points, 14);
    assert_eq!(done.first_player_index, 2);
    assert_eq!(done.cards, cards(&[('S', 12), ('C', 14), ('D', 5), ('H', 9)]));
    assert_eq!(done.lead_suit(), 'D');
    assert_eq!(done.first_card(), Card::new('D', 5));
    assert_eq!(
        done.cards_starting_first_player(),
        cards(&[('D', 5), ('H', 9), ('S', 12), ('C', 14)])
    );
}

#[test]
fn the_highest_card_of_the_suit_that_was_led_takes_the_trick() {
    let played = cards(&[('C', 10), ('C', 14), ('D', 14), ('C', 3)]);
    assert_eq!(determine_trick_winner(&played, 0), 1);
    assert_eq!(determine_trick_winner(&played, 3), 1);
    assert_eq!(determine_trick_winner(&played, 2), 2);
    let played = cards(&[('H', 14), ('S', 2), ('H', 13), ('S', 14)]);
    assert_eq!(determine_trick_winner(&played, 1), 3);
    assert_eq!(determine_trick_winner(&played, 2), 0);
}

#[test]
fn of_two_equal_cards_the_later_seat_takes_the_trick() {
    let played = cards(&[('C', 10), ('C', 10), ('D', 14), ('C', 3)]);
    assert_eq!(determine_trick_winner(&played, 0), 1);
    assert_eq!(determine_trick_winner(&played, 3), 1);
}

#[test]
fn a_trick_carries_the_sum_of_its_scores() {
    assert_eq!(calculate_trick_score(&cards(&[('C', 2), ('C', 3), ('C', 4), ('C', 5)])), 0);
    assert_eq!(calculate_trick_score(&cards(&[('H', 2), ('H', 3), ('H', 4), ('H', 5)])), 4);
    assert_eq!(calculate_trick_score(&cards(&[('S', 12), ('H', 3), ('H', 4), ('H', 5)])), 16);
    assert_eq!(calculate_trick_score(&cards(&[('S', 12)])), 13);
    assert_eq!(calculate_trick_score(&cards(&[])), 0);
    assert!(!carries_points(&cards(&[('C', 2), ('S', 13)])));
    assert!(carries_points(&cards(&[('C', 2), ('S', 12)])));
    assert!(carries_points(&cards(&[('H', 2)])));
}

#[test]
fn a_new_trick_is_empty_and_led_by_seat_zero() {
    let trick = Trick::new();
    assert_eq!(trick.cards, vec![None; 4]);
    assert_eq!(trick.first_player_index, 0);
    assert!(trick.is_first_card());
    assert!(!trick.is_completed());
    assert_eq!(trick.first_card(), None);
    assert_eq!(trick.lead_suit(), None);
    assert_eq!(trick.turn(), 0);
    assert!(trick.complete().is_none());
    assert_eq!(trick.played(), Vec::<Card>::new());
}

#[test]
fn the_seats_play_in_rotation_from_the_leader() {
    let mut trick = Trick::led_by(3);
    assert_eq!(trick.add_card(Card::new('C', 2), 0), Err(TrickError::OutOfTurn));
    assert_eq!(trick.add_card(Card::new('C', 2), 2), Err(TrickError::OutOfTurn));
    assert_eq!(trick.add_card(Card::new('C', 2), 4), Err(TrickError::NoSuchSeat));
    assert!(trick.is_first_card());
    assert_eq!(trick.add_card(Card::new('C', 2), 3), Ok(()));
    assert!(!trick.is_first_card());
    assert_eq!(trick.lead_suit(), Some('C'));
    assert_eq!(trick.first_card(), Some(Card::new('C', 2)));
    assert_eq!(trick.add_card(Card::new('C', 3), 3), Err(TrickError::SeatAlreadyPlayed));
    assert_eq!(trick.add_card(Card::new('C', 3), 1), Err(TrickError::OutOfTurn));
    assert_eq!(trick.add_card(Card::new('C', 3), 0), Ok(()));
    assert_eq!(trick.turn(), 2);
    assert_eq!(trick.add_card(Card::new('C', 4), 1), Ok(()));
    assert!(!trick.is_completed());
    assert!(trick.complete().is_none());
    assert_eq!(trick.add_card(Card::new('C', 5), 2), Ok(()));
    assert!(trick.is_completed());
    assert_eq!(trick.add_card(Card::new('C', 6), 3), Err(TrickError::SeatAlreadyPlayed));
    assert_eq!(trick.add_card(Card::new('C', 6), usize::MAX), Err(TrickError::NoSuchSeat));
    assert_eq!(
        trick.cards,
        vec![
            Some(Card::new('C', 3)),
            Some(Card::new('C', 4)),
            Some(Card::new('C', 5)),
            Some(Card::new('C', 2))
        ]
    );
    assert_eq!(trick.played(), cards(&[('C', 3), ('C', 4), ('C', 5), ('C', 2)]));
    let done = trick.complete().unwrap();
    assert_eq!(done.winner, 2);
    assert_eq!(done.points, 0);
}

#[test]
fn a_refused_card_leaves_the_trick_as_it_was() {
    let mut trick = Trick::led_by(1);
    trick.add_card(Card::new('D', 9), 1).unwrap();
    let before = trick.clone();
    assert!(trick.add_card(Card::new('D', 10), 3).is_err());
    assert_eq!(trick.cards, before.cards);
    assert_eq!(trick.first_player_index, before.first_player_index);
}

#[test]
fn a_completed_trick_can_be_copied() {
    let trick = CompletedTrick {
        cards: cards(&[('C', 2), ('C', 3), ('C', 4), ('C', 5)]),
        first_player_index: 0,
        winner: 3,
        points: 0,
    };
    let copy = trick.clone();
    assert_eq!(copy.cards, trick.cards);
    assert_eq!(copy.winner, 3);
    assert_eq!(copy.points, 0);
    assert_eq!(copy.first_player_index, 0);
}
