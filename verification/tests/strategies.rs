use hearts_game::strategy::penalty_key;
use hearts_game::{
    AIStrategy, AggressiveStrategy, AvoidPointsStrategy, Card, CompletedTrick, GameState,
    MyStrategy, PlayingStrategy, Prediction, RandomStrategy, RemoteReply, Strategy, StrategyError,
    Trick,
};

fn cards(list: &[(char, u8)]) -> Vec<Card> {
    list.iter().map(|(s, r)| Card::new(*s, *r)).collect()
}

fn done(list: &[(char, u8)], first: usize, winner: usize, points: u8) -> CompletedTrick {
    CompletedTrick { cards: cards(list), first_player_index: first, winner, points }
}

fn state(
    previous: Vec<CompletedTrick>,
    leader: usize,
    played: &[(usize, (char, u8))],
    hand: &[(char, u8)],
    seat: usize,
) -> GameState {
    let mut trick = Trick::led_by(leader);
    for (s, (suit, rank)) in played {
        trick.add_card(Card::new(*suit, *rank), *s).unwrap();
    }
    GameState {
        previous_tricks: previous,
        current_trick: trick,
        player_hand: cards(hand),
        current_player_index: seat,
    }
}

#[test]
fn the_key_is_the_rank_and_thirteen_more_for_a_penalty_card() {
    assert_eq!(penalty_key(Card::new('C', 14)), 14);
    assert_eq!(penalty_key(Card::new('H', 14)), 27);
    assert_eq!(penalty_key(Card::new('H', 2)), 15);
    assert_eq!(penalty_key(Card::new('S', 12)), 25);
    assert_eq!(penalty_key(Card::new('S', 13)), 13);
    assert_eq!(penalty_key(Card::new('H', 255)), 268);
}

#[test]
fn random_picks_one_of_the_moves() {
    let moves = cards(&[('C', 5), ('D', 9), ('H', 2), ('S', 12)]);
    let mut seen = Vec::new();
    for _ in 0..400 {
        let card = RandomStrategy.choose_card(&moves, None);
        assert!(moves.contains(&card));
        if !seen.contains(&card) {
            seen.push(card);
        }
    }
    assert_eq!(seen.len(), 4);
    assert_eq!(RandomStrategy.choose_card(&moves[..1], None), Card::new('C', 5));
}

#[test]
fn avoid_points_plays_the_lowest_key_and_the_first_of_equals() {
    let s = AvoidPointsStrategy;
    assert_eq!(s.choose_card(&cards(&[('H', 2), ('C', 14)]), None), Card::new('C', 14));
    assert_eq!(s.choose_card(&cards(&[('C', 5), ('D', 5)]), None), Card::new('C', 5));
    assert_eq!(s.choose_card(&cards(&[('D', 5), ('C', 5)]), None), Card::new('D', 5));
    assert_eq!(s.choose_card(&cards(&[('S', 12), ('H', 11), ('H', 14)]), None), Card::new('H', 11));
    assert_eq!(s.choose_card(&cards(&[('S', 12), ('H', 12)]), None), Card::new('S', 12));
    assert_eq!(s.choose_card(&cards(&[('S', 13), ('S', 12), ('C', 3)]), None), Card::new('C', 3));
}

#[test]
fn aggressive_plays_the_highest_key_and_the_last_of_equals() {
    let s = AggressiveStrategy;
    assert_eq!(s.choose_card(&cards(&[('H', 2), ('C', 14)]), None), Card::new('H', 2));
    assert_eq!(s.choose_card(&cards(&[('C', 5), ('D', 5)]), None), Card::new('D', 5));
    assert_eq!(s.choose_card(&cards(&[('D', 5), ('C', 5)]), None), Card::new('C', 5));
    assert_eq!(s.choose_card(&cards(&[('S', 12), ('H', 11), ('C', 14)]), None), Card::new('S', 12));
    assert_eq!(s.choose_card(&cards(&[('S', 12), ('H', 12)]), None), Card::new('H', 12));
    assert_eq!(s.choose_card(&cards(&[('C', 3)]), None), Card::new('C', 3));
}

#[test]
fn the_remote_policy_plays_the_card_that_the_reply_names() {
    let ai = AIStrategy::new("http://localhost:8000/predict".to_string());
    assert_eq!(ai.endpoint, "http://localhost:8000/predict");
    let moves = cards(&[('C', 5), ('D', 9)]);
    let reply = RemoteReply::Predicted(Prediction { suit: 'D', rank: 9 });
    assert_eq!(ai.choose_from_reply(&moves, reply), Ok(Card::new('D', 9)));
}

#[test]
fn the_remote_policy_fails_on_a_card_that_is_no_legal_move() {
    let ai = AIStrategy::new(String::new());
    let moves = cards(&[('C', 5), ('D', 9)]);
    let reply = RemoteReply::Predicted(Prediction { suit: 'D', rank: 10 });
    assert_eq!(ai.choose_from_reply(&moves, reply), Err(StrategyError::IllegalPrediction));
    let reply = RemoteReply::Predicted(Prediction { suit: 'H', rank: 9 });
    assert_eq!(ai.choose_from_reply(&moves, reply), Err(StrategyError::IllegalPrediction));
}

#[test]
fn the_remote_policy_fails_on_a_failed_exchange() {
    let ai = AIStrategy::new(String::new());
    let moves = cards(&[('C', 5), ('D', 9)]);
    assert_eq!(
        ai.choose_from_reply(&moves, RemoteReply::Unreachable),
        Err(StrategyError::Unreachable)
    );
    assert_eq!(
        ai.choose_from_reply(&moves, RemoteReply::Unparseable),
        Err(StrategyError::Unparseable)
    );
}

#[test]
fn the_policies_that_read_the_state_are_the_remote_and_the_rule_based() {
    assert!(!Strategy::Random(RandomStrategy).needs_game_state());
    assert!(!Strategy::AvoidPoints(AvoidPointsStrategy).needs_game_state());
    assert!(!Strategy::Aggressive(AggressiveStrategy).needs_game_state());
    assert!(Strategy::AI(AIStrategy::new(String::new())).needs_game_state());
    assert!(Strategy::My(MyStrategy::new()).needs_game_state());
    assert!(Strategy::AI(AIStrategy::new(String::new())).is_remote());
    assert!(!Strategy::My(MyStrategy).is_remote());
}

#[test]
fn a_policy_chooses_through_the_enum() {
    let moves = cards(&[('H', 2), ('C', 14)]);
    assert_eq!(
        Strategy::AvoidPoints(AvoidPointsStrategy).choose_card(&moves, None),
        Some(Card::new('C', 14))
    );
    assert_eq!(
        Strategy::Aggressive(AggressiveStrategy).choose_card(&moves, None),
        Some(Card::new('H', 2))
    );
    assert_eq!(Strategy::My(MyStrategy).choose_card(&moves, None), Some(Card::new('H', 2)));
    assert_eq!(Strategy::AI(AIStrategy::new(String::new())).choose_card(&moves, None), None);
    let pick = Strategy::Random(RandomStrategy).choose_card(&moves, None).unwrap();
    assert!(moves.contains(&pick));
}

#[test]
fn a_cloned_policy_is_the_same_policy() {
    let ai = Strategy::AI(AIStrategy::new("there".to_string()));
    match ai.clone() {
        Strategy::AI(copy) => assert_eq!(copy.endpoint, "there"),
        _ => panic!("the copy is another policy"),
    }
    assert!(matches!(Strategy::My(MyStrategy).clone(), Strategy::My(_)));
    assert!(matches!(Strategy::Random(RandomStrategy).clone(), Strategy::Random(_)));
}

#[test]
fn without_a_state_the_rule_based_policy_plays_the_first_move() {
    let moves = cards(&[('D', 9), ('C', 2)]);
    assert_eq!(MyStrategy::new().choose_card(&moves, None), Card::new('D', 9));
}

#[test]
fn the_rule_based_policy_opens_with_the_two_of_clubs() {
    let hand = [('C', 2), ('C', 9), ('D', 4), ('H', 3)];
    let s = state(vec![], 1, &[], &hand, 1);
    let moves = cards(&[('C', 9), ('C', 2)]);
    assert_eq!(MyStrategy.choose_card(&moves, Some(s)), Card::new('C', 2));
}

#[test]
fn leading_the_rule_based_policy_plays_the_highest_of_the_thinnest_suit() {
    let previous = vec![done(&[('C', 2), ('C', 3), ('C', 4), ('C', 5)], 0, 3, 0)];
    let hand = [('C', 9), ('C', 10), ('D', 4), ('D', 8), ('D', 11), ('S', 3)];
    let s = state(previous, 3, &[], &hand, 3);
    let moves = cards(&hand);
    assert_eq!(MyStrategy.choose_card(&moves, Some(s)), Card::new('D', 11));
}

#[test]
fn leading_a_suit_that_is_mostly_out_the_rule_based_policy_plays_its_lowest() {
    let previous = vec![
        done(&[('D', 2), ('D', 3), ('D', 5), ('D', 6)], 0, 3, 0),
        done(&[('D', 7), ('D', 9), ('D', 10), ('C', 6)], 3, 2, 0),
        done(&[('C', 2), ('C', 3), ('C', 4), ('C', 5)], 2, 3, 0),
        done(&[('C', 7), ('C', 8), ('C', 11), ('C', 12)], 3, 3, 0),
    ];
    let hand = [('C', 9), ('C', 10), ('D', 4), ('D', 8)];
    let s = state(previous, 3, &[], &hand, 3);
    let moves = cards(&hand);
    assert_eq!(MyStrategy.choose_card(&moves, Some(s)), Card::new('D', 4));
}

#[test]
fn spades_are_led_only_after_the_queen_of_spades() {
    let hand = [('C', 9), ('C', 10), ('C', 11), ('S', 3)];
    let before = vec![done(&[('C', 2), ('C', 3), ('C', 4), ('C', 5)], 0, 3, 0)];
    let s = state(before, 3, &[], &hand, 3);
    assert_eq!(MyStrategy.choose_card(&cards(&hand), Some(s)), Card::new('C', 11));
    let after = vec![done(&[('C', 2), ('C', 3), ('C', 4), ('S', 12)], 0, 2, 13)];
    let s = state(after, 2, &[], &hand, 2);
    assert_eq!(MyStrategy.choose_card(&cards(&hand), Some(s)), Card::new('S', 3));
}

#[test]
fn following_a_clean_trick_the_rule_based_policy_takes_it() {
    let previous = vec![done(&[('C', 2), ('C', 3), ('C', 4), ('C', 5)], 0, 3, 0)];
    let hand = [('D', 4), ('D', 8), ('D', 13), ('S', 3)];
    let s = state(previous, 3, &[(3, ('D', 10))], &hand, 0);
    let moves = cards(&[('D', 4), ('D', 8), ('D', 13)]);
    assert_eq!(MyStrategy.choose_card(&moves, Some(s)), Card::new('D', 13));
}

#[test]
fn following_a_trick_with_points_the_rule_based_policy_ducks() {
    let previous = vec![done(&[('C', 2), ('C', 3), ('C', 4), ('C', 5)], 0, 3, 0)];
    let hand = [('D', 4), ('D', 8), ('D', 13), ('S', 3)];
    let s = state(previous, 3, &[(3, ('D', 10)), (0, ('H', 5))], &hand, 1);
    let moves = cards(&[('D', 4), ('D', 8), ('D', 13)]);
    assert_eq!(MyStrategy.choose_card(&moves, Some(s)), Card::new('D', 8));
}

#[test]
fn when_it_cannot_duck_the_rule_based_policy_plays_its_highest() {
    let previous = vec![done(&[('C', 2), ('C', 3), ('C', 4), ('C', 5)], 0, 3, 0)];
    let hand = [('D', 11), ('D', 13), ('S', 3)];
    let s = state(previous, 3, &[(3, ('D', 10)), (0, ('H', 5))], &hand, 1);
    let moves = cards(&[('D', 11), ('D', 13)]);
    assert_eq!(MyStrategy.choose_card(&moves, Some(s)), Card::new('D', 13));
}

#[test]
fn following_spades_before_the_queen_the_rule_based_policy_ducks() {
    let previous = vec![done(&[('C', 2), ('C', 3), ('C', 4), ('C', 5)], 0, 3, 0)];
    let hand = [('S', 3), ('S', 9), ('S', 14), ('D', 2)];
    let s = state(previous, 3, &[(3, ('S', 10))], &hand, 0);
    let moves = cards(&[('S', 3), ('S', 9), ('S', 14)]);
    assert_eq!(MyStrategy.choose_card(&moves, Some(s)), Card::new('S', 9));
}

#[test]
fn unable_to_follow_the_rule_based_policy_dumps_the_queen_of_spades() {
    let previous = vec![done(&[('C', 2), ('C', 3), ('C', 4), ('C', 5)], 0, 3, 0)];
    let hand = [('H', 4), ('H', 8), ('S', 12), ('S', 3)];
    let s = state(previous, 3, &[(3, ('D', 10))], &hand, 0);
    assert_eq!(MyStrategy.choose_card(&cards(&hand), Some(s)), Card::new('S', 12));
}

#[test]
fn unable_to_follow_without_the_queen_the_rule_based_policy_dumps_its_highest_heart() {
    let previous = vec![done(&[('C', 2), ('C', 3), ('C', 4), ('C', 5)], 0, 3, 0)];
    let hand = [('H', 4), ('H', 8), ('S', 13), ('S', 3)];
    let s = state(previous, 3, &[(3, ('D', 10))], &hand, 0);
    assert_eq!(MyStrategy.choose_card(&cards(&hand), Some(s)), Card::new('H', 8));
}

#[test]
fn unable_to_follow_with_nothing_to_dump_the_rule_based_policy_plays_the_first_move() {
    let previous = vec![done(&[('C', 2), ('C', 3), ('C', 4), ('C', 5)], 0, 3, 0)];
    let hand = [('S', 13), ('S', 3), ('C', 9)];
    let s = state(previous, 3, &[(3, ('D', 10))], &hand, 0);
    assert_eq!(MyStrategy.choose_card(&cards(&hand), Some(s)), Card::new('S', 13));
}

#[test]
fn a_card_that_is_no_legal_move_gives_way_to_the_first_move() {
    let hand = [('H', 4), ('S', 12), ('D', 9)];
    let s = state(vec![], 3, &[(3, ('C', 2))], &hand, 0);
    let moves = cards(&[('D', 9)]);
    assert_eq!(MyStrategy.choose_card(&moves, Some(s)), Card::new('D', 9));
}

#[test]
fn a_substituted_card_is_flagged() {
    let hand = [('H', 4), ('S', 12), ('D', 9)];
    let s = state(vec![], 3, &[(3, ('C', 2))], &hand, 0);
    let moves = cards(&[('D', 9)]);
    assert_eq!(MyStrategy.choose_flagged(&moves, Some(s)), (Card::new('D', 9), true));
    let previous = vec![done(&[('C', 2), ('C', 3), ('C', 4), ('C', 5)], 0, 3, 0)];
    let s = state(previous, 3, &[(3, ('D', 10))], &[('S', 13), ('S', 3), ('C', 9)], 0);
    let moves = cards(&[('S', 13), ('S', 3), ('C', 9)]);
    assert_eq!(MyStrategy.choose_flagged(&moves, Some(s)), (Card::new('S', 13), false));
    assert_eq!(MyStrategy.choose_flagged(&moves, None), (Card::new('S', 13), false));
    let s = state(vec![], 1, &[], &[('C', 2), ('C', 9)], 1);
    assert_eq!(
        MyStrategy.choose_flagged(&cards(&[('C', 2)]), Some(s)),
        (Card::new('C', 2), false)
    );
}

#[test]
fn the_cards_of_a_suit_come_sorted_by_rank() {
    let hand = cards(&[('D', 11), ('C', 3), ('D', 4), ('H', 2), ('D', 8)]);
    assert_eq!(
        MyStrategy.sorted_hand_from_suit(&hand, 'D'),
        cards(&[('D', 4), ('D', 8), ('D', 11)])
    );
    assert_eq!(MyStrategy.sorted_hand_from_suit(&hand, 'S'), Vec::<Card>::new());
}

#[test]
fn the_state_counts_what_has_been_seen() {
    let previous = vec![
        done(&[('C', 2), ('C', 3), ('C', 4), ('D', 5)], 0, 2, 0),
        done(&[('S', 12), ('S', 3), ('H', 4), ('S', 5)], 2, 2, 14),
    ];
    let s = state(previous, 2, &[(2, ('D', 10)), (3, ('D', 2))], &[('D', 4), ('H', 9)], 0);
    assert_eq!(s.seen_in_suit('C'), 3);
    assert_eq!(s.seen_in_suit('D'), 4);
    assert_eq!(s.seen_in_suit('H'), 2);
    assert_eq!(s.seen_in_suit('S'), 3);
    assert!(s.queen_of_spades_seen());
    let copy = s.clone();
    assert_eq!(copy.player_hand, s.player_hand);
    assert_eq!(copy.previous_tricks.len(), 2);
    let s = state(vec![], 2, &[(2, ('S', 12))], &[('D', 4)], 3);
    assert!(!s.queen_of_spades_seen());
}
