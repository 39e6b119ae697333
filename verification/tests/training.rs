use hearts_game::{
    create_game_stats, extract_training_data, AggressiveStrategy, AvoidPointsStrategy, Card,
    CompactCard, CompletedHeartsGame, CompletedTrick, Deck, GameMovesFilter, GameResult, HeartsGame,
    MyStrategy, PlayerInfo, RandomStrategy, Strategy,
};

fn cards(list: &[(char, u8)]) -> Vec<Card> {
    list.iter().map(|(s, r)| Card::new(*s, *r)).collect()
}

fn player(name: &str, hand: &[(char, u8)], score: u8) -> PlayerInfo {
    PlayerInfo {
        name: name.to_string(),
        initial_hand: cards(hand),
        score,
        strategy: "Random".to_string(),
    }
}

fn two_tricks() -> CompletedHeartsGame {
    CompletedHeartsGame {
        players: vec![
            player("A", &[('C', 3), ('H', 5)], 0),
            player("B", &[('C', 4), ('D', 9)], 0),
            player("C", &[('C', 2), ('H', 7)], 0),
            player("D", &[('C', 14), ('S', 12)], 15),
        ],
        previous_tricks: vec![
            CompletedTrick {
                cards: cards(&[('C', 3), ('C', 4), ('C', 2), ('C', 14)]),
                first_player_index: 2,
                winner: 3,
                points: 0,
            },
            CompletedTrick {
                cards: cards(&[('H', 5), ('D', 9), ('H', 7), ('S', 12)]),
                first_player_index: 3,
                winner: 3,
                points: 15,
            },
        ],
        hearts_broken: true,
        winner_index: 0,
    }
}

fn pairs(list: &[(char, u8)]) -> Vec<CompactCard> {
    list.iter().map(|(s, r)| CompactCard(*s, *r)).collect()
}

#[test]
fn the_examples_show_what_each_good_player_saw_and_played() {
    let record = two_tricks();
    let filter = GameMovesFilter::new(&record);
    // Three seats tie at the second lowest score, so all three are good.
    assert_eq!(*filter.good_players(), vec![0, 1, 2]);
    let examples = extract_training_data(&record).unwrap();
    assert_eq!(examples.len(), 6);

    let first = &examples[0];
    assert_eq!(first.current_player_index, 2);
    assert_eq!(first.played_card, CompactCard('C', 2));
    assert_eq!(first.player_hand, pairs(&[('C', 2), ('H', 7)]));
    assert!(first.previous_tricks.is_empty());
    assert_eq!(first.current_trick.first_player, 2);
    assert_eq!(first.current_trick.cards, vec![None, None, None, None]);

    let second = &examples[1];
    assert_eq!(second.current_player_index, 0);
    assert_eq!(second.played_card, CompactCard('C', 3));
    assert_eq!(second.player_hand, pairs(&[('C', 3), ('H', 5)]));
    assert_eq!(
        second.current_trick.cards,
        vec![None, None, Some(CompactCard('C', 2)), Some(CompactCard('C', 14))]
    );

    let third = &examples[2];
    assert_eq!(third.current_player_index, 1);
    assert_eq!(third.played_card, CompactCard('C', 4));
    assert_eq!(
        third.current_trick.cards,
        vec![Some(CompactCard('C', 3)), None, Some(CompactCard('C', 2)), Some(CompactCard('C', 14))]
    );

    let fourth = &examples[3];
    assert_eq!(fourth.current_player_index, 0);
    assert_eq!(fourth.played_card, CompactCard('H', 5));
    assert_eq!(fourth.player_hand, pairs(&[('H', 5)]));
    assert_eq!(fourth.previous_tricks.len(), 1);
    assert_eq!(fourth.previous_tricks[0].cards, pairs(&[('C', 3), ('C', 4), ('C', 2), ('C', 14)]));
    assert_eq!(fourth.previous_tricks[0].winner, 3);
    assert_eq!(fourth.previous_tricks[0].points, 0);
    assert_eq!(fourth.previous_tricks[0].first_player, 2);
    assert_eq!(fourth.current_trick.first_player, 3);
    assert_eq!(
        fourth.current_trick.cards,
        vec![None, None, None, Some(CompactCard('S', 12))]
    );

    assert_eq!(examples[4].current_player_index, 1);
    assert_eq!(examples[4].played_card, CompactCard('D', 9));
    assert_eq!(examples[5].current_player_index, 2);
    assert_eq!(examples[5].played_card, CompactCard('H', 7));
    let copy = examples[5].clone();
    assert_eq!(copy.played_card, examples[5].played_card);
    assert_eq!(copy.player_hand, examples[5].player_hand);
}

#[test]
fn a_good_player_that_takes_points_gives_no_example_for_that_trick() {
    let mut record = two_tricks();
    record.players[3].score = 0;
    record.players[0].score = 15;
    let examples = extract_training_data(&record).unwrap();
    let seats: Vec<usize> = examples.iter().map(|e| e.current_player_index).collect();
    assert_eq!(seats, vec![2, 3, 1, 1, 2]);
}

#[test]
fn a_good_player_that_wins_one_point_gives_no_example_for_that_trick() {
    let mut record = two_tricks();
    record.previous_tricks[0].winner = 0;
    record.previous_tricks[0].points = 1;
    let examples = extract_training_data(&record).unwrap();
    let seats: Vec<usize> = examples.iter().map(|e| e.current_player_index).collect();
    assert_eq!(seats, vec![2, 1, 0, 1, 2]);
    record.previous_tricks[0].points = 0;
    let examples = extract_training_data(&record).unwrap();
    let seats: Vec<usize> = examples.iter().map(|e| e.current_player_index).collect();
    assert_eq!(seats, vec![2, 0, 1, 0, 1, 2]);
}

#[test]
fn only_the_better_scoring_half_gives_examples() {
    let mut record = two_tricks();
    record.players[0].score = 1;
    record.players[1].score = 4;
    record.players[2].score = 6;
    assert_eq!(*GameMovesFilter::new(&record).good_players(), vec![0, 1]);
    let examples = extract_training_data(&record).unwrap();
    let seats: Vec<usize> = examples.iter().map(|e| e.current_player_index).collect();
    assert_eq!(seats, vec![0, 1, 0, 1]);
}

#[test]
fn a_card_that_its_seat_does_not_hold_makes_the_record_useless() {
    let mut record = two_tricks();
    record.players[1].initial_hand = cards(&[('C', 4), ('D', 10)]);
    assert!(extract_training_data(&record).is_none());
    let mut record = two_tricks();
    record.previous_tricks[1].cards[2] = Card::new('C', 2);
    assert!(extract_training_data(&record).is_none());
}

#[test]
fn a_record_that_is_not_of_four_seats_gives_nothing() {
    let mut record = two_tricks();
    record.players.pop();
    assert!(extract_training_data(&record).is_none());
    let mut record = two_tricks();
    record.previous_tricks[0].cards.pop();
    assert!(extract_training_data(&record).is_none());
    let mut record = two_tricks();
    record.previous_tricks[1].first_player_index = 4;
    assert!(extract_training_data(&record).is_none());
}

#[test]
fn a_record_without_tricks_gives_no_examples() {
    let mut record = two_tricks();
    record.previous_tricks.clear();
    assert_eq!(extract_training_data(&record).unwrap().len(), 0);
}

#[test]
fn every_finished_game_can_be_played_again() {
    let players = vec![
        ("Alice", Strategy::Random(RandomStrategy)),
        ("Bob", Strategy::AvoidPoints(AvoidPointsStrategy)),
        ("My", Strategy::My(MyStrategy)),
        ("David", Strategy::Aggressive(AggressiveStrategy)),
    ];
    for seed in 0..30u64 {
        let mut game = HeartsGame::new_with_deck(&players, Some(Deck::new(Some(seed)))).unwrap();
        game.play_game();
        let record = game.completed_game().unwrap();
        let filter = GameMovesFilter::new(&record);
        let examples = extract_training_data(&record).unwrap();
        let mut expected = 0;
        for trick in &record.previous_tricks {
            for seat in 0..4 {
                if filter.filter(seat, trick) {
                    expected += 1;
                }
            }
        }
        assert_eq!(examples.len(), expected);
        for example in &examples {
            assert!(example.player_hand.contains(&example.played_card));
            assert_eq!(example.player_hand.len(), 13 - example.previous_tricks.len());
            assert!(filter.good_players().contains(&example.current_player_index));
            assert!(example.current_trick.cards[example.current_player_index].is_none());
        }
    }
}

#[test]
fn the_figures_of_a_game_hold_the_sum_of_its_scores() {
    let record = two_tricks();
    let result = GameResult::from_completed_game(&record);
    assert_eq!(result.winner, "A");
    assert_eq!(result.tricks.len(), 2);
    assert_eq!(
        result.final_scores,
        vec![
            ("A".to_string(), 0),
            ("B".to_string(), 0),
            ("C".to_string(), 0),
            ("D".to_string(), 15)
        ]
    );
    let stats = create_game_stats(7, &result);
    assert_eq!(stats.game_id, 7);
    assert_eq!(stats.winner, "A");
    assert_eq!(stats.scores, result.final_scores);
    assert_eq!(stats.tricks.len(), 2);
    assert_eq!(stats.total_points, 15);
    let empty = GameResult { tricks: vec![], final_scores: vec![], winner: String::new() };
    assert_eq!(create_game_stats(0, &empty).total_points, 0);
    let full = GameResult {
        tricks: vec![],
        final_scores: vec![("x".to_string(), 200), ("y".to_string(), 55)],
        winner: "y".to_string(),
    };
    assert_eq!(create_game_stats(1, &full).total_points, 255);
}
