use hearts_game::{Card, CompletedHeartsGame, CompletedTrick, GameMovesFilter, PlayerInfo};

fn create_players(scores: Vec<u8>) -> Vec<PlayerInfo> {
    scores
        .into_iter()
        .enumerate()
        .map(|(i, score)| PlayerInfo {
            score,
            name: format!("Player {}", i + 1),
            initial_hand: vec![],
            strategy: "Random".to_string(),
        })
        .collect()
}

fn create_scored_game(scores: Vec<u8>) -> CompletedHeartsGame {
    let players = create_players(scores);

    CompletedHeartsGame {
        players,
        previous_tricks: vec![],
        hearts_broken: true,
        winner_index: 0,
    }
}

fn create_test_game() -> CompletedHeartsGame {
    let players = vec![
        PlayerInfo {
            score: 5,
            name: "Player 1".to_string(),
            initial_hand: vec![],
            strategy: "Random".to_string(),
        },
        PlayerInfo {
            score: 15,
            name: "Player 2".to_string(),
            initial_hand: vec![],
            strategy: "Random".to_string(),
        },
        PlayerInfo {
            score: 10,
            name: "Player 3".to_string(),
            initial_hand: vec![],
            strategy: "Random".to_string(),
        },
        PlayerInfo {
            score: 20,
            name: "Player 4".to_string(),
            initial_hand: vec![],
            strategy: "Random".to_string(),
        },
    ];

    let tricks = vec![
        CompletedTrick {
            cards: vec![
                Card { suit: 'C', rank: 2 },
                Card { suit: 'C', rank: 3 },
                Card { suit: 'C', rank: 4 },
                Card { suit: 'C', rank: 5 },
            ],
            first_player_index: 0,
            winner: 3,
            points: 0,
        },
        CompletedTrick {
            cards: vec![
                Card { suit: 'H', rank: 2 },
                Card { suit: 'H', rank: 3 },
                Card { suit: 'H', rank: 4 },
                Card { suit: 'H', rank: 5 },
            ],
            first_player_index: 1,
            winner: 3,
            points: 4,
        },
    ];

    CompletedHeartsGame {
        players,
        previous_tricks: tricks,
        hearts_broken: true,
        winner_index: 0,
    }
}

#[test]
fn game_moves_filter_test_good_players_identification() {
    let game = create_scored_game(vec![0, 6, 7, 13]);
    let filter = GameMovesFilter::new(&game);

    assert!(*filter.good_players() == vec![0, 1]);
}

#[test]
fn test_good_players_with_zeros() {
    let game = create_scored_game(vec![0, 0, 9, 17]);
    let filter = GameMovesFilter::new(&game);

    assert!(*filter.good_players() == vec![0, 1]);
}

#[test]
fn test_good_players_identification_unsorted() {
    let game = create_scored_game(vec![18, 0, 6, 2]);
    let filter = GameMovesFilter::new(&game);

    assert!(*filter.good_players() == vec![1, 3]);
}

#[test]
fn game_moves_filter_tests_test_good_players_identification() {
    let game = create_test_game();
    let filter = GameMovesFilter::new(&game.clone());

    assert!(filter.good_players().contains(&0), "Player 0 should be a good player");
    assert!(filter.good_players().contains(&2), "Player 2 should be a good player");
    assert!(!filter.good_players().contains(&1), "Player 1 should not be a good player");
    assert!(!filter.good_players().contains(&3), "Player 3 should not be a good player");
}

#[test]
fn test_threshold_calculation() {
    let game = create_test_game();

    let mut ordered_scores: Vec<u8> = game.players.iter().map(|p| p.score).collect();
    ordered_scores.sort();
    let percentile25 = 1.25;
    let threshold = ordered_scores[0] as f32
        + (ordered_scores[1] as f32 - ordered_scores[0] as f32) * percentile25;

    assert_eq!(threshold, 11.25, "Threshold calculation is incorrect");

    let filter = GameMovesFilter::new(&game);
    for (seat, player) in game.players.iter().enumerate() {
        assert_eq!(
            filter.good_players().contains(&seat),
            player.score <= ordered_scores[1]
        );
    }
}

#[test]
fn test_filter_good_player_no_points() {
    let game = create_test_game();
    let filter = GameMovesFilter::new(&game.clone());

    let result = filter.filter(0, &game.previous_tricks[0]);
    assert!(result, "Player 0 with Trick 0 should pass the filter");
}

#[test]
fn test_filter_good_player_with_points_not_winner() {
    let game = create_test_game();

    let mut modified_game = game.clone();
    modified_game.previous_tricks[1].winner = 3;

    let filter = GameMovesFilter::new(&modified_game.clone());

    let result = filter.filter(0, &modified_game.previous_tricks[1]);
    assert!(result, "Player 0 with Trick 1 (not winner) should pass the filter");
}

#[test]
fn test_filter_good_player_with_points_as_winner() {
    let game = create_test_game();

    let mut modified_game = game.clone();
    modified_game.previous_tricks[1].winner = 0;

    let filter = GameMovesFilter::new(&modified_game.clone());

    let result = filter.filter(0, &modified_game.previous_tricks[1]);
    assert!(!result, "Player 0 with Trick 1 (as winner) should not pass the filter");
}

#[test]
fn test_filter_bad_player() {
    let game = create_test_game();
    let filter = GameMovesFilter::new(&game.clone());

    let result = filter.filter(3, &game.previous_tricks[0]);
    assert!(!result, "Player 3 should not pass the filter regardless of the trick");
}

#[test]
fn good_players_are_the_seats_that_score_no_higher_than_the_second_lowest() {
    let values: [u8; 6] = [0, 1, 5, 13, 25, 26];
    for a in values {
        for b in values {
            for c in values {
                for d in values {
                    let game = create_scored_game(vec![a, b, c, d]);
                    let filter = GameMovesFilter::new(&game);
                    let mut ordered = vec![a, b, c, d];
                    ordered.sort();
                    let expected: Vec<usize> = [a, b, c, d]
                        .iter()
                        .enumerate()
                        .filter(|(_, s)| **s <= ordered[1])
                        .map(|(i, _)| i)
                        .collect();
                    assert_eq!(*filter.good_players(), expected);
                    assert!(expected.len() >= 2);
                }
            }
        }
    }
}

#[test]
fn good_players_are_the_better_scoring_half() {
    let filter = GameMovesFilter::new(&create_scored_game(vec![26, 0, 0, 0]));
    assert_eq!(*filter.good_players(), vec![1, 2, 3]);
    let filter = GameMovesFilter::new(&create_scored_game(vec![13, 1, 12, 0]));
    assert_eq!(*filter.good_players(), vec![1, 3]);
    let filter = GameMovesFilter::new(&create_scored_game(vec![3, 4]));
    assert_eq!(*filter.good_players(), vec![0, 1]);
    let filter = GameMovesFilter::new(&create_scored_game(vec![7, 7, 6, 6, 5]));
    assert_eq!(*filter.good_players(), vec![2, 3, 4]);
}

#[test]
fn filter_drops_a_winner_that_took_any_point() {
    let mut game = create_test_game();
    game.previous_tricks[1].points = 1;
    game.previous_tricks[1].winner = 0;
    let filter = GameMovesFilter::new(&game);
    assert!(!filter.filter(0, &game.previous_tricks[1]));
    assert!(filter.filter(2, &game.previous_tricks[1]));
    game.previous_tricks[1].points = 0;
    assert!(filter.filter(0, &game.previous_tricks[1]));
    game.previous_tricks[1].points = 26;
    assert!(!filter.filter(0, &game.previous_tricks[1]));
    game.previous_tricks[1].winner = 2;
    assert!(filter.filter(0, &game.previous_tricks[1]));
    assert!(!filter.filter(2, &game.previous_tricks[1]));
}
