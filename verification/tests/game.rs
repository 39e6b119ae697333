use hearts_game::{
    AIStrategy, AggressiveStrategy, AvoidPointsStrategy, Card, Deck, GameError, HeartsGame,
    MyStrategy, Player, Prediction, RandomStrategy, RemoteReply, Strategy, StrategyError, Turn,
};

fn random_players() -> Vec<(&'static str, Strategy)> {
    vec![
        ("Alice", Strategy::Random(RandomStrategy)),
        ("Bob", Strategy::Random(RandomStrategy)),
        ("Charlie", Strategy::Random(RandomStrategy)),
        ("David", Strategy::Random(RandomStrategy)),
    ]
}

fn mixed_players() -> Vec<(&'static str, Strategy)> {
    vec![
        ("Alice", Strategy::Random(RandomStrategy)),
        ("Bob", Strategy::AvoidPoints(AvoidPointsStrategy)),
        ("My", Strategy::My(MyStrategy)),
        ("David", Strategy::Aggressive(AggressiveStrategy)),
    ]
}

fn fixed_players() -> Vec<(&'static str, Strategy)> {
    vec![
        ("Alice", Strategy::AvoidPoints(AvoidPointsStrategy)),
        ("Bob", Strategy::AvoidPoints(AvoidPointsStrategy)),
        ("My", Strategy::My(MyStrategy)),
        ("David", Strategy::Aggressive(AggressiveStrategy)),
    ]
}

fn seeded(players: &[(&str, Strategy)], seed: u64) -> HeartsGame {
    HeartsGame::new_with_deck(players, Some(Deck::new(Some(seed)))).unwrap()
}

fn all_cards(game: &HeartsGame) -> Vec<Card> {
    let mut cards = Vec::new();
    for player in &game.players {
        cards.extend(player.hand.iter().copied());
    }
    for trick in &game.tricks {
        cards.extend(trick.cards.iter().copied());
    }
    cards.extend(game.current_trick.cards.iter().flatten().copied());
    cards.sort();
    cards
}

fn sorted_deck() -> Vec<Card> {
    let mut cards = Deck::new(Some(0)).cards();
    cards.sort();
    cards
}

#[test]
fn the_holder_of_the_two_of_clubs_opens_with_it() {
    let mut game = seeded(&random_players(), 42);
    let two = Card::new('C', 2);
    let holder = game.current_player_index;
    assert!(game.players[holder].hand.contains(&two));
    for seat in 0..4 {
        assert_eq!(game.players[seat].hand.contains(&two), seat == holder);
    }
    assert_eq!(game.get_valid_moves(holder), vec![two]);
    assert!(game.current_trick.is_first_card());
    assert_eq!(game.play_trick(), Turn::Played(two));
    assert_eq!(game.current_trick.first_player_index, holder);
    assert_eq!(game.current_trick.first_card(), Some(two));
    assert_eq!(game.current_trick.turn(), 1);
    assert_eq!(game.current_player_index, (holder + 1) % 4);
    while game.tricks.is_empty() {
        game.play_trick();
    }
    assert_eq!(game.tricks[0].first_player_index, holder);
    assert_eq!(game.tricks[0].cards[holder], two);
    assert_eq!(game.tricks[0].lead_suit(), 'C');
}

#[test]
fn a_new_game_deals_thirteen_cards_to_each_of_four_players() {
    let deck = Deck::new(Some(42));
    let hands = deck.clone().deal(4).unwrap();
    let game = HeartsGame::new_with_deck(&mixed_players(), Some(deck)).unwrap();
    assert_eq!(game.players.len(), 4);
    for seat in 0..4 {
        assert_eq!(game.players[seat].hand, hands[seat]);
        assert_eq!(game.players[seat].initial_hand, hands[seat]);
        assert_eq!(game.players[seat].hand.len(), 13);
        assert_eq!(game.players[seat].score, 0);
    }
    assert_eq!(game.players[0].name, "Alice");
    assert_eq!(game.players[3].name, "David");
    assert_eq!(game.players[0].strategy_name(), "Random");
    assert_eq!(game.players[1].strategy_name(), "Avoid Points");
    assert_eq!(game.players[2].strategy_name(), "My Strategy");
    assert_eq!(game.players[3].strategy_name(), "Aggressive");
    assert!(game.tricks.is_empty());
    assert!(!game.hearts_broken);
    assert!(!game.game_is_over());
    assert!(game.completed_game().is_none());
    assert_eq!(all_cards(&game), sorted_deck());
}

#[test]
fn a_game_needs_four_players() {
    let players = random_players();
    assert_eq!(
        HeartsGame::new(&players[..3]).err(),
        Some(GameError::WrongPlayerCount)
    );
    assert_eq!(HeartsGame::new(&[]).err(), Some(GameError::WrongPlayerCount));
    assert_eq!(
        HeartsGame::new_with_strategies(&[]).err(),
        Some(GameError::WrongPlayerCount)
    );
    let mut five = random_players();
    five.push(("Eve", Strategy::Random(RandomStrategy)));
    assert_eq!(
        HeartsGame::new_with_deck(&five, Some(Deck::new(Some(1)))).err(),
        Some(GameError::WrongPlayerCount)
    );
    assert!(HeartsGame::new(&players).is_ok());
    assert!(HeartsGame::new_with_strategies(&players).is_ok());
}

#[test]
fn a_game_needs_a_deck_that_holds_its_cards() {
    let mut deck = Deck::new(Some(1));
    deck.deal(4).unwrap();
    assert_eq!(
        HeartsGame::new_with_deck(&random_players(), Some(deck)).err(),
        Some(GameError::DeckAlreadyDealt)
    );
}

#[test]
fn the_scores_of_a_finished_game_add_up_to_twenty_six() {
    for seed in 0..40u64 {
        for players in [random_players(), mixed_players(), fixed_players()] {
            let mut game = seeded(&players, seed);
            assert_eq!(game.play_game(), Turn::Finished);
            assert!(game.game_is_over());
            assert_eq!(game.tricks.len(), 13);
            let total: u32 = game.players.iter().map(|p| p.score as u32).sum();
            assert_eq!(total, 26);
            let carried: u32 = game.tricks.iter().map(|t| t.points as u32).sum();
            assert_eq!(carried, 26);
            assert!(game.players.iter().all(|p| p.hand.is_empty()));
            assert_eq!(all_cards(&game), sorted_deck());
            assert!(game.hearts_broken);
        }
    }
}

#[test]
fn the_cards_stay_parted_among_hands_and_table_at_every_turn() {
    let mut game = seeded(&mixed_players(), 7);
    let deck = sorted_deck();
    let mut turns = 0;
    loop {
        assert_eq!(all_cards(&game), deck);
        if game.current_trick.is_first_card() {
            for player in &game.players {
                assert_eq!(player.hand.len(), 13 - game.tricks.len());
            }
        }
        match game.play_trick() {
            Turn::Played(_) => turns += 1,
            Turn::Finished => break,
            Turn::AwaitingRemote => panic!("no player is remote"),
        }
    }
    assert_eq!(turns, 52);
}

#[test]
fn every_trick_goes_to_the_highest_card_of_the_suit_that_was_led() {
    for seed in 0..20u64 {
        let mut game = seeded(&mixed_players(), seed);
        game.play_game();
        let mut leader = game.tricks[0].first_player_index;
        for trick in &game.tricks {
            assert_eq!(trick.first_player_index, leader);
            assert_eq!(trick.cards.len(), 4);
            let lead = trick.cards[trick.first_player_index].suit;
            let best = trick.cards.iter().filter(|c| c.suit == lead).map(|c| c.rank).max().unwrap();
            assert_eq!(trick.cards[trick.winner].suit, lead);
            assert_eq!(trick.cards[trick.winner].rank, best);
            let points: u8 = trick.cards.iter().map(|c| c.score()).sum();
            assert_eq!(trick.points, points);
            leader = trick.winner;
        }
    }
}

#[test]
fn every_card_that_is_played_is_a_legal_move_of_its_player() {
    let mut game = seeded(&mixed_players(), 3);
    loop {
        let seat = game.current_player_index;
        let moves = game.get_valid_moves(seat);
        let hand = game.players[seat].hand.clone();
        match game.play_trick() {
            Turn::Played(card) => {
                assert!(moves.contains(&card));
                let mut left = hand.clone();
                left.retain(|c| *c != card);
                assert_eq!(game.players[seat].hand, left);
                assert_eq!(left.len() + 1, hand.len());
            }
            Turn::Finished => break,
            Turn::AwaitingRemote => panic!("no player is remote"),
        }
    }
}

#[test]
fn no_penalty_card_falls_in_the_first_trick_unless_a_hand_holds_nothing_else() {
    for seed in 0..200u64 {
        let mut game = seeded(&random_players(), seed);
        while game.tricks.is_empty() {
            game.play_trick();
        }
        for seat in 0..4 {
            if game.tricks[0].cards[seat].is_penalty() {
                assert!(game.players[seat].initial_hand.iter().all(|c| c.is_penalty()));
            }
        }
    }
}

#[test]
fn hearts_are_broken_when_the_first_heart_is_played() {
    let mut game = seeded(&mixed_players(), 11);
    loop {
        let before = game.hearts_broken;
        match game.play_trick() {
            Turn::Played(card) => {
                assert_eq!(game.hearts_broken, before || card.is_hearts());
            }
            _ => break,
        }
    }
}

#[test]
fn the_same_seed_and_fixed_policies_give_the_same_game() {
    let mut first = seeded(&fixed_players(), 42);
    let mut second = seeded(&fixed_players(), 42);
    first.play_game();
    second.play_game();
    let a = first.completed_game().unwrap();
    let b = second.completed_game().unwrap();
    assert_eq!(a.winner_index, b.winner_index);
    for seat in 0..4 {
        assert_eq!(a.players[seat].score, b.players[seat].score);
        assert_eq!(a.players[seat].initial_hand, b.players[seat].initial_hand);
    }
    for t in 0..13 {
        assert_eq!(a.previous_tricks[t].cards, b.previous_tricks[t].cards);
        assert_eq!(a.previous_tricks[t].winner, b.previous_tricks[t].winner);
    }
}

#[test]
fn the_record_names_the_first_seat_with_the_lowest_score_as_winner() {
    for seed in 0..40u64 {
        let mut game = seeded(&mixed_players(), seed);
        game.play_game();
        let record = game.completed_game().unwrap();
        assert_eq!(record.players.len(), 4);
        assert_eq!(record.previous_tricks.len(), 13);
        assert_eq!(record.hearts_broken, game.hearts_broken);
        let lowest = record.players.iter().map(|p| p.score).min().unwrap();
        let first = record.players.iter().position(|p| p.score == lowest).unwrap();
        assert_eq!(record.winner_index, first);
        for seat in 0..4 {
            assert_eq!(record.players[seat].name, game.players[seat].name);
            assert_eq!(record.players[seat].score, game.players[seat].score);
            assert_eq!(record.players[seat].initial_hand, game.players[seat].initial_hand);
            assert_eq!(record.players[seat].strategy, game.players[seat].strategy_name());
        }
        let copy = record.clone();
        assert_eq!(copy.winner_index, record.winner_index);
        assert_eq!(copy.players.len(), 4);
        assert_eq!(copy.previous_tricks.len(), 13);
    }
}

#[test]
fn a_finished_game_stays_as_it_is() {
    let mut game = seeded(&mixed_players(), 5);
    game.play_game();
    let scores: Vec<u8> = game.players.iter().map(|p| p.score).collect();
    assert_eq!(game.play_trick(), Turn::Finished);
    assert_eq!(game.play_game(), Turn::Finished);
    assert_eq!(
        game.play_remote(RemoteReply::Unreachable),
        Err(GameError::GameOver)
    );
    assert_eq!(game.tricks.len(), 13);
    assert_eq!(game.players.iter().map(|p| p.score).collect::<Vec<u8>>(), scores);
}

fn with_a_remote_player() -> Vec<(&'static str, Strategy)> {
    vec![
        ("Alice", Strategy::AvoidPoints(AvoidPointsStrategy)),
        ("Remote", Strategy::AI(AIStrategy::new("http://localhost:8000/predict".to_string()))),
        ("My", Strategy::My(MyStrategy)),
        ("David", Strategy::Aggressive(AggressiveStrategy)),
    ]
}

#[test]
fn the_game_waits_for_a_remote_player_and_plays_its_reply() {
    let mut game = seeded(&with_a_remote_player(), 42);
    let mut asked = 0;
    loop {
        match game.play_game() {
            Turn::Finished => break,
            Turn::AwaitingRemote => {
                assert_eq!(game.current_player_index, 1);
                assert_eq!(game.play_trick(), Turn::AwaitingRemote);
                let moves = game.get_valid_moves(1);
                let state = game.fetch_game_state();
                assert_eq!(state.current_player_index, 1);
                assert_eq!(state.player_hand, game.players[1].hand);
                assert_eq!(state.previous_tricks.len(), game.tricks.len());
                assert_eq!(state.current_trick.cards, game.current_trick.cards);
                let pick = moves[moves.len() - 1];
                let reply = RemoteReply::Predicted(Prediction { suit: pick.suit, rank: pick.rank });
                assert_eq!(game.play_remote(reply), Ok(pick));
                asked += 1;
            }
            Turn::Played(_) => panic!("a run of turns ends on no card"),
        }
    }
    assert_eq!(asked, 13);
    let total: u32 = game.players.iter().map(|p| p.score as u32).sum();
    assert_eq!(total, 26);
    assert_eq!(game.completed_game().unwrap().players[1].strategy, "AI");
}

#[test]
fn a_failed_remote_decision_is_an_error_and_leaves_the_game_as_it_is() {
    let mut game = seeded(&with_a_remote_player(), 42);
    assert_eq!(game.play_game(), Turn::AwaitingRemote);
    let hand = game.players[1].hand.clone();
    let slots = game.current_trick.cards.clone();
    let tricks = game.tricks.len();
    assert_eq!(
        game.play_remote(RemoteReply::Unreachable),
        Err(GameError::Policy(StrategyError::Unreachable))
    );
    assert_eq!(
        game.play_remote(RemoteReply::Unparseable),
        Err(GameError::Policy(StrategyError::Unparseable))
    );
    let moves = game.get_valid_moves(1);
    let other = game.players[0].initial_hand[0];
    assert!(!moves.contains(&other));
    assert_eq!(
        game.play_remote(RemoteReply::Predicted(Prediction { suit: other.suit, rank: other.rank })),
        Err(GameError::Policy(StrategyError::IllegalPrediction))
    );
    assert_eq!(game.players[1].hand, hand);
    assert_eq!(game.current_trick.cards, slots);
    assert_eq!(game.tricks.len(), tricks);
    assert_eq!(game.current_player_index, 1);
}

#[test]
fn a_reply_for_a_player_that_asks_no_predictor_is_an_error() {
    let mut game = seeded(&mixed_players(), 42);
    let card = game.get_valid_moves(game.current_player_index)[0];
    assert_eq!(
        game.play_remote(RemoteReply::Predicted(Prediction { suit: card.suit, rank: card.rank })),
        Err(GameError::Policy(StrategyError::NotRemote))
    );
    assert!(game.current_trick.is_first_card());
}

#[test]
fn the_starting_player_is_the_first_seat_with_the_two_of_clubs() {
    let player = |hand: Vec<Card>| Player::new("p", hand, Strategy::Random(RandomStrategy));
    let players = vec![
        player(vec![Card::new('C', 3)]),
        player(vec![Card::new('D', 2)]),
        player(vec![Card::new('C', 4), Card::new('C', 2)]),
        player(vec![Card::new('C', 2)]),
    ];
    assert_eq!(HeartsGame::find_starting_player(&players), 2);
    assert_eq!(HeartsGame::find_starting_player(&players[..2].to_vec()), 0);
    assert_eq!(HeartsGame::find_starting_player(&Vec::new()), 0);
}

#[test]
fn a_player_plays_a_card_of_its_policy_and_parts_with_it() {
    let hand = vec![Card::new('C', 3), Card::new('H', 9), Card::new('D', 4)];
    let mut player = Player::new("Bob", hand.clone(), Strategy::AvoidPoints(AvoidPointsStrategy));
    assert_eq!(player.name, "Bob");
    assert_eq!(player.play_card(&hand, None), Some(Card::new('C', 3)));
    assert_eq!(player.hand, vec![Card::new('H', 9), Card::new('D', 4)]);
    assert_eq!(player.initial_hand, hand);
    assert_eq!(player.score, 0);
    player.discard(Card::new('S', 2));
    assert_eq!(player.hand.len(), 2);
    let copy = player.clone();
    assert_eq!(copy.hand, player.hand);
    assert_eq!(copy.name, "Bob");
}

#[test]
fn a_remote_player_plays_on_the_reply_only() {
    let hand = vec![Card::new('C', 3), Card::new('H', 9)];
    let mut player = Player::new("R", hand.clone(), Strategy::AI(AIStrategy::new(String::new())));
    assert_eq!(player.play_card(&hand, None), None);
    assert_eq!(player.hand, hand);
    assert_eq!(
        player.play_reply(&hand, RemoteReply::Unreachable),
        Err(StrategyError::Unreachable)
    );
    assert_eq!(player.hand, hand);
    let reply = RemoteReply::Predicted(Prediction { suit: 'H', rank: 9 });
    assert_eq!(player.play_reply(&hand, reply), Ok(Card::new('H', 9)));
    assert_eq!(player.hand, vec![Card::new('C', 3)]);
    let mut local = Player::new("L", hand.clone(), Strategy::Random(RandomStrategy));
    assert_eq!(local.play_reply(&hand, reply), Err(StrategyError::NotRemote));
    assert_eq!(local.hand, hand);
}

#[test]
fn an_unseeded_deck_is_shuffled() {
    let fresh: Vec<Card> = ['S', 'H', 'D', 'C']
        .iter()
        .flat_map(|s| (2..=14u8).map(move |r| Card::new(*s, r)))
        .collect();
    assert_ne!(Deck::new(None).cards(), fresh);
    let game = HeartsGame::new(&random_players()).unwrap();
    assert_eq!(all_cards(&game), sorted_deck());
}
