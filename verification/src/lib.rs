//! A rules engine for the four-player trick-taking card game Hearts.
//!
//! The crate holds the cards and the deck, the legal-move ladder, the trick
//! engine, the decision policies and the game state machine, together with
//! the record of a finished game and what is derived from it.

pub mod card;
pub mod compact;
pub mod deck;
pub mod game;
pub mod game_moves_filter;
pub mod player;
pub mod record;
pub mod rules;
pub mod state;
pub mod stats;
pub mod strategy;
pub mod tactical;
pub mod training;
pub mod trick;

pub use card::Card;
pub use compact::{CompactCard, CompactCompletedTrick, CompactTrainingData, CompactTrick};
pub use deck::{reuses_deal, Deck, DeckError};
pub use game::{GameError, HeartsGame, Turn};
pub use game_moves_filter::GameMovesFilter;
pub use player::{Player, PlayerInfo};
pub use record::CompletedHeartsGame;
pub use rules::{legal_moves, TableState};
pub use state::GameState;
pub use stats::{create_game_stats, GameResult, GameStats};
pub use strategy::{
    AIStrategy, AggressiveStrategy, AvoidPointsStrategy, PlayingStrategy, Prediction,
    RandomStrategy, RemoteReply, Strategy, StrategyError,
};
pub use tactical::MyStrategy;
pub use training::extract_training_data;
pub use trick::{CompletedTrick, Trick, TrickError};
