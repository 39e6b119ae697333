//! The game: four players, thirteen tricks, one card at a time.

use crate::card::{contains_card, lemma_sorted_cards_same, Card, CLUBS};
use crate::deck::{
    dealt, dealt_hand, full_deck, is_full_deck, lemma_dealt_to_four, lemma_full_deck_contains,
    lemma_full_deck_no_duplicates, lemma_full_deck_points, lemma_same_cards_same_len, Deck,
    DECK_SIZE,
};
use crate::player::{all_but, lemma_remove_single, Player, PlayerInfo};
use crate::record::{
    agree_upto, four_by_four, hands_before, initial_hands, leads_on_points,
    lemma_replay_of_prefix, lemma_single_removed, lemma_trick_replayed, lowest_score_seat,
    moves_held, CompletedHeartsGame,
};
use crate::rules::{
    legal_moves, lemma_first_trick_penalty_forced, lemma_legal_moves_within_hand,
    lemma_only_two_of_clubs, spec_legal_moves, TableState,
};
use crate::state::GameState;
use crate::strategy::{remote_decision, RemoteReply, Strategy, StrategyError};
use crate::tactical::two_of_clubs;
use crate::trick::{
    cards_in_slots, copy_tricks, history_cards, is_trick_winner, lemma_points_of_concat,
    lemma_points_of_remove, lemma_points_of_same_cards, lemma_points_won_total,
    lemma_same_tricks_history, lemma_slot_filled, lemma_slots_all_or_none, points_of, points_won,
    same_tricks, CompletedTrick, Trick, SEATS,
};
use vstd::multiset::Multiset;
use vstd::prelude::*;
use vstd::seq_lib::lemma_multiset_commutative;

verus! {

/// Number of tricks in a game.
pub const TRICKS: usize = 13;

/// Why a game refuses what is asked of it.
#[derive(Debug, Clone, Copy, PartialEq, Eq, Structural)]
pub enum GameError {
    /// A game has four players.
    WrongPlayerCount,
    /// The deck has been dealt already.
    DeckAlreadyDealt,
    /// The thirteen tricks are played.
    GameOver,
    /// The decision of a remote predictor cannot be played.
    Policy(StrategyError),
}

/// What became of a turn.
#[derive(Debug, Clone, Copy, PartialEq, Eq, Structural)]
pub enum Turn {
    /// The player whose turn it was played this card.
    Played(Card),
    /// The player whose turn it is decides on the reply of a remote
    /// predictor: the game waits for it.
    AwaitingRemote,
    /// The thirteen tricks are played.
    Finished,
}

/// A game of Hearts.
#[derive(Debug)]
pub struct HeartsGame {
    pub players: Vec<Player>,
    pub tricks: Vec<CompletedTrick>,
    pub current_trick: Trick,
    pub current_player_index: usize,
    pub hearts_broken: bool,
}

/// What a game is made of, and the states that it can be in.
impl HeartsGame {
    /// The hand that `seat` holds.
    pub open spec fn hand(&self, seat: int) -> Seq<Card> {
        self.players[seat].hand@
    }

    /// The hand that `seat` was dealt.
    pub open spec fn initial_hand(&self, seat: int) -> Seq<Card> {
        self.players[seat].initial_hand@
    }

    /// What of the table decides the legal moves.
    pub open spec fn table(&self) -> TableState {
        TableState {
            first_trick: self.tricks.len() == 0,
            lead_suit: self.current_trick.spec_lead_suit(),
            hearts_broken: self.hearts_broken,
        }
    }

    /// The legal moves of `seat`.
    pub open spec fn spec_valid_moves(&self, seat: int) -> Seq<Card> {
        spec_legal_moves(self.hand(seat), self.table())
    }

    /// The cards that the four players hold.
    pub open spec fn cards_in_hands(&self) -> Seq<Card> {
        self.hand(0) + self.hand(1) + self.hand(2) + self.hand(3)
    }

    /// The cards that have been played.
    pub open spec fn cards_on_table(&self) -> Seq<Card> {
        history_cards(self.tricks@) + self.current_trick.played_cards()
    }

    /// The cards of the game: in the hands and on the table.
    pub open spec fn all_cards(&self) -> Seq<Card> {
        self.cards_in_hands() + self.cards_on_table()
    }

    /// The cards that the four players were dealt.
    pub open spec fn cards_dealt(&self) -> Seq<Card> {
        self.initial_hand(0) + self.initial_hand(1) + self.initial_hand(2) + self.initial_hand(3)
    }

    /// The hands that the four players were dealt, seat by seat.
    pub open spec fn dealt_hands(&self) -> Seq<Seq<Card>> {
        Seq::new(SEATS as nat, |p: int| self.initial_hand(p))
    }

    /// The hands as the play of the tricks that are over leaves them.
    pub open spec fn hands_between_tricks(&self) -> Seq<Seq<Card>> {
        hands_before(self.dealt_hands(), self.tricks@, 4 * self.tricks.len())
    }

    /// The card that `seat` played in the first trick, once it has played.
    pub open spec fn first_trick_card(&self, seat: int) -> Option<Card> {
        if self.tricks.len() > 0 {
            Some(self.tricks[0].cards[seat])
        } else {
            self.current_trick.cards[seat]
        }
    }

    /// Four players, at most thirteen tricks, each as its cards decide; a
    /// trick in progress that waits for the player whose turn it is.
    pub open spec fn seated(&self) -> bool {
        &&& self.players.len() == SEATS
        &&& self.tricks.len() <= TRICKS
        &&& self.current_trick.wf()
        &&& self.current_trick.played_count() < SEATS
        &&& self.current_player_index == self.current_trick.next_seat()
        &&& forall|i: int| 0 <= i < self.tricks.len() ==> (#[trigger] self.tricks[i]).wf()
    }

    /// The cards in the hands and on the table are the 52 cards of the
    /// deck, each once.
    pub open spec fn cards_conserved(&self) -> bool {
        is_full_deck(self.all_cards())
    }

    /// Between two tricks: the four hands and the tricks that are over hold
    /// the 52 cards of the deck, each once, and every hand holds thirteen
    /// cards less one for each trick that is over.
    pub open spec fn parted_between_tricks(&self) -> bool {
        &&& is_full_deck(self.cards_in_hands() + history_cards(self.tricks@))
        &&& forall|seat: int|
            0 <= seat < SEATS ==> (#[trigger] self.hand(seat)).len() == TRICKS - self.tricks.len()
    }

    /// Every player holds thirteen cards less one for each trick it has
    /// played in.
    pub open spec fn hands_sized(&self) -> bool {
        forall|seat: int|
            0 <= seat < SEATS ==> (#[trigger] self.hand(seat)).len() + self.tricks.len() + (if self.current_trick.cards[seat] is Some {
                1int
            } else {
                0int
            }) == TRICKS
    }

    /// Every player has the points of the tricks that it took.
    pub open spec fn scores_kept(&self) -> bool {
        forall|seat: int|
            0 <= seat < SEATS ==> (#[trigger] self.players[seat]).score == points_won(
                self.tricks@,
                seat,
            )
    }

    /// Hearts are broken exactly if a Heart has been played.
    pub open spec fn hearts_tracked(&self) -> bool {
        self.hearts_broken <==> exists|c: Card|
            c.spec_is_hearts() && #[trigger] self.cards_on_table().contains(c)
    }

    /// Who takes a trick leads the next.
    pub open spec fn leaders_follow(&self) -> bool {
        &&& self.tricks.len() > 0 ==> self.current_trick.first_player_index
            == self.tricks@.last().winner
        &&& forall|i: int|
            0 < i < self.tricks.len() ==> (#[trigger] self.tricks[i]).first_player_index
                == self.tricks[i - 1].winner
    }

    /// The game opens with the Two of Clubs: it led the first trick, or
    /// whoever is to lead it holds the card.
    pub open spec fn opens_with_two_of_clubs(&self) -> bool {
        if self.tricks.len() > 0 {
            self.tricks[0].cards[self.tricks[0].first_player_index as int] == two_of_clubs()
        } else if self.current_trick.played_count() > 0 {
            self.current_trick.cards[self.current_trick.first_player_index as int] == Some(
                two_of_clubs(),
            )
        } else {
            self.hand(self.current_player_index as int).contains(two_of_clubs())
        }
    }

    /// A penalty card lies in the first trick only where the hand it came
    /// from was dealt penalty cards alone.
    pub open spec fn first_trick_clean(&self) -> bool {
        forall|seat: int|
            #![trigger self.first_trick_card(seat)]
            0 <= seat < SEATS ==> (self.first_trick_card(seat) matches Some(c) && c.spec_is_penalty()
                ==> forall|i: int|
                0 <= i < self.initial_hand(seat).len() ==> self.initial_hand(seat)[i].spec_is_penalty())
    }

    /// Until a player has played in the first trick it holds the hand that
    /// it was dealt.
    pub open spec fn first_trick_hands(&self) -> bool {
        self.tricks.len() == 0 ==> forall|seat: int|
            0 <= seat < SEATS && self.current_trick.cards[seat] is None ==> #[trigger] self.hand(
                seat,
            ) == self.initial_hand(seat)
    }

    /// The four players were dealt the 52 cards, thirteen each.
    pub open spec fn dealt_in_full(&self) -> bool {
        &&& is_full_deck(self.cards_dealt())
        &&& forall|seat: int| 0 <= seat < SEATS ==> (#[trigger] self.initial_hand(seat)).len() == TRICKS
    }

    /// The tricks that are over can be played again from the dealt hands,
    /// and what the players hold is what that play leaves them, less the
    /// card that each has played in the trick in progress.
    pub open spec fn replays(&self) -> bool {
        &&& moves_held(self.dealt_hands(), self.tricks@, 4 * self.tricks.len())
        &&& self.hands_between_tricks().len() == SEATS
        &&& forall|p: int|
            0 <= p < SEATS ==> match self.current_trick.cards[p] {
                Some(c) => (#[trigger] self.hands_between_tricks()[p]).contains(c) && self.hand(p)
                    == self.hands_between_tricks()[p].remove_value(c),
                None => self.hand(p) == self.hands_between_tricks()[p],
            }
    }

    /// A state that a game of Hearts can be in.
    pub open spec fn wf(&self) -> bool {
        &&& self.seated()
        &&& self.cards_conserved()
        &&& self.hands_sized()
        &&& self.scores_kept()
        &&& self.hearts_tracked()
        &&& self.leaders_follow()
        &&& self.opens_with_two_of_clubs()
        &&& self.first_trick_clean()
        &&& self.first_trick_hands()
        &&& self.dealt_in_full()
        &&& self.replays()
    }

    /// The players bear the names and the policies of `configs`, seat by
    /// seat.
    pub open spec fn enrolls(&self, configs: Seq<(&str, Strategy)>) -> bool {
        &&& self.players.len() == configs.len()
        &&& forall|p: int|
            #![trigger self.players[p]]
            0 <= p < configs.len() ==> self.players[p].name@ == configs[p].0@
                && self.players[p].strategy == configs[p].1
    }

    /// The game is at its start, with `cards` dealt to the four seats: each
    /// holds its sorted hand and no points, no card is played, and the
    /// first seat that holds the Two of Clubs is to lead.
    pub open spec fn dealt_from(&self, cards: Seq<Card>) -> bool {
        &&& self.players.len() == SEATS
        &&& forall|p: int|
            #![trigger self.players[p]]
            0 <= p < SEATS ==> {
                &&& self.hand(p) == dealt_hand(cards, SEATS as int, p)
                &&& self.initial_hand(p) == dealt_hand(cards, SEATS as int, p)
                &&& self.players[p].score == 0
            }
        &&& self.tricks.len() == 0
        &&& self.current_trick.cards@ == seq![None::<Card>, None, None, None]
        &&& self.current_trick.first_player_index == self.current_player_index
        &&& !self.hearts_broken
        &&& self.current_player_index < SEATS
        &&& self.hand(self.current_player_index as int).contains(two_of_clubs())
        &&& forall|p: int|
            0 <= p < self.current_player_index ==> !(#[trigger] self.hand(p)).contains(two_of_clubs())
    }

    /// The names, the policies and the dealt hands are those of `before`.
    pub open spec fn continues(&self, before: HeartsGame) -> bool {
        &&& self.players.len() == before.players.len()
        &&& forall|p: int|
            #![trigger self.players[p]]
            0 <= p < before.players.len() ==> {
                &&& self.players[p].name == before.players[p].name
                &&& self.players[p].strategy == before.players[p].strategy
                &&& self.initial_hand(p) == before.initial_hand(p)
            }
    }

    /// What the player whose turn it is gets to see.
    pub open spec fn shows(&self, state: GameState) -> bool {
        &&& same_tricks(state.previous_tricks@, self.tricks@)
        &&& state.current_trick.same_as(self.current_trick)
        &&& state.player_hand@ == self.hand(self.current_player_index as int)
        &&& state.current_player_index == self.current_player_index
    }

    /// What the policy of the player whose turn it is consults: the state
    /// of the game if it asks for it, else nothing.
    pub open spec fn consults(&self, state: Option<GameState>) -> bool {
        if self.players[self.current_player_index as int].strategy.spec_needs_game_state() {
            state matches Some(s) && self.shows(s)
        } else {
            state is None
        }
    }

    /// The state after the player whose turn it was in `before` has played
    /// `card`: the card has gone from its hand into its slot; a fourth card
    /// ends the trick, which goes to the tricks that are over with its
    /// winner and its points, the winner takes the points and leads the
    /// next trick.
    pub open spec fn stepped(&self, before: HeartsGame, card: Card) -> bool {
        let seat = before.current_player_index as int;
        let slots = before.current_trick.cards@.update(seat, Some(card));
        &&& self.players.len() == before.players.len()
        &&& forall|p: int|
            #![trigger self.players[p]]
            0 <= p < before.players.len() ==> {
                &&& self.players[p].name == before.players[p].name
                &&& self.players[p].strategy == before.players[p].strategy
                &&& self.initial_hand(p) == before.initial_hand(p)
                &&& self.hand(p) == (if p == seat {
                    before.hand(p).filter(all_but(card))
                } else {
                    before.hand(p)
                })
            }
        &&& self.hearts_broken == (before.hearts_broken || card.spec_is_hearts())
        &&& if before.current_trick.played_count() < SEATS - 1 {
            &&& self.tricks@ == before.tricks@
            &&& self.current_trick.cards@ == slots
            &&& self.current_trick.first_player_index == before.current_trick.first_player_index
            &&& self.current_player_index == (seat + 1) % (SEATS as int)
            &&& forall|p: int|
                #![trigger self.players[p]]
                0 <= p < before.players.len() ==> self.players[p].score == before.players[p].score
        } else {
            let trick = self.tricks@.last();
            &&& self.tricks.len() == before.tricks.len() + 1
            &&& self.tricks@.drop_last() == before.tricks@
            &&& trick.cards@ == cards_in_slots(slots)
            &&& trick.first_player_index == before.current_trick.first_player_index
            &&& trick.wf()
            &&& self.current_trick.cards@ == seq![None::<Card>, None, None, None]
            &&& self.current_trick.first_player_index == trick.winner
            &&& self.current_player_index == trick.winner
            &&& forall|p: int|
                #![trigger self.players[p]]
                0 <= p < before.players.len() ==> self.players[p].score == before.players[p].score
                    + (if p == trick.winner {
                    trick.points as int
                } else {
                    0
                })
        }
    }

    /// A turn of the game: in `before`, a state that a game can be in and
    /// that is not over, the player whose turn it was has played `card`,
    /// a legal move that its policy may choose on what it consults.
    pub open spec fn turn_taken(&self, before: HeartsGame, card: Card) -> bool {
        let seat = before.current_player_index as int;
        &&& before.wf()
        &&& !before.spec_game_is_over()
        &&& before.spec_valid_moves(seat).contains(card)
        &&& self.stepped(before, card)
        &&& exists|state: Option<GameState>|
            #[trigger] before.consults(state) && before.players[seat].strategy.may_choose(
                before.spec_valid_moves(seat),
                state,
                Some(card),
            )
    }

    /// The game has come from `before` by the turns that played `cards`,
    /// one after the other.
    pub open spec fn played_out(&self, before: HeartsGame, cards: Seq<Card>) -> bool
        decreases cards.len(),
    {
        if cards.len() == 0 {
            *self == before
        } else {
            exists|mid: HeartsGame|
                mid.played_out(before, cards.drop_last()) && #[trigger] self.turn_taken(
                    mid,
                    cards.last(),
                )
        }
    }

    /// The policy of the player whose turn it is asks a remote predictor.
    pub open spec fn awaits_remote(&self) -> bool {
        self.players[self.current_player_index as int].strategy.spec_is_remote()
    }

    /// What a reply of the predictor comes to.
    pub open spec fn remote_outcome(&self, reply: RemoteReply) -> Result<Card, GameError> {
        let seat = self.current_player_index as int;
        if self.spec_game_is_over() {
            Err(GameError::GameOver)
        } else if !self.players[seat].strategy.spec_is_remote() {
            Err(GameError::Policy(StrategyError::NotRemote))
        } else {
            match remote_decision(self.spec_valid_moves(seat), reply) {
                Ok(card) => Ok(card),
                Err(e) => Err(GameError::Policy(e)),
            }
        }
    }

    /// How many cards are still to play.
    pub open spec fn cards_to_play(&self) -> int {
        (TRICKS - self.tricks.len()) * SEATS - self.current_trick.played_count()
    }
}

/// The game, turn by turn.
impl HeartsGame {
    /// A game of four players on a deck of its own, shuffled without a
    /// seed.
    pub fn new(player_configs: &[(&str, Strategy)]) -> (game: Result<HeartsGame, GameError>)
        ensures
            player_configs.len() == SEATS <==> game is Ok,
            game matches Err(e) ==> e == GameError::WrongPlayerCount,
            game matches Ok(g) ==> g.wf() && g.enrolls(player_configs@) && exists|cards: Seq<Card>|
                is_full_deck(cards) && #[trigger] g.dealt_from(cards),
    {
        HeartsGame::new_with_deck(player_configs, None)
    }

    /// A game of four players on a deck of its own, shuffled without a
    /// seed.
    pub fn new_with_strategies(player_configs: &[(&str, Strategy)]) -> (game: Result<
        HeartsGame,
        GameError,
    >)
        ensures
            player_configs.len() == SEATS <==> game is Ok,
            game matches Err(e) ==> e == GameError::WrongPlayerCount,
            game matches Ok(g) ==> g.wf() && g.enrolls(player_configs@) && exists|cards: Seq<Card>|
                is_full_deck(cards) && #[trigger] g.dealt_from(cards),
    {
        HeartsGame::new_with_deck(player_configs, None)
    }

    /// A game of four players on `deck`, or on a deck of its own where none
    /// is given. The deck is dealt to the four seats and whoever holds the
    /// Two of Clubs is to lead. There must be four players, and the deck
    /// must hold its cards.
    pub fn new_with_deck(player_configs: &[(&str, Strategy)], deck: Option<Deck>) -> (game: Result<
        HeartsGame,
        GameError,
    >)
        ensures
            game matches Err(e) ==> e == (if player_configs.len() != SEATS {
                GameError::WrongPlayerCount
            } else {
                GameError::DeckAlreadyDealt
            }),
            game is Err <==> player_configs.len() != SEATS || (deck matches Some(d) && d@.len()
                == 0),
            game matches Ok(g) ==> g.wf() && g.enrolls(player_configs@) && exists|cards: Seq<Card>|
                is_full_deck(cards) && #[trigger] g.dealt_from(cards),
            game matches Ok(g) ==> (deck matches Some(d) ==> g.dealt_from(d@)),
    {
        if player_configs.len() != SEATS {
            return Err(GameError::WrongPlayerCount);
        }
        let mut deck = match deck {
            Some(d) => d,
            None => Deck::new(None),
        };
        if deck.len() == 0 {
            return Err(GameError::DeckAlreadyDealt);
        }
        let ghost cards = deck@;
        let hands = match deck.deal(SEATS) {
            Ok(hands) => hands,
            Err(_) => {
                return Err(GameError::DeckAlreadyDealt);
            },
        };
        let mut players: Vec<Player> = Vec::new();
        let mut seat: usize = 0;
        while seat < SEATS
            invariant
                seat <= SEATS,
                player_configs.len() == SEATS,
                hands.len() == SEATS,
                players.len() == seat,
                forall|p: int|
                    0 <= p < SEATS ==> (#[trigger] hands[p])@ == dealt_hand(cards, SEATS as int, p),
                forall|p: int|
                    #![trigger players[p]]
                    0 <= p < seat ==> {
                        &&& players[p].name@ == player_configs[p].0@
                        &&& players[p].strategy == player_configs[p].1
                        &&& players[p].hand@ == dealt_hand(cards, SEATS as int, p)
                        &&& players[p].initial_hand@ == dealt_hand(cards, SEATS as int, p)
                        &&& players[p].score == 0
                    },
            decreases SEATS - seat,
        {
            let player = Player::new(
                player_configs[seat].0,
                hands[seat].clone(),
                player_configs[seat].1.clone(),
            );
            players.push(player);
            seat += 1;
        }
        proof {
            HeartsGame::lemma_two_of_clubs_dealt(cards);
            let p = choose|p: int|
                0 <= p < SEATS && (#[trigger] dealt_hand(cards, SEATS as int, p)).contains(
                    two_of_clubs(),
                );
            assert(players[p].hand@.contains(two_of_clubs()));
        }
        let current_player = HeartsGame::find_starting_player(&players);
        let current_trick = Trick::led_by(current_player);
        let game = HeartsGame {
            players,
            hearts_broken: false,
            current_player_index: current_player,
            tricks: Vec::new(),
            current_trick,
        };
        proof {
            assert(game.dealt_from(cards));
            game.lemma_start_is_wf(cards);
            assert(game.wf());
            assert(game.enrolls(player_configs@));
            assert(is_full_deck(cards) && game.dealt_from(cards));
        }
        Ok(game)
    }

    /// The first seat that holds the Two of Clubs; seat 0 if none does.
    pub fn find_starting_player(players: &Vec<Player>) -> (seat: usize)
        ensures
            seat < players.len() || seat == 0,
            (exists|p: int| 0 <= p < players.len() && (#[trigger] players[p]).hand@.contains(two_of_clubs()))
                ==> seat < players.len() && players[seat as int].hand@.contains(two_of_clubs()),
            (forall|p: int| 0 <= p < players.len() ==> !(#[trigger] players[p]).hand@.contains(two_of_clubs()))
                ==> seat == 0,
            forall|p: int| 0 <= p < seat ==> !(#[trigger] players[p]).hand@.contains(two_of_clubs()),
    {
        let two = Card::new(CLUBS, 2);
        let mut i: usize = 0;
        while i < players.len()
            invariant
                i <= players.len(),
                two == two_of_clubs(),
                forall|p: int| 0 <= p < i ==> !(#[trigger] players[p]).hand@.contains(two_of_clubs()),
            decreases players.len() - i,
        {
            if contains_card(players[i].hand.as_slice(), two) {
                return i;
            }
            i += 1;
        }
        0
    }

    pub open spec fn spec_game_is_over(&self) -> bool {
        self.tricks.len() == TRICKS
    }

    /// Whether the thirteen tricks are played.
    #[verifier::when_used_as_spec(spec_game_is_over)]
    pub fn game_is_over(&self) -> (over: bool)
        ensures
            over == self.spec_game_is_over(),
    {
        self.tricks.len() == TRICKS
    }

    /// What of the table decides the legal moves.
    pub fn table_state(&self) -> (table: TableState)
        ensures
            table == self.table(),
    {
        TableState {
            first_trick: self.tricks.len() == 0,
            lead_suit: self.current_trick.lead_suit(),
            hearts_broken: self.hearts_broken,
        }
    }

    /// The cards that `player_index` may play.
    pub fn get_valid_moves(&self, player_index: usize) -> (moves: Vec<Card>)
        requires
            player_index < self.players.len(),
        ensures
            moves@ == self.spec_valid_moves(player_index as int),
            self.players[player_index as int].hand.len() > 0 ==> moves.len() > 0,
    {
        let table = self.table_state();
        legal_moves(self.players[player_index].hand.as_slice(), &table)
    }

    /// What the player whose turn it is gets to see: the tricks that are
    /// over, the trick in progress, its hand and its seat.
    pub fn fetch_game_state(&self) -> (state: GameState)
        requires
            self.current_player_index < self.players.len(),
        ensures
            self.shows(state),
    {
        GameState {
            previous_tricks: copy_tricks(&self.tricks),
            current_trick: self.current_trick.clone(),
            player_hand: self.players[self.current_player_index].hand.clone(),
            current_player_index: self.current_player_index,
        }
    }

    /// One turn. The player whose turn it is plays the card that its policy
    /// chooses among its legal moves; a fourth card ends the trick. Where
    /// the policy is a remote predictor's, nothing is played: the game
    /// waits for `play_remote`. A finished game stays as it is.
    pub fn play_trick(&mut self) -> (turn: Turn)
        requires
            old(self).wf(),
        ensures
            final(self).wf(),
            final(self).continues(*old(self)),
            turn == Turn::Finished <==> old(self).spec_game_is_over(),
            turn == Turn::AwaitingRemote <==> !old(self).spec_game_is_over()
                && old(self).awaits_remote(),
            !(turn is Played) ==> *final(self) == *old(self),
            turn matches Turn::Played(card) ==> final(self).turn_taken(*old(self), card),
    {
        if self.game_is_over() {
            return Turn::Finished;
        }
        proof {
            self.lemma_turn();
            self.lemma_state_countable();
        }
        let seat = self.current_player_index;
        if self.players[seat].strategy.is_remote() {
            return Turn::AwaitingRemote;
        }
        let valid_moves = self.get_valid_moves(seat);
        let game_state = if self.players[seat].strategy.needs_game_state() {
            Some(self.fetch_game_state())
        } else {
            None
        };
        let ghost consulted = game_state;
        proof {
            if let Some(s) = consulted {
                self.lemma_shown_is_countable(s);
            }
        }
        let played = self.players[seat].play_card(valid_moves.as_slice(), game_state);
        match played {
            Some(card) => {
                self.place(card, Ghost(*old(self)));
                proof {
                    assert(old(self).consults(consulted));
                }
                Turn::Played(card)
            },
            None => Turn::AwaitingRemote,
        }
    }

    /// The turn of a player whose policy is a remote predictor's, on the
    /// reply of the predictor: the card that the reply names is played if
    /// it is a legal move. A failed exchange, an unreadable reply and a
    /// card that is no legal move are errors, and so is a reply when the
    /// game is over or the policy asks no predictor; the game then stays as
    /// it is.
    pub fn play_remote(&mut self, reply: RemoteReply) -> (played: Result<Card, GameError>)
        requires
            old(self).wf(),
        ensures
            final(self).wf(),
            final(self).continues(*old(self)),
            played == old(self).remote_outcome(reply),
            played matches Ok(card) ==> old(self).spec_valid_moves(
                old(self).current_player_index as int,
            ).contains(card) && final(self).stepped(*old(self), card),
            played is Err ==> *final(self) == *old(self),
    {
        if self.game_is_over() {
            return Err(GameError::GameOver);
        }
        proof {
            self.lemma_turn();
        }
        let seat = self.current_player_index;
        let valid_moves = self.get_valid_moves(seat);
        let decision = match &self.players[seat].strategy {
            Strategy::AI(predictor) => predictor.choose_from_reply(valid_moves.as_slice(), reply),
            _ => Err(StrategyError::NotRemote),
        };
        match decision {
            Ok(card) => {
                self.players[seat].discard(card);
                self.place(card, Ghost(*old(self)));
                Ok(card)
            },
            Err(e) => Err(GameError::Policy(e)),
        }
    }

    /// Plays turn after turn until the game is over or waits for a remote
    /// predictor.
    pub fn play_game(&mut self) -> (turn: Turn)
        requires
            old(self).wf(),
        ensures
            final(self).wf(),
            final(self).continues(*old(self)),
            turn == Turn::Finished <==> final(self).spec_game_is_over(),
            turn == Turn::AwaitingRemote <==> !final(self).spec_game_is_over(),
            turn == Turn::AwaitingRemote ==> final(self).awaits_remote(),
            exists|cards: Seq<Card>| #[trigger] final(self).played_out(*old(self), cards),
    {
        let ghost cards = Seq::<Card>::empty();
        loop
            invariant
                self.wf(),
                self.continues(*old(self)),
                self.played_out(*old(self), cards),
            decreases self.cards_to_play(),
        {
            let ghost before = *self;
            proof {
                self.lemma_turn();
            }
            let turn = self.play_trick();
            match turn {
                Turn::Played(card) => {
                    proof {
                        self.lemma_turn();
                        if before.current_trick.played_count() < SEATS - 1 {
                            self.current_trick.lemma_card_added(before.current_trick, card);
                        } else {
                            self.lemma_nothing_played();
                        }
                        self.lemma_played_on(before, *old(self), cards, card);
                        cards = cards.push(card);
                    }
                },
                _ => {
                    return turn;
                },
            }
        }
    }

    /// The record of the game, once it is over: the players as they end,
    /// the thirteen tricks, and as winner the first seat with the lowest
    /// score.
    pub fn completed_game(&self) -> (record: Option<CompletedHeartsGame>)
        requires
            self.wf(),
        ensures
            record is Some <==> self.spec_game_is_over(),
            record matches Some(r) ==> {
                &&& r.players.len() == SEATS
                &&& forall|p: int|
                    #![trigger r.players[p]]
                    0 <= p < SEATS ==> {
                        &&& r.players[p].name@ == self.players[p].name@
                        &&& r.players[p].initial_hand@ == self.players[p].initial_hand@
                        &&& r.players[p].score == self.players[p].score
                        &&& r.players[p].strategy@ == self.players[p].spec_strategy_name()@
                    }
                &&& same_tricks(r.previous_tricks@, self.tricks@)
                &&& r.previous_tricks.len() == TRICKS
                &&& r.hearts_broken == self.hearts_broken
                &&& leads_on_points(r.players@, r.winner_index as int)
                &&& r.players[0].score + r.players[1].score + r.players[2].score
                    + r.players[3].score == 26
                &&& r.replayable()
            },
    {
        if !self.game_is_over() {
            return None;
        }
        let mut players: Vec<PlayerInfo> = Vec::new();
        let mut seat: usize = 0;
        while seat < self.players.len()
            invariant
                seat <= self.players.len(),
                players.len() == seat,
                forall|p: int|
                    #![trigger players[p]]
                    0 <= p < seat ==> {
                        &&& players[p].name@ == self.players[p].name@
                        &&& players[p].initial_hand@ == self.players[p].initial_hand@
                        &&& players[p].score == self.players[p].score
                        &&& players[p].strategy@ == self.players[p].spec_strategy_name()@
                    },
            decreases self.players.len() - seat,
        {
            let p = &self.players[seat];
            players.push(
                PlayerInfo {
                    name: p.name.clone(),
                    initial_hand: p.initial_hand.clone(),
                    score: p.score,
                    strategy: p.strategy_name().to_owned(),
                },
            );
            seat += 1;
        }
        let winner_index = lowest_score_seat(&players);
        let previous_tricks = copy_tricks(&self.tricks);
        proof {
            self.lemma_final_scores();
            let dealt = self.dealt_hands();
            assert(initial_hands(players@) =~= dealt);
            assert(agree_upto(previous_tricks@, self.tricks@, TRICKS as int));
            lemma_replay_of_prefix(
                dealt,
                previous_tricks@,
                self.tricks@,
                TRICKS as int,
                4 * TRICKS,
            );
            assert(four_by_four(previous_tricks@)) by {
                assert forall|t: int| 0 <= t < previous_tricks.len() implies (#[trigger] previous_tricks[t]).cards.len()
                    == SEATS && previous_tricks[t].first_player_index < SEATS by {
                    assert(previous_tricks[t].same_as(self.tricks[t]));
                    assert(self.tricks[t].wf());
                }
            }
        }
        Some(
            CompletedHeartsGame {
                previous_tricks,
                players,
                hearts_broken: self.hearts_broken,
                winner_index,
            },
        )
    }

    /// Takes the card that the player whose turn it was in `before` has
    /// parted with into the trick, and closes the trick with the fourth
    /// card.
    fn place(&mut self, card: Card, Ghost(before): Ghost<HeartsGame>)
        requires
            before.wf(),
            !before.spec_game_is_over(),
            before.spec_valid_moves(before.current_player_index as int).contains(card),
            old(self).tricks@ == before.tricks@,
            old(self).current_trick.same_as(before.current_trick),
            old(self).current_player_index == before.current_player_index,
            old(self).hearts_broken == before.hearts_broken,
            old(self).players.len() == before.players.len(),
            forall|p: int|
                #![trigger old(self).players[p]]
                0 <= p < SEATS ==> {
                    &&& old(self).players[p].name == before.players[p].name
                    &&& old(self).players[p].strategy == before.players[p].strategy
                    &&& old(self).players[p].initial_hand@ == before.players[p].initial_hand@
                    &&& old(self).players[p].score == before.players[p].score
                    &&& old(self).players[p].hand@ == (if p == before.current_player_index {
                        before.players[p].hand@.filter(all_but(card))
                    } else {
                        before.players[p].hand@
                    })
                },
        ensures
            final(self).wf(),
            final(self).stepped(before, card),
    {
        let seat = self.current_player_index;
        proof {
            before.lemma_turn();
            lemma_legal_moves_within_hand(before.hand(seat as int), before.table());
        }
        if card.is_hearts() {
            self.hearts_broken = true;
        }
        proof {
            assert(self.current_trick.wf()) by {
                assert(self.current_trick.played_count() == before.current_trick.played_count());
                assert forall|j: int| 0 <= j < SEATS implies (#[trigger] self.current_trick.cards[self.current_trick.seat_after(
                    j,
                )] is Some <==> j < self.current_trick.played_count()) by {
                    assert(before.current_trick.cards[before.current_trick.seat_after(j)] is Some
                        <==> j < before.current_trick.played_count());
                }
            }
        }
        let added = self.current_trick.add_card(card, seat);
        assert(added is Ok);
        if self.current_trick.is_completed() {
            proof {
                self.current_trick.lemma_filled_seats();
                before.lemma_points_accounted();
                before.lemma_play_stays_in_bounds(card, self.current_trick.played_cards());
                assert forall|p: int| 0 <= p < SEATS implies (#[trigger] self.players[p]).score
                    + points_of(self.current_trick.played_cards()) <= u8::MAX by {
                    assert(self.players[p].score == before.players[p].score);
                }
            }
            self.complete_trick();
        } else {
            proof {
                self.current_trick.lemma_filled_seats();
            }
            self.current_player_index = (seat + 1) % SEATS;
        }
        proof {
            assert(self.stepped(before, card));
            self.lemma_step_keeps_wf(before, card);
        }
    }

    /// Closes the trick in progress, which every seat has played in: it
    /// goes to the tricks that are over with its winner and its points, the
    /// winner takes the points and leads the next trick. The cards stay
    /// where they are: the hands keep theirs, and the four cards of the
    /// trick lie in the tricks that are over.
    fn complete_trick(&mut self)
        requires
            old(self).players.len() == SEATS,
            old(self).current_trick.wf(),
            old(self).current_trick.played_count() == SEATS,
            forall|p: int|
                0 <= p < SEATS ==> (#[trigger] old(self).players[p]).score + points_of(
                    old(self).current_trick.played_cards(),
                ) <= u8::MAX,
        ensures
            final(self).hearts_broken == old(self).hearts_broken,
            final(self).tricks.len() == old(self).tricks.len() + 1,
            final(self).tricks@.drop_last() == old(self).tricks@,
            final(self).tricks@.last().cards@ == old(self).current_trick.played_cards(),
            final(self).tricks@.last().first_player_index == old(self).current_trick.first_player_index,
            final(self).tricks@.last().wf(),
            final(self).current_trick.cards@ == seq![None::<Card>, None, None, None],
            final(self).current_trick.first_player_index == final(self).tricks@.last().winner,
            final(self).current_player_index == final(self).tricks@.last().winner,
            final(self).current_trick.played_cards() == Seq::<Card>::empty(),
            final(self).all_cards().to_multiset() == old(self).all_cards().to_multiset(),
            old(self).cards_conserved() && old(self).hands_sized() ==> final(self).cards_conserved()
                && final(self).hands_sized() && final(self).parted_between_tricks(),
            final(self).players.len() == old(self).players.len(),
            forall|p: int|
                #![trigger final(self).players[p]]
                0 <= p < SEATS ==> {
                    &&& final(self).players[p].name == old(self).players[p].name
                    &&& final(self).players[p].strategy == old(self).players[p].strategy
                    &&& final(self).players[p].initial_hand@ == old(self).players[p].initial_hand@
                    &&& final(self).players[p].hand@ == old(self).players[p].hand@
                    &&& final(self).players[p].score == old(self).players[p].score + (if p == final(self).tricks@.last().winner {
                        final(self).tricks@.last().points as int
                    } else {
                        0
                    })
                },
    {
        let completed_trick = match self.current_trick.complete() {
            Some(trick) => trick,
            None => return,
        };
        let winner = completed_trick.winner;
        let points = completed_trick.points;
        assert(self.players[winner as int].score + points <= u8::MAX);
        self.players[winner].score = self.players[winner].score + points;
        self.tricks.push(completed_trick);
        self.current_trick = Trick::led_by(winner);
        self.current_player_index = winner;
        assert(self.tricks@.drop_last() == old(self).tricks@);
        proof {
            self.lemma_trick_closed(*old(self));
        }
    }
}

/// What holds of every game.
impl HeartsGame {
    /// At every moment of a game the cards in the four hands and on the
    /// table are the 52 cards of the deck, none twice; between two tricks
    /// every hand holds thirteen cards less one for each trick that is
    /// over.
    pub proof fn lemma_cards_partitioned(&self)
        requires
            self.wf(),
        ensures
            is_full_deck(self.all_cards()),
            self.all_cards().len() == DECK_SIZE,
            self.all_cards().no_duplicates(),
            self.current_trick.played_count() == 0 ==> forall|seat: int|
                0 <= seat < SEATS ==> (#[trigger] self.hand(seat)).len() == TRICKS
                    - self.tricks.len(),
            self.current_trick.played_count() == 0 ==> self.parted_between_tricks(),
    {
        lemma_same_cards_same_len(self.all_cards(), full_deck());
        lemma_full_deck_no_duplicates();
        full_deck().lemma_multiset_has_no_duplicates();
        self.all_cards().lemma_multiset_has_no_duplicates_conv();
        self.current_trick.lemma_filled_seats();
        if self.current_trick.played_count() == 0 {
            lemma_slots_all_or_none(self.current_trick.cards@);
            assert(self.current_trick.played_cards() == Seq::<Card>::empty());
            assert(self.all_cards() =~= self.cards_in_hands() + history_cards(self.tricks@));
            assert forall|seat: int| 0 <= seat < SEATS implies (#[trigger] self.hand(seat)).len()
                == TRICKS - self.tricks.len() by {
                assert(self.hand(seat).len() + self.tricks.len() + (if self.current_trick.cards[seat] is Some {
                    1int
                } else {
                    0int
                }) == TRICKS);
            }
        }
    }

    /// When the game is over the hands are empty, the tricks hold the 52
    /// cards and the scores of the four players add up to 26.
    pub proof fn lemma_final_scores(&self)
        requires
            self.wf(),
            self.spec_game_is_over(),
        ensures
            self.players[0].score + self.players[1].score + self.players[2].score
                + self.players[3].score == 26,
            is_full_deck(history_cards(self.tricks@)),
            forall|seat: int| 0 <= seat < SEATS ==> (#[trigger] self.hand(seat)).len() == 0,
    {
        self.lemma_turn();
        self.current_trick.lemma_filled_seats();
        self.lemma_points_accounted();
        assert forall|seat: int| 0 <= seat < SEATS implies (#[trigger] self.hand(seat)).len()
            == 0 && self.current_trick.cards[seat] is None by {
            assert(self.hand(seat).len() + self.tricks.len() + (if self.current_trick.cards[seat] is Some {
                1int
            } else {
                0int
            }) == TRICKS);
        }
        assert(self.hand(0).len() == 0);
        assert(self.hand(1).len() == 0);
        assert(self.hand(2).len() == 0);
        assert(self.hand(3).len() == 0);
        assert(self.cards_in_hands() =~= Seq::<Card>::empty());
        lemma_slots_all_or_none(self.current_trick.cards@);
        assert(self.current_trick.played_cards() == Seq::<Card>::empty());
        assert(self.all_cards() =~= history_cards(self.tricks@));
    }

    /// What the players have taken and what is still to take make the 26
    /// points of the deck.
    pub proof fn lemma_points_accounted(&self)
        requires
            self.seated(),
            self.cards_conserved(),
            self.scores_kept(),
        ensures
            self.players[0].score + self.players[1].score + self.players[2].score
                + self.players[3].score + points_of(self.current_trick.played_cards()) + points_of(
                self.cards_in_hands(),
            ) == 26,
    {
        self.lemma_all_cards_parts();
        lemma_points_of_same_cards(self.all_cards(), full_deck());
        lemma_full_deck_points();
        lemma_points_won_total(self.tricks@);
        lemma_points_of_concat(self.hand(0), self.hand(1));
        lemma_points_of_concat(self.hand(0) + self.hand(1), self.hand(2));
        lemma_points_of_concat(self.hand(0) + self.hand(1) + self.hand(2), self.hand(3));
        assert(self.players[0].score == points_won(self.tricks@, 0));
        assert(self.players[1].score == points_won(self.tricks@, 1));
        assert(self.players[2].score == points_won(self.tricks@, 2));
        assert(self.players[3].score == points_won(self.tricks@, 3));
    }

    /// Every trick that is over went to the seat with the highest card of
    /// the suit that was led: no card of another suit takes a trick.
    pub proof fn lemma_tricks_go_to_highest(&self, i: int)
        requires
            self.wf(),
            0 <= i < self.tricks.len(),
        ensures
            is_trick_winner(
                self.tricks[i].cards@,
                self.tricks[i].first_player_index as int,
                self.tricks[i].winner as int,
            ),
            self.tricks[i].cards[self.tricks[i].winner as int].suit
                == self.tricks[i].cards[self.tricks[i].first_player_index as int].suit,
            self.tricks[i].points == points_of(self.tricks[i].cards@),
    {
        assert(self.tricks[i].wf());
    }

    /// A penalty card lies in the first trick only where its player had
    /// nothing else: the hand that it was dealt, from which it played, held
    /// penalty cards alone.
    pub proof fn lemma_first_trick_forced(&self, seat: int, i: int)
        requires
            self.wf(),
            0 <= seat < SEATS,
            self.first_trick_card(seat) matches Some(c) && c.spec_is_penalty(),
            0 <= i < self.initial_hand(seat).len(),
        ensures
            self.initial_hand(seat)[i].spec_is_penalty(),
    {
    }

    /// At the first play of the game the one legal move is the Two of
    /// Clubs.
    pub proof fn lemma_opening_move(&self)
        requires
            self.seated(),
            self.cards_conserved(),
            self.opens_with_two_of_clubs(),
            self.tricks.len() == 0,
            self.current_trick.played_count() == 0,
        ensures
            self.spec_valid_moves(self.current_player_index as int) == seq![two_of_clubs()],
    {
        broadcast use vstd::multiset::group_multiset_axioms;

        self.lemma_turn();
        self.lemma_all_cards_parts();
        lemma_full_deck_no_duplicates();
        full_deck().lemma_multiset_has_no_duplicates();
        let hand = self.hand(self.current_player_index as int);
        vstd::seq_lib::to_multiset_contains(hand, two_of_clubs());
        assert(self.all_cards().to_multiset().count(two_of_clubs()) >= 1);
        assert(full_deck().to_multiset().contains(two_of_clubs()));
        assert(hand.to_multiset().count(two_of_clubs()) == 1);
        lemma_only_two_of_clubs(hand);
    }

    /// A game at its start, dealt from the 52 cards, is in a state that a
    /// game of Hearts can be in.
    pub proof fn lemma_start_is_wf(&self, cards: Seq<Card>)
        requires
            is_full_deck(cards),
            self.dealt_from(cards),
        ensures
            self.wf(),
    {
        broadcast use vstd::multiset::group_multiset_axioms;

        lemma_same_cards_same_len(cards, full_deck());
        lemma_dealt_to_four(cards);
        lemma_sorted_cards_same(dealt(cards, 4, 0));
        lemma_sorted_cards_same(dealt(cards, 4, 1));
        lemma_sorted_cards_same(dealt(cards, 4, 2));
        lemma_sorted_cards_same(dealt(cards, 4, 3));
        assert(self.hand(0) == dealt_hand(cards, 4, 0)) by {
            assert(self.players[0].score == 0);
        }
        assert(self.hand(1) == dealt_hand(cards, 4, 1)) by {
            assert(self.players[1].score == 0);
        }
        assert(self.hand(2) == dealt_hand(cards, 4, 2)) by {
            assert(self.players[2].score == 0);
        }
        assert(self.hand(3) == dealt_hand(cards, 4, 3)) by {
            assert(self.players[3].score == 0);
        }
        self.lemma_nothing_played();
        self.lemma_all_cards_parts();
        assert(history_cards(self.tricks@) == Seq::<Card>::empty());
        assert(self.all_cards().to_multiset() =~= cards.to_multiset());
        assert(self.current_trick.wf());
        assert(self.seated());
        assert(self.hands_sized()) by {
            assert forall|seat: int| 0 <= seat < SEATS implies (#[trigger] self.hand(seat)).len()
                + self.tricks.len() + (if self.current_trick.cards[seat] is Some {
                1int
            } else {
                0int
            }) == TRICKS by {
                assert(self.players[seat].score == 0);
                assert(dealt(cards, 4, seat).len() == 13);
            }
        }
        assert(self.scores_kept());
        assert(self.hearts_tracked()) by {
            assert(self.cards_on_table() =~= Seq::<Card>::empty());
        }
        assert(self.first_trick_hands()) by {
            assert forall|seat: int|
                0 <= seat < SEATS && self.current_trick.cards[seat] is None implies #[trigger] self.hand(
                seat,
            ) == self.initial_hand(seat) by {
                assert(self.players[seat].score == 0);
            }
        }
        assert(self.replays()) by {
            assert(self.hands_between_tricks() == self.dealt_hands());
            assert forall|p: int| 0 <= p < SEATS implies self.hand(p)
                == (#[trigger] self.hands_between_tricks()[p]) by {
                assert(self.players[p].score == 0);
            }
        }
        assert(self.dealt_in_full()) by {
            lemma_multiset_commutative(self.initial_hand(0), self.initial_hand(1));
            lemma_multiset_commutative(
                self.initial_hand(0) + self.initial_hand(1),
                self.initial_hand(2),
            );
            lemma_multiset_commutative(
                self.initial_hand(0) + self.initial_hand(1) + self.initial_hand(2),
                self.initial_hand(3),
            );
            assert(self.cards_dealt().to_multiset() =~= cards.to_multiset());
            assert forall|seat: int| 0 <= seat < SEATS implies (#[trigger] self.initial_hand(
                seat,
            )).len() == TRICKS by {
                assert(self.players[seat].score == 0);
                assert(dealt(cards, 4, seat).len() == 13);
            }
        }
    }

    /// Of the 52 cards some seat is dealt the Two of Clubs.
    pub proof fn lemma_two_of_clubs_dealt(cards: Seq<Card>)
        requires
            is_full_deck(cards),
        ensures
            exists|p: int|
                0 <= p < SEATS && (#[trigger] dealt_hand(cards, SEATS as int, p)).contains(
                    two_of_clubs(),
                ),
    {
        broadcast use vstd::multiset::group_multiset_axioms;

        let two = two_of_clubs();
        lemma_full_deck_contains(two);
        vstd::seq_lib::to_multiset_contains(full_deck(), two);
        lemma_dealt_to_four(cards);
        lemma_sorted_cards_same(dealt(cards, 4, 0));
        lemma_sorted_cards_same(dealt(cards, 4, 1));
        lemma_sorted_cards_same(dealt(cards, 4, 2));
        lemma_sorted_cards_same(dealt(cards, 4, 3));
        vstd::seq_lib::to_multiset_contains(dealt_hand(cards, 4, 0), two);
        vstd::seq_lib::to_multiset_contains(dealt_hand(cards, 4, 1), two);
        vstd::seq_lib::to_multiset_contains(dealt_hand(cards, 4, 2), two);
        vstd::seq_lib::to_multiset_contains(dealt_hand(cards, 4, 3), two);
        if dealt_hand(cards, 4, 0).contains(two) {
        } else if dealt_hand(cards, 4, 1).contains(two) {
        } else if dealt_hand(cards, 4, 2).contains(two) {
        } else {
            assert(dealt_hand(cards, 4, 3).contains(two));
        }
    }

    /// A legal play leaves a state that a game of Hearts can be in.
    pub proof fn lemma_step_keeps_wf(&self, before: HeartsGame, card: Card)
        requires
            before.wf(),
            !before.spec_game_is_over(),
            before.spec_valid_moves(before.current_player_index as int).contains(card),
            self.stepped(before, card),
        ensures
            self.wf(),
    {
        let seat = before.current_player_index as int;
        lemma_legal_moves_within_hand(before.hand(seat), before.table());
        assert(before.hand(seat).contains(card));
        self.lemma_step_seated(before, card);
        self.lemma_step_moves_card(before, card);
        self.lemma_step_hands_sized(before, card);
        self.lemma_step_scores_kept(before, card);
        self.lemma_step_hearts_tracked(before, card);
        self.lemma_step_leaders_follow(before, card);
        self.lemma_step_opening(before, card);
        self.lemma_step_first_trick(before, card);
        self.lemma_step_replays(before, card);
        assert(self.cards_dealt() == before.cards_dealt()) by {
            assert(self.players[0].name == before.players[0].name);
            assert(self.players[1].name == before.players[1].name);
            assert(self.players[2].name == before.players[2].name);
            assert(self.players[3].name == before.players[3].name);
        }
        assert forall|p: int| 0 <= p < SEATS implies (#[trigger] self.initial_hand(p)).len()
            == TRICKS by {
            assert(self.players[p].name == before.players[p].name);
            assert(before.initial_hand(p).len() == TRICKS);
        }
    }

    /// No turn takes points from a player.
    pub proof fn lemma_scores_never_fall(&self, before: HeartsGame, cards: Seq<Card>, seat: int)
        requires
            self.played_out(before, cards),
            0 <= seat < before.players.len(),
        ensures
            self.players.len() == before.players.len(),
            self.players[seat].score >= before.players[seat].score,
        decreases cards.len(),
    {
        if cards.len() > 0 {
            let mid = choose|mid: HeartsGame|
                mid.played_out(before, cards.drop_last()) && #[trigger] self.turn_taken(
                    mid,
                    cards.last(),
                );
            mid.lemma_scores_never_fall(before, cards.drop_last(), seat);
            assert(self.players[seat].name == mid.players[seat].name);
        }
    }

    /// One more turn is one more card in the run of the game.
    pub proof fn lemma_played_on(
        &self,
        before: HeartsGame,
        start: HeartsGame,
        cards: Seq<Card>,
        card: Card,
    )
        requires
            before.played_out(start, cards),
            self.turn_taken(before, card),
        ensures
            self.played_out(start, cards.push(card)),
    {
        let next = cards.push(card);
        assert(next.drop_last() == cards);
        assert(next.last() == card);
        assert(before.played_out(start, next.drop_last()) && self.turn_taken(before, next.last()));
    }

    /// A run of turns leaves a state that a game of Hearts can be in, with
    /// the names, the policies and the dealt hands that it started with.
    pub proof fn lemma_played_out_keeps_wf(&self, before: HeartsGame, cards: Seq<Card>)
        requires
            before.wf(),
            self.played_out(before, cards),
        ensures
            self.wf(),
            self.continues(before),
        decreases cards.len(),
    {
        if cards.len() > 0 {
            let mid = choose|mid: HeartsGame|
                mid.played_out(before, cards.drop_last()) && #[trigger] self.turn_taken(
                    mid,
                    cards.last(),
                );
            mid.lemma_played_out_keeps_wf(before, cards.drop_last());
            self.lemma_step_keeps_wf(mid, cards.last());
        }
    }

    /// Whose turn it is: a seat at the table that has not played in the
    /// trick in progress.
    pub proof fn lemma_turn(&self)
        requires
            self.seated(),
        ensures
            self.current_player_index < SEATS,
            self.current_trick.cards[self.current_player_index as int] is None,
            self.current_trick.played_count() == 0 <==> self.current_trick.spec_lead_suit() is None,
            self.current_trick.played_count() > 0 ==> self.current_trick.first_player_index
                != self.current_player_index,
            self.current_trick.played_count() == 0 ==> self.current_trick.first_player_index
                == self.current_player_index,
            self.current_trick.played_count() == SEATS - 1 ==> forall|p: int|
                0 <= p < SEATS && p != self.current_player_index
                    ==> self.current_trick.cards[p] is Some,
    {
        self.current_trick.lemma_filled_seats();
    }

    /// The cards of the game, part by part.
    pub proof fn lemma_all_cards_parts(&self)
        ensures
            self.all_cards().to_multiset() == self.hand(0).to_multiset().add(
                self.hand(1).to_multiset(),
            ).add(self.hand(2).to_multiset()).add(self.hand(3).to_multiset()).add(
                history_cards(self.tricks@).to_multiset(),
            ).add(self.current_trick.played_cards().to_multiset()),
            self.cards_on_table().to_multiset() == history_cards(self.tricks@).to_multiset().add(
                self.current_trick.played_cards().to_multiset(),
            ),
            points_of(self.all_cards()) == points_of(self.hand(0)) + points_of(self.hand(1))
                + points_of(self.hand(2)) + points_of(self.hand(3)) + points_of(
                history_cards(self.tricks@),
            ) + points_of(self.current_trick.played_cards()),
            self.all_cards().len() == self.hand(0).len() + self.hand(1).len() + self.hand(2).len()
                + self.hand(3).len() + history_cards(self.tricks@).len()
                + self.current_trick.played_cards().len(),
    {
        let h0 = self.hand(0);
        let h1 = self.hand(1);
        let h2 = self.hand(2);
        let h3 = self.hand(3);
        let past = history_cards(self.tricks@);
        let now = self.current_trick.played_cards();
        lemma_multiset_commutative(h0, h1);
        lemma_multiset_commutative(h0 + h1, h2);
        lemma_multiset_commutative(h0 + h1 + h2, h3);
        lemma_multiset_commutative(past, now);
        lemma_multiset_commutative(h0 + h1 + h2 + h3, past + now);
        lemma_points_of_concat(h0, h1);
        lemma_points_of_concat(h0 + h1, h2);
        lemma_points_of_concat(h0 + h1 + h2, h3);
        lemma_points_of_concat(past, now);
        lemma_points_of_concat(h0 + h1 + h2 + h3, past + now);
        assert(self.all_cards().to_multiset() =~= h0.to_multiset().add(h1.to_multiset()).add(
            h2.to_multiset(),
        ).add(h3.to_multiset()).add(past.to_multiset()).add(now.to_multiset()));
    }

    /// An empty trick holds no cards.
    pub proof fn lemma_nothing_played(&self)
        requires
            self.current_trick.cards@ == seq![None::<Card>, None, None, None],
        ensures
            self.current_trick.played_cards() == Seq::<Card>::empty(),
            self.current_trick.played_cards().to_multiset() == Multiset::<Card>::empty(),
            self.current_trick.played_count() == 0,
    {
        let slots = self.current_trick.cards@;
        assert forall|i: int| 0 <= i < slots.len() implies slots[i] is None by {}
        lemma_slots_all_or_none(slots);
        let now = self.current_trick.played_cards();
        assert forall|c: Card| now.to_multiset().count(c) == 0 by {
            vstd::seq_lib::to_multiset_contains(now, c);
        }
        assert(now.to_multiset() =~= Multiset::<Card>::empty());
    }

    /// What a play does to the cards: one card goes from the hand of the
    /// player to the table, and the cards of the game stay the same.
    pub proof fn lemma_step_moves_card(&self, before: HeartsGame, card: Card)
        requires
            before.seated(),
            before.cards_conserved(),
            before.hand(before.current_player_index as int).contains(card),
            self.stepped(before, card),
        ensures
            self.hand(before.current_player_index as int).to_multiset() == before.hand(
                before.current_player_index as int,
            ).to_multiset().remove(card),
            self.hand(before.current_player_index as int).len() + 1 == before.hand(
                before.current_player_index as int,
            ).len(),
            self.cards_on_table().to_multiset() == before.cards_on_table().to_multiset().insert(
                card,
            ),
            self.all_cards().to_multiset() == before.all_cards().to_multiset(),
            !before.cards_on_table().contains(card),
            before.hand(before.current_player_index as int).to_multiset().count(card) == 1,
    {
        broadcast use vstd::multiset::group_multiset_axioms;

        let seat = before.current_player_index as int;
        let slots = before.current_trick.cards@.update(seat, Some(card));
        before.current_trick.lemma_filled_seats();
        before.lemma_all_cards_parts();
        self.lemma_all_cards_parts();
        lemma_full_deck_no_duplicates();
        full_deck().lemma_multiset_has_no_duplicates();
        vstd::seq_lib::to_multiset_contains(before.hand(seat), card);
        vstd::seq_lib::to_multiset_contains(before.cards_on_table(), card);
        assert(before.all_cards().to_multiset().count(card) >= 1);
        assert(full_deck().to_multiset().contains(card));
        assert(before.hand(seat).to_multiset().count(card) == 1);
        lemma_remove_single(before.hand(seat), card);
        lemma_slot_filled(before.current_trick.cards@, seat, card);
        assert(self.players[0].name == before.players[0].name);
        assert(self.players[1].name == before.players[1].name);
        assert(self.players[2].name == before.players[2].name);
        assert(self.players[3].name == before.players[3].name);
        if before.current_trick.played_count() < SEATS - 1 {
        } else {
            assert(self.tricks@ == before.tricks@.push(self.tricks@.last()));
            assert(self.tricks@.drop_last() == before.tricks@);
            lemma_multiset_commutative(history_cards(before.tricks@), self.tricks@.last().cards@);
            self.lemma_nothing_played();
        }
        assert(self.cards_on_table().to_multiset() =~= before.cards_on_table().to_multiset().insert(
            card,
        ));
        assert(self.all_cards().to_multiset() =~= before.all_cards().to_multiset());
    }
}

/// How a turn keeps the game in a state that it can be in.
impl HeartsGame {
    /// After a turn the table is set as before: four players, tricks as
    /// their cards decide, and a trick that waits for the next player.
    proof fn lemma_step_seated(&self, before: HeartsGame, card: Card)
        requires
            before.seated(),
            !before.spec_game_is_over(),
            self.stepped(before, card),
        ensures
            self.seated(),
    {
        before.lemma_turn();
        if before.current_trick.played_count() < SEATS - 1 {
            self.current_trick.lemma_card_added(before.current_trick, card);
        } else {
            self.lemma_nothing_played();
            assert forall|i: int| 0 <= i < self.tricks.len() implies (#[trigger] self.tricks[i]).wf() by {
                if i < before.tricks.len() {
                    assert(self.tricks@.drop_last()[i] == before.tricks[i]);
                } else {
                    assert(self.tricks[i] == self.tricks@.last());
                }
            }
            assert(self.current_trick.wf());
        }
    }

    /// After a turn every hand is as large as the tricks played allow.
    proof fn lemma_step_hands_sized(&self, before: HeartsGame, card: Card)
        requires
            before.seated(),
            before.cards_conserved(),
            before.hands_sized(),
            before.hand(before.current_player_index as int).contains(card),
            self.stepped(before, card),
        ensures
            self.hands_sized(),
    {
        before.lemma_turn();
        self.lemma_step_moves_card(before, card);
        assert forall|seat: int| 0 <= seat < SEATS implies (#[trigger] self.hand(seat)).len()
            + self.tricks.len() + (if self.current_trick.cards[seat] is Some {
            1int
        } else {
            0int
        }) == TRICKS by {
            assert(before.hand(seat).len() + before.tricks.len() + (if before.current_trick.cards[seat] is Some {
                1int
            } else {
                0int
            }) == TRICKS);
            assert(self.players[seat].name == before.players[seat].name);
        }
    }

    /// After a turn every player has the points of the tricks it took.
    proof fn lemma_step_scores_kept(&self, before: HeartsGame, card: Card)
        requires
            before.seated(),
            before.scores_kept(),
            self.stepped(before, card),
        ensures
            self.scores_kept(),
    {
        assert forall|seat: int| 0 <= seat < SEATS implies (#[trigger] self.players[seat]).score
            == points_won(self.tricks@, seat) by {
            assert(before.players[seat].score == points_won(before.tricks@, seat));
        }
    }

    /// After a turn Hearts are broken exactly if a Heart has been played.
    proof fn lemma_step_hearts_tracked(&self, before: HeartsGame, card: Card)
        requires
            before.seated(),
            before.cards_conserved(),
            before.hearts_tracked(),
            before.hand(before.current_player_index as int).contains(card),
            self.stepped(before, card),
        ensures
            self.hearts_tracked(),
    {
        broadcast use vstd::multiset::group_multiset_axioms;

        self.lemma_step_moves_card(before, card);
        assert forall|c: Card|
            (#[trigger] self.cards_on_table().contains(c)) <==> (before.cards_on_table().contains(c)
                || c == card) by {
            vstd::seq_lib::to_multiset_contains(self.cards_on_table(), c);
            vstd::seq_lib::to_multiset_contains(before.cards_on_table(), c);
        }
        if self.hearts_broken {
            if before.hearts_broken {
                let c = choose|c: Card|
                    c.spec_is_hearts() && #[trigger] before.cards_on_table().contains(c);
                assert(self.cards_on_table().contains(c));
            } else {
                assert(self.cards_on_table().contains(card));
            }
        }
        if exists|c: Card| c.spec_is_hearts() && #[trigger] self.cards_on_table().contains(c) {
            let c = choose|c: Card| c.spec_is_hearts() && #[trigger] self.cards_on_table().contains(c);
            if c != card {
                assert(before.cards_on_table().contains(c));
            }
        }
    }

    /// After a turn the winner of every trick leads the next.
    proof fn lemma_step_leaders_follow(&self, before: HeartsGame, card: Card)
        requires
            before.seated(),
            before.leaders_follow(),
            self.stepped(before, card),
        ensures
            self.leaders_follow(),
    {
        if before.current_trick.played_count() < SEATS - 1 {
        } else {
            assert forall|i: int| 0 < i < self.tricks.len() implies (#[trigger] self.tricks[i]).first_player_index
                == self.tricks[i - 1].winner by {
                assert(self.tricks@.drop_last()[i - 1] == before.tricks[i - 1]);
                if i < before.tricks.len() {
                    assert(self.tricks@.drop_last()[i] == before.tricks[i]);
                } else {
                    assert(self.tricks[i] == self.tricks@.last());
                    assert(before.tricks@.last() == before.tricks[i - 1]);
                }
            }
        }
    }

    /// The card that opens the game is the Two of Clubs.
    proof fn lemma_opening_card(&self, card: Card)
        requires
            self.seated(),
            self.cards_conserved(),
            self.opens_with_two_of_clubs(),
            self.tricks.len() == 0,
            self.current_trick.played_count() == 0,
            self.spec_valid_moves(self.current_player_index as int).contains(card),
        ensures
            card == two_of_clubs(),
    {
        self.lemma_opening_move();
        let moves = self.spec_valid_moves(self.current_player_index as int);
        let k = choose|k: int| 0 <= k < moves.len() && moves[k] == card;
        assert(moves[k] == two_of_clubs());
    }

    /// After a turn the game still opens with the Two of Clubs.
    proof fn lemma_step_opening(&self, before: HeartsGame, card: Card)
        requires
            before.seated(),
            before.cards_conserved(),
            before.opens_with_two_of_clubs(),
            !before.spec_game_is_over(),
            before.spec_valid_moves(before.current_player_index as int).contains(card),
            self.stepped(before, card),
            self.seated(),
        ensures
            self.opens_with_two_of_clubs(),
    {
        before.lemma_turn();
        let seat = before.current_player_index as int;
        let slots = before.current_trick.cards@.update(seat, Some(card));
        if before.tricks.len() > 0 {
            if before.current_trick.played_count() == SEATS - 1 {
                assert(self.tricks@.drop_last()[0] == before.tricks[0]);
            }
        } else if before.current_trick.played_count() > 0 {
            if before.current_trick.played_count() == SEATS - 1 {
                assert(self.tricks[0] == self.tricks@.last());
                assert forall|i: int| 0 <= i < slots.len() implies slots[i] is Some by {}
                lemma_slots_all_or_none(slots);
            } else {
                self.current_trick.lemma_card_added(before.current_trick, card);
            }
        } else {
            before.lemma_opening_card(card);
            self.current_trick.lemma_card_added(before.current_trick, card);
        }
    }

    /// After a turn the first trick holds a penalty card only from a hand
    /// of penalty cards, and who has not played in it holds its dealt hand.
    proof fn lemma_step_first_trick(&self, before: HeartsGame, card: Card)
        requires
            before.seated(),
            before.opens_with_two_of_clubs(),
            before.first_trick_clean(),
            before.first_trick_hands(),
            !before.spec_game_is_over(),
            before.spec_valid_moves(before.current_player_index as int).contains(card),
            self.stepped(before, card),
        ensures
            self.first_trick_clean(),
            self.first_trick_hands(),
    {
        before.lemma_turn();
        let seat = before.current_player_index as int;
        let slots = before.current_trick.cards@.update(seat, Some(card));
        assert(self.players[seat].name == before.players[seat].name);
        if before.tricks.len() > 0 {
            assert forall|p: int| 0 <= p < SEATS implies self.first_trick_card(p)
                == before.first_trick_card(p) && self.initial_hand(p) == before.initial_hand(p) by {
                assert(self.players[p].name == before.players[p].name);
                if before.current_trick.played_count() == SEATS - 1 {
                    assert(self.tricks@.drop_last()[0] == before.tricks[0]);
                }
            }
            assert forall|p: int|
                #![trigger self.first_trick_card(p)]
                0 <= p < SEATS implies (self.first_trick_card(p) matches Some(c) && c.spec_is_penalty()
                ==> forall|i: int|
                0 <= i < self.initial_hand(p).len() ==> self.initial_hand(p)[i].spec_is_penalty()) by {
                assert(self.first_trick_card(p) == before.first_trick_card(p));
                assert(before.first_trick_card(p) matches Some(c) && c.spec_is_penalty()
                    ==> forall|i: int|
                    0 <= i < before.initial_hand(p).len() ==> before.initial_hand(p)[i].spec_is_penalty());
            }
        } else {
            let hand = before.hand(seat);
            assert(hand == before.initial_hand(seat));
            if card.spec_is_penalty() {
                if before.current_trick.played_count() > 0 {
                    assert(before.current_trick.spec_lead_suit() == Some(two_of_clubs().suit));
                }
                lemma_first_trick_penalty_forced(hand, before.table(), card);
            }
            if before.current_trick.played_count() == SEATS - 1 {
                assert(self.tricks[0] == self.tricks@.last());
                assert forall|i: int| 0 <= i < slots.len() implies slots[i] is Some by {}
                lemma_slots_all_or_none(slots);
            }
            assert forall|p: int| 0 <= p < SEATS implies self.first_trick_card(p) == slots[p]
                && self.initial_hand(p) == before.initial_hand(p) by {
                assert(self.players[p].name == before.players[p].name);
            }
            assert forall|p: int|
                #![trigger self.first_trick_card(p)]
                0 <= p < SEATS implies (self.first_trick_card(p) matches Some(c) && c.spec_is_penalty()
                ==> forall|i: int|
                0 <= i < self.initial_hand(p).len() ==> self.initial_hand(p)[i].spec_is_penalty()) by {
                assert(self.first_trick_card(p) == slots[p]);
                if p != seat {
                    assert(before.first_trick_card(p) == slots[p]);
                    assert(before.first_trick_card(p) matches Some(c) && c.spec_is_penalty()
                        ==> forall|i: int|
                        0 <= i < before.initial_hand(p).len() ==> before.initial_hand(
                            p,
                        )[i].spec_is_penalty());
                }
            }
            if self.tricks.len() == 0 {
                assert forall|p: int|
                    0 <= p < SEATS && self.current_trick.cards[p] is None implies #[trigger] self.hand(
                    p,
                ) == self.initial_hand(p) by {
                    assert(self.players[p].name == before.players[p].name);
                    assert(before.hand(p) == before.initial_hand(p));
                }
            }
        }
    }

    /// After a turn the tricks that are over can still be played again
    /// from the dealt hands.
    proof fn lemma_step_replays(&self, before: HeartsGame, card: Card)
        requires
            before.seated(),
            before.cards_conserved(),
            before.replays(),
            !before.spec_game_is_over(),
            before.hand(before.current_player_index as int).contains(card),
            self.stepped(before, card),
        ensures
            self.replays(),
    {
        before.lemma_turn();
        self.lemma_step_moves_card(before, card);
        let seat = before.current_player_index as int;
        let slots = before.current_trick.cards@.update(seat, Some(card));
        let dealt = before.dealt_hands();
        let between = before.hands_between_tricks();
        lemma_single_removed(before.hand(seat), card);
        assert(self.dealt_hands() =~= dealt) by {
            assert forall|p: int| 0 <= p < SEATS implies self.initial_hand(p) == before.initial_hand(
                p,
            ) by {
                assert(self.players[p].name == before.players[p].name);
            }
        }
        assert forall|p: int| 0 <= p < SEATS implies self.hand(p) == (if p == seat {
            before.hand(p).filter(all_but(card))
        } else {
            before.hand(p)
        }) by {
            assert(self.players[p].name == before.players[p].name);
        }
        assert forall|p: int| 0 <= p < SEATS implies match slots[p] {
            Some(c) => (#[trigger] between[p]).contains(c) && self.hand(p) == between[p].remove_value(
                c,
            ),
            None => self.hand(p) == between[p],
        } by {
            assert(match before.current_trick.cards[p] {
                Some(c) => between[p].contains(c) && before.hand(p) == between[p].remove_value(c),
                None => before.hand(p) == between[p],
            });
        }
        if before.current_trick.played_count() < SEATS - 1 {
            assert(self.hands_between_tricks() == between);
        } else {
            let n = before.tricks.len() as int;
            let trick = self.tricks@.last();
            assert(self.tricks[n] == trick);
            assert forall|i: int| 0 <= i < slots.len() implies slots[i] is Some by {}
            lemma_slots_all_or_none(slots);
            assert(agree_upto(self.tricks@, before.tricks@, n)) by {
                assert forall|i: int| 0 <= i < n implies (#[trigger] self.tricks[i]).cards@
                    == before.tricks[i].cards@ && self.tricks[i].first_player_index
                    == before.tricks[i].first_player_index by {
                    assert(self.tricks@.drop_last()[i] == before.tricks[i]);
                }
            }
            lemma_replay_of_prefix(dealt, self.tricks@, before.tricks@, n, 4 * n);
            assert forall|p: int| 0 <= p < SEATS implies (#[trigger] hands_before(
                dealt,
                self.tricks@,
                4 * n,
            )[p]).contains(trick.cards[p]) by {
                assert(slots[p] == Some(trick.cards[p]));
                assert(between[p].contains(trick.cards[p]));
            }
            lemma_trick_replayed(dealt, self.tricks@, n);
            let after = self.hands_between_tricks();
            assert(after == hands_before(dealt, self.tricks@, 4 * n + 4));
            assert forall|p: int| 0 <= p < SEATS implies match self.current_trick.cards[p] {
                Some(c) => (#[trigger] after[p]).contains(c) && self.hand(p) == after[p].remove_value(
                    c,
                ),
                None => self.hand(p) == after[p],
            } by {
                assert(slots[p] == Some(trick.cards[p]));
                assert(after[p] == between[p].remove_value(trick.cards[p]));
            }
        }
    }

    /// Closing a trick keeps the cards where they are: what lay in the
    /// four slots lies in the last of the tricks that are over, and the
    /// hands hold what they held.
    proof fn lemma_trick_closed(&self, before: HeartsGame)
        requires
            before.players.len() == SEATS,
            self.players.len() == SEATS,
            before.current_trick.wf(),
            before.current_trick.played_count() == SEATS,
            self.tricks.len() == before.tricks.len() + 1,
            self.tricks@.drop_last() == before.tricks@,
            self.tricks@.last().cards@ == before.current_trick.played_cards(),
            self.current_trick.cards@ == seq![None::<Card>, None, None, None],
            forall|p: int| 0 <= p < SEATS ==> (#[trigger] self.players[p]).hand@ == before.players[p].hand@,
        ensures
            self.current_trick.played_cards() == Seq::<Card>::empty(),
            self.all_cards().to_multiset() == before.all_cards().to_multiset(),
            before.cards_conserved() && before.hands_sized() ==> self.cards_conserved()
                && self.hands_sized() && self.parted_between_tricks(),
    {
        before.current_trick.lemma_filled_seats();
        before.lemma_all_cards_parts();
        self.lemma_all_cards_parts();
        self.lemma_nothing_played();
        assert(self.players[0].hand@ == before.players[0].hand@);
        assert(self.players[1].hand@ == before.players[1].hand@);
        assert(self.players[2].hand@ == before.players[2].hand@);
        assert(self.players[3].hand@ == before.players[3].hand@);
        assert(self.tricks@ == before.tricks@.push(self.tricks@.last()));
        lemma_multiset_commutative(history_cards(before.tricks@), self.tricks@.last().cards@);
        assert(self.all_cards().to_multiset() =~= before.all_cards().to_multiset());
        assert(self.all_cards() =~= self.cards_in_hands() + history_cards(self.tricks@));
        if before.cards_conserved() && before.hands_sized() {
            assert forall|seat: int| 0 <= seat < SEATS implies (#[trigger] self.hand(seat)).len()
                == TRICKS - self.tricks.len() && self.current_trick.cards[seat] is None by {
                assert(self.players[seat].hand@ == before.players[seat].hand@);
                assert(before.hand(seat).len() + before.tricks.len() + (if before.current_trick.cards[seat] is Some {
                    1int
                } else {
                    0int
                }) == TRICKS);
                assert(before.current_trick.cards[seat] is Some);
            }
        }
    }

    /// With the card that is played the trick carries no more points than
    /// are still to take.
    proof fn lemma_play_stays_in_bounds(&self, card: Card, played: Seq<Card>)
        requires
            self.seated(),
            self.cards_conserved(),
            self.scores_kept(),
            self.hand(self.current_player_index as int).contains(card),
            played == cards_in_slots(
                self.current_trick.cards@.update(self.current_player_index as int, Some(card)),
            ),
        ensures
            forall|p: int|
                0 <= p < SEATS ==> (#[trigger] self.players[p]).score + points_of(played) <= 26,
    {
        self.lemma_turn();
        self.lemma_points_accounted();
        let seat = self.current_player_index as int;
        let hand = self.hand(seat);
        let now = self.current_trick.played_cards();
        lemma_slot_filled(self.current_trick.cards@, seat, card);
        vstd::seq_lib::to_multiset_build(now, card);
        lemma_points_of_same_cards(played, now.push(card));
        assert(now.push(card).drop_last() == now);
        let k = choose|k: int| 0 <= k < hand.len() && hand[k] == card;
        lemma_points_of_remove(hand, k);
        lemma_points_of_concat(self.hand(0), self.hand(1));
        lemma_points_of_concat(self.hand(0) + self.hand(1), self.hand(2));
        lemma_points_of_concat(self.hand(0) + self.hand(1) + self.hand(2), self.hand(3));
    }

    /// The state of a game shows no more than the 52 cards.
    proof fn lemma_state_countable(&self)
        requires
            self.wf(),
        ensures
            self.hand(self.current_player_index as int).len() + history_cards(self.tricks@).len()
                + self.current_trick.played_cards().len() <= DECK_SIZE,
    {
        self.lemma_turn();
        self.lemma_all_cards_parts();
        lemma_same_cards_same_len(self.all_cards(), full_deck());
    }

    /// What a player is shown of a game can be counted.
    proof fn lemma_shown_is_countable(&self, state: GameState)
        requires
            self.wf(),
            self.shows(state),
        ensures
            state.countable(),
    {
        self.lemma_state_countable();
        lemma_same_tricks_history(state.previous_tricks@, self.tricks@);
    }
}

} // verus!
