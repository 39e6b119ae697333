//! The deck: the 52 cards, shuffled, dealt and rotated.

use crate::card::{sort_cards, sorted_cards, Card, CLUBS, DIAMONDS, HEARTS, SPADES};
use crate::trick::points_of;
use rand::rngs::StdRng;
use rand::seq::SliceRandom;
use rand::SeedableRng;
use vstd::prelude::*;

verus! {

/// Number of cards in the deck.
pub const DECK_SIZE: usize = 52;

/// Number of ranks in a suit.
pub const SUIT_SIZE: usize = 13;

/// Number of games of a series that are dealt from one shuffle.
pub const GAMES_PER_SHUFFLE: usize = 4;

/// Number of cards by which the deck is turned from one game of a series
/// to the next: the hands then pass round the table.
pub const REDEAL_ROTATION: usize = 13;

pub open spec fn spec_reuses_deal(games_played: usize) -> bool {
    games_played % GAMES_PER_SHUFFLE != 0
}

/// Whether the game that follows `games_played` games of a series is dealt
/// from the deck of the game before it, turned, and not from a fresh
/// shuffle: every fourth game starts afresh.
#[verifier::when_used_as_spec(spec_reuses_deal)]
pub fn reuses_deal(games_played: usize) -> (reuse: bool)
    ensures
        reuse == (games_played % GAMES_PER_SHUFFLE != 0),
{
    games_played % GAMES_PER_SHUFFLE != 0
}

/// The suit of the `k`-th block of a fresh deck: Spades, Hearts, Diamonds,
/// Clubs.
pub open spec fn suit_at(k: int) -> char {
    if k == 0 {
        SPADES
    } else if k == 1 {
        HEARTS
    } else if k == 2 {
        DIAMONDS
    } else {
        CLUBS
    }
}

/// The fresh deck: suit by suit, each from the 2 up to the Ace.
pub open spec fn full_deck() -> Seq<Card> {
    Seq::new(DECK_SIZE as nat, |i: int| Card { suit: suit_at(i / 13), rank: (2 + i % 13) as u8 })
}

/// The cards are those of the fresh deck, each once, in any order.
pub open spec fn is_full_deck(cards: Seq<Card>) -> bool {
    cards.to_multiset() == full_deck().to_multiset()
}

/// The same cards are as many cards.
pub proof fn lemma_same_cards_same_len(a: Seq<Card>, b: Seq<Card>)
    requires
        a.to_multiset() == b.to_multiset(),
    ensures
        a.len() == b.len(),
{
    vstd::seq_lib::to_multiset_len(a);
    vstd::seq_lib::to_multiset_len(b);
}

/// No card occurs twice in the fresh deck.
pub proof fn lemma_full_deck_no_duplicates()
    ensures
        full_deck().no_duplicates(),
{
    assert forall|i: int, j: int| 0 <= i < full_deck().len() && 0 <= j < full_deck().len() && i
        != j implies full_deck()[i] != full_deck()[j] by {
        if i / 13 == j / 13 {
            assert(i % 13 != j % 13);
        }
    }
}

/// The fresh deck holds the cards of the four suits with ranks 2 to 14.
pub proof fn lemma_full_deck_contains(card: Card)
    ensures
        full_deck().contains(card) <==> (2 <= card.rank <= 14 && (card.suit == SPADES || card.suit
            == HEARTS || card.suit == DIAMONDS || card.suit == CLUBS)),
{
    if 2 <= card.rank <= 14 && (card.suit == SPADES || card.suit == HEARTS || card.suit == DIAMONDS
        || card.suit == CLUBS) {
        let block: int = if card.suit == SPADES {
            0
        } else if card.suit == HEARTS {
            1
        } else if card.suit == DIAMONDS {
            2
        } else {
            3
        };
        let i = block * 13 + (card.rank - 2);
        assert(full_deck()[i] == card);
    }
}

/// The points of the first `n` cards of the fresh deck: the Queen of
/// Spades is the 11th card, the Hearts are the 14th to the 26th.
pub open spec fn points_in_prefix(n: int) -> nat {
    if n <= 10 {
        0
    } else if n <= 13 {
        13
    } else if n <= 26 {
        n as nat
    } else {
        26
    }
}

/// The first `n` cards of the fresh deck carry `points_in_prefix(n)` points.
pub proof fn lemma_full_deck_prefix_points(n: int)
    requires
        0 <= n <= DECK_SIZE,
    ensures
        points_of(full_deck().take(n)) == points_in_prefix(n),
    decreases n,
{
    if n > 0 {
        lemma_full_deck_prefix_points(n - 1);
        assert(full_deck().take(n).drop_last() == full_deck().take(n - 1));
        assert(full_deck().take(n).last() == full_deck()[n - 1]);
    }
}

/// The deck carries 26 points: 13 Hearts and the Queen of Spades.
pub proof fn lemma_full_deck_points()
    ensures
        points_of(full_deck()) == 26,
{
    lemma_full_deck_prefix_points(DECK_SIZE as int);
    assert(full_deck().take(DECK_SIZE as int) == full_deck());
}

/// What `rand::seq::SliceRandom::shuffle` makes of `cards` when it draws
/// from `rand::rngs::StdRng` seeded with `seed` by `seed_from_u64`.
pub uninterp spec fn seeded_shuffle(cards: Seq<Card>, seed: u64) -> Seq<Card>;

/// `rand::seq::SliceRandom::shuffle` on `cards`, drawing from
/// `rand::rngs::StdRng::seed_from_u64(seed)`. The generator is a function
/// of the seed and the shuffle swaps cards at the places that the generator
/// draws: the result is a function of the cards and the seed, and holds the
/// cards that went in.
#[verifier::external_body]
fn shuffle_seeded(cards: &mut Vec<Card>, seed: u64)
    ensures
        final(cards)@ == seeded_shuffle(old(cards)@, seed),
        final(cards)@.to_multiset() == old(cards)@.to_multiset(),
{
    cards.shuffle(&mut StdRng::seed_from_u64(seed));
}

/// `rand::seq::SliceRandom::shuffle` on `cards`, drawing from
/// `rand::thread_rng()`. The shuffle swaps cards in place: the result holds
/// the cards that went in; their order is left open.
#[verifier::external_body]
fn shuffle_unseeded(cards: &mut Vec<Card>)
    ensures
        final(cards)@.to_multiset() == old(cards)@.to_multiset(),
{
    cards.shuffle(&mut rand::thread_rng());
}

/// The cards that seat `seat` gets when `cards` are dealt one by one to
/// `players` seats in turn.
pub open spec fn dealt(cards: Seq<Card>, players: int, seat: int) -> Seq<Card>
    decreases cards.len(),
{
    if cards.len() == 0 {
        Seq::empty()
    } else if (cards.len() - 1) % players == seat {
        dealt(cards.drop_last(), players, seat).push(cards.last())
    } else {
        dealt(cards.drop_last(), players, seat)
    }
}

/// The hand of seat `seat`: the cards it is dealt, sorted.
pub open spec fn dealt_hand(cards: Seq<Card>, players: int, seat: int) -> Seq<Card> {
    sorted_cards(dealt(cards, players, seat))
}

/// `cards` with its first `rotation` cards moved to the end.
pub open spec fn rotated(cards: Seq<Card>, rotation: int) -> Seq<Card> {
    cards.subrange(rotation, cards.len() as int) + cards.subrange(0, rotation)
}

/// Dealt to four seats, the cards are parted among the seats: every card
/// goes to one seat, and of a number of cards that four divides every seat
/// gets a quarter.
pub proof fn lemma_dealt_to_four(cards: Seq<Card>)
    ensures
        dealt(cards, 4, 0).to_multiset().add(dealt(cards, 4, 1).to_multiset()).add(
            dealt(cards, 4, 2).to_multiset(),
        ).add(dealt(cards, 4, 3).to_multiset()) == cards.to_multiset(),
        dealt(cards, 4, 0).len() + dealt(cards, 4, 1).len() + dealt(cards, 4, 2).len() + dealt(
            cards,
            4,
            3,
        ).len() == cards.len(),
        forall|seat: int|
            0 <= seat < 4 ==> (#[trigger] dealt(cards, 4, seat)).len() == (cards.len() + 3 - seat)
                / 4,
    decreases cards.len(),
{
    broadcast use vstd::seq_lib::group_to_multiset_ensures;

    if cards.len() == 0 {
        assert(dealt(cards, 4, 0).to_multiset().add(dealt(cards, 4, 1).to_multiset()).add(
            dealt(cards, 4, 2).to_multiset(),
        ).add(dealt(cards, 4, 3).to_multiset()) =~= cards.to_multiset());
    } else {
        let rest = cards.drop_last();
        lemma_dealt_to_four(rest);
        assert(rest.push(cards.last()) == cards);
        assert(dealt(cards, 4, 0).to_multiset().add(dealt(cards, 4, 1).to_multiset()).add(
            dealt(cards, 4, 2).to_multiset(),
        ).add(dealt(cards, 4, 3).to_multiset()) =~= cards.to_multiset());
    }
}

/// Why a deck refuses what is asked of it.
#[derive(Debug, Clone, Copy, PartialEq, Eq, Structural)]
pub enum DeckError {
    /// The rotation is not below the number of cards.
    InvalidRotation,
    /// There is nobody to deal to.
    NoPlayers,
}

/// A deck of cards: the 52 cards in some order, or nothing once they are
/// dealt.
#[derive(Debug)]
pub struct Deck {
    cards: Vec<Card>,
}

impl View for Deck {
    type V = Seq<Card>;

    closed spec fn view(&self) -> Seq<Card> {
        self.cards@
    }
}

impl Clone for Deck {
    fn clone(&self) -> (copy: Self)
        ensures
            copy@ == self@,
    {
        proof {
            use_type_invariant(self);
        }
        Deck { cards: self.cards.clone() }
    }
}

/// The fresh deck.
fn fresh_cards() -> (cards: Vec<Card>)
    ensures
        cards@ == full_deck(),
{
    let mut cards: Vec<Card> = Vec::new();
    let mut block: usize = 0;
    while block < 4
        invariant
            block <= 4,
            cards@ == full_deck().take(13 * block),
        decreases 4 - block,
    {
        let suit = if block == 0 {
            SPADES
        } else if block == 1 {
            HEARTS
        } else if block == 2 {
            DIAMONDS
        } else {
            CLUBS
        };
        let mut rank: u8 = 2;
        while rank <= 14
            invariant
                block < 4,
                2 <= rank <= 15,
                suit == suit_at(block as int),
                cards@ == full_deck().take(13 * block + (rank - 2)),
            decreases 15 - rank,
        {
            cards.push(Card::new(suit, rank));
            proof {
                let i = 13 * block + (rank - 2);
                assert(full_deck()[i] == Card { suit, rank });
                assert(full_deck().take(i + 1) == full_deck().take(i).push(full_deck()[i]));
            }
            rank += 1;
        }
        block += 1;
    }
    assert(full_deck().take(52) == full_deck());
    cards
}

impl Deck {
    #[verifier::type_invariant]
    spec fn holds_all_or_nothing(&self) -> bool {
        is_full_deck(self.cards@) || self.cards@.len() == 0
    }

    /// The 52 cards, shuffled. With a seed the order is a function of the
    /// seed.
    pub fn new(seed: Option<u64>) -> (deck: Deck)
        ensures
            is_full_deck(deck@),
            deck@.len() == DECK_SIZE,
            seed matches Some(s) ==> deck@ == seeded_shuffle(full_deck(), s),
    {
        let mut deck = Deck { cards: fresh_cards() };
        deck.shuffle(seed);
        deck
    }

    /// Shuffles the cards. With a seed the order is a function of the cards
    /// and the seed.
    pub fn shuffle(&mut self, seed: Option<u64>)
        ensures
            final(self)@.to_multiset() == old(self)@.to_multiset(),
            final(self)@.len() == old(self)@.len(),
            seed matches Some(s) ==> final(self)@ == seeded_shuffle(old(self)@, s),
    {
        proof {
            use_type_invariant(&*self);
        }
        let mut cards = self.cards.clone();
        match seed {
            Some(seed_value) => shuffle_seeded(&mut cards, seed_value),
            None => shuffle_unseeded(&mut cards),
        }
        proof {
            lemma_same_cards_same_len(cards@, self.cards@);
        }
        self.cards = cards;
    }

    /// Number of cards in the deck.
    pub fn len(&self) -> (n: usize)
        ensures
            n == self@.len(),
            n == DECK_SIZE && is_full_deck(self@) || n == 0,
    {
        proof {
            use_type_invariant(self);
            if self.cards@.len() != 0 {
                lemma_same_cards_same_len(self.cards@, full_deck());
            }
        }
        self.cards.len()
    }

    /// The cards of the deck, in their order.
    pub fn cards(&self) -> (cards: Vec<Card>)
        ensures
            cards@ == self@,
    {
        self.cards.clone()
    }

    /// Deals all the cards, one by one, to `num_players` seats in turn and
    /// sorts each hand. The deck is empty afterwards. There must be
    /// somebody to deal to.
    pub fn deal(&mut self, num_players: usize) -> (dealing: Result<Vec<Vec<Card>>, DeckError>)
        ensures
            num_players == 0 <==> dealing is Err,
            dealing matches Err(e) ==> e == DeckError::NoPlayers && final(self)@ == old(self)@,
            dealing matches Ok(hands) ==> {
                &&& final(self)@.len() == 0
                &&& hands.len() == num_players
                &&& forall|seat: int|
                    0 <= seat < num_players ==> (#[trigger] hands[seat])@ == dealt_hand(
                        old(self)@,
                        num_players as int,
                        seat,
                    )
            },
    {
        if num_players == 0 {
            return Err(DeckError::NoPlayers);
        }
        let cards = self.cards.clone();
        self.cards = Vec::new();
        let mut hands: Vec<Vec<Card>> = Vec::new();
        let mut seat: usize = 0;
        while seat < num_players
            invariant
                seat <= num_players,
                hands.len() == seat,
                forall|k: int| 0 <= k < seat ==> (#[trigger] hands[k])@ == dealt(cards@, num_players as int, k),
            decreases num_players - seat,
        {
            let mut hand: Vec<Card> = Vec::new();
            let mut i: usize = 0;
            assert(cards@.take(0) =~= Seq::<Card>::empty());
            while i < cards.len()
                invariant
                    i <= cards.len(),
                    seat < num_players,
                    hand@ == dealt(cards@.take(i as int), num_players as int, seat as int),
                decreases cards.len() - i,
            {
                assert(cards@.take(i + 1).drop_last() == cards@.take(i as int));
                if i % num_players == seat {
                    hand.push(cards[i]);
                }
                i += 1;
            }
            assert(cards@.take(cards.len() as int) == cards@);
            hands.push(hand);
            seat += 1;
        }
        let mut sorting: usize = 0;
        while sorting < num_players
            invariant
                sorting <= num_players,
                hands.len() == num_players,
                forall|k: int|
                    0 <= k < sorting ==> (#[trigger] hands[k])@ == dealt_hand(
                        cards@,
                        num_players as int,
                        k,
                    ),
                forall|k: int|
                    sorting <= k < num_players ==> (#[trigger] hands[k])@ == dealt(
                        cards@,
                        num_players as int,
                        k,
                    ),
            decreases num_players - sorting,
        {
            sort_cards(&mut hands[sorting]);
            sorting += 1;
        }
        Ok(hands)
    }

    /// The deck of the game that follows `games_played` games of a series,
    /// of which this is the deck of the last: the same cards turned by
    /// thirteen where the deal is reused, and a fresh shuffle, without a
    /// seed, for every fourth game. A deck that holds no more than
    /// thirteen cards cannot be turned.
    pub fn redeal(&self, games_played: usize) -> (next: Result<Deck, DeckError>)
        ensures
            next is Err <==> spec_reuses_deal(games_played) && self@.len() <= REDEAL_ROTATION,
            next matches Err(e) ==> e == DeckError::InvalidRotation,
            next matches Ok(deck) ==> (if spec_reuses_deal(games_played) {
                deck@ == rotated(self@, REDEAL_ROTATION as int)
            } else {
                is_full_deck(deck@) && deck@.len() == DECK_SIZE
            }),
    {
        if reuses_deal(games_played) {
            self.rotate(REDEAL_ROTATION)
        } else {
            Ok(Deck::new(None))
        }
    }

    /// A deck with the same cards, the first `rotation` of them moved to
    /// the end. The rotation must be below the number of cards.
    pub fn rotate(&self, rotation: usize) -> (turned: Result<Deck, DeckError>)
        ensures
            rotation < self@.len() <==> turned is Ok,
            turned matches Ok(deck) ==> deck@ == rotated(self@, rotation as int),
            turned matches Err(e) ==> e == DeckError::InvalidRotation,
    {
        if rotation >= self.cards.len() {
            return Err(DeckError::InvalidRotation);
        }
        let n = self.cards.len();
        let mut new_cards: Vec<Card> = Vec::new();
        let mut i: usize = rotation;
        while i < n
            invariant
                rotation <= i <= n,
                n == self.cards.len(),
                new_cards@ == self.cards@.subrange(rotation as int, i as int),
            decreases n - i,
        {
            new_cards.push(self.cards[i]);
            assert(self.cards@.subrange(rotation as int, i + 1) == self.cards@.subrange(
                rotation as int,
                i as int,
            ).push(self.cards[i as int]));
            i += 1;
        }
        let mut k: usize = 0;
        while k < rotation
            invariant
                k <= rotation < n,
                n == self.cards.len(),
                new_cards@ == self.cards@.subrange(rotation as int, n as int) + self.cards@.subrange(
                    0,
                    k as int,
                ),
            decreases rotation - k,
        {
            new_cards.push(self.cards[k]);
            assert(self.cards@.subrange(0, k + 1) == self.cards@.subrange(0, k as int).push(
                self.cards[k as int],
            ));
            k += 1;
        }
        proof {
            use_type_invariant(self);
            lemma_rotated_same_cards(self.cards@, rotation as int);
        }
        Ok(Deck { cards: new_cards })
    }
}

/// A rotation keeps the cards.
pub proof fn lemma_rotated_same_cards(cards: Seq<Card>, rotation: int)
    requires
        0 <= rotation <= cards.len(),
    ensures
        rotated(cards, rotation).to_multiset() == cards.to_multiset(),
        rotated(cards, rotation).len() == cards.len(),
{
    let head = cards.subrange(0, rotation);
    let tail = cards.subrange(rotation, cards.len() as int);
    assert(head + tail == cards);
    vstd::seq_lib::lemma_seq_union_to_multiset_commutative(head, tail);
}

/// Two decks made with one seed hold the cards in one order, and deal the
/// same hands to every seat.
pub proof fn lemma_seeded_deal_deterministic(
    seed: u64,
    first: Seq<Card>,
    second: Seq<Card>,
    players: int,
    seat: int,
)
    requires
        first == seeded_shuffle(full_deck(), seed),
        second == seeded_shuffle(full_deck(), seed),
    ensures
        first == second,
        dealt_hand(first, players, seat) == dealt_hand(second, players, seat),
{
}

} // verus!
