//! Playing cards with the penalty semantics of Hearts.

use vstd::prelude::*;
use vstd::relations::{sorted_by, total_ordering};
use vstd::seq_lib::{lemma_sorted_unique, to_multiset_insert};

verus! {

/// Suit letter of Clubs.
pub const CLUBS: char = 'C';

/// Suit letter of Diamonds.
pub const DIAMONDS: char = 'D';

/// Suit letter of Hearts.
pub const HEARTS: char = 'H';

/// Suit letter of Spades.
pub const SPADES: char = 'S';

/// Rank of the Queen.
pub const QUEEN: u8 = 12;

/// A card: a suit letter and a rank, 2 to 14 in a regular deck (11 is the
/// Jack, 14 the Ace).
#[derive(Debug, Clone, Copy, PartialEq, Eq, Structural, PartialOrd, Ord, Hash)]
pub struct Card {
    pub suit: char,
    pub rank: u8,
}

impl Card {
    pub open spec fn spec_is_hearts(&self) -> bool {
        self.suit == HEARTS
    }

    pub open spec fn spec_is_queen_of_spades(&self) -> bool {
        self.suit == SPADES && self.rank == QUEEN
    }

    pub open spec fn spec_is_two_of_clubs(&self) -> bool {
        self.suit == CLUBS && self.rank == 2
    }

    pub open spec fn spec_is_penalty(&self) -> bool {
        self.spec_is_hearts() || self.spec_is_queen_of_spades()
    }

    /// Points that the card costs whoever takes it.
    pub open spec fn spec_score(&self) -> u8 {
        if self.spec_is_hearts() {
            1
        } else if self.spec_is_queen_of_spades() {
            13
        } else {
            0
        }
    }

    /// The card of `suit` and `rank`.
    pub fn new(suit: char, rank: u8) -> (card: Card)
        ensures
            card == (Card { suit, rank }),
    {
        Card { suit, rank }
    }

    /// Whether the card is a Heart.
    #[verifier::when_used_as_spec(spec_is_hearts)]
    pub fn is_hearts(&self) -> (b: bool)
        ensures
            b == self.spec_is_hearts(),
    {
        self.suit == HEARTS
    }

    /// Whether the card is the Queen of Spades.
    #[verifier::when_used_as_spec(spec_is_queen_of_spades)]
    pub fn is_queen_of_spades(&self) -> (b: bool)
        ensures
            b == self.spec_is_queen_of_spades(),
    {
        self.suit == SPADES && self.rank == QUEEN
    }

    /// Whether the card is the Two of Clubs.
    #[verifier::when_used_as_spec(spec_is_two_of_clubs)]
    pub fn is_two_of_clubs(&self) -> (b: bool)
        ensures
            b == self.spec_is_two_of_clubs(),
    {
        self.suit == CLUBS && self.rank == 2
    }

    /// Any Heart, or the Queen of Spades.
    #[verifier::when_used_as_spec(spec_is_penalty)]
    pub fn is_penalty(&self) -> (b: bool)
        ensures
            b == self.spec_is_penalty(),
    {
        self.is_hearts() || self.is_queen_of_spades()
    }

    /// 1 for a Heart, 13 for the Queen of Spades, 0 otherwise.
    #[verifier::when_used_as_spec(spec_score)]
    pub fn score(&self) -> (points: u8)
        ensures
            points == self.spec_score(),
    {
        if self.is_hearts() {
            1
        } else if self.is_queen_of_spades() {
            13
        } else {
            0
        }
    }
}

/// The order of cards: by suit letter, then by rank.
pub open spec fn card_le(a: Card, b: Card) -> bool {
    (a.suit as u32) < (b.suit as u32) || (a.suit == b.suit && a.rank <= b.rank)
}

/// Whether `a` comes before `b` or is `b`, in the order `card_le`.
pub fn card_precedes(a: Card, b: Card) -> (r: bool)
    ensures
        r == card_le(a, b),
{
    a.suit < b.suit || (a.suit == b.suit && a.rank <= b.rank)
}

/// The cards of one suit, as a predicate.
pub open spec fn of_suit(suit: char) -> spec_fn(Card) -> bool {
    |c: Card| c.suit == suit
}

/// How many of `cards` are of `suit`.
pub open spec fn count_suit(cards: Seq<Card>, suit: char) -> nat {
    cards.filter(of_suit(suit)).len()
}

/// Counting by suit goes part by part.
pub proof fn lemma_count_suit_concat(a: Seq<Card>, b: Seq<Card>, suit: char)
    ensures
        count_suit(a + b, suit) == count_suit(a, suit) + count_suit(b, suit),
        count_suit(a, suit) <= a.len(),
{
    Seq::filter_distributes_over_add(a, b, of_suit(suit));
    a.lemma_filter_len(of_suit(suit));
}

/// How many of `cards` are of `suit`.
pub fn count_in_suit(cards: &[Card], suit: char) -> (n: usize)
    ensures
        n == count_suit(cards@, suit),
        n <= cards.len(),
{
    let mut n: usize = 0;
    let mut i: usize = 0;
    assert(cards@.take(0) =~= Seq::<Card>::empty());
    while i < cards.len()
        invariant
            i <= cards.len(),
            n <= i,
            n == count_suit(cards@.take(i as int), suit),
        decreases cards.len() - i,
    {
        proof {
            assert(cards@.take(i + 1) == cards@.take(i as int).push(cards[i as int]));
            cards@.take(i as int).lemma_filter_push(cards[i as int], of_suit(suit));
        }
        if cards[i].suit == suit {
            n += 1;
        }
        i += 1;
    }
    assert(cards@.take(cards.len() as int) == cards@);
    n
}

/// Whether `card` is among `cards`.
pub fn contains_card(cards: &[Card], card: Card) -> (found: bool)
    ensures
        found == cards@.contains(card),
{
    let mut i: usize = 0;
    while i < cards.len()
        invariant
            i <= cards.len(),
            forall|j: int| 0 <= j < i ==> cards[j] != card,
        decreases cards.len() - i,
    {
        if cards[i] == card {
            return true;
        }
        i += 1;
    }
    false
}

/// The order `card_le` as a relation.
pub open spec fn card_order() -> spec_fn(Card, Card) -> bool {
    |a: Card, b: Card| card_le(a, b)
}

/// `cards` in the order of `card_le`.
pub open spec fn sorted_cards(cards: Seq<Card>) -> Seq<Card> {
    cards.sort_by(card_order())
}

/// Cards are totally ordered by suit letter, then rank.
pub proof fn lemma_card_order_total()
    ensures
        total_ordering(card_order()),
{
    assert forall|x: Card, y: Card| #[trigger]
        card_order()(x, y) && #[trigger] card_order()(y, x) implies x == y by {
        assert(x.suit == y.suit && x.rank == y.rank);
    }
}

/// A sequence in the order of `card_le` with the cards of `cards` is
/// `sorted_cards(cards)`.
pub proof fn lemma_sorted_cards_unique(cards: Seq<Card>, sorted: Seq<Card>)
    requires
        sorted_by(sorted, card_order()),
        sorted.to_multiset() == cards.to_multiset(),
    ensures
        sorted == sorted_cards(cards),
{
    lemma_card_order_total();
    cards.lemma_sort_by_ensures(card_order());
    lemma_sorted_unique(sorted, sorted_cards(cards), card_order());
}

/// Sorting keeps the cards.
pub proof fn lemma_sorted_cards_same(cards: Seq<Card>)
    ensures
        sorted_cards(cards).to_multiset() == cards.to_multiset(),
        sorted_cards(cards).len() == cards.len(),
        sorted_by(sorted_cards(cards), card_order()),
{
    lemma_card_order_total();
    cards.lemma_sort_by_ensures(card_order());
    vstd::seq_lib::to_multiset_len(cards);
    vstd::seq_lib::to_multiset_len(sorted_cards(cards));
}

/// Sorts `cards` by suit letter, then rank.
pub fn sort_cards(cards: &mut Vec<Card>)
    ensures
        final(cards)@ == sorted_cards(old(cards)@),
        sorted_by(final(cards)@, card_order()),
        final(cards)@.to_multiset() == old(cards)@.to_multiset(),
{
    let mut sorted: Vec<Card> = Vec::new();
    let mut i: usize = 0;
    assert(sorted@ =~= cards@.take(0));
    while i < cards.len()
        invariant
            i <= cards.len(),
            cards@ == old(cards)@,
            forall|a: int, b: int| 0 <= a < b < sorted.len() ==> card_le(sorted[a], sorted[b]),
            sorted@.to_multiset() == cards@.take(i as int).to_multiset(),
        decreases cards.len() - i,
    {
        let card = cards[i];
        let mut pos: usize = 0;
        while pos < sorted.len() && card_precedes(sorted[pos], card)
            invariant
                pos <= sorted.len(),
                forall|k: int| 0 <= k < pos ==> card_le(sorted[k], card),
            decreases sorted.len() - pos,
        {
            pos += 1;
        }
        proof {
            to_multiset_insert(sorted@, pos as int, card);
            assert(cards@.take(i + 1) == cards@.take(i as int).push(card));
            vstd::seq_lib::to_multiset_build(cards@.take(i as int), card);
            assert forall|a: int, b: int| 0 <= a < b < sorted.len() + 1 implies card_le(
                sorted@.insert(pos as int, card)[a],
                sorted@.insert(pos as int, card)[b],
            ) by {
                if pos < sorted.len() {
                    assert(!card_le(sorted[pos as int], card));
                    if b > pos {
                        assert(card_le(sorted[pos as int], sorted[b - 1]) || b - 1 == pos);
                    }
                }
            }
        }
        sorted.insert(pos, card);
        i += 1;
    }
    proof {
        assert(cards@.take(cards.len() as int) == cards@);
        assert(sorted_by(sorted@, card_order()));
        lemma_sorted_cards_unique(cards@, sorted@);
    }
    *cards = sorted;
}

/// A card costs points exactly when it is a penalty card.
pub proof fn lemma_score_agrees_with_penalty(c: Card)
    ensures
        c.spec_score() != 0 <==> c.spec_is_penalty(),
        c.spec_score() == 0 || c.spec_score() == 1 || c.spec_score() == 13,
{
}

} // verus!
