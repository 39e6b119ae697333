//! Which cards of a hand may be played.

use crate::card::{of_suit, Card, CLUBS, HEARTS, SPADES};
use vstd::prelude::*;

verus! {

/// What of the table decides which cards may be played.
#[derive(Debug, Clone, Copy, PartialEq, Eq, Structural)]
pub struct TableState {
    /// No trick of the game is over yet.
    pub first_trick: bool,
    /// The suit that the trick in progress follows; nothing while it waits
    /// for its first card.
    pub lead_suit: Option<char>,
    /// A Heart has been played in this game.
    pub hearts_broken: bool,
}

/// The Two of Clubs, as a predicate.
pub open spec fn only_two_of_clubs() -> spec_fn(Card) -> bool {
    |c: Card| c.spec_is_two_of_clubs()
}

/// The cards that are no Hearts, as a predicate.
pub open spec fn no_hearts() -> spec_fn(Card) -> bool {
    |c: Card| !c.spec_is_hearts()
}

/// The cards that cost nothing, as a predicate.
pub open spec fn no_penalty() -> spec_fn(Card) -> bool {
    |c: Card| !c.spec_is_penalty()
}

/// The cards of `hand` that `wanted` admits, and the whole hand if there
/// are none.
pub open spec fn preferring(hand: Seq<Card>, wanted: spec_fn(Card) -> bool) -> Seq<Card> {
    if hand.filter(wanted).len() > 0 {
        hand.filter(wanted)
    } else {
        hand
    }
}

/// The legal moves, by the ladder of Hearts. The first rule that applies
/// and leaves a card decides:
/// the first card of the game is the Two of Clubs;
/// a suit that was led is followed;
/// in the first trick no penalty card is played, unless the hand holds
/// nothing else;
/// no Heart is led before a Heart has been played, unless the hand holds
/// nothing else;
/// any card may be played.
pub open spec fn spec_legal_moves(hand: Seq<Card>, table: TableState) -> Seq<Card> {
    if table.first_trick && table.lead_suit is None && hand.filter(only_two_of_clubs()).len() > 0 {
        hand.filter(only_two_of_clubs())
    } else if table.lead_suit is Some && hand.filter(of_suit(table.lead_suit->0)).len() > 0 {
        hand.filter(of_suit(table.lead_suit->0))
    } else if table.first_trick {
        preferring(hand, no_penalty())
    } else if table.lead_suit is None && !table.hearts_broken {
        preferring(hand, no_hearts())
    } else {
        hand
    }
}

/// A choice of cards.
#[derive(Debug, Clone, Copy)]
enum Keep {
    TwoOfClubs,
    Suit(char),
    NoHearts,
    NoPenalty,
}

impl Keep {
    /// The cards that the choice admits.
    spec fn admits(&self) -> spec_fn(Card) -> bool {
        match self {
            Keep::TwoOfClubs => only_two_of_clubs(),
            Keep::Suit(s) => of_suit(*s),
            Keep::NoHearts => no_hearts(),
            Keep::NoPenalty => no_penalty(),
        }
    }

    fn keeps(&self, card: Card) -> (kept: bool)
        ensures
            kept == (self.admits())(card),
    {
        match self {
            Keep::TwoOfClubs => card.is_two_of_clubs(),
            Keep::Suit(s) => card.suit == *s,
            Keep::NoHearts => !card.is_hearts(),
            Keep::NoPenalty => !card.is_penalty(),
        }
    }
}

/// The cards of `hand` that `keep` admits, in their order.
fn keep_cards(hand: &[Card], keep: Keep) -> (kept: Vec<Card>)
    ensures
        kept@ == hand@.filter(keep.admits()),
{
    let mut kept: Vec<Card> = Vec::new();
    let mut i: usize = 0;
    assert(hand@.take(0) =~= Seq::<Card>::empty());
    while i < hand.len()
        invariant
            i <= hand.len(),
            kept@ == hand@.take(i as int).filter(keep.admits()),
        decreases hand.len() - i,
    {
        proof {
            assert(hand@.take(i + 1) == hand@.take(i as int).push(hand[i as int]));
            hand@.take(i as int).lemma_filter_push(hand[i as int], keep.admits());
        }
        if keep.keeps(hand[i]) {
            kept.push(hand[i]);
        }
        i += 1;
    }
    assert(hand@.take(hand.len() as int) == hand@);
    kept
}

/// A copy of `hand`.
fn whole_hand(hand: &[Card]) -> (copy: Vec<Card>)
    ensures
        copy@ == hand@,
{
    let mut copy: Vec<Card> = Vec::new();
    let mut i: usize = 0;
    while i < hand.len()
        invariant
            i <= hand.len(),
            copy@ == hand@.take(i as int),
        decreases hand.len() - i,
    {
        copy.push(hand[i]);
        assert(hand@.take(i + 1) == hand@.take(i as int).push(hand[i as int]));
        i += 1;
    }
    assert(hand@.take(hand.len() as int) == hand@);
    copy
}

/// The Two of Clubs, if the hand holds it.
pub fn get_two_of_clubs(hand: &[Card]) -> (twos: Vec<Card>)
    ensures
        twos@ == hand@.filter(only_two_of_clubs()),
{
    keep_cards(hand, Keep::TwoOfClubs)
}

/// The cards of the hand that follow `lead_suit`.
pub fn must_follow_suit(hand: &[Card], lead_suit: char) -> (same_suit: Vec<Card>)
    ensures
        same_suit@ == hand@.filter(of_suit(lead_suit)),
{
    keep_cards(hand, Keep::Suit(lead_suit))
}

/// The cards of the hand that are no Hearts, and the whole hand if it
/// holds Hearts only.
pub fn avoid_hearts(hand: &[Card]) -> (moves: Vec<Card>)
    ensures
        moves@ == preferring(hand@, no_hearts()),
{
    let non_hearts = keep_cards(hand, Keep::NoHearts);
    if non_hearts.len() == 0 {
        whole_hand(hand)
    } else {
        non_hearts
    }
}

/// The cards of the hand that cost nothing, and the whole hand if it holds
/// penalty cards only.
pub fn avoid_penalties(hand: &[Card]) -> (moves: Vec<Card>)
    ensures
        moves@ == preferring(hand@, no_penalty()),
{
    let safe_cards = keep_cards(hand, Keep::NoPenalty);
    if safe_cards.len() == 0 {
        whole_hand(hand)
    } else {
        safe_cards
    }
}

/// The cards of `hand` that may be played at `table`, in the order of the
/// hand.
pub fn legal_moves(hand: &[Card], table: &TableState) -> (moves: Vec<Card>)
    ensures
        moves@ == spec_legal_moves(hand@, *table),
        hand.len() > 0 ==> moves.len() > 0,
{
    proof {
        lemma_legal_moves_within_hand(hand@, *table);
    }
    if table.first_trick && table.lead_suit.is_none() {
        let two_clubs = get_two_of_clubs(hand);
        if two_clubs.len() > 0 {
            return two_clubs;
        }
    }
    if let Some(lead_suit) = table.lead_suit {
        let same_suit = must_follow_suit(hand, lead_suit);
        if same_suit.len() > 0 {
            return same_suit;
        }
    }
    if table.first_trick {
        return avoid_penalties(hand);
    }
    if table.lead_suit.is_none() && !table.hearts_broken {
        return avoid_hearts(hand);
    }
    whole_hand(hand)
}

/// The rung of the ladder that decides: the cards that it admits.
pub open spec fn deciding_rule(hand: Seq<Card>, table: TableState) -> spec_fn(Card) -> bool {
    if table.first_trick && table.lead_suit is None && hand.filter(only_two_of_clubs()).len() > 0 {
        only_two_of_clubs()
    } else if table.lead_suit is Some && hand.filter(of_suit(table.lead_suit->0)).len() > 0 {
        of_suit(table.lead_suit->0)
    } else if table.first_trick && hand.filter(no_penalty()).len() > 0 {
        no_penalty()
    } else if !table.first_trick && table.lead_suit is None && !table.hearts_broken && hand.filter(
        no_hearts(),
    ).len() > 0 {
        no_hearts()
    } else {
        |c: Card| true
    }
}

/// The legal moves are the cards of the hand that the deciding rule admits,
/// in the order of the hand; they are cards of the hand, and some card is
/// legal whenever the hand holds one.
pub proof fn lemma_legal_moves_within_hand(hand: Seq<Card>, table: TableState)
    ensures
        spec_legal_moves(hand, table) == hand.filter(deciding_rule(hand, table)),
        forall|c: Card| #[trigger] spec_legal_moves(hand, table).contains(c) ==> hand.contains(c),
        spec_legal_moves(hand, table).len() <= hand.len(),
        hand.len() > 0 ==> spec_legal_moves(hand, table).len() > 0,
{
    let rule = deciding_rule(hand, table);
    lemma_filter_all(hand, |c: Card| true);
    hand.lemma_filter_len(rule);
    assert forall|c: Card| #[trigger] hand.filter(rule).contains(c) implies hand.contains(c) by {
        hand.lemma_filter_contains_rev(rule, c);
    }
}

/// A filter that admits every card of a sequence keeps the sequence.
pub proof fn lemma_filter_all(cards: Seq<Card>, wanted: spec_fn(Card) -> bool)
    requires
        forall|i: int| 0 <= i < cards.len() ==> wanted(cards[i]),
    ensures
        cards.filter(wanted) == cards,
    decreases cards.len(),
{
    reveal(Seq::filter);
    if cards.len() > 0 {
        lemma_filter_all(cards.drop_last(), wanted);
        assert(cards.drop_last().push(cards.last()) == cards);
    }
}

/// Filtering twice by one predicate is filtering once.
pub proof fn lemma_filter_twice(cards: Seq<Card>, wanted: spec_fn(Card) -> bool)
    ensures
        cards.filter(wanted).filter(wanted) == cards.filter(wanted),
{
    let kept = cards.filter(wanted);
    assert forall|i: int| 0 <= i < kept.len() implies wanted(kept[i]) by {
        cards.lemma_filter_pred(wanted, i);
    }
    lemma_filter_all(kept, wanted);
}

/// A filter that admits no card of a sequence, filtered first by another,
/// leaves nothing.
pub proof fn lemma_filter_none(cards: Seq<Card>, wanted: spec_fn(Card) -> bool)
    requires
        forall|i: int| 0 <= i < cards.len() ==> !wanted(cards[i]),
    ensures
        cards.filter(wanted).len() == 0,
    decreases cards.len(),
{
    reveal(Seq::filter);
    if cards.len() > 0 {
        lemma_filter_none(cards.drop_last(), wanted);
    }
}

/// Where a filter of the hand leaves nothing, it leaves nothing of the
/// hand's part that another filter kept.
pub proof fn lemma_filter_of_part(hand: Seq<Card>, first: spec_fn(Card) -> bool, then: spec_fn(Card) -> bool)
    requires
        hand.filter(then).len() == 0,
    ensures
        hand.filter(first).filter(then).len() == 0,
{
    let part = hand.filter(first);
    assert forall|i: int| 0 <= i < part.len() implies !then(part[i]) by {
        if then(part[i]) {
            hand.lemma_filter_contains_rev(first, part[i]);
            assert(hand.contains(part[i]));
            let k = choose|k: int| 0 <= k < hand.len() && hand[k] == part[i];
            hand.lemma_filter_contains(then, k);
        }
    }
    lemma_filter_none(part, then);
}

/// A hand that holds the Two of Clubs once holds nothing else that the
/// first rule admits.
pub proof fn lemma_only_two_of_clubs(hand: Seq<Card>)
    requires
        hand.to_multiset().count(Card { suit: CLUBS, rank: 2 }) == 1,
    ensures
        hand.filter(only_two_of_clubs()) == seq![Card { suit: CLUBS, rank: 2 }],
    decreases hand.len(),
{
    broadcast use vstd::multiset::group_multiset_axioms;

    let two = Card { suit: CLUBS, rank: 2 };
    vstd::seq_lib::to_multiset_contains(hand, two);
    let rest = hand.drop_last();
    let last = hand.last();
    assert(rest.push(last) == hand);
    vstd::seq_lib::to_multiset_build(rest, last);
    rest.lemma_filter_push(last, only_two_of_clubs());
    if last == two {
        vstd::seq_lib::to_multiset_contains(rest, two);
        assert forall|i: int| 0 <= i < rest.len() implies !only_two_of_clubs()(rest[i]) by {
            if rest[i] == two {
                assert(rest.contains(two));
            }
        }
        lemma_filter_none(rest, only_two_of_clubs());
        assert(rest.filter(only_two_of_clubs()) =~= Seq::<Card>::empty());
        assert(hand.filter(only_two_of_clubs()) =~= seq![two]);
    } else {
        lemma_only_two_of_clubs(rest);
    }
}

/// The legal moves among the legal moves are the legal moves: the ladder
/// yields the same cards when it is applied to its own result.
pub proof fn lemma_legal_moves_idempotent(hand: Seq<Card>, table: TableState)
    ensures
        spec_legal_moves(spec_legal_moves(hand, table), table) == spec_legal_moves(hand, table),
{
    let moves = spec_legal_moves(hand, table);
    let rule = deciding_rule(hand, table);
    lemma_legal_moves_within_hand(hand, table);
    lemma_filter_twice(hand, rule);
    if table.first_trick && table.lead_suit is None && hand.filter(only_two_of_clubs()).len() > 0 {
    } else if table.lead_suit is Some && hand.filter(of_suit(table.lead_suit->0)).len() > 0 {
        if table.first_trick && table.lead_suit is None {
            lemma_filter_of_part(hand, rule, only_two_of_clubs());
        }
    } else {
        if table.first_trick && table.lead_suit is None {
            lemma_filter_of_part(hand, rule, only_two_of_clubs());
        }
        if table.lead_suit is Some {
            lemma_filter_of_part(hand, rule, of_suit(table.lead_suit->0));
        }
        if table.first_trick {
            if hand.filter(no_penalty()).len() == 0 {
                lemma_filter_of_part(hand, rule, no_penalty());
            }
        } else if table.lead_suit is None && !table.hearts_broken {
            if hand.filter(no_hearts()).len() == 0 {
                lemma_filter_of_part(hand, rule, no_hearts());
            }
        }
    }
}

/// Two derivations of the legal moves from one hand and one table hold the
/// same cards in the same order.
pub proof fn lemma_legal_moves_deterministic(
    hand: Seq<Card>,
    table: TableState,
    first: Seq<Card>,
    second: Seq<Card>,
)
    requires
        first == spec_legal_moves(hand, table),
        second == spec_legal_moves(hand, table),
    ensures
        first == second,
{
}

/// In the first trick, while the suit that is followed costs nothing, a
/// penalty card is legal only in a hand of penalty cards.
pub proof fn lemma_first_trick_penalty_forced(hand: Seq<Card>, table: TableState, card: Card)
    requires
        table.first_trick,
        table.lead_suit matches Some(s) ==> s != HEARTS && s != SPADES,
        spec_legal_moves(hand, table).contains(card),
        card.spec_is_penalty(),
    ensures
        forall|i: int| 0 <= i < hand.len() ==> hand[i].spec_is_penalty(),
{
    let rule = deciding_rule(hand, table);
    lemma_legal_moves_within_hand(hand, table);
    let moves = hand.filter(rule);
    let k = choose|k: int| 0 <= k < moves.len() && moves[k] == card;
    hand.lemma_filter_pred(rule, k);
    assert(rule(card));
    assert(hand.filter(no_penalty()).len() == 0);
    assert forall|i: int| 0 <= i < hand.len() implies hand[i].spec_is_penalty() by {
        if !hand[i].spec_is_penalty() {
            hand.lemma_filter_contains(no_penalty(), i);
        }
    }
}

/// A hand of Hearts only, leading before a Heart has been played: every
/// Heart of the hand is legal.
pub proof fn lemma_hearts_only_may_lead(hand: Seq<Card>, table: TableState)
    requires
        forall|i: int| 0 <= i < hand.len() ==> hand[i].spec_is_hearts(),
        table.lead_suit is None,
        !table.hearts_broken,
    ensures
        spec_legal_moves(hand, table) == hand,
{
    lemma_filter_none(hand, only_two_of_clubs());
    lemma_filter_none(hand, no_penalty());
    lemma_filter_none(hand, no_hearts());
}

} // verus!
