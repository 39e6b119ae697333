//! Tricks: the one in progress, seat by seat, and the finished one.

use crate::card::Card;
use vstd::prelude::*;

verus! {

/// Number of seats at the table.
pub const SEATS: usize = 4;

/// Sum of the scores of `cards`.
pub open spec fn points_of(cards: Seq<Card>) -> nat
    decreases cards.len(),
{
    if cards.len() == 0 {
        0
    } else {
        points_of(cards.drop_last()) + cards.last().spec_score() as nat
    }
}

/// Seat `w` takes the trick `cards` that seat `first` led: its card follows
/// the lead suit, no card of the lead suit ranks higher, and every later seat
/// with a card of the lead suit ranks strictly lower.
pub open spec fn is_trick_winner(cards: Seq<Card>, first: int, w: int) -> bool {
    &&& 0 <= w < cards.len()
    &&& cards[w].suit == cards[first].suit
    &&& forall|i: int|
        0 <= i < cards.len() && cards[i].suit == cards[first].suit ==> cards[i].rank <= cards[w].rank
    &&& forall|i: int|
        w < i < cards.len() && cards[i].suit == cards[first].suit ==> cards[i].rank < cards[w].rank
}

/// A finished trick: the four cards by seat, who led, who took it and what
/// it cost.
#[derive(Debug)]
pub struct CompletedTrick {
    pub cards: Vec<Card>,
    pub winner: usize,
    pub points: u8,
    pub first_player_index: usize,
}

impl Clone for CompletedTrick {
    fn clone(&self) -> (copy: Self)
        ensures
            copy.same_as(*self),
    {
        CompletedTrick {
            cards: self.cards.clone(),
            winner: self.winner,
            points: self.points,
            first_player_index: self.first_player_index,
        }
    }
}

impl CompletedTrick {
    /// One card per seat, a leader at the table, the winner that the cards
    /// determine and the points that they carry.
    pub open spec fn wf(&self) -> bool {
        &&& self.cards.len() == SEATS
        &&& self.first_player_index < SEATS
        &&& is_trick_winner(self.cards@, self.first_player_index as int, self.winner as int)
        &&& self.points == points_of(self.cards@)
    }

    /// The two tricks hold the same cards and numbers.
    pub open spec fn same_as(&self, other: CompletedTrick) -> bool {
        &&& self.cards@ == other.cards@
        &&& self.winner == other.winner
        &&& self.points == other.points
        &&& self.first_player_index == other.first_player_index
    }

    /// The cards in the order in which they were played.
    pub open spec fn spec_cards_starting_first_player(&self) -> Seq<Card> {
        Seq::new(
            self.cards.len() as nat,
            |j: int| self.cards[(self.first_player_index + j) % (self.cards.len() as int)],
        )
    }

    /// The card that the leader played.
    pub fn first_card(&self) -> (card: Card)
        requires
            self.first_player_index < self.cards.len(),
        ensures
            card == self.cards[self.first_player_index as int],
    {
        self.cards[self.first_player_index]
    }

    /// The suit that was led.
    pub fn lead_suit(&self) -> (suit: char)
        requires
            self.first_player_index < self.cards.len(),
        ensures
            suit == self.cards[self.first_player_index as int].suit,
    {
        self.first_card().suit
    }

    /// The cards in the order in which they were played, the leader's first.
    pub fn cards_starting_first_player(&self) -> (ordered: Vec<Card>)
        requires
            self.first_player_index < self.cards.len(),
        ensures
            ordered@ == self.spec_cards_starting_first_player(),
    {
        let n = self.cards.len();
        let mut ordered: Vec<Card> = Vec::new();
        let mut seat: usize = self.first_player_index;
        let mut j: usize = 0;
        proof {
            vstd::arithmetic::div_mod::lemma_small_mod(self.first_player_index as nat, n as nat);
        }
        while j < n
            invariant
                n == self.cards.len(),
                j <= n,
                seat < n,
                seat == (self.first_player_index + j) % (n as int),
                ordered.len() == j,
                forall|k: int|
                    0 <= k < j ==> ordered[k] == self.cards[(self.first_player_index + k) % (n as int)],
            decreases n - j,
        {
            ordered.push(self.cards[seat]);
            proof {
                lemma_next_in_rotation(self.first_player_index as int, j as int, n as int);
            }
            seat = if seat + 1 == n {
                0
            } else {
                seat + 1
            };
            j += 1;
        }
        assert(ordered@ =~= self.spec_cards_starting_first_player());
        ordered
    }
}

/// Why a card was not taken into a trick.
#[derive(Debug, Clone, Copy, PartialEq, Eq, Structural)]
pub enum TrickError {
    /// The seat is not at the table.
    NoSuchSeat,
    /// The seat has played in this trick.
    SeatAlreadyPlayed,
    /// Another seat is to play.
    OutOfTurn,
}

/// The trick in progress: one slot per seat, empty until that seat has played.
#[derive(Debug)]
pub struct Trick {
    pub cards: Vec<Option<Card>>,
    pub first_player_index: usize,
}

impl Clone for Trick {
    fn clone(&self) -> (copy: Self)
        ensures
            copy.same_as(*self),
    {
        Trick { cards: self.cards.clone(), first_player_index: self.first_player_index }
    }
}

impl Trick {
    /// The two tricks hold the same slots and leader.
    pub open spec fn same_as(&self, other: Trick) -> bool {
        &&& self.cards@ == other.cards@
        &&& self.first_player_index == other.first_player_index
    }

    /// The seat that plays `j` places after the leader.
    pub open spec fn seat_after(&self, j: int) -> int {
        (self.first_player_index + j) % (SEATS as int)
    }

    /// How many seats have played: the length of the filled run that starts
    /// at the leader.
    pub open spec fn played_count(&self) -> int {
        if self.cards[self.seat_after(0)] is None {
            0
        } else if self.cards[self.seat_after(1)] is None {
            1
        } else if self.cards[self.seat_after(2)] is None {
            2
        } else if self.cards[self.seat_after(3)] is None {
            3
        } else {
            4
        }
    }

    /// The seat that is to play next.
    pub open spec fn next_seat(&self) -> int {
        self.seat_after(self.played_count())
    }

    /// One slot per seat, a leader at the table, and the filled slots are
    /// exactly the first `played_count` seats in rotation from the leader.
    pub open spec fn wf(&self) -> bool {
        &&& self.cards.len() == SEATS
        &&& self.first_player_index < SEATS
        &&& forall|j: int|
            0 <= j < SEATS ==> (#[trigger] self.cards[self.seat_after(j)] is Some <==> j
                < self.played_count())
    }

    pub open spec fn spec_is_first_card(&self) -> bool {
        forall|i: int| 0 <= i < self.cards.len() ==> self.cards[i] is None
    }

    pub open spec fn spec_is_completed(&self) -> bool {
        forall|i: int| 0 <= i < self.cards.len() ==> self.cards[i] is Some
    }

    pub open spec fn spec_first_card(&self) -> Option<Card> {
        if self.first_player_index < self.cards.len() {
            self.cards[self.first_player_index as int]
        } else {
            None
        }
    }

    pub open spec fn spec_lead_suit(&self) -> Option<char> {
        match self.spec_first_card() {
            Some(c) => Some(c.suit),
            None => None,
        }
    }

    /// The cards played so far, by seat.
    pub open spec fn played_cards(&self) -> Seq<Card> {
        cards_in_slots(self.cards@)
    }

    /// An empty trick that seat 0 leads.
    pub fn new() -> (trick: Trick)
        ensures
            trick.wf(),
            trick.cards@ == seq![None::<Card>, None, None, None],
            trick.first_player_index == 0,
            trick.spec_is_first_card(),
            trick.played_count() == 0,
    {
        Trick::led_by(0)
    }

    /// An empty trick that `leader` leads.
    pub fn led_by(leader: usize) -> (trick: Trick)
        requires
            leader < SEATS,
        ensures
            trick.wf(),
            trick.cards@ == seq![None::<Card>, None, None, None],
            trick.first_player_index == leader,
            trick.spec_is_first_card(),
            trick.played_count() == 0,
    {
        let mut cards: Vec<Option<Card>> = Vec::new();
        cards.push(None);
        cards.push(None);
        cards.push(None);
        cards.push(None);
        assert(cards@ =~= seq![None::<Card>, None, None, None]);
        Trick { cards, first_player_index: leader }
    }

    /// The cards played so far, by seat.
    pub fn played(&self) -> (cards: Vec<Card>)
        ensures
            cards@ == self.played_cards(),
    {
        let mut cards: Vec<Card> = Vec::new();
        let mut i: usize = 0;
        assert(self.cards@.take(0) =~= Seq::<Option<Card>>::empty());
        while i < self.cards.len()
            invariant
                i <= self.cards.len(),
                cards@ == cards_in_slots(self.cards@.take(i as int)),
            decreases self.cards.len() - i,
        {
            assert(self.cards@.take(i + 1).drop_last() == self.cards@.take(i as int));
            match self.cards[i] {
                Some(c) => {
                    cards.push(c);
                },
                None => {},
            }
            i += 1;
        }
        assert(self.cards@.take(self.cards.len() as int) == self.cards@);
        cards
    }

    /// The finished trick, once every seat has played: the cards by seat,
    /// the leader, the seat that takes the trick and the points it carries.
    pub fn complete(&self) -> (done: Option<CompletedTrick>)
        requires
            self.wf(),
        ensures
            done is Some <==> self.played_count() == SEATS,
            done matches Some(trick) ==> {
                &&& trick.wf()
                &&& trick.cards@ == self.played_cards()
                &&& forall|seat: int| 0 <= seat < SEATS ==> self.cards[seat] == Some(trick.cards[seat])
                &&& trick.first_player_index == self.first_player_index
            },
    {
        if self.turn() != SEATS {
            return None;
        }
        let cards = self.played();
        proof {
            self.lemma_filled_seats();
            lemma_slots_all_or_none(self.cards@);
            lemma_points_of_four(cards@);
        }
        let winner = determine_trick_winner(&cards, self.first_player_index);
        let points = calculate_trick_score(&cards);
        Some(CompletedTrick { cards, winner, points, first_player_index: self.first_player_index })
    }

    /// How many seats have played.
    pub fn turn(&self) -> (count: usize)
        requires
            self.wf(),
        ensures
            count == self.played_count(),
            count <= SEATS,
    {
        let first = self.first_player_index;
        if self.cards[first % 4].is_none() {
            0
        } else if self.cards[(first + 1) % 4].is_none() {
            1
        } else if self.cards[(first + 2) % 4].is_none() {
            2
        } else if self.cards[(first + 3) % 4].is_none() {
            3
        } else {
            4
        }
    }

    /// Takes the card that `player_index` plays. The seats play in rotation
    /// from the leader, each once; any other play is refused and leaves the
    /// trick as it was.
    pub fn add_card(&mut self, card: Card, player_index: usize) -> (r: Result<(), TrickError>)
        requires
            old(self).wf(),
        ensures
            final(self).wf(),
            final(self).first_player_index == old(self).first_player_index,
            r is Ok <==> player_index == old(self).next_seat() && old(self).played_count() < SEATS,
            r is Ok ==> final(self).cards@ == old(self).cards@.update(
                player_index as int,
                Some(card),
            ) && final(self).played_count() == old(self).played_count() + 1,
            r is Err ==> final(self).cards@ == old(self).cards@,
            r == Err::<(), TrickError>(TrickError::NoSuchSeat) <==> player_index >= SEATS,
            r == Err::<(), TrickError>(TrickError::SeatAlreadyPlayed) <==> player_index < SEATS
                && old(self).cards[player_index as int] is Some,
            r == Err::<(), TrickError>(TrickError::OutOfTurn) <==> player_index < SEATS
                && old(self).cards[player_index as int] is None
                && player_index != old(self).next_seat(),
    {
        if player_index >= SEATS {
            return Err(TrickError::NoSuchSeat);
        }
        if self.cards[player_index].is_some() {
            proof {
                self.lemma_filled_seats();
            }
            return Err(TrickError::SeatAlreadyPlayed);
        }
        let count = self.turn();
        proof {
            self.lemma_filled_seats();
        }
        if (self.first_player_index + count) % 4 != player_index {
            return Err(TrickError::OutOfTurn);
        }
        self.cards[player_index] = Some(card);
        proof {
            assert(self.cards@ == old(self).cards@.update(player_index as int, Some(card)));
            self.lemma_card_added(*old(self), card);
        }
        Ok(())
    }

    /// In a well-formed trick a seat has played exactly if it is among the
    /// first `played_count` in rotation.
    pub proof fn lemma_filled_seats(&self)
        requires
            self.wf(),
        ensures
            0 <= self.played_count() <= SEATS,
            forall|seat: int|
                0 <= seat < SEATS ==> (self.cards[seat] is Some <==> (seat - self.first_player_index
                    + 4) % 4 < self.played_count()),
            self.played_count() < SEATS ==> 0 <= self.next_seat() < SEATS
                && self.cards[self.next_seat()] is None,
            self.played_count() == 0 <==> self.spec_is_first_card(),
            self.played_count() == SEATS <==> self.spec_is_completed(),
    {
        assert forall|seat: int| 0 <= seat < SEATS implies (self.cards[seat] is Some <==> (seat
            - self.first_player_index + 4) % 4 < self.played_count()) by {
            let j = (seat - self.first_player_index + 4) % 4;
            assert(self.seat_after(j) == seat);
        }
        assert(self.seat_after(0) == self.first_player_index);
        if self.played_count() == 0 {
            assert forall|i: int| 0 <= i < self.cards.len() implies self.cards[i] is None by {
                let j = (i - self.first_player_index + 4) % 4;
                assert(self.seat_after(j) == i);
            }
        }
        if self.played_count() == SEATS {
            assert forall|i: int| 0 <= i < self.cards.len() implies self.cards[i] is Some by {
                let j = (i - self.first_player_index + 4) % 4;
                assert(self.seat_after(j) == i);
            }
        }
    }

    /// A card in the slot of the seat that is to play is one seat more
    /// that has played.
    pub proof fn lemma_card_added(&self, before: Trick, card: Card)
        requires
            before.wf(),
            before.played_count() < SEATS,
            self.cards@ == before.cards@.update(before.next_seat(), Some(card)),
            self.first_player_index == before.first_player_index,
        ensures
            self.wf(),
            self.played_count() == before.played_count() + 1,
    {
        before.lemma_filled_seats();
        let count = before.played_count();
        assert(before.cards[before.seat_after(0)] is Some <==> 0 < count);
        assert(before.cards[before.seat_after(1)] is Some <==> 1 < count);
        assert(before.cards[before.seat_after(2)] is Some <==> 2 < count);
        assert(before.cards[before.seat_after(3)] is Some <==> 3 < count);
        assert(self.played_count() == count + 1);
        assert forall|j: int| 0 <= j < SEATS implies (#[trigger] self.cards[self.seat_after(j)] is Some
            <==> j < self.played_count()) by {
            assert(before.cards[before.seat_after(j)] is Some <==> j < count);
        }
    }

    /// The card that the leader played, if it has played.
    #[verifier::when_used_as_spec(spec_first_card)]
    pub fn first_card(&self) -> (card: Option<Card>)
        ensures
            card == self.spec_first_card(),
    {
        if self.first_player_index < self.cards.len() {
            self.cards[self.first_player_index]
        } else {
            None
        }
    }

    /// The suit that was led, once the leader has played.
    #[verifier::when_used_as_spec(spec_lead_suit)]
    pub fn lead_suit(&self) -> (suit: Option<char>)
        ensures
            suit == self.spec_lead_suit(),
    {
        match self.first_card() {
            Some(c) => Some(c.suit),
            None => None,
        }
    }

    /// Whether no seat has played yet.
    #[verifier::when_used_as_spec(spec_is_first_card)]
    pub fn is_first_card(&self) -> (b: bool)
        ensures
            b == self.spec_is_first_card(),
    {
        let mut i: usize = 0;
        while i < self.cards.len()
            invariant
                i <= self.cards.len(),
                forall|j: int| 0 <= j < i ==> self.cards[j] is None,
            decreases self.cards.len() - i,
        {
            if self.cards[i].is_some() {
                return false;
            }
            i += 1;
        }
        true
    }

    /// Whether every seat has played.
    #[verifier::when_used_as_spec(spec_is_completed)]
    pub fn is_completed(&self) -> (b: bool)
        ensures
            b == self.spec_is_completed(),
    {
        let mut i: usize = 0;
        while i < self.cards.len()
            invariant
                i <= self.cards.len(),
                forall|j: int| 0 <= j < i ==> self.cards[j] is Some,
            decreases self.cards.len() - i,
        {
            if self.cards[i].is_none() {
                return false;
            }
            i += 1;
        }
        true
    }
}

/// The cards that `slots` hold, in the order of the slots.
pub open spec fn cards_in_slots(slots: Seq<Option<Card>>) -> Seq<Card>
    decreases slots.len(),
{
    if slots.len() == 0 {
        Seq::empty()
    } else {
        match slots.last() {
            Some(c) => cards_in_slots(slots.drop_last()).push(c),
            None => cards_in_slots(slots.drop_last()),
        }
    }
}

/// The cards of `tricks`, trick after trick, each by seat.
pub open spec fn history_cards(tricks: Seq<CompletedTrick>) -> Seq<Card>
    decreases tricks.len(),
{
    if tricks.len() == 0 {
        Seq::empty()
    } else {
        history_cards(tricks.drop_last()) + tricks.last().cards@
    }
}

/// The same tricks, one by one.
pub open spec fn same_tricks(a: Seq<CompletedTrick>, b: Seq<CompletedTrick>) -> bool {
    &&& a.len() == b.len()
    &&& forall|i: int| 0 <= i < a.len() ==> (#[trigger] a[i]).same_as(b[i])
}

/// The points that `seat` has taken in `tricks`.
pub open spec fn points_won(tricks: Seq<CompletedTrick>, seat: int) -> nat
    decreases tricks.len(),
{
    if tricks.len() == 0 {
        0
    } else {
        points_won(tricks.drop_last(), seat) + (if tricks.last().winner == seat {
            tricks.last().points as nat
        } else {
            0
        })
    }
}

/// The seat that takes the trick: the highest rank among the cards of the
/// suit that `first_player` led, the last such seat if two cards tie.
pub fn determine_trick_winner(cards: &Vec<Card>, first_player: usize) -> (winner: usize)
    requires
        first_player < cards.len(),
    ensures
        is_trick_winner(cards@, first_player as int, winner as int),
{
    let lead_suit = cards[first_player].suit;
    let mut winner: usize = first_player;
    let mut i: usize = 0;
    while i < cards.len()
        invariant
            i <= cards.len(),
            first_player < cards.len(),
            lead_suit == cards[first_player as int].suit,
            winner < cards.len(),
            cards[winner as int].suit == lead_suit,
            winner < i || winner == first_player,
            cards[first_player as int].rank <= cards[winner as int].rank,
            forall|j: int| 0 <= j < i && cards[j].suit == lead_suit ==> cards[j].rank <= cards[winner as int].rank,
            forall|j: int|
                winner < j < i && cards[j].suit == lead_suit ==> cards[j].rank < cards[winner as int].rank,
        decreases cards.len() - i,
    {
        if cards[i].suit == lead_suit && cards[i].rank >= cards[winner].rank {
            winner = i;
        }
        i += 1;
    }
    winner
}

/// The points that a trick carries: the sum of its cards' scores.
pub fn calculate_trick_score(cards: &Vec<Card>) -> (points: u8)
    requires
        points_of(cards@) <= u8::MAX,
    ensures
        points == points_of(cards@),
{
    let mut points: u8 = 0;
    let mut i: usize = 0;
    while i < cards.len()
        invariant
            i <= cards.len(),
            points == points_of(cards@.take(i as int)),
            points_of(cards@) <= u8::MAX,
        decreases cards.len() - i,
    {
        proof {
            assert(cards@.take(i + 1).drop_last() == cards@.take(i as int));
            lemma_points_of_prefix(cards@, i + 1);
        }
        points = points + cards[i].score();
        i += 1;
    }
    assert(cards@.take(cards.len() as int) == cards@);
    points
}

/// Whether `cards` carry any points.
pub fn carries_points(cards: &[Card]) -> (any: bool)
    ensures
        any == (points_of(cards@) > 0),
{
    let mut i: usize = 0;
    assert(cards@.take(0) =~= Seq::<Card>::empty());
    while i < cards.len()
        invariant
            i <= cards.len(),
            points_of(cards@.take(i as int)) == 0,
        decreases cards.len() - i,
    {
        proof {
            assert(cards@.take(i + 1).drop_last() == cards@.take(i as int));
            lemma_points_of_prefix(cards@, i + 1);
        }
        if cards[i].is_penalty() {
            return true;
        }
        i += 1;
    }
    assert(cards@.take(cards.len() as int) == cards@);
    false
}

/// A copy of `tricks`.
pub fn copy_tricks(tricks: &Vec<CompletedTrick>) -> (copy: Vec<CompletedTrick>)
    ensures
        same_tricks(copy@, tricks@),
{
    let mut copy: Vec<CompletedTrick> = Vec::new();
    let mut i: usize = 0;
    while i < tricks.len()
        invariant
            i <= tricks.len(),
            copy.len() == i,
            forall|k: int| 0 <= k < i ==> (#[trigger] copy[k]).same_as(tricks[k]),
        decreases tricks.len() - i,
    {
        copy.push(tricks[i].clone());
        i += 1;
    }
    copy
}

/// The same tricks hold the same cards.
pub proof fn lemma_same_tricks_history(a: Seq<CompletedTrick>, b: Seq<CompletedTrick>)
    requires
        same_tricks(a, b),
    ensures
        history_cards(a) == history_cards(b),
    decreases a.len(),
{
    if a.len() > 0 {
        assert(a.last().same_as(b.last()));
        assert(same_tricks(a.drop_last(), b.drop_last())) by {
            assert forall|i: int| 0 <= i < a.drop_last().len() implies (#[trigger] a.drop_last()[i]).same_as(
                b.drop_last()[i],
            ) by {
                assert(a[i].same_as(b[i]));
            }
        }
        lemma_same_tricks_history(a.drop_last(), b.drop_last());
    }
}

/// The cards of the first tricks are no more than the cards of all.
pub proof fn lemma_history_prefix_len(tricks: Seq<CompletedTrick>, n: int)
    requires
        0 <= n <= tricks.len(),
    ensures
        history_cards(tricks.take(n)).len() <= history_cards(tricks).len(),
    decreases tricks.len() - n,
{
    if n < tricks.len() {
        assert(tricks.take(n + 1).drop_last() == tricks.take(n));
        lemma_history_prefix_len(tricks, n + 1);
    } else {
        assert(tricks.take(n) == tricks);
    }
}

/// A trick has one winner.
pub proof fn lemma_trick_winner_unique(cards: Seq<Card>, first: int, w1: int, w2: int)
    requires
        is_trick_winner(cards, first, w1),
        is_trick_winner(cards, first, w2),
    ensures
        w1 == w2,
{
    if w1 < w2 {
        assert(cards[w2].rank < cards[w1].rank);
    } else if w2 < w1 {
        assert(cards[w1].rank < cards[w2].rank);
    }
}

/// The points of two runs of cards add up.
pub proof fn lemma_points_of_concat(a: Seq<Card>, b: Seq<Card>)
    ensures
        points_of(a + b) == points_of(a) + points_of(b),
    decreases b.len(),
{
    if b.len() == 0 {
        assert(a + b == a);
    } else {
        assert((a + b).drop_last() == a + b.drop_last());
        lemma_points_of_concat(a, b.drop_last());
    }
}

/// Taking a card out takes its points out.
pub proof fn lemma_points_of_remove(cards: Seq<Card>, k: int)
    requires
        0 <= k < cards.len(),
    ensures
        points_of(cards) == points_of(cards.remove(k)) + cards[k].spec_score(),
    decreases cards.len(),
{
    if k == cards.len() - 1 {
        assert(cards.remove(k) == cards.drop_last());
    } else {
        assert(cards.remove(k).drop_last() == cards.drop_last().remove(k));
        assert(cards.remove(k).last() == cards.last());
        lemma_points_of_remove(cards.drop_last(), k);
    }
}

/// The points of cards do not depend on their order.
pub proof fn lemma_points_of_same_cards(a: Seq<Card>, b: Seq<Card>)
    requires
        a.to_multiset() == b.to_multiset(),
    ensures
        points_of(a) == points_of(b),
    decreases a.len(),
{
    vstd::seq_lib::to_multiset_len(a);
    vstd::seq_lib::to_multiset_len(b);
    if a.len() > 0 {
        let x = a.last();
        let rest = a.drop_last();
        assert(rest.push(x) == a);
        vstd::seq_lib::to_multiset_build(rest, x);
        vstd::seq_lib::to_multiset_contains(a, x);
        vstd::seq_lib::to_multiset_contains(b, x);
        assert(a.contains(x));
        let k = choose|k: int| 0 <= k < b.len() && b[k] == x;
        vstd::seq_lib::to_multiset_remove(b, k);
        assert(rest.to_multiset() =~= b.remove(k).to_multiset());
        lemma_points_of_same_cards(rest, b.remove(k));
        lemma_points_of_remove(b, k);
    }
}

/// A card that goes into an empty slot joins the cards of the slots.
pub proof fn lemma_slot_filled(slots: Seq<Option<Card>>, seat: int, card: Card)
    requires
        0 <= seat < slots.len(),
        slots[seat] is None,
    ensures
        cards_in_slots(slots.update(seat, Some(card))).to_multiset() == cards_in_slots(
            slots,
        ).to_multiset().insert(card),
    decreases slots.len(),
{
    let filled = slots.update(seat, Some(card));
    if seat == slots.len() - 1 {
        assert(filled.drop_last() == slots.drop_last());
        vstd::seq_lib::to_multiset_build(cards_in_slots(slots.drop_last()), card);
    } else {
        assert(filled.drop_last() == slots.drop_last().update(seat, Some(card)));
        lemma_slot_filled(slots.drop_last(), seat, card);
        if let Some(c) = slots.last() {
            vstd::seq_lib::to_multiset_build(cards_in_slots(slots.drop_last()), c);
            vstd::seq_lib::to_multiset_build(cards_in_slots(filled.drop_last()), c);
            assert(cards_in_slots(filled).to_multiset() =~= cards_in_slots(
                slots,
            ).to_multiset().insert(card));
        }
    }
}

/// Slots that are all filled hold their cards seat by seat; slots that are
/// all empty hold none.
pub proof fn lemma_slots_all_or_none(slots: Seq<Option<Card>>)
    ensures
        (forall|i: int| 0 <= i < slots.len() ==> slots[i] is Some) ==> cards_in_slots(slots)
            == Seq::new(slots.len(), |i: int| slots[i]->0),
        (forall|i: int| 0 <= i < slots.len() ==> slots[i] is None) ==> cards_in_slots(slots)
            == Seq::<Card>::empty(),
    decreases slots.len(),
{
    if slots.len() > 0 {
        lemma_slots_all_or_none(slots.drop_last());
        if forall|i: int| 0 <= i < slots.len() ==> slots[i] is Some {
            assert forall|i: int| 0 <= i < slots.drop_last().len() implies slots.drop_last()[i] is Some by {
                assert(slots[i] is Some);
            }
            assert(cards_in_slots(slots) =~= Seq::new(slots.len(), |i: int| slots[i]->0));
        }
        if forall|i: int| 0 <= i < slots.len() ==> slots[i] is None {
            assert forall|i: int| 0 <= i < slots.drop_last().len() implies slots.drop_last()[i] is None by {
                assert(slots[i] is None);
            }
            assert(slots.last() is None);
        }
    } else {
        assert(cards_in_slots(slots) =~= Seq::new(slots.len(), |i: int| slots[i]->0));
    }
}

/// What the four seats have taken is what the tricks carried.
pub proof fn lemma_points_won_total(tricks: Seq<CompletedTrick>)
    requires
        forall|i: int| 0 <= i < tricks.len() ==> (#[trigger] tricks[i]).wf(),
    ensures
        points_won(tricks, 0) + points_won(tricks, 1) + points_won(tricks, 2) + points_won(
            tricks,
            3,
        ) == points_of(history_cards(tricks)),
    decreases tricks.len(),
{
    if tricks.len() > 0 {
        let rest = tricks.drop_last();
        assert forall|i: int| 0 <= i < rest.len() implies (#[trigger] rest[i]).wf() by {
            assert(tricks[i].wf());
        }
        lemma_points_won_total(rest);
        assert(tricks.last() == tricks[tricks.len() - 1]);
        assert(tricks.last().wf());
        lemma_points_of_concat(history_cards(rest), tricks.last().cards@);
    }
}

/// A prefix carries no more points than the whole.
pub proof fn lemma_points_of_prefix(cards: Seq<Card>, n: int)
    requires
        0 <= n <= cards.len(),
    ensures
        points_of(cards.take(n)) <= points_of(cards),
    decreases cards.len() - n,
{
    if n < cards.len() {
        assert(cards.take(n + 1).drop_last() == cards.take(n));
        lemma_points_of_prefix(cards, n + 1);
    } else {
        assert(cards.take(n) == cards);
    }
}

/// Four cards carry at most 52 points.
pub proof fn lemma_points_of_four(cards: Seq<Card>)
    requires
        cards.len() == 4,
    ensures
        points_of(cards) == cards[0].spec_score() + cards[1].spec_score() + cards[2].spec_score()
            + cards[3].spec_score(),
        points_of(cards) <= 52,
{
    let c3 = cards.drop_last();
    let c2 = c3.drop_last();
    let c1 = c2.drop_last();
    let c0 = c1.drop_last();
    assert(c0.len() == 0);
    assert(points_of(c0) == 0);
    assert(points_of(c1) == points_of(c0) + c1.last().spec_score());
    assert(points_of(c2) == points_of(c1) + c2.last().spec_score());
    assert(points_of(c3) == points_of(c2) + c3.last().spec_score());
    assert(points_of(cards) == points_of(c3) + cards.last().spec_score());
}

/// Stepping one seat on is stepping one place on in the rotation.
pub proof fn lemma_next_in_rotation(first: int, j: int, n: int)
    by (nonlinear_arith)
    requires
        0 <= first,
        0 <= j,
        0 < n,
    ensures
        (first + j + 1) % n == (if (first + j) % n + 1 == n {
            0
        } else {
            (first + j) % n + 1
        }),
{
}

} // verus!
