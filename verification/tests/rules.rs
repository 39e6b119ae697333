use hearts_game::rules::{avoid_hearts, avoid_penalties, get_two_of_clubs, must_follow_suit};
use hearts_game::{legal_moves, Card, TableState};

fn cards(list: &[(char, u8)]) -> Vec<Card> {
    list.iter().map(|(s, r)| Card::new(*s, *r)).collect()
}

fn table(first_trick: bool, lead_suit: Option<char>, hearts_broken: bool) -> TableState {
    TableState { first_trick, lead_suit, hearts_broken }
}

#[test]
fn the_first_card_of_the_game_is_the_two_of_clubs() {
    let hand = cards(&[('C', 2), ('C', 9), ('D', 4), ('H', 3), ('S', 12)]);
    assert_eq!(legal_moves(&hand, &table(true, None, false)), cards(&[('C', 2)]));
}

#[test]
fn the_two_of_clubs_rule_holds_only_for_the_first_card_of_the_first_trick() {
    let hand = cards(&[('C', 2), ('C', 9), ('D', 4)]);
    assert_eq!(legal_moves(&hand, &table(false, None, false)), hand);
    assert_eq!(
        legal_moves(&hand, &table(true, Some('D'), false)),
        cards(&[('D', 4)])
    );
}

#[test]
fn a_suit_that_was_led_is_followed() {
    let hand = cards(&[('C', 9), ('D', 4), ('D', 11), ('H', 3), ('S', 12)]);
    assert_eq!(
        legal_moves(&hand, &table(false, Some('D'), true)),
        cards(&[('D', 4), ('D', 11)])
    );
    assert_eq!(
        legal_moves(&hand, &table(true, Some('D'), false)),
        cards(&[('D', 4), ('D', 11)])
    );
    assert_eq!(
        legal_moves(&hand, &table(false, Some('H'), false)),
        cards(&[('H', 3)])
    );
}

#[test]
fn following_goes_before_the_ban_on_penalties_in_the_first_trick() {
    let hand = cards(&[('C', 9), ('S', 3), ('S', 12)]);
    assert_eq!(
        legal_moves(&hand, &table(true, Some('S'), false)),
        cards(&[('S', 3), ('S', 12)])
    );
}

#[test]
fn no_penalty_card_in_the_first_trick_when_the_suit_cannot_be_followed() {
    let hand = cards(&[('D', 4), ('H', 3), ('H', 14), ('S', 12), ('S', 13)]);
    assert_eq!(
        legal_moves(&hand, &table(true, Some('C'), false)),
        cards(&[('D', 4), ('S', 13)])
    );
}

#[test]
fn a_hand_of_penalty_cards_may_play_them_in_the_first_trick() {
    let hand = cards(&[('H', 3), ('H', 14), ('S', 12)]);
    assert_eq!(legal_moves(&hand, &table(true, Some('C'), false)), hand);
    assert_eq!(legal_moves(&hand, &table(true, None, false)), hand);
}

#[test]
fn after_the_first_trick_any_card_may_be_dumped() {
    let hand = cards(&[('D', 4), ('H', 3), ('S', 12)]);
    assert_eq!(legal_moves(&hand, &table(false, Some('C'), false)), hand);
}

#[test]
fn hearts_are_not_led_before_they_are_broken() {
    let hand = cards(&[('C', 9), ('H', 3), ('H', 14), ('S', 12)]);
    assert_eq!(
        legal_moves(&hand, &table(false, None, false)),
        cards(&[('C', 9), ('S', 12)])
    );
    assert_eq!(legal_moves(&hand, &table(false, None, true)), hand);
}

#[test]
fn a_hand_of_hearts_leads_hearts_before_they_are_broken() {
    let hand = cards(&[('H', 2), ('H', 7), ('H', 12), ('H', 14)]);
    let moves = legal_moves(&hand, &table(false, None, false));
    assert_eq!(moves, hand);
    assert!(!moves.is_empty());
    assert_eq!(legal_moves(&hand, &table(true, None, false)), hand);
}

#[test]
fn legal_moves_are_never_empty_for_a_hand_with_cards() {
    let hands = [
        cards(&[('C', 2)]),
        cards(&[('H', 2)]),
        cards(&[('S', 12)]),
        cards(&[('S', 12), ('H', 5)]),
        cards(&[('D', 3), ('C', 2), ('H', 9), ('S', 12)]),
    ];
    for hand in hands.iter() {
        for first_trick in [false, true] {
            for lead in [None, Some('C'), Some('D'), Some('H'), Some('S')] {
                for broken in [false, true] {
                    let t = table(first_trick, lead, broken);
                    let moves = legal_moves(hand, &t);
                    assert!(!moves.is_empty());
                    assert!(moves.iter().all(|c| hand.contains(c)));
                    assert_eq!(legal_moves(hand, &t), moves);
                    assert_eq!(legal_moves(&moves, &t), moves);
                }
            }
        }
    }
}

#[test]
fn an_empty_hand_has_no_legal_move() {
    assert!(legal_moves(&[], &table(true, None, false)).is_empty());
    assert!(legal_moves(&[], &table(false, Some('H'), true)).is_empty());
}

#[test]
fn the_rungs_of_the_ladder_one_by_one() {
    let hand = cards(&[('C', 2), ('D', 4), ('H', 3), ('S', 12)]);
    assert_eq!(get_two_of_clubs(&hand), cards(&[('C', 2)]));
    assert_eq!(get_two_of_clubs(&hand[1..]), Vec::<Card>::new());
    assert_eq!(must_follow_suit(&hand, 'H'), cards(&[('H', 3)]));
    assert_eq!(must_follow_suit(&hand[..2], 'H'), Vec::<Card>::new());
    assert_eq!(avoid_hearts(&hand), cards(&[('C', 2), ('D', 4), ('S', 12)]));
    assert_eq!(avoid_hearts(&hand[2..3]), cards(&[('H', 3)]));
    assert_eq!(avoid_penalties(&hand), cards(&[('C', 2), ('D', 4)]));
    assert_eq!(avoid_penalties(&hand[2..]), cards(&[('H', 3), ('S', 12)]));
}
