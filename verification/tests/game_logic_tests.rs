use core_logic::game_logic::PlayingRequestResult::{Illegal, Legal, TrickWinned};
use core_logic::game_logic::Suit::{Clubs, Diamonds, Hearts, Spades};
use core_logic::game_logic::{master, playing_request, Card, Deck};

#[test]
fn game_logic_card_ordering_test() {
    let c1 = Card::new(7, Diamonds);
    let c2 = Card::new(8, Diamonds);
    assert!(c1 < c2);
    assert!(!(c2 < c1));
    assert!(c1 == c1);
}

#[test]
fn strength_puts_trumps_first() {
    assert_eq!(Card::new(7, Hearts).strength(Hearts), 49);
    assert_eq!(Card::new(14, Spades).strength(Hearts), 14);
}

#[test]
fn master_names_the_strongest_card() {
    assert_eq!(master(&vec![], Hearts), None);
    let table = vec![Card::new(14, Spades), Card::new(7, Hearts), Card::new(13, Clubs)];
    assert_eq!(master(&table, Hearts), Some(1));
    // A card of another suit than the led one, and not a trump, never wins.
    let table = vec![Card::new(10, Spades), Card::new(10, Clubs)];
    assert_eq!(master(&table, Hearts), Some(0));
    let table = vec![Card::new(7, Spades), Card::new(14, Clubs), Card::new(8, Spades)];
    assert_eq!(master(&table, Hearts), Some(2));
}

#[test]
fn playing_request_rules() {
    let trump = Hearts;
    let hand = vec![Card::new(7, Diamonds), Card::new(9, Spades), Card::new(10, Hearts)];
    // Not in hand.
    assert_eq!(playing_request(vec![], hand.clone(), trump, Card::new(8, Diamonds)), Illegal);
    // First to play.
    assert_eq!(playing_request(vec![], hand.clone(), trump, hand[0]), Legal);
    // Follow the asked suit.
    let table = vec![Card::new(8, Spades)];
    assert_eq!(playing_request(table.clone(), hand.clone(), trump, hand[1]), Legal);
    assert_eq!(playing_request(table.clone(), hand.clone(), trump, hand[0]), Illegal);
    // No asked suit: trump is legal, another suit only if the partner wins.
    let table = vec![Card::new(8, Clubs), Card::new(7, Clubs)];
    assert_eq!(playing_request(table.clone(), hand.clone(), trump, hand[2]), Legal);
    assert_eq!(playing_request(table.clone(), hand.clone(), trump, hand[0]), Legal);
    let table = vec![Card::new(7, Clubs), Card::new(8, Clubs)];
    assert_eq!(playing_request(table.clone(), hand.clone(), trump, hand[0]), Illegal);
    // Trump asked: overtrump when possible.
    let table = vec![Card::new(12, Hearts)];
    let hand = vec![Card::new(11, Hearts), Card::new(13, Hearts)];
    assert_eq!(playing_request(table.clone(), hand.clone(), trump, hand[0]), Illegal);
    assert_eq!(playing_request(table.clone(), hand.clone(), trump, hand[1]), Legal);
    // Fourth card: the trick goes to the strongest card.
    let table = vec![Card::new(8, Spades), Card::new(7, Hearts), Card::new(14, Spades)];
    let hand = vec![Card::new(9, Spades)];
    assert_eq!(playing_request(table, hand.clone(), trump, hand[0]), TrickWinned(1));
    // Without trump, the highest card of the led suit takes the trick.
    let table = vec![Card::new(7, Spades), Card::new(14, Clubs), Card::new(8, Spades)];
    let hand = vec![Card::new(9, Spades)];
    assert_eq!(playing_request(table, hand.clone(), trump, hand[0]), TrickWinned(3));
}

#[test]
fn deal_is_in_order() {
    let mut cards = Vec::new();
    for s in [Spades, Diamonds, Hearts, Clubs] {
        for r in 7..=14 {
            cards.push(Card::new(r, s));
        }
    }
    let deck = Deck::deal(cards.clone());
    for h in 0..4 {
        assert_eq!(deck.0[h], cards[8 * h..8 * h + 8].to_vec());
    }
}

#[test]
fn random_deck_deals_the_game() {
    let deck = Deck::random_deck();
    assert_eq!(deck.0.len(), 4);
    assert!(deck.0.iter().all(|h| h.len() == 8));
    let mut all: Vec<(u8, u8)> = Vec::new();
    for c in deck.0.iter().flatten() {
        let s = match c.suit {
            Spades => 0,
            Diamonds => 1,
            Hearts => 2,
            Clubs => 3,
        };
        all.push((s, c.rank));
    }
    all.sort();
    let mut expected = Vec::new();
    for s in 0..4 {
        for r in 7..=14 {
            expected.push((s, r));
        }
    }
    assert_eq!(all, expected);
}

#[test]
fn delete_card_takes_the_card_out() {
    let mut deck = Deck(vec![
        vec![Card::new(7, Spades), Card::new(14, Hearts)],
        vec![Card::new(9, Clubs)],
        vec![],
        vec![],
    ]);
    deck.delete_card(0, Card::new(14, Hearts));
    assert_eq!(deck.0[0], vec![Card::new(7, Spades)]);
    assert_eq!(deck.0[1], vec![Card::new(9, Clubs)]);
}
