use core_logic::playing::PlayingRequestResult::{Illegal, Legal, TrickWinned};
use core_logic::playing::Rank::{Ace, Eigth, Jack, King, Nine, Queen, Seven, Ten};
use core_logic::playing::Suit::{Clubs, Diamonds, Hearts, Spades};
use core_logic::playing::{master, playing_request, Card, Deck, Hand, Table};
use std::collections::HashSet;

#[test]
fn playing_card_ordering_test() {
    let c1 = Card::new(Seven, Diamonds);
    let c2 = Card::new(Eigth, Diamonds);
    assert!(c1.normal_strenght() < c2.normal_strenght());
    assert!(!(c2.normal_strenght() < c1.normal_strenght()));
    assert!(c1 == c1);
}

#[test]
fn random_deck_test() {
    // Correct partition
    let deck1 = Deck::random_deck();
    assert!(deck1.0.len() == 4);
    for i in 0..=3 {
        assert!(deck1[i].len() == 8);
    }
    // Not twice the same card in a deck
    let mut seen = HashSet::new();
    let unicity = deck1.0.iter().all(|x| seen.insert(x));
    assert!(unicity);
    // Not twice the same deck
    let deck2 = Deck::random_deck();
    assert!(deck1 != deck2);
}

#[test]
fn delete_card_test() {
    let deck = Deck::random_deck();
    let first_card = deck[0][0];
    let deck = deck.delete_card(0, first_card);
    assert!(first_card != deck[0][0]);
    assert!(deck.0[0].len() == 7);
}

#[test]
fn strenth_and_master_test() {
    let trump = Diamonds;
    let asked = Spades;
    let strong = Card::new(Ace, trump);
    let weak = Card::new(Seven, asked);
    let pretty_strong = Card::new(Seven, trump);
    let pretty_weak = Card::new(Ten, asked);

    assert!(strong.strength(trump, asked) > weak.strength(trump, asked));
    assert!(pretty_strong.strength(trump, asked) > pretty_weak.strength(trump, asked));
    assert!(pretty_strong.strength(trump, asked) < strong.strength(trump, asked));
    assert!(weak.strength(trump, asked) < pretty_weak.strength(trump, asked));

    let table = vec![strong, pretty_strong, pretty_weak, weak];
    assert!(master(&table, trump) == 0);
    let table = vec![pretty_strong, pretty_weak, weak, strong];
    assert!(master(&table, trump) == 3);
}

#[test]
fn playing_request_test() {
    // You must have the card to play in
    let table: Table = vec![];
    let hand = vec![
        Card::new(Seven, Diamonds),
        Card::new(Nine, Spades),
        Card::new(Ten, Hearts),
        Card::new(Seven, Spades),
    ];
    let trump = Hearts;
    let dont_have_it = Card::new(Eigth, Diamonds);
    assert!(playing_request(&table, &hand, trump, dont_have_it) == Illegal);
    // If first to play, play anything
    assert!(playing_request(&table, &hand, trump, hand[0]) == Legal);
    assert!(playing_request(&table, &hand, trump, hand[1]) == Legal);
    assert!(playing_request(&table, &hand, trump, hand[2]) == Legal);
    assert!(playing_request(&table, &hand, trump, hand[3]) == Legal);
    // If normal suit required
    let table = vec![Card::new(Eigth, Spades), Card::new(Jack, Clubs)];
    // Always legal to play the same color as the first one to play
    assert!(playing_request(&table, &hand, trump, hand[3]) == Legal);
    assert!(playing_request(&table, &hand, trump, hand[1]) == Legal);
    // But illegal to play a different color if I can play what's asked
    assert!(playing_request(&table, &hand, trump, hand[0]) == Illegal);
    assert!(playing_request(&table, &hand, trump, hand[2]) == Illegal);
    // If I play a different color because I don't have the color asked
    let table = vec![Card::new(Eigth, Clubs), Card::new(Seven, Clubs)];
    // Check if I'm playing trump, which is always legal here
    assert!(playing_request(&table, &hand, trump, hand[2]) == Legal);
    // Else if my partner is winning the trick it's still legal.
    let table = vec![Card::new(Jack, Clubs), Card::new(Eigth, Clubs)];
    assert!(playing_request(&table, &hand, trump, hand[0]) == Legal);
    // Else illegal
    let table = vec![Card::new(Eigth, Clubs), Card::new(Jack, Clubs)];
    assert!(playing_request(&table, &hand, trump, hand[0]) == Illegal);
    // If a trump is required
    let table = vec![Card::new(Queen, Hearts), Card::new(Jack, Clubs)];
    // And I play trump
    // If my card is the stongest among the cards on the table, it's legal
    assert!(playing_request(&table, &hand, trump, hand[2]) == Legal);
    // Else it's legal only if I can't play on top
    let table = vec![Card::new(Jack, Hearts), Card::new(Jack, Clubs)];
    assert!(playing_request(&table, &hand, trump, hand[2]) == Legal);
    let table = vec![Card::new(Queen, Hearts), Card::new(Jack, Clubs)];
    let hand = vec![
        Card::new(Jack, Hearts),
        Card::new(Nine, Spades),
        Card::new(Eigth, Hearts),
        Card::new(Seven, Spades),
    ];
    assert!(playing_request(&table, &hand, trump, hand[2]) == Illegal);
    // If I don't play trump, it's legal only if y don't have any trump, and no other conditions
    assert!(playing_request(&table, &hand, trump, hand[1]) == Illegal);
    let hand = vec![
        Card::new(Jack, Diamonds),
        Card::new(Nine, Spades),
        Card::new(Eigth, Diamonds),
        Card::new(Seven, Diamonds),
    ];
    assert!(playing_request(&table, &hand, trump, hand[1]) == Legal);
}

#[test]
fn test_playing_request_winner() {
    let trump = Diamonds;
    let hand = vec![
        Card::new(Jack, Diamonds),
        Card::new(Nine, Spades),
        Card::new(Eigth, Diamonds),
        Card::new(Seven, Diamonds),
    ];
    // No trump
    let table = vec![
        Card::new(Eigth, Spades),
        Card::new(Jack, Clubs),
        Card::new(Queen, Spades),
    ];
    assert!(playing_request(&table, &hand, trump, hand[1]) == TrickWinned(2));
    let table = vec![
        Card::new(Eigth, Spades),
        Card::new(Jack, Clubs),
        Card::new(Seven, Spades),
    ];
    assert!(playing_request(&table, &hand, trump, hand[1]) == TrickWinned(3));
    // Trump
    let table = vec![
        Card::new(Eigth, Spades),
        Card::new(Nine, Diamonds),
        Card::new(Seven, Spades),
    ];
    assert!(playing_request(&table, &hand, trump, hand[1]) == TrickWinned(1));
    let table = vec![
        Card::new(Eigth, Hearts),
        Card::new(Nine, Diamonds),
        Card::new(Seven, Spades),
    ];
    assert!(playing_request(&table, &hand, trump, hand[0]) == TrickWinned(3));
    let table = vec![
        Card::new(Eigth, Hearts),
        Card::new(Nine, Diamonds),
        Card::new(Seven, Spades),
    ];
    let hand = vec![
        Card::new(Ten, Diamonds),
        Card::new(Nine, Spades),
        Card::new(Eigth, Diamonds),
        Card::new(Seven, Diamonds),
    ];
    // 1 is my partner
    assert!(playing_request(&table, &hand, trump, hand[0]) == TrickWinned(1));
    assert!(playing_request(&table, &hand, trump, hand[1]) == TrickWinned(1));

    // 2 is not my partner
    let table = vec![
        Card::new(Eigth, Hearts),
        Card::new(Seven, Spades),
        Card::new(Nine, Diamonds),
    ];
    assert!(playing_request(&table, &hand, trump, hand[0]) == TrickWinned(2));
    assert!(playing_request(&table, &hand, trump, hand[1]) == Illegal);
}

// ---- Exact values of the strength formulas ----

#[test]
fn strength_values_test() {
    let ranks = [Seven, Eigth, Nine, Jack, Queen, King, Ten, Ace];
    let normal: Vec<u32> = ranks.iter().map(|r| Card::new(*r, Spades).normal_strenght()).collect();
    assert_eq!(normal, vec![0, 1, 2, 3, 4, 5, 6, 7]);
    let trump: Vec<u32> = ranks.iter().map(|r| Card::new(*r, Spades).trump_strenght()).collect();
    assert_eq!(trump, vec![10, 11, 16, 17, 12, 13, 14, 15]);
    // A card of neither the trump nor the asked suit is worth nothing.
    assert_eq!(Card::new(Ace, Clubs).strength(Hearts, Spades), 0);
    assert_eq!(Card::new(Jack, Hearts).strength(Hearts, Spades), 17);
    assert_eq!(Card::new(Ten, Spades).strength(Hearts, Spades), 6);
}

#[test]
fn off_suit_card_never_takes_the_trick() {
    // The led Seven is worth as little as an off-suit card, and still wins.
    let table = vec![Card::new(Seven, Spades), Card::new(Jack, Clubs)];
    assert_eq!(master(&table, Hearts), 0);
    let table = vec![Card::new(Seven, Spades), Card::new(Eigth, Clubs)];
    assert_eq!(master(&table, Diamonds), 0);
    // A trump still beats the led suit.
    let table = vec![Card::new(Seven, Spades), Card::new(Eigth, Clubs), Card::new(Seven, Diamonds)];
    assert_eq!(master(&table, Diamonds), 2);
}

#[test]
fn deal_gives_eight_cards_each_in_order() {
    let mut cards = Vec::new();
    for s in [Spades, Diamonds, Hearts, Clubs] {
        for r in [Seven, Eigth, Nine, Ten, Jack, King, Queen, Ace] {
            cards.push(Card::new(r, s));
        }
    }
    let deck = Deck::deal(cards.clone());
    assert_eq!(deck.0.len(), 4);
    for h in 0..4 {
        assert_eq!(deck.0[h], cards[8 * h..8 * h + 8].to_vec());
    }
    // The same cards in the same order give the same deal, any swap changes it.
    assert!(Deck::deal(cards.clone()) == deck);
    let mut swapped = cards.clone();
    swapped.swap(0, 31);
    assert!(Deck::deal(swapped) != deck);
}

#[test]
fn index_mut_reaches_a_hand() {
    let mut deck = Deck(vec![vec![Card::new(Ace, Spades)], vec![], vec![], vec![]]);
    deck[1].push(Card::new(Seven, Hearts));
    assert_eq!(deck[1], vec![Card::new(Seven, Hearts)]);
    assert_eq!(deck[0], vec![Card::new(Ace, Spades)]);
}

// ---- Laws on concrete values ----

#[test]
fn fourth_card_winner_is_master_of_completed_trick() {
    let trump = Hearts;
    let table = vec![
        Card::new(Ace, Spades),
        Card::new(Seven, Hearts),
        Card::new(King, Spades),
    ];
    let hand = vec![Card::new(Ten, Spades), Card::new(Nine, Clubs)];
    let result = playing_request(&table, &hand, trump, hand[0]);
    let mut trick = table.clone();
    trick.push(hand[0]);
    assert_eq!(result, TrickWinned(master(&trick, trump)));
    assert_eq!(result, TrickWinned(1));
    // Fewer than three cards on the table never close the trick.
    let table = vec![Card::new(Ace, Spades)];
    assert_eq!(playing_request(&table, &hand, trump, hand[0]), Legal);
}

#[test]
fn a_hand_without_asked_suit_nor_trump_may_be_stuck() {
    // The one situation where no card of the hand is legal.
    let trump = Hearts;
    let table = vec![Card::new(Jack, Clubs)];
    let hand: Hand = vec![Card::new(Seven, Diamonds), Card::new(Ace, Spades)];
    for c in &hand {
        assert_eq!(playing_request(&table, &hand, trump, *c), Illegal);
    }
    // With a trump in hand, the trump is legal.
    let hand: Hand = vec![Card::new(Seven, Diamonds), Card::new(Seven, Hearts)];
    assert_eq!(playing_request(&table, &hand, trump, hand[1]), Legal);
}

#[test]
fn overtrump_when_possible() {
    let trump = Hearts;
    let table = vec![Card::new(Ace, Hearts)];
    // Holding the nine of trump, a lower trump is illegal, the nine is legal.
    let hand: Hand = vec![Card::new(Seven, Hearts), Card::new(Nine, Hearts)];
    assert_eq!(playing_request(&table, &hand, trump, hand[0]), Illegal);
    assert_eq!(playing_request(&table, &hand, trump, hand[1]), Legal);
    // Unable to overtrump, any trump is legal, and another suit is not.
    let hand: Hand = vec![Card::new(Seven, Hearts), Card::new(Eigth, Clubs)];
    assert_eq!(playing_request(&table, &hand, trump, hand[0]), Legal);
    assert_eq!(playing_request(&table, &hand, trump, hand[1]), Illegal);
    // Without trump, anything is legal.
    let hand: Hand = vec![Card::new(Seven, Spades), Card::new(Eigth, Clubs)];
    assert_eq!(playing_request(&table, &hand, trump, hand[1]), Legal);
}

#[test]
fn delete_card_takes_exactly_that_card() {
    let hand = vec![Card::new(Seven, Spades), Card::new(Ace, Hearts), Card::new(Ten, Clubs)];
    let deck = Deck(vec![hand.clone(), vec![Card::new(Nine, Diamonds)], vec![], vec![]]);
    let deck = deck.delete_card(0, Card::new(Ace, Hearts));
    assert_eq!(deck.0[0], vec![Card::new(Seven, Spades), Card::new(Ten, Clubs)]);
    assert_eq!(deck.0[1], vec![Card::new(Nine, Diamonds)]);
    assert_eq!(deck.0.len(), 4);
}

#[test]
fn random_deck_holds_every_card_once() {
    let deck = Deck::random_deck();
    let all: HashSet<Card> = deck.iter().flatten().copied().collect();
    assert_eq!(all.len(), 32);
    let suits = [Spades, Diamonds, Hearts, Clubs];
    let ranks = [Seven, Eigth, Nine, Jack, Queen, King, Ten, Ace];
    for s in suits {
        for r in ranks {
            assert!(all.contains(&Card::new(r, s)));
        }
    }
}
