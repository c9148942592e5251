use core_logic::bidding::Bid;
use core_logic::party::{PlayerAction, PlayingState, RoundState, Score};
use core_logic::playing::Rank::{Ace, Jack, King, Nine, Queen, Seven, Ten};
use core_logic::playing::Suit::{Clubs, Diamonds, Hearts, Spades};
use core_logic::playing::{Card, Deck};

#[test]
fn test_bidding_order() {
    let mut round_state = RoundState::new(0);
    println!("{:#?}", round_state);
    round_state = round_state.update(PlayerAction::AnounceBid {
        player: 0,
        bid: Bid::Pass,
    });
    round_state = round_state.update(PlayerAction::AnounceBid {
        player: 1,
        bid: Bid::Pass,
    });
    round_state = round_state.update(PlayerAction::AnounceBid {
        player: 2,
        bid: Bid::Pass,
    });
    round_state = round_state.update(PlayerAction::AnounceBid {
        player: 3,
        bid: Bid::Pass,
    });
    println!("{:#?}", round_state);
}

#[test]
fn four_passes_deal_again_to_the_next_player() {
    let mut round_state = RoundState::new(2);
    for player in [2, 3, 0, 1] {
        round_state = round_state.update(PlayerAction::AnounceBid { player, bid: Bid::Pass });
    }
    match round_state {
        RoundState::Bidding(b) => {
            assert_eq!(b.first_player, 3);
            assert_eq!(b.is_bidding, 3);
            assert!(b.bidding_history.is_empty());
            assert_eq!(b.deck.0.len(), 4);
        }
        _ => panic!("expected a new bidding phase"),
    }
}

#[test]
fn contract_and_three_passes_start_the_play() {
    let mut round_state = RoundState::new(1);
    round_state = round_state.update(PlayerAction::AnounceBid {
        player: 1,
        bid: Bid::Value(Hearts, 80),
    });
    round_state = round_state.update(PlayerAction::AnounceBid {
        player: 2,
        bid: Bid::Value(Clubs, 90),
    });
    for player in [3, 0, 1] {
        round_state = round_state.update(PlayerAction::AnounceBid { player, bid: Bid::Pass });
    }
    match round_state {
        RoundState::Playing(p) => {
            assert_eq!(p.trump, Clubs);
            assert_eq!(p.is_playing, 1);
            assert_eq!(p.first_player, 1);
            assert!(p.table.is_empty());
            assert!(p.history[0].is_empty() && p.history[1].is_empty());
        }
        _ => panic!("expected the playing phase"),
    }
}

fn small_round() -> RoundState {
    let deck = Deck(vec![
        vec![Card::new(Ace, Spades), Card::new(Seven, Hearts)],
        vec![Card::new(King, Spades), Card::new(Nine, Clubs)],
        vec![Card::new(Ten, Spades), Card::new(Queen, Diamonds)],
        vec![Card::new(Jack, Hearts), Card::new(Seven, Spades)],
    ]);
    RoundState::Playing(PlayingState {
        deck,
        is_playing: 0,
        first_player: 0,
        history: [vec![], vec![]],
        table: vec![],
        trump: Hearts,
    })
}

#[test]
fn a_trick_goes_to_the_strongest_card() {
    let mut state = small_round();
    let plays = [
        (0, Card::new(Ace, Spades)),
        (1, Card::new(King, Spades)),
        (2, Card::new(Ten, Spades)),
        (3, Card::new(Seven, Spades)),
    ];
    for (player, card) in plays {
        state = state.update(PlayerAction::PlayCard { player, card });
    }
    match state {
        RoundState::Playing(p) => {
            // The ace, first card of the trick, wins it for the odd index 0 side.
            assert_eq!(p.is_playing, 0);
            assert!(p.table.is_empty());
            assert_eq!(p.history[0].len(), 1);
            assert_eq!(p.history[0][0][0], Card::new(Ace, Spades));
            assert!(p.history[1].is_empty());
            // Every card is still somewhere: four in the hands, four in the trick.
            let in_hands: usize = p.deck.0.iter().map(|h| h.len()).sum();
            assert_eq!(in_hands, 4);
        }
        _ => panic!("expected the round to go on"),
    }
}

#[test]
fn the_trick_goes_to_the_seat_of_the_winning_card() {
    // Player 2 leads; player 3 plays the Jack of trump and wins for seat 3.
    let deck = Deck(vec![
        vec![Card::new(Seven, Spades), Card::new(Nine, Clubs)],
        vec![Card::new(King, Spades), Card::new(Seven, Hearts)],
        vec![Card::new(Ace, Spades), Card::new(Queen, Diamonds)],
        vec![Card::new(Jack, Hearts), Card::new(Queen, Clubs)],
    ]);
    let mut state = RoundState::Playing(PlayingState {
        deck,
        is_playing: 2,
        first_player: 2,
        history: [vec![], vec![]],
        table: vec![],
        trump: Hearts,
    });
    let plays = [
        (2, Card::new(Ace, Spades)),
        (3, Card::new(Jack, Hearts)),
        (0, Card::new(Seven, Spades)),
        (1, Card::new(King, Spades)),
    ];
    for (player, card) in plays {
        state = state.update(PlayerAction::PlayCard { player, card });
    }
    match state {
        RoundState::Playing(p) => {
            assert_eq!(p.is_playing, 3);
            assert!(p.history[0].is_empty());
            assert_eq!(p.history[1].len(), 1);
            assert_eq!(p.history[1][0][1], Card::new(Jack, Hearts));
        }
        _ => panic!("expected the round to go on"),
    }
}

#[test]
fn last_card_ends_the_round() {
    let deck = Deck(vec![
        vec![Card::new(Ace, Spades)],
        vec![],
        vec![],
        vec![],
    ]);
    let state = RoundState::Playing(PlayingState {
        deck,
        is_playing: 0,
        first_player: 1,
        history: [vec![], vec![]],
        table: vec![Card::new(King, Spades), Card::new(Ten, Spades), Card::new(Seven, Spades)],
        trump: Hearts,
    });
    let state = state.update(PlayerAction::PlayCard { player: 0, card: Card::new(Ace, Spades) });
    assert!(matches!(state, RoundState::Over));
}

#[test]
fn party_score_starts_at_zero() {
    let s = Score::new();
    assert_eq!((s.odd, s.even), (0, 0));
}
