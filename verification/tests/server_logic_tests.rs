use core_logic::playing::Rank::{Ace, King, Seven};
use core_logic::playing::Suit::{Clubs, Hearts, Spades};
use core_logic::playing::{Card, Deck};
use core_logic::server_logic::{PlayerAction, PlayingHistory, PlayingState, RoundState, Score};

#[test]
fn initial_state_starts_the_bidding() {
    let state = RoundState::update(RoundState::Initial, PlayerAction::Nil);
    match state {
        RoundState::Bidding(b) => {
            assert_eq!(b.is_bidding, 0);
            assert!(b.bidding_history.is_empty());
            assert_eq!(b.deck.0.len(), 4);
            assert!(b.deck.0.iter().all(|h| h.len() == 8));
        }
        _ => panic!("expected the bidding phase"),
    }
}

#[test]
fn playing_moves_the_card_to_the_table() {
    let deck = Deck(vec![
        vec![Card::new(Ace, Spades), Card::new(Seven, Hearts)],
        vec![Card::new(King, Clubs)],
        vec![],
        vec![],
    ]);
    let state = RoundState::Playing(PlayingState {
        deck,
        is_playing: 0,
        history: PlayingHistory::new(),
        table: vec![],
        trump: Hearts,
    });
    let state = RoundState::update(
        state,
        PlayerAction::PlayCard { player: 0, card: Card::new(Ace, Spades) },
    );
    match state {
        RoundState::Playing(p) => {
            assert_eq!(p.is_playing, 1);
            assert_eq!(p.table, vec![Card::new(Ace, Spades)]);
            assert_eq!(p.deck.0[0], vec![Card::new(Seven, Hearts)]);
            assert!(p.history.odd.is_empty() && p.history.even.is_empty());
        }
        _ => panic!("expected the playing phase"),
    }
}

#[test]
fn server_score_starts_at_zero() {
    let s = Score::new();
    assert_eq!((s.odd, s.even), (0, 0));
}
