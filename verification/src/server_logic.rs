//! The logic used by the server to update the state of the game.

use vstd::prelude::*;
use crate::bidding::Bid;
use crate::playing::{Card, Deck, Player, Suit, Trick, is_full_deal, without_card};

verus! {

// ======= State definitions =======

/// Contains the history on the current round by listing the tricks won by
/// Odd and Even, the two opposed teams.
pub struct PlayingHistory {
    pub odd: Vec<Trick>,
    pub even: Vec<Trick>,
}

/// Current score of the party
pub struct Score {
    pub odd: u8,
    pub even: u8,
}

/// All the logic for a single round.
pub enum RoundState {
    Initial,
    Over,
    Playing(PlayingState),
    Bidding(BiddingState),
}

/// If we are in the play phase, the round is described by this struct.
pub struct PlayingState {
    pub deck: Deck,
    pub is_playing: Player,
    pub history: PlayingHistory,
    pub table: Vec<Card>,
    pub trump: Suit,
}

/// If we are in the bidding phase, the round is described by this struct.
pub struct BiddingState {
    pub deck: Deck,
    pub is_bidding: Player,
    pub bidding_history: Vec<Bid>,
}

/// A player can play or bid, (pass is None)
pub enum PlayerAction {
    Nil,
    PlayCard { player: Player, card: Card },
    Bid { player: Player, bid: Option<Bid> },
}

// ------------- Impl --------------

impl PlayingHistory {
    pub fn new() -> (h: Self)
        ensures
            h.odd@.len() == 0,
            h.even@.len() == 0,
    {
        Self { odd: Vec::new(), even: Vec::new() }
    }
}

impl Score {
    pub fn new() -> (s: Self)
        ensures
            s.odd == 0,
            s.even == 0,
    {
        Score { odd: 0, even: 0 }
    }
}

impl RoundState {
    /// The action fits the phase, and the state of that phase accepts it.
    pub open spec fn accepts(&self, action: PlayerAction) -> bool {
        match (*self, action) {
            (RoundState::Initial, PlayerAction::Nil) => true,
            (RoundState::Playing(p), PlayerAction::PlayCard { player, card }) => p.accepts(
                player,
                card,
            ),
            _ => false,
        }
    }

    /// Simply see in which phase we are (among initial, bidding, playing) and call the right method.
    pub fn update(round_state: RoundState, action: PlayerAction) -> (next: RoundState)
        requires
            round_state.accepts(action),
        ensures
            match (round_state, action) {
                (RoundState::Initial, PlayerAction::Nil) => {
                    &&& next matches RoundState::Bidding(b)
                    &&& b.is_bidding == 0
                    &&& b.bidding_history@.len() == 0
                    &&& is_full_deal(b.deck@)
                },
                (RoundState::Playing(p), PlayerAction::PlayCard { player, card }) => p.step(
                    player,
                    card,
                    next,
                ),
                _ => false,
            },
    {
        match (round_state, action) {
            (RoundState::Initial, PlayerAction::Nil) => RoundState::Bidding(
                BiddingState { deck: Deck::random_deck(), is_bidding: 0, bidding_history: Vec::new() },
            ),
            (RoundState::Playing(playing_state), PlayerAction::PlayCard { player, card }) => {
                playing_state.update(player, card)
            },
            _ => {
                assert(false);
                RoundState::Over
            },
        }
    }
}

impl PlayingState {
    /// `player` may play `card` now: the card is in the player's hand and the
    /// trick is not complete yet.
    pub open spec fn accepts(&self, player: Player, card: Card) -> bool {
        &&& player < self.deck@.len()
        &&& self.deck@[player as int].contains(card)
        &&& self.table@.len() <= 3
    }

    /// What playing `card` does to the state: the card leaves the hand for
    /// the table, and the next player is to play.
    pub open spec fn step(&self, player: Player, card: Card, next: RoundState) -> bool {
        &&& next matches RoundState::Playing(p)
        &&& p.deck@ == self.deck@.update(player as int, without_card(self.deck@[player as int], card))
        &&& p.is_playing == (player + 1) % 4
        &&& p.history == self.history
        &&& p.table@ == self.table@.push(card)
        &&& p.trump == self.trump
    }

    /// Ask the game logic what to do and update the state accordingly.
    pub fn update(self, player: Player, card: Card) -> (next: RoundState)
        requires
            self.accepts(player, card),
        ensures
            self.step(player, card, next),
    {
        let mut deck;
        let is_playing;
        let history;
        let mut table: Vec<Card>;
        let trump = self.trump;
        proof {
            assert(self.deck@.len() == self.deck.0@.len());
            assert(player < self.deck.0.len());
        }

        if self.table.len() < 3 {
            deck = self.deck;
            deck = deck.delete_card(player, card);
            is_playing = (player + 1) % 4;
            history = self.history;
            table = self.table;
            table.push(card);
        } else {
            deck = self.deck;
            deck = deck.delete_card(player, card);
            is_playing = (player + 1) % 4;
            history = self.history;
            table = self.table;
            table.push(card);
        }

        return RoundState::Playing(PlayingState { deck, is_playing, history, table, trump });
    }
}


// ========= Laws ==========

/// After a player plays, the card leaves that player's hand for the table,
/// the history is kept, and the next seat round the table is to play.
pub proof fn law_play_passes_the_turn(s: PlayingState, player: Player, card: Card, next: RoundState)
    requires
        s.accepts(player, card),
        s.step(player, card, next),
    ensures
        next matches RoundState::Playing(q) && {
            &&& q.is_playing == (player + 1) % 4
            &&& q.is_playing != player
            &&& q.table@ == s.table@.push(card)
            &&& q.history == s.history
            &&& q.trump == s.trump
            &&& q.deck@ == s.deck@.update(
                player as int,
                without_card(s.deck@[player as int], card),
            )
        },
{
}

/// Four plays in a row, each by the seat whose turn it is, come from the
/// four seats, one each, and the turn then comes back to the first seat.
pub proof fn law_four_plays_four_seats(
    s0: PlayingState,
    c0: Card,
    s1: PlayingState,
    c1: Card,
    s2: PlayingState,
    c2: Card,
    s3: PlayingState,
    c3: Card,
    s4: PlayingState,
)
    requires
        s0.is_playing < 4,
        s0.accepts(s0.is_playing, c0),
        s0.step(s0.is_playing, c0, RoundState::Playing(s1)),
        s1.accepts(s1.is_playing, c1),
        s1.step(s1.is_playing, c1, RoundState::Playing(s2)),
        s2.accepts(s2.is_playing, c2),
        s2.step(s2.is_playing, c2, RoundState::Playing(s3)),
        s3.accepts(s3.is_playing, c3),
        s3.step(s3.is_playing, c3, RoundState::Playing(s4)),
    ensures
        s0.is_playing != s1.is_playing,
        s0.is_playing != s2.is_playing,
        s0.is_playing != s3.is_playing,
        s1.is_playing != s2.is_playing,
        s1.is_playing != s3.is_playing,
        s2.is_playing != s3.is_playing,
        s4.is_playing == s0.is_playing,
{
    law_play_passes_the_turn(s0, s0.is_playing, c0, RoundState::Playing(s1));
    law_play_passes_the_turn(s1, s1.is_playing, c1, RoundState::Playing(s2));
    law_play_passes_the_turn(s2, s2.is_playing, c2, RoundState::Playing(s3));
    law_play_passes_the_turn(s3, s3.is_playing, c3, RoundState::Playing(s4));
}

} // verus!
