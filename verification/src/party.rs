//! All the logic for a single round: the bidding phase, then the playing
//! phase, as a state machine that a player's action moves forward.

use vstd::prelude::*;
use crate::bidding::{
    Bid,
    BiddingRequestResult,
    bidding_request,
    bidding_result,
    is_last_contract,
    last_contract,
    lemma_last_contract_exists,
    points,
};
use crate::playing::{
    Card,
    Deck,
    Player,
    PlayingRequestResult,
    Suit,
    Trick,
    is_full_deal,
    playing_request,
    request_result,
    without_card,
    law_delete_card_takes_one_card,
    law_fourth_card_closes_trick,
    is_master,
    winner,
    lemma_deal_has_every_card_once,
};
use vstd::multiset::Multiset;

verus! {

/// All the logic for a single round.
#[derive(Debug)]
pub enum RoundState {
    Bidding(BiddingState),
    Playing(PlayingState),
    Over,
}

/// If we are in the play phase, the round is described by this struct.
#[derive(Debug)]
pub struct PlayingState {
    pub deck: Deck,
    pub is_playing: Player,
    pub first_player: Player,
    pub history: PlayingHistory,
    pub table: Vec<Card>,
    pub trump: Suit,
}

/// If we are in the bidding phase, the round is described by this struct.
#[derive(Debug)]
pub struct BiddingState {
    pub deck: Deck,
    pub is_bidding: Player,
    pub bidding_history: Vec<Bid>,
    pub first_player: Player,
}

pub enum Team {
    Odd,
    Even,
}

/// Contains the history on the current round by listing the tricks won by
/// Odd and Even, the two opposed teams.
pub type PlayingHistory = [Vec<Trick>; 2];

/// A player can play or bid.
pub enum PlayerAction {
    PlayCard { player: Player, card: Card },
    AnounceBid { player: Player, bid: Bid },
}

/// Current score of the party
pub struct Score {
    pub odd: u8,
    pub even: u8,
}

impl Score {
    pub fn new() -> (s: Self)
        ensures
            s.odd == 0,
            s.even == 0,
    {
        Score { odd: 0, even: 0 }
    }
}

/// The suit of a contract.
pub open spec fn contract_suit(bid: Bid) -> Suit {
    match bid {
        Bid::Value(s, _) => s,
        Bid::Pass => Suit::Spades,
    }
}

/// A fresh bidding phase, opened by `first_player` on a new deal.
pub open spec fn is_fresh_bidding(state: RoundState, first_player: Player) -> bool {
    &&& state matches RoundState::Bidding(b)
    &&& b.is_bidding == first_player
    &&& b.first_player == first_player
    &&& b.bidding_history@.len() == 0
    &&& is_full_deal(b.deck@)
}

/// `trick` is the trick made of the cards of `table` followed by `card`.
pub open spec fn closes_trick(trick: Trick, table: Seq<Card>, card: Card) -> bool {
    trick@ == table.push(card)
}

impl BiddingState {
    /// `player` may announce `bid` now.
    pub open spec fn accepts(&self, player: Player, bid: Bid) -> bool {
        &&& player == self.is_bidding
        &&& bidding_result(self.bidding_history@, bid) != BiddingRequestResult::Illegal
        &&& bidding_result(self.bidding_history@, bid) == BiddingRequestResult::Legal
            ==> self.is_bidding < usize::MAX
        &&& bidding_result(self.bidding_history@, bid) == BiddingRequestResult::Abortion
            ==> self.first_player < usize::MAX
    }

    /// What announcing `bid` does to the round.
    pub open spec fn step(&self, bid: Bid, next: RoundState) -> bool {
        match bidding_result(self.bidding_history@, bid) {
            BiddingRequestResult::Abortion => is_fresh_bidding(next, ((self.first_player + 1) % 4) as usize),
            BiddingRequestResult::Legal => {
                &&& next matches RoundState::Bidding(b)
                &&& b.deck@ == self.deck@
                &&& b.is_bidding == (self.is_bidding + 1) % 4
                &&& b.bidding_history@ == self.bidding_history@.push(bid)
                &&& b.first_player == self.first_player
            },
            BiddingRequestResult::BiddingWinned(i) => {
                &&& next matches RoundState::Playing(p)
                &&& p.deck@ == self.deck@
                &&& p.is_playing == self.first_player
                &&& p.first_player == self.first_player
                &&& p.history[0]@.len() == 0
                &&& p.history[1]@.len() == 0
                &&& p.table@.len() == 0
                &&& p.trump == contract_suit(self.bidding_history@[i as int])
            },
            BiddingRequestResult::Illegal => false,
        }
    }

    pub fn update(self, player: Player, bid: Bid) -> (next: RoundState)
        requires
            self.accepts(player, bid),
        ensures
            self.step(bid, next),
    {
        let res = bidding_request(&self.bidding_history, bid);

        match res {
            BiddingRequestResult::Abortion => RoundState::new((self.first_player + 1) % 4),
            BiddingRequestResult::Legal => {
                let mut bidding_history = self.bidding_history;
                bidding_history.push(bid);
                RoundState::Bidding(
                    BiddingState {
                        deck: self.deck,
                        is_bidding: (self.is_bidding + 1) % 4,
                        bidding_history,
                        first_player: self.first_player,
                    },
                )
            },
            BiddingRequestResult::BiddingWinned(index_winner) => {
                let trump = match self.bidding_history[index_winner] {
                    Bid::Value(s, _r) => s,
                    Bid::Pass => {
                        assert(false);
                        Suit::Spades
                    },
                };
                RoundState::Playing(
                    PlayingState {
                        deck: self.deck,
                        is_playing: self.first_player,
                        first_player: self.first_player,
                        history: [Vec::new(), Vec::new()],
                        table: Vec::new(),
                        trump,
                    },
                )
            },
            BiddingRequestResult::Illegal => {
                assert(false);
                RoundState::Over
            },
        }
    }
}

/// Exactly one card is left in all the hands of `deck`.
fn one_card_left(deck: &Deck) -> (b: bool)
    ensures
        b == (deck@.flatten().len() == 1),
{
    let mut count: usize = 0;
    let mut i: usize = 0;
    while i < deck.0.len()
        invariant
            i <= deck.0.len(),
            deck@.len() == deck.0.len(),
            count <= 2,
            count == (if deck@.take(i as int).flatten().len() >= 2 {
                2
            } else {
                deck@.take(i as int).flatten().len()
            }),
        decreases deck.0.len() - i,
    {
        let n = deck.0[i].len();
        proof {
            deck@.take(i as int).lemma_flatten_push(deck@[i as int]);
            assert(deck@.take(i + 1) =~= deck@.take(i as int).push(deck@[i as int]));
            assert(deck@[i as int] == deck.0@[i as int]@);
        }
        if n >= 2 || count + n >= 2 {
            count = 2;
        } else {
            count = count + n;
        }
        i = i + 1;
    }
    proof {
        assert(deck@.take(i as int) =~= deck@);
    }
    count == 1
}

/// The seat of the player who won a trick that `player` closed, where
/// `position` is the place of the winning card in the trick: the first card
/// was played by the seat after `player`.
pub open spec fn trick_winner_seat(player: Player, position: usize) -> int {
    (player + 1 + position) % 4
}

impl PlayingState {
    /// `player` may play `card` now.
    pub open spec fn accepts(&self, player: Player, card: Card) -> bool {
        &&& player == self.is_playing
        &&& player < self.deck@.len()
        &&& request_result(self.table@, self.deck@[player as int], self.trump, card)
            != PlayingRequestResult::Illegal
    }

    /// The hands once `player` has played `card`.
    pub open spec fn deck_after(&self, player: Player, card: Card) -> Seq<Seq<Card>> {
        self.deck@.update(player as int, without_card(self.deck@[player as int], card))
    }

    /// What playing `card` does to the round.
    pub open spec fn step(&self, player: Player, card: Card, next: RoundState) -> bool {
        match request_result(self.table@, self.deck@[player as int], self.trump, card) {
            PlayingRequestResult::Legal => {
                &&& next matches RoundState::Playing(p)
                &&& p.deck@ == self.deck_after(player, card)
                &&& p.is_playing == (self.is_playing + 1) % 4
                &&& p.table@ == self.table@.push(card)
                &&& p.trump == self.trump
                &&& p.first_player == self.first_player
                &&& p.history == self.history
            },
            PlayingRequestResult::TrickWinned(winner) => {
                let seat = trick_winner_seat(player, winner);
                let team = seat % 2;
                if self.deck@.flatten().len() == 1 {
                    next is Over
                } else {
                    &&& next matches RoundState::Playing(p)
                    &&& p.deck@ == self.deck_after(player, card)
                    &&& p.is_playing == seat
                    &&& p.table@.len() == 0
                    &&& p.trump == self.trump
                    &&& p.first_player == self.first_player
                    &&& p.history[team]@.len() == self.history[team]@.len() + 1
                    &&& p.history[team]@.drop_last() =~= self.history[team]@
                    &&& closes_trick(p.history[team]@.last(), self.table@, card)
                    &&& p.history[1 - team] == self.history[1 - team]
                }
            },
            PlayingRequestResult::Illegal => false,
        }
    }

    pub fn update(self, player: Player, card: Card) -> (next: RoundState)
        requires
            self.accepts(player, card),
        ensures
            self.step(player, card, next),
    {
        let res = playing_request(&self.table, &self.deck[player], self.trump, card);
        proof {
            assert(player < self.deck.0.len());
            assert(self.deck.0@[player as int]@ == self.deck@[player as int]);
            law_fourth_card_closes_trick(self.table@, self.deck@[player as int], self.trump, card);
        }

        match res {
            PlayingRequestResult::Legal => {
                let mut table = self.table;
                table.push(card);
                RoundState::Playing(
                    PlayingState {
                        deck: self.deck.delete_card(player, card),
                        is_playing: (self.is_playing + 1) % 4,
                        table,
                        trump: self.trump,
                        first_player: self.first_player,
                        history: self.history,
                    },
                )
            },
            PlayingRequestResult::TrickWinned(winner) => {
                if one_card_left(&self.deck) {
                    RoundState::Over
                } else {
                    let trick: Trick = [self.table[0], self.table[1], self.table[2], card];
                    assert(trick@ =~= self.table@.push(card));
                    // The first card of the trick was played by the seat after `player`.
                    let seat = (player % 4 + 1 + winner) % 4;
                    assert(seat == trick_winner_seat(player, winner));
                    let mut history = self.history;
                    history[seat % 2].push(trick);
                    RoundState::Playing(
                        PlayingState {
                            deck: self.deck.delete_card(player, card),
                            is_playing: seat,
                            table: Vec::new(),
                            history,
                            trump: self.trump,
                            first_player: self.first_player,
                        },
                    )
                }
            },
            PlayingRequestResult::Illegal => {
                assert(false);
                RoundState::Over
            },
        }
    }
}

impl RoundState {
    pub fn new(first_player: Player) -> (state: Self)
        ensures
            is_fresh_bidding(state, first_player),
    {
        RoundState::Bidding(
            BiddingState {
                deck: Deck::random_deck(),
                is_bidding: first_player,
                first_player: first_player,
                bidding_history: Vec::new(),
            },
        )
    }

    /// The action fits the phase, and the state of that phase accepts it.
    pub open spec fn accepts(&self, action: PlayerAction) -> bool {
        match (*self, action) {
            (RoundState::Bidding(b), PlayerAction::AnounceBid { player, bid }) => b.accepts(
                player,
                bid,
            ),
            (RoundState::Playing(p), PlayerAction::PlayCard { player, card }) => p.accepts(
                player,
                card,
            ),
            _ => false,
        }
    }

    /// Dispatch update on the right method.
    pub fn update(self, action: PlayerAction) -> (next: RoundState)
        requires
            self.accepts(action),
        ensures
            match (self, action) {
                (RoundState::Bidding(b), PlayerAction::AnounceBid { player, bid }) => b.step(
                    bid,
                    next,
                ),
                (RoundState::Playing(p), PlayerAction::PlayCard { player, card }) => p.step(
                    player,
                    card,
                    next,
                ),
                _ => false,
            },
    {
        match (self, action) {
            (RoundState::Bidding(bidding_state), PlayerAction::AnounceBid { player, bid }) => {
                bidding_state.update(player, bid)
            },
            (RoundState::Playing(playing_state), PlayerAction::PlayCard { player, card }) => {
                playing_state.update(player, card)
            },
            _ => {
                assert(false);
                RoundState::Over
            },
        }
    }
}

// ========= Laws ==========

/// The cards of a list of tricks, trick after trick.
pub open spec fn trick_cards(tricks: Seq<Trick>) -> Seq<Card> {
    tricks.map_values(|t: Trick| t@).flatten()
}

/// Every card of a round in the playing phase: in the hands, on the table,
/// and in the tricks won by either team.
pub open spec fn cards_in_round(p: PlayingState) -> Multiset<Card> {
    p.deck@.flatten().to_multiset().add(p.table@.to_multiset()).add(
        trick_cards(p.history[0]@).to_multiset(),
    ).add(trick_cards(p.history[1]@).to_multiset())
}

/// Replacing one hand of a deal changes the cards of the deal by that hand.
proof fn lemma_flatten_update_multiset(d: Seq<Seq<Card>>, i: int, s: Seq<Card>)
    requires
        0 <= i < d.len(),
    ensures
        d.update(i, s).flatten().to_multiset().add(d[i].to_multiset()) =~= d.flatten().to_multiset().add(
            s.to_multiset(),
        ),
    decreases d.len(),
{
    broadcast use vstd::multiset::group_multiset_axioms;
    broadcast use vstd::seq_lib::lemma_multiset_commutative;

    let r = d.drop_last();
    let l = d.last();
    assert(d =~= r.push(l));
    r.lemma_flatten_push(l);
    vstd::seq_lib::lemma_multiset_commutative(r.flatten(), l);
    if i == d.len() - 1 {
        assert(d.update(i, s) =~= r.push(s));
        r.lemma_flatten_push(s);
        vstd::seq_lib::lemma_multiset_commutative(r.flatten(), s);
        assert(d.update(i, s).flatten() == r.flatten() + s);
    } else {
        let u = r.update(i, s);
        assert(d.update(i, s) =~= u.push(l));
        u.lemma_flatten_push(l);
        vstd::seq_lib::lemma_multiset_commutative(u.flatten(), l);
        lemma_flatten_update_multiset(r, i, s);
        assert(r[i] == d[i]);
        assert(d.update(i, s).flatten() == u.flatten() + l);
        assert forall|c: Card|
            #[trigger] d.update(i, s).flatten().to_multiset().add(d[i].to_multiset()).count(c)
                == d.flatten().to_multiset().add(s.to_multiset()).count(c) by {
            assert(u.flatten().to_multiset().add(r[i].to_multiset()).count(c) == r.flatten().to_multiset().add(
                s.to_multiset(),
            ).count(c));
        }
    }
}

/// Playing a card moves it from the player's hand to the table, and closing a
/// trick moves the table to the tricks of the winning team: while the round
/// goes on, no card is lost and none appears.
#[verifier::spinoff_prover]
#[verifier::rlimit(60)]
pub proof fn law_play_keeps_every_card(
    p: PlayingState,
    player: Player,
    card: Card,
    next: RoundState,
)
    requires
        p.accepts(player, card),
        p.step(player, card, next),
        p.deck@[player as int].no_duplicates(),
        next is Playing,
    ensures
        cards_in_round(next->Playing_0) == cards_in_round(p),
{
    broadcast use vstd::multiset::group_multiset_axioms;
    broadcast use vstd::seq_lib::group_to_multiset_ensures;
    broadcast use vstd::seq_lib::lemma_multiset_commutative;

    let q = next->Playing_0;
    let hand = p.deck@[player as int];
    let kept = without_card(hand, card);
    assert(hand.contains(card));
    law_delete_card_takes_one_card(hand, card);
    lemma_flatten_update_multiset(p.deck@, player as int, kept);
    assert(q.deck@ == p.deck@.update(player as int, kept));
    assert forall|c: Card|
        q.deck@.flatten().to_multiset().count(c) + #[trigger] hand.to_multiset().count(c)
            == p.deck@.flatten().to_multiset().count(c) + kept.to_multiset().count(c) by {
        assert(p.deck@.update(player as int, kept).flatten().to_multiset().add(
            hand.to_multiset(),
        ).count(c) == p.deck@.flatten().to_multiset().add(kept.to_multiset()).count(c));
    }
    assert forall|c: Card| #[trigger] hand.to_multiset().count(c) == kept.to_multiset().count(c) + (
    if c == card {
        1int
    } else {
        0int
    }) by {}
    match request_result(p.table@, hand, p.trump, card) {
        PlayingRequestResult::Legal => {
            assert(q.table@ == p.table@.push(card));
            assert(q.history == p.history);
            assert forall|c: Card| #[trigger]
                cards_in_round(q).count(c) == cards_in_round(p).count(c) by {
                assert(hand.to_multiset().count(c) == kept.to_multiset().count(c) + (if c == card {
                    1int
                } else {
                    0int
                }));
                assert(cards_in_round(q).count(c) == q.deck@.flatten().to_multiset().count(c)
                    + q.table@.to_multiset().count(c) + trick_cards(q.history[0]@).to_multiset().count(c)
                    + trick_cards(q.history[1]@).to_multiset().count(c));
                assert(cards_in_round(p).count(c) == p.deck@.flatten().to_multiset().count(c)
                    + p.table@.to_multiset().count(c) + trick_cards(p.history[0]@).to_multiset().count(c)
                    + trick_cards(p.history[1]@).to_multiset().count(c));
                assert(q.table@.to_multiset().count(c) == p.table@.to_multiset().count(c) + (if c
                    == card {
                    1int
                } else {
                    0int
                }));
            }
            assert(cards_in_round(q) =~= cards_in_round(p));
        },
        PlayingRequestResult::TrickWinned(w) => {
            let team = trick_winner_seat(player, w) % 2;
            let trick = q.history[team]@.last();
            assert(q.history[team]@ =~= p.history[team]@.push(trick));
            let f = |t: Trick| t@;
            assert(q.history[team]@.map_values(f) =~= p.history[team]@.map_values(f).push(trick@));
            p.history[team]@.map_values(f).lemma_flatten_push(trick@);
            let won = trick_cards(p.history[team]@);
            assert(trick_cards(q.history[team]@) == won + p.table@.push(card));
            vstd::seq_lib::lemma_multiset_commutative(won, p.table@.push(card));
            assert(q.table@ =~= Seq::<Card>::empty());
            assert forall|c: Card| #[trigger]
                cards_in_round(q).count(c) == cards_in_round(p).count(c) by {
                assert(hand.to_multiset().count(c) == kept.to_multiset().count(c) + (if c == card {
                    1int
                } else {
                    0int
                }));
                assert(cards_in_round(q).count(c) == q.deck@.flatten().to_multiset().count(c)
                    + q.table@.to_multiset().count(c) + trick_cards(q.history[0]@).to_multiset().count(c)
                    + trick_cards(q.history[1]@).to_multiset().count(c));
                assert(cards_in_round(p).count(c) == p.deck@.flatten().to_multiset().count(c)
                    + p.table@.to_multiset().count(c) + trick_cards(p.history[0]@).to_multiset().count(c)
                    + trick_cards(p.history[1]@).to_multiset().count(c));
                assert(q.table@.to_multiset().count(c) == 0);
                assert(p.table@.push(card).to_multiset().count(c) == p.table@.to_multiset().count(c) + (
                if c == card {
                    1int
                } else {
                    0int
                }));
                assert(trick_cards(q.history[team]@).to_multiset().count(c) == won.to_multiset().count(c)
                    + p.table@.push(card).to_multiset().count(c));
                if team == 0 {
                    assert(q.history[1] == p.history[1]);
                } else {
                    assert(q.history[0] == p.history[0]);
                }
            }
            assert(cards_in_round(q) =~= cards_in_round(p));
        },
        PlayingRequestResult::Illegal => {},
    }
}


/// After a bid that neither ends nor aborts the bidding, the bid is recorded
/// and the turn passes to the next seat round the table; the deal is kept.
pub proof fn law_bid_passes_the_turn(s: BiddingState, player: Player, bid: Bid, next: RoundState)
    requires
        s.accepts(player, bid),
        s.step(bid, next),
        bidding_result(s.bidding_history@, bid) == BiddingRequestResult::Legal,
    ensures
        next matches RoundState::Bidding(b) && {
            &&& b.is_bidding == (player + 1) % 4
            &&& b.is_bidding != player
            &&& b.bidding_history@ == s.bidding_history@.push(bid)
            &&& b.deck@ == s.deck@
            &&& b.first_player == s.first_player
        },
{
}

/// Four bids in a row that do not end the bidding come from the four seats,
/// one each, and the fifth bid comes back to the first seat.
pub proof fn law_four_bids_four_seats(
    s0: BiddingState,
    b0: Bid,
    s1: BiddingState,
    b1: Bid,
    s2: BiddingState,
    b2: Bid,
    s3: BiddingState,
    b3: Bid,
    s4: BiddingState,
)
    requires
        s0.is_bidding < 4,
        s0.accepts(s0.is_bidding, b0),
        bidding_result(s0.bidding_history@, b0) == BiddingRequestResult::Legal,
        s0.step(b0, RoundState::Bidding(s1)),
        s1.accepts(s1.is_bidding, b1),
        bidding_result(s1.bidding_history@, b1) == BiddingRequestResult::Legal,
        s1.step(b1, RoundState::Bidding(s2)),
        s2.accepts(s2.is_bidding, b2),
        bidding_result(s2.bidding_history@, b2) == BiddingRequestResult::Legal,
        s2.step(b2, RoundState::Bidding(s3)),
        s3.accepts(s3.is_bidding, b3),
        bidding_result(s3.bidding_history@, b3) == BiddingRequestResult::Legal,
        s3.step(b3, RoundState::Bidding(s4)),
    ensures
        s0.is_bidding != s1.is_bidding,
        s0.is_bidding != s2.is_bidding,
        s0.is_bidding != s3.is_bidding,
        s1.is_bidding != s2.is_bidding,
        s1.is_bidding != s3.is_bidding,
        s2.is_bidding != s3.is_bidding,
        s4.is_bidding == s0.is_bidding,
{
    law_bid_passes_the_turn(s0, s0.is_bidding, b0, RoundState::Bidding(s1));
    law_bid_passes_the_turn(s1, s1.is_bidding, b1, RoundState::Bidding(s2));
    law_bid_passes_the_turn(s2, s2.is_bidding, b2, RoundState::Bidding(s3));
    law_bid_passes_the_turn(s3, s3.is_bidding, b3, RoundState::Bidding(s4));
}

/// When the bidding is won, the play starts on the same deal with the suit of
/// the last contract as trump, the first player to lead, and nothing played.
pub proof fn law_won_bidding_starts_the_play(
    s: BiddingState,
    player: Player,
    bid: Bid,
    next: RoundState,
)
    requires
        s.accepts(player, bid),
        s.step(bid, next),
        bidding_result(s.bidding_history@, bid) is BiddingWinned,
    ensures
        bid is Pass,
        next matches RoundState::Playing(p) && {
            &&& exists|i: int, v: u32|
                is_last_contract(s.bidding_history@, i) && s.bidding_history@[i] == Bid::Value(
                    p.trump,
                    v,
                )
            &&& p.is_playing == s.first_player
            &&& p.first_player == s.first_player
            &&& p.deck@ == s.deck@
            &&& p.table@.len() == 0
            &&& p.history[0]@.len() == 0
            &&& p.history[1]@.len() == 0
        },
{
    let h = s.bidding_history@;
    assert(s.bidding_history.len() == h.len());
    lemma_last_contract_exists(h);
    let i = last_contract(h);
    assert(bidding_result(h, bid) == BiddingRequestResult::BiddingWinned(i as usize));
    assert(0 <= i < h.len());
    let p = next->Playing_0;
    let v = points(h[i]);
    assert(h[i] == Bid::Value(p.trump, v));
}

/// When nobody announced a contract, the round starts again: a new deal of
/// four hands of eight cards, opened by the seat after the previous opener.
pub proof fn law_aborted_bidding_deals_again(
    s: BiddingState,
    player: Player,
    bid: Bid,
    next: RoundState,
)
    requires
        s.accepts(player, bid),
        s.step(bid, next),
        bidding_result(s.bidding_history@, bid) == BiddingRequestResult::Abortion,
    ensures
        bid is Pass,
        forall|i: int| 0 <= i < s.bidding_history@.len() ==> (#[trigger] s.bidding_history@[i]) is Pass,
        next matches RoundState::Bidding(b) && {
            &&& b.first_player == (s.first_player + 1) % 4
            &&& b.is_bidding == b.first_player
            &&& b.bidding_history@.len() == 0
            &&& b.deck@.len() == 4
            &&& forall|k: int| 0 <= k < 4 ==> (#[trigger] b.deck@[k]).len() == 8
        },
{
}

/// After a card that does not close the trick, the card joins the table, the
/// history is kept, and the turn passes to the next seat round the table.
pub proof fn law_card_passes_the_turn(s: PlayingState, player: Player, card: Card, next: RoundState)
    requires
        s.accepts(player, card),
        s.step(player, card, next),
        s.table@.len() < 3,
    ensures
        next matches RoundState::Playing(q) && {
            &&& q.is_playing == (player + 1) % 4
            &&& q.is_playing != player
            &&& q.table@ == s.table@.push(card)
            &&& q.history == s.history
            &&& q.trump == s.trump
            &&& q.deck@ == s.deck@.update(
                player as int,
                without_card(s.deck@[player as int], card),
            )
        },
{
}

/// The four cards of a trick come from four different seats, in turn round
/// the table, the last one being the seat before the one that led.
pub proof fn law_trick_comes_from_four_seats(
    s0: PlayingState,
    c0: Card,
    s1: PlayingState,
    c1: Card,
    s2: PlayingState,
    c2: Card,
    s3: PlayingState,
)
    requires
        s0.is_playing < 4,
        s0.table@.len() == 0,
        s0.accepts(s0.is_playing, c0),
        s0.step(s0.is_playing, c0, RoundState::Playing(s1)),
        s1.accepts(s1.is_playing, c1),
        s1.step(s1.is_playing, c1, RoundState::Playing(s2)),
        s2.accepts(s2.is_playing, c2),
        s2.step(s2.is_playing, c2, RoundState::Playing(s3)),
    ensures
        s3.table@ == seq![c0, c1, c2],
        s0.is_playing != s1.is_playing,
        s0.is_playing != s2.is_playing,
        s0.is_playing != s3.is_playing,
        s1.is_playing != s2.is_playing,
        s1.is_playing != s3.is_playing,
        s2.is_playing != s3.is_playing,
        (s3.is_playing + 1) % 4 == s0.is_playing,
{
    law_card_passes_the_turn(s0, s0.is_playing, c0, RoundState::Playing(s1));
    law_card_passes_the_turn(s1, s1.is_playing, c1, RoundState::Playing(s2));
    law_card_passes_the_turn(s2, s2.is_playing, c2, RoundState::Playing(s3));
    assert(s3.table@ =~= seq![c0, c1, c2]);
}

/// The fourth card closes the trick: the table is cleared, the trick is added
/// to the tricks of the team of the seat whose card takes it, and that seat
/// leads next; the other team's tricks are kept. The last card of the round
/// ends it.
pub proof fn law_trick_goes_to_the_winning_seat(
    s: PlayingState,
    player: Player,
    card: Card,
    next: RoundState,
)
    requires
        s.accepts(player, card),
        s.step(player, card, next),
        s.table@.len() == 3,
    ensures
        s.deck@.flatten().len() == 1 ==> next is Over,
        s.deck@.flatten().len() != 1 ==> (next matches RoundState::Playing(q) && exists|w: int|
            {
                &&& is_master(s.table@.push(card), w, s.trump, s.table@[0].suit)
                &&& q.is_playing == (player + 1 + w) % 4
                &&& q.table@.len() == 0
                &&& q.history[(player + 1 + w) % 4 % 2]@ == s.history[(player + 1 + w) % 4
                    % 2]@.push(q.history[(player + 1 + w) % 4 % 2]@.last())
                &&& q.history[(player + 1 + w) % 4 % 2]@.last()@ == s.table@.push(card)
                &&& q.history[1 - (player + 1 + w) % 4 % 2] == s.history[1 - (player + 1 + w)
                    % 4 % 2]
            }),
{
    let hand = s.deck@[player as int];
    law_fourth_card_closes_trick(s.table@, hand, s.trump, card);
    if s.deck@.flatten().len() != 1 {
        let trick = s.table@.push(card);
        let w = winner(trick, s.trump, trick[0].suit);
        assert(trick[0] == s.table@[0]);
        let q = next->Playing_0;
        let team = (player + 1 + w) % 4 % 2;
        assert(q.history[team]@ =~= s.history[team]@.push(q.history[team]@.last()));
    }
}


/// A fresh bidding phase is opened by the given player on a deal of four
/// hands of eight cards that holds every card of the game once.
pub proof fn law_fresh_bidding(state: RoundState, first_player: Player)
    requires
        is_fresh_bidding(state, first_player),
    ensures
        state matches RoundState::Bidding(b) && {
            &&& b.is_bidding == first_player
            &&& b.first_player == first_player
            &&& b.bidding_history@.len() == 0
            &&& b.deck@.len() == 4
            &&& forall|h: int| 0 <= h < 4 ==> (#[trigger] b.deck@[h]).len() == 8
            &&& b.deck@.flatten().no_duplicates()
            &&& forall|c: Card| #[trigger] b.deck@.flatten().contains(c)
        },
{
    let b = state->Bidding_0;
    lemma_deal_has_every_card_once(b.deck@.flatten());
}

} // verus!
