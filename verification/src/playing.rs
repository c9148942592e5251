//! Everything needed for the playing phase: cards, hands, table, deck, and
//! the rules that say whether a card may be played.

use vstd::prelude::*;
use crate::rng;

verus! {

// ========= Cards and deck definitions ==========

#[derive(Clone, Copy, Debug, PartialEq, Eq, Hash, Structural)]
pub enum Suit {
    Spades,
    Diamonds,
    Hearts,
    Clubs,
}

#[derive(Clone, Copy, Debug, PartialEq, Eq, Hash, Structural)]
pub enum Rank {
    Seven,
    Eigth,
    Nine,
    Jack,
    Queen,
    King,
    Ten,
    Ace,
}

#[derive(Clone, Copy, Debug, PartialEq, Eq, Hash, Structural)]
pub struct Card {
    pub rank: Rank,
    pub suit: Suit,
}

/// Tricks are made of four cards.
pub type Trick = [Card; 4];

pub type Hand = Vec<Card>;

pub type Table = Vec<Card>;

/// Deck(tab[player][card_index])
#[derive(Clone, Debug, PartialEq)]
pub struct Deck(pub Vec<Vec<Card>>);

pub type Player = usize;

/// See [`playing_request`], the only function returning this output.
#[derive(Clone, Copy, Debug, PartialEq, Eq, Hash, Structural)]
pub enum PlayingRequestResult {
    Legal,
    Illegal,
    TrickWinned(usize),
}

/// A bid by a player
pub struct Bid {
    pub suit: Suit,
    pub val: u32,
}

// ========= Mathematical model ==========

/// Strength of a rank in a suit that is neither trump nor asked.
pub open spec fn normal_value(r: Rank) -> u32 {
    match r {
        Rank::Seven => 0,
        Rank::Eigth => 1,
        Rank::Nine => 2,
        Rank::Jack => 3,
        Rank::Queen => 4,
        Rank::King => 5,
        Rank::Ten => 6,
        Rank::Ace => 7,
    }
}

/// Strength of a rank in the trump suit.
pub open spec fn trump_value(r: Rank) -> u32 {
    match r {
        Rank::Seven => 10,
        Rank::Eigth => 11,
        Rank::Queen => 12,
        Rank::King => 13,
        Rank::Ten => 14,
        Rank::Ace => 15,
        Rank::Nine => 16,
        Rank::Jack => 17,
    }
}

/// Strength of a card in a trick where `trump` is trump and `asked` is the
/// suit of the first card: trumps use the trump order, cards of the asked
/// suit the normal order, and every other card is worth nothing.
pub open spec fn card_strength(c: Card, trump: Suit, asked: Suit) -> u32 {
    if c.suit == trump {
        trump_value(c.rank)
    } else if c.suit == asked {
        normal_value(c.rank)
    } else {
        0
    }
}

/// `c` can take a trick: it is a trump, or of the suit asked. A card of any
/// other suit never takes a trick.
pub open spec fn contends(c: Card, trump: Suit, asked: Suit) -> bool {
    c.suit == trump || c.suit == asked
}

/// `cards[i]` is the card that takes the trick: it can take a trick, no such
/// card is stronger, and every such card after it is weaker.
pub open spec fn is_master(cards: Seq<Card>, i: int, trump: Suit, asked: Suit) -> bool {
    &&& 0 <= i < cards.len()
    &&& contends(cards[i], trump, asked)
    &&& forall|j: int|
        0 <= j < cards.len() && contends(#[trigger] cards[j], trump, asked) ==> card_strength(
            cards[j],
            trump,
            asked,
        ) <= card_strength(cards[i], trump, asked)
    &&& forall|j: int|
        i < j < cards.len() && contends(#[trigger] cards[j], trump, asked) ==> card_strength(
            cards[j],
            trump,
            asked,
        ) < card_strength(cards[i], trump, asked)
}

/// The index of the card that takes the trick (see [`is_master`]).
pub open spec fn winner(cards: Seq<Card>, trump: Suit, asked: Suit) -> int {
    choose|i: int| is_master(cards, i, trump, asked)
}

/// Some card of `cards` is of suit `s`.
pub open spec fn has_suit(cards: Seq<Card>, s: Suit) -> bool {
    exists|i: int| 0 <= i < cards.len() && (#[trigger] cards[i]).suit == s
}

/// `card` is stronger than every card on the table, when trump is asked.
pub open spec fn beats_table(card: Card, table: Seq<Card>, trump: Suit) -> bool {
    forall|j: int|
        0 <= j < table.len() ==> card_strength(#[trigger] table[j], trump, trump) < card_strength(
            card,
            trump,
            trump,
        )
}

/// No card of the hand can beat the strongest card on the table, when trump
/// is asked.
pub open spec fn cannot_overtrump(hand: Seq<Card>, table: Seq<Card>, trump: Suit) -> bool {
    exists|j: int|
        0 <= j < table.len() && forall|k: int|
            0 <= k < hand.len() ==> card_strength(#[trigger] hand[k], trump, trump) < card_strength(
                #[trigger] table[j],
                trump,
                trump,
            )
}

/// The rules of coinche: may `card` be played from `hand` on `table`?
pub open spec fn play_is_legal(table: Seq<Card>, hand: Seq<Card>, trump: Suit, card: Card) -> bool {
    if !hand.contains(card) {
        // You must have the card to play it.
        false
    } else if table.len() == 0 {
        // First to play: anything goes.
        true
    } else if table[0].suit != trump {
        let asked = table[0].suit;
        if card.suit == asked {
            // Following the asked suit is always legal.
            true
        } else if has_suit(hand, asked) {
            // Playing another suit while holding the asked one is not.
            false
        } else if card.suit == trump {
            // Without the asked suit, a trump is always legal.
            true
        } else {
            // Otherwise only when the partner is winning the trick.
            table.len() >= 2 && winner(table, trump, asked) == table.len() - 2
        }
    } else if card.suit == trump {
        // Trump asked and trump played: overtrump, or be unable to.
        beats_table(card, table, trump) || cannot_overtrump(hand, table, trump)
    } else {
        // Trump asked and another suit played: only without any trump.
        !has_suit(hand, trump)
    }
}

/// What [`playing_request`] answers: illegal plays are refused, a legal fourth
/// card closes the trick and names its winner, any other legal play is legal.
pub open spec fn request_result(
    table: Seq<Card>,
    hand: Seq<Card>,
    trump: Suit,
    card: Card,
) -> PlayingRequestResult {
    if !play_is_legal(table, hand, trump, card) {
        PlayingRequestResult::Illegal
    } else if table.len() == 3 {
        PlayingRequestResult::TrickWinned(winner(table.push(card), trump, table[0].suit) as usize)
    } else {
        PlayingRequestResult::Legal
    }
}

/// The suits in the order in which a fresh deck is laid out.
pub open spec fn suit_at(i: int) -> Suit {
    if i == 0 {
        Suit::Spades
    } else if i == 1 {
        Suit::Diamonds
    } else if i == 2 {
        Suit::Hearts
    } else {
        Suit::Clubs
    }
}

/// The ranks in the order in which a fresh deck lays out each suit.
pub open spec fn rank_at(i: int) -> Rank {
    if i == 0 {
        Rank::Seven
    } else if i == 1 {
        Rank::Eigth
    } else if i == 2 {
        Rank::Nine
    } else if i == 3 {
        Rank::Ten
    } else if i == 4 {
        Rank::Jack
    } else if i == 5 {
        Rank::King
    } else if i == 6 {
        Rank::Queen
    } else {
        Rank::Ace
    }
}

/// The 32 cards of the game, suit by suit.
pub open spec fn full_deck() -> Seq<Card> {
    Seq::new(32, |i: int| Card { rank: rank_at(i % 8), suit: suit_at(i / 8) })
}

/// Four hands of eight cards that together hold the cards of the game, in
/// any order.
pub open spec fn is_full_deal(deck: Seq<Seq<Card>>) -> bool {
    &&& deck.len() == 4
    &&& forall|h: int| 0 <= h < 4 ==> (#[trigger] deck[h]).len() == 8
    &&& deck.flatten().to_multiset() == full_deck().to_multiset()
}

/// Four hands of eight cards taken in order from `cards`.
pub open spec fn dealt(cards: Seq<Card>) -> Seq<Seq<Card>> {
    Seq::new(4, |h: int| cards.subrange(8 * h, 8 * h + 8))
}

/// The cards of `hand` once every copy of `card` is taken out.
pub open spec fn without_card(hand: Seq<Card>, card: Card) -> Seq<Card> {
    hand.filter(|c: Card| c != card)
}

impl View for Deck {
    type V = Seq<Seq<Card>>;

    open spec fn view(&self) -> Seq<Seq<Card>> {
        self.0@.map_values(|h: Vec<Card>| h@)
    }
}

// ------------------ Impl -------------------

impl Card {
    /// Create a new card.
    pub fn new(rank: Rank, suit: Suit) -> (c: Card)
        ensures
            c == (Card { rank, suit }),
    {
        Card { rank, suit }
    }

    pub fn normal_strenght(self) -> (v: u32)
        ensures
            v == normal_value(self.rank),
    {
        match self.rank {
            Rank::Seven => 0,
            Rank::Eigth => 1,
            Rank::Nine => 2,
            Rank::Jack => 3,
            Rank::Queen => 4,
            Rank::King => 5,
            Rank::Ten => 6,
            Rank::Ace => 7,
        }
    }

    pub fn trump_strenght(self) -> (v: u32)
        ensures
            v == trump_value(self.rank),
    {
        match self.rank {
            Rank::Seven => 10,
            Rank::Eigth => 11,
            Rank::Queen => 12,
            Rank::King => 13,
            Rank::Ten => 14,
            Rank::Ace => 15,
            Rank::Nine => 16,
            Rank::Jack => 17,
        }
    }

    /// To be able to compare cards knowing the trump suit.
    pub fn strength(self, trump: Suit, asked: Suit) -> (v: u32)
        ensures
            v == card_strength(self, trump, asked),
    {
        if self.suit == trump {
            self.trump_strenght()
        } else if self.suit == asked {
            self.normal_strenght()
        } else {
            0
        }
    }
}

/// Two cards that both take the trick are the same card.
pub proof fn lemma_master_unique(cards: Seq<Card>, i: int, k: int, trump: Suit, asked: Suit)
    requires
        is_master(cards, i, trump, asked),
        is_master(cards, k, trump, asked),
    ensures
        i == k,
{
    if i < k {
        assert(card_strength(cards[k], trump, asked) < card_strength(cards[i], trump, asked));
        assert(card_strength(cards[i], trump, asked) <= card_strength(cards[k], trump, asked));
    } else if k < i {
        assert(card_strength(cards[i], trump, asked) < card_strength(cards[k], trump, asked));
        assert(card_strength(cards[k], trump, asked) <= card_strength(cards[i], trump, asked));
    }
}

/// Once a card is known to take the trick, it is the winner.
pub proof fn lemma_winner_is(cards: Seq<Card>, i: int, trump: Suit, asked: Suit)
    requires
        is_master(cards, i, trump, asked),
    ensures
        winner(cards, trump, asked) == i,
{
    let w = winner(cards, trump, asked);
    assert(is_master(cards, w, trump, asked));
    lemma_master_unique(cards, i, w, trump, asked);
}

/// Does `cards` hold `card`?
fn holds_card(cards: &Vec<Card>, card: Card) -> (b: bool)
    ensures
        b == cards@.contains(card),
{
    let mut i: usize = 0;
    while i < cards.len()
        invariant
            i <= cards.len(),
            forall|j: int| 0 <= j < i ==> cards@[j] != card,
        decreases cards.len() - i,
    {
        if cards[i] == card {
            assert(cards@[i as int] == card);
            return true;
        }
        i = i + 1;
    }
    false
}

/// Does `cards` hold a card of suit `suit`?
fn holds_suit(cards: &Vec<Card>, suit: Suit) -> (b: bool)
    ensures
        b == has_suit(cards@, suit),
{
    let mut i: usize = 0;
    while i < cards.len()
        invariant
            i <= cards.len(),
            forall|j: int| 0 <= j < i ==> (#[trigger] cards@[j]).suit != suit,
        decreases cards.len() - i,
    {
        if cards[i].suit == suit {
            assert(cards@[i as int].suit == suit);
            return true;
        }
        i = i + 1;
    }
    false
}

/// The strength of the strongest card of `cards`.
fn max_strength(cards: &Vec<Card>, trump: Suit, asked: Suit) -> (m: u32)
    requires
        cards.len() > 0,
    ensures
        exists|j: int| 0 <= j < cards.len() && m == card_strength(#[trigger] cards@[j], trump, asked),
        forall|j: int| 0 <= j < cards.len() ==> card_strength(#[trigger] cards@[j], trump, asked) <= m,
{
    let mut m = cards[0].strength(trump, asked);
    let mut i: usize = 1;
    assert(m == card_strength(cards@[0], trump, asked));
    while i < cards.len()
        invariant
            1 <= i <= cards.len(),
            exists|j: int| 0 <= j < i && m == card_strength(#[trigger] cards@[j], trump, asked),
            forall|j: int| 0 <= j < i ==> card_strength(#[trigger] cards@[j], trump, asked) <= m,
        decreases cards.len() - i,
    {
        let s = cards[i].strength(trump, asked);
        if s > m {
            m = s;
        }
        i = i + 1;
    }
    m
}

/// The index of the card taking the trick among `cards`, whose first card can
/// take it.
fn strongest_index(cards: &Vec<Card>, trump: Suit, asked: Suit) -> (r: usize)
    requires
        cards.len() > 0,
        contends(cards@[0], trump, asked),
    ensures
        is_master(cards@, r as int, trump, asked),
{
    let mut best: usize = 0;
    let mut best_strength = cards[0].strength(trump, asked);
    let mut i: usize = 1;
    while i < cards.len()
        invariant
            1 <= i <= cards.len(),
            best < i,
            contends(cards@[best as int], trump, asked),
            best_strength == card_strength(cards@[best as int], trump, asked),
            forall|j: int|
                0 <= j < i && contends(#[trigger] cards@[j], trump, asked) ==> card_strength(
                    cards@[j],
                    trump,
                    asked,
                ) <= best_strength,
            forall|j: int|
                best < j < i && contends(#[trigger] cards@[j], trump, asked) ==> card_strength(
                    cards@[j],
                    trump,
                    asked,
                ) < best_strength,
        decreases cards.len() - i,
    {
        let c = cards[i];
        let s = c.strength(trump, asked);
        if (c.suit == trump || c.suit == asked) && s >= best_strength {
            best = i;
            best_strength = s;
        }
        i = i + 1;
    }
    best
}

/// Examine a table and return the index of the card currently winning
///
/// # Requirement
/// the table must not be empty
pub fn master(table: &Table, trump: Suit) -> (r: usize)
    requires
        table.len() > 0,
    ensures
        is_master(table@, r as int, trump, table@[0].suit),
        r == winner(table@, trump, table@[0].suit),
{
    let r = strongest_index(table, trump, table[0].suit);
    proof {
        lemma_winner_is(table@, r as int, trump, table@[0].suit);
    }
    r
}

/// Contains the rules for a deal. When called on a table and a hand, says if the play was
/// legal and if someone win the trick by returning an enum.
pub fn playing_request(table: &Table, hand: &Hand, trump: Suit, card: Card) -> (res:
    PlayingRequestResult)
    ensures
        res == request_result(table@, hand@, trump, card),
{
    // The difference between last to play and second and third is made after determinating weather
    // the move is legal, so we can't return in the big else block.
    let return_value;

    // You must have the card to play in
    if !holds_card(hand, card) {
        return PlayingRequestResult::Illegal;
    }
    // If first to play, play anything

    if table.len() == 0 {
        return_value = PlayingRequestResult::Legal;
    }
    // If normal suit required
     else if table[0].suit != trump {
        let asked = table[0].suit;
        // Always legal to play the same color as the first one to play
        if card.suit == asked {
            return_value = PlayingRequestResult::Legal;
        }
        // But illegal to play a different color if I can play what's asked
         else if holds_suit(hand, asked) {
            return_value = PlayingRequestResult::Illegal;
        }
        // If I play a different color because I don't have the color asked
         else {
            // Check if I'm playing trump, which is always legal here
            if card.suit == trump {
                return_value = PlayingRequestResult::Legal;
            }
            // Else if my partner is winning the trick it's still legal.
             else if table.len() >= 2 && master(table, trump) == table.len() - 2 {
                return_value = PlayingRequestResult::Legal;
            }
            // Else illegal
             else {
                return_value = PlayingRequestResult::Illegal;
            }
        }
    }
    // If a trump is required
     else {
        // And I play trump
        if card.suit == trump {
            // If my card is the stongest among the cards on the table, it's legal
            let current_max = max_strength(table, trump, trump);
            if card.strength(trump, trump) > current_max {
                return_value = PlayingRequestResult::Legal;
            }
            // Else it's legal only if I can't play on top
             else {
                let my_max_trump = max_strength(hand, trump, trump);
                if my_max_trump < current_max {
                    assert(cannot_overtrump(hand@, table@, trump));
                    return_value = PlayingRequestResult::Legal;
                } else {
                    assert(!beats_table(card, table@, trump));
                    assert(!cannot_overtrump(hand@, table@, trump)) by {
                        let k = choose|k: int|
                            0 <= k < hand.len() && my_max_trump == card_strength(
                                #[trigger] hand@[k],
                                trump,
                                trump,
                            );
                        assert forall|j: int| 0 <= j < table.len() implies !(forall|kk: int|
                            0 <= kk < hand.len() ==> card_strength(#[trigger] hand@[kk], trump, trump)
                                < card_strength(#[trigger] table@[j], trump, trump)) by {
                            assert(card_strength(table@[j], trump, trump) <= current_max);
                            assert(card_strength(hand@[k], trump, trump) >= card_strength(
                                table@[j],
                                trump,
                                trump,
                            ));
                        }
                    }
                    return_value = PlayingRequestResult::Illegal;
                }
            }
        }
        // If I don't play trump, it's legal only if y don't have any trump, and no other conditions
         else {
            if holds_suit(hand, trump) {
                return_value = PlayingRequestResult::Illegal;
            } else {
                return_value = PlayingRequestResult::Legal;
            }
        }
    };
    assert(return_value == PlayingRequestResult::Legal <==> play_is_legal(table@, hand@, trump, card));
    assert(return_value == PlayingRequestResult::Legal || return_value == PlayingRequestResult::Illegal);

    // Now we just have to check if this close the trick, and if so return the index
    // of the card taking the trick.

    // About to play the fourth card
    if table.len() != 3 {
        return_value
    } else {
        match return_value {
            PlayingRequestResult::Illegal => PlayingRequestResult::Illegal,
            _ => {
                let mut tmp = table.clone();
                assert(tmp@ =~= table@);
                tmp.push(card);
                let index = strongest_index(&tmp, trump, table[0].suit);
                proof {
                    lemma_winner_is(tmp@, index as int, trump, table@[0].suit);
                }
                PlayingRequestResult::TrickWinned(index)
            },
        }
    }
}

/// The index of a suit in the layout of a fresh deck.
pub open spec fn suit_index(s: Suit) -> int {
    match s {
        Suit::Spades => 0,
        Suit::Diamonds => 1,
        Suit::Hearts => 2,
        Suit::Clubs => 3,
    }
}

/// The index of a rank in the layout of each suit of a fresh deck.
pub open spec fn rank_index(r: Rank) -> int {
    match r {
        Rank::Seven => 0,
        Rank::Eigth => 1,
        Rank::Nine => 2,
        Rank::Ten => 3,
        Rank::Jack => 4,
        Rank::King => 5,
        Rank::Queen => 6,
        Rank::Ace => 7,
    }
}

/// The fresh deck holds every card of the game, each exactly once.
pub proof fn lemma_full_deck_is_the_game()
    ensures
        full_deck().len() == 32,
        full_deck().no_duplicates(),
        forall|c: Card| #[trigger] full_deck().contains(c),
{
    let d = full_deck();
    assert forall|i: int, j: int| 0 <= i < d.len() && 0 <= j < d.len() && i != j implies d[i]
        != d[j] by {
        if d[i] == d[j] {
            assert(i % 8 == j % 8);
            assert(i / 8 == j / 8);
            assert(i == 8 * (i / 8) + i % 8);
            assert(j == 8 * (j / 8) + j % 8);
        }
    }
    assert forall|c: Card| #[trigger] d.contains(c) by {
        let i = 8 * suit_index(c.suit) + rank_index(c.rank);
        assert(i % 8 == rank_index(c.rank));
        assert(i / 8 == suit_index(c.suit));
        assert(d[i] == c);
    }
}

/// A deck whose cards are those of the game, in any order, holds every card
/// of the game exactly once.
pub proof fn lemma_deal_has_every_card_once(cards: Seq<Card>)
    requires
        cards.to_multiset() == full_deck().to_multiset(),
    ensures
        cards.len() == 32,
        cards.no_duplicates(),
        forall|c: Card| #[trigger] cards.contains(c),
{
    broadcast use vstd::seq_lib::group_to_multiset_ensures;

    lemma_full_deck_is_the_game();
    full_deck().lemma_multiset_has_no_duplicates();
    cards.lemma_multiset_has_no_duplicates_conv();
    vstd::seq_lib::to_multiset_len(cards);
    vstd::seq_lib::to_multiset_len(full_deck());
    assert forall|c: Card| #[trigger] cards.contains(c) by {
        assert(full_deck().contains(c));
        assert(full_deck().to_multiset().count(c) > 0);
        assert(cards.to_multiset().count(c) > 0);
    }
}

/// The suit at position `i` of a fresh deck's layout.
fn suit_number(i: usize) -> (s: Suit)
    requires
        i < 4,
    ensures
        s == suit_at(i as int),
{
    if i == 0 {
        Suit::Spades
    } else if i == 1 {
        Suit::Diamonds
    } else if i == 2 {
        Suit::Hearts
    } else {
        Suit::Clubs
    }
}

/// The rank at position `i` of each suit of a fresh deck's layout.
fn rank_number(i: usize) -> (r: Rank)
    requires
        i < 8,
    ensures
        r == rank_at(i as int),
{
    if i == 0 {
        Rank::Seven
    } else if i == 1 {
        Rank::Eigth
    } else if i == 2 {
        Rank::Nine
    } else if i == 3 {
        Rank::Ten
    } else if i == 4 {
        Rank::Jack
    } else if i == 5 {
        Rank::King
    } else if i == 6 {
        Rank::Queen
    } else {
        Rank::Ace
    }
}

impl Deck {
    /// Create a new random deck.
    pub fn random_deck() -> (deck: Deck)
        ensures
            exists|shuffled: Seq<Card>|
                shuffled.to_multiset() == full_deck().to_multiset() && deck@ == dealt(shuffled),
            is_full_deal(deck@),
            deck@.flatten().no_duplicates(),
            forall|c: Card| #[trigger] deck@.flatten().contains(c),
    {
        let mut tab: Vec<Card> = Vec::new();
        let mut i: usize = 0;
        while i < 32
            invariant
                i <= 32,
                tab@ =~= full_deck().take(i as int),
            decreases 32 - i,
        {
            tab.push(Card::new(rank_number(i % 8), suit_number(i / 8)));
            i = i + 1;
        }
        let mut rng = rng::thread_rng();
        rng::shuffle(&mut tab, &mut rng);
        // here tab is a flat shuffled set of all the cards.
        proof {
            assert(full_deck().take(32) =~= full_deck());
        }
        let deck = Deck::deal(tab);
        proof {
            lemma_deal_has_every_card_once(deck@.flatten());
        }
        deck
    }

    /// Deal 32 cards to the four players: eight cards each, in order, the
    /// first eight to player 0.
    pub fn deal(tab: Vec<Card>) -> (deck: Deck)
        requires
            tab.len() == 32,
        ensures
            deck@ == dealt(tab@),
            deck@.flatten() == tab@,
    {
        let mut hands: Vec<Vec<Card>> = Vec::new();
        let mut h: usize = 0;
        while h < 4
            invariant
                h <= 4,
                tab.len() == 32,
                hands.len() == h,
                forall|j: int| 0 <= j < h ==> (#[trigger] hands@[j])@ == tab@.subrange(8 * j, 8 * j + 8),
                hands@.map_values(|v: Vec<Card>| v@).flatten() =~= tab@.take(8 * h),
            decreases 4 - h,
        {
            let mut hand: Vec<Card> = Vec::new();
            let mut k: usize = 0;
            while k < 8
                invariant
                    k <= 8,
                    h < 4,
                    tab.len() == 32,
                    hand@ =~= tab@.subrange(8 * h, 8 * h + k),
                decreases 8 - k,
            {
                hand.push(tab[8 * h + k]);
                k = k + 1;
            }
            proof {
                let before = hands@.map_values(|v: Vec<Card>| v@);
                before.lemma_flatten_push(hand@);
                assert(hands@.push(hand).map_values(|v: Vec<Card>| v@) =~= before.push(hand@));
                assert(tab@.take(8 * h) + tab@.subrange(8 * h, 8 * h + 8) =~= tab@.take(8 * h + 8));
            }
            hands.push(hand);
            h = h + 1;
        }
        let deck = Deck(hands);
        proof {
            assert(tab@.take(32) =~= tab@);
            assert(deck@ =~= dealt(tab@));
        }
        deck
    }

    /// Delete a card when called on a deck, and given a player and a card.
    ///
    /// The card must be in the player's hand.
    pub fn delete_card(self, player: Player, card: Card) -> (deck: Self)
        requires
            player < self@.len(),
            self@[player as int].contains(card),
        ensures
            deck@ == self@.update(player as int, without_card(self@[player as int], card)),
    {
        let Deck(mut tab) = self;
        let ghost old_tab = tab@;
        let mut kept: Vec<Card> = Vec::new();
        let mut i: usize = 0;
        while i < tab[player].len()
            invariant
                player < tab.len(),
                tab@ == old_tab,
                i <= tab@[player as int].len(),
                kept@ == without_card(tab@[player as int]@.take(i as int), card),
            decreases tab@[player as int].len() - i,
        {
            let c = tab[player][i];
            proof {
                reveal_with_fuel(Seq::filter, 1);
                assert(tab@[player as int]@.take(i + 1).drop_last() =~= tab@[player as int]@.take(
                    i as int,
                ));
            }
            if c != card {
                kept.push(c);
            }
            i = i + 1;
        }
        proof {
            assert(tab@[player as int]@.take(i as int) =~= tab@[player as int]@);
        }
        tab.set(player, kept);
        let deck = Deck(tab);
        assert(deck@ =~= self@.update(player as int, without_card(self@[player as int], card)));
        deck
    }
}

impl std::ops::Index<usize> for Deck {
    type Output = Vec<Card>;

    fn index(&self, index: usize) -> (hand: &Vec<Card>)
        ensures
            *hand == self.0@[index as int],
    {
        &self.0[index]
    }
}

impl vstd::std_specs::core::IndexSpecImpl<usize> for Deck {
    open spec fn index_req(&self, index: &usize) -> bool {
        *index < self.0.len()
    }
}

impl std::ops::IndexMut<usize> for Deck {
    fn index_mut(&mut self, index: usize) -> (hand: &mut Vec<Card>)
        requires
            index < old(self).0.len(),
        ensures
            *hand == old(self).0@[index as int],
            final(self).0@ == old(self).0@.update(index as int, *final(hand)),
    {
        &mut self.0[index]
    }
}

impl std::ops::Deref for Deck {
    type Target = Vec<Vec<Card>>;

    fn deref(&self) -> (tab: &Vec<Vec<Card>>)
        ensures
            *tab == self.0,
    {
        &self.0
    }
}

// ========= Laws ==========

/// Every list of cards that holds a card able to take the trick has a card
/// that takes it.
pub proof fn lemma_master_exists(cards: Seq<Card>, trump: Suit, asked: Suit)
    requires
        exists|k: int| 0 <= k < cards.len() && contends(#[trigger] cards[k], trump, asked),
    ensures
        is_master(cards, winner(cards, trump, asked), trump, asked),
    decreases cards.len(),
{
    let rest = cards.drop_last();
    let last = cards.len() - 1;
    if exists|k: int| 0 <= k < rest.len() && contends(#[trigger] rest[k], trump, asked) {
        lemma_master_exists(rest, trump, asked);
        let w = winner(rest, trump, asked);
        if contends(cards[last], trump, asked) && card_strength(cards[last], trump, asked)
            >= card_strength(cards[w], trump, asked) {
            assert forall|j: int|
                0 <= j < cards.len() && contends(#[trigger] cards[j], trump, asked) implies card_strength(
                cards[j],
                trump,
                asked,
            ) <= card_strength(cards[last], trump, asked) by {
                if j < last {
                    assert(rest[j] == cards[j]);
                }
            }
            assert(is_master(cards, last, trump, asked));
        } else {
            assert forall|j: int|
                0 <= j < cards.len() && contends(#[trigger] cards[j], trump, asked) implies card_strength(
                cards[j],
                trump,
                asked,
            ) <= card_strength(cards[w], trump, asked) by {
                if j < last {
                    assert(rest[j] == cards[j]);
                }
            }
            assert forall|j: int|
                w < j < cards.len() && contends(#[trigger] cards[j], trump, asked) implies card_strength(
                cards[j],
                trump,
                asked,
            ) < card_strength(cards[w], trump, asked) by {
                if j < last {
                    assert(rest[j] == cards[j]);
                }
            }
            assert(is_master(cards, w, trump, asked));
        }
    } else {
        let k = choose|k: int| 0 <= k < cards.len() && contends(#[trigger] cards[k], trump, asked);
        if k < last {
            assert(contends(rest[k], trump, asked));
        }
        assert forall|j: int| 0 <= j < last implies !contends(#[trigger] cards[j], trump, asked) by {
            assert(rest[j] == cards[j]);
            if contends(cards[j], trump, asked) {
                assert(contends(rest[j], trump, asked));
            }
        }
        assert(is_master(cards, last, trump, asked));
    }
}

/// A play closes the trick, and names its winner, exactly when it is a legal
/// fourth card; the winner is then the card that [`master`] names on the
/// completed trick, one of its four cards.
pub proof fn law_fourth_card_closes_trick(
    table: Seq<Card>,
    hand: Seq<Card>,
    trump: Suit,
    card: Card,
)
    ensures
        (request_result(table, hand, trump, card) is TrickWinned) <==> (table.len() == 3
            && play_is_legal(table, hand, trump, card)),
        table.len() == 3 && play_is_legal(table, hand, trump, card) ==> {
            let trick = table.push(card);
            let w = winner(trick, trump, trick[0].suit);
            &&& request_result(table, hand, trump, card) == PlayingRequestResult::TrickWinned(
                w as usize,
            )
            &&& is_master(trick, w, trump, trick[0].suit)
            &&& 0 <= w < 4
        },
{
    if table.len() == 3 && play_is_legal(table, hand, trump, card) {
        let trick = table.push(card);
        assert(trick[0] == table[0]);
        assert(contends(trick[0], trump, trick[0].suit));
        lemma_master_exists(trick, trump, trick[0].suit);
    }
}

/// Whatever the table, a player always has a legal card, save in one
/// situation: a suit other than trump is asked, the player holds neither that
/// suit nor trump, and the partner is not winning the trick. (A hand never
/// shares a card with the table.)
pub proof fn law_some_card_is_legal(table: Seq<Card>, hand: Seq<Card>, trump: Suit)
    requires
        hand.len() > 0,
        forall|i: int, j: int|
            0 <= i < hand.len() && 0 <= j < table.len() ==> hand[i] != table[j],
        !(table.len() > 0 && table[0].suit != trump && !has_suit(hand, table[0].suit) && !has_suit(
            hand,
            trump,
        ) && !(table.len() >= 2 && winner(table, trump, table[0].suit) == table.len() - 2)),
    ensures
        exists|i: int| 0 <= i < hand.len() && play_is_legal(table, hand, trump, #[trigger] hand[i]),
{
    assert(hand.contains(hand[0]));
    if table.len() == 0 {
        assert(play_is_legal(table, hand, trump, hand[0]));
    } else if table[0].suit != trump {
        let asked = table[0].suit;
        if has_suit(hand, asked) {
            let i = choose|i: int| 0 <= i < hand.len() && (#[trigger] hand[i]).suit == asked;
            assert(hand.contains(hand[i]));
            assert(play_is_legal(table, hand, trump, hand[i]));
        } else if has_suit(hand, trump) {
            let i = choose|i: int| 0 <= i < hand.len() && (#[trigger] hand[i]).suit == trump;
            assert(hand.contains(hand[i]));
            assert(play_is_legal(table, hand, trump, hand[i]));
        } else {
            assert(play_is_legal(table, hand, trump, hand[0]));
        }
    } else if has_suit(hand, trump) {
        // Play the strongest trump of the hand.
        let t = choose|i: int| 0 <= i < hand.len() && (#[trigger] hand[i]).suit == trump;
        assert(contends(hand[t], trump, trump));
        lemma_master_exists(hand, trump, trump);
        let b = winner(hand, trump, trump);
        assert(hand[b].suit == trump);
        assert(hand.contains(hand[b]));
        if !beats_table(hand[b], table, trump) {
            let j = choose|j: int|
                0 <= j < table.len() && !(card_strength(#[trigger] table[j], trump, trump)
                    < card_strength(hand[b], trump, trump));
            assert(contends(table[0], trump, trump));
            lemma_master_exists(table, trump, trump);
            let m = winner(table, trump, trump);
            if contends(table[j], trump, trump) {
                assert(card_strength(table[j], trump, trump) <= card_strength(
                    table[m],
                    trump,
                    trump,
                ));
            }
            assert(table[m].suit == trump);
            assert(hand[b] != table[m]);
            assert(card_strength(hand[b], trump, trump) < card_strength(table[m], trump, trump));
            assert(cannot_overtrump(hand, table, trump)) by {
                assert forall|k: int| 0 <= k < hand.len() implies card_strength(
                    #[trigger] hand[k],
                    trump,
                    trump,
                ) < card_strength(table[m], trump, trump) by {
                    if contends(hand[k], trump, trump) {
                        assert(card_strength(hand[k], trump, trump) <= card_strength(
                            hand[b],
                            trump,
                            trump,
                        ));
                    }
                }
            }
        }
        assert(play_is_legal(table, hand, trump, hand[b]));
    } else {
        if hand[0].suit == trump {
            assert(has_suit(hand, trump));
        }
        assert(play_is_legal(table, hand, trump, hand[0]));
    }
}

/// Taking out a card that a hand does not hold leaves the hand unchanged.
pub proof fn lemma_without_absent_card(hand: Seq<Card>, card: Card)
    requires
        !hand.contains(card),
    ensures
        without_card(hand, card) == hand,
    decreases hand.len(),
{
    reveal_with_fuel(Seq::filter, 1);
    if hand.len() > 0 {
        let rest = hand.drop_last();
        assert(!rest.contains(card)) by {
            if rest.contains(card) {
                let i = choose|i: int| 0 <= i < rest.len() && rest[i] == card;
                assert(hand[i] == card);
            }
        }
        lemma_without_absent_card(rest, card);
        assert(hand.last() != card);
        assert(hand =~= rest.push(hand.last()));
    }
}

/// On a hand without duplicates, taking out a card takes out one copy of it.
pub proof fn lemma_without_card_multiset(hand: Seq<Card>, card: Card)
    requires
        hand.no_duplicates(),
    ensures
        without_card(hand, card).to_multiset() =~= hand.to_multiset().remove(card),
    decreases hand.len(),
{
    reveal_with_fuel(Seq::filter, 1);
    broadcast use vstd::seq_lib::group_to_multiset_ensures;
    broadcast use vstd::multiset::group_multiset_axioms;

    if hand.len() == 0 {
        assert(hand.to_multiset() =~= vstd::multiset::Multiset::empty());
        assert(without_card(hand, card) == hand);
    } else {
        let rest = hand.drop_last();
        let x = hand.last();
        assert(hand =~= rest.push(x));
        assert(rest.no_duplicates());
        lemma_without_card_multiset(rest, card);
        if x == card {
            assert(!rest.contains(card)) by {
                if rest.contains(card) {
                    let i = choose|i: int| 0 <= i < rest.len() && rest[i] == card;
                    assert(hand[i] == hand[hand.len() - 1]);
                }
            }
            lemma_without_absent_card(rest, card);
            assert(without_card(hand, card) == without_card(rest, card));
        } else {
            assert(without_card(hand, card) == without_card(rest, card).push(x));
        }
    }
}

/// Taking a card out of a hand that holds it once leaves the other cards of
/// the hand, one card fewer.
pub proof fn law_delete_card_takes_one_card(hand: Seq<Card>, card: Card)
    requires
        hand.no_duplicates(),
        hand.contains(card),
    ensures
        without_card(hand, card).len() == hand.len() - 1,
        !without_card(hand, card).contains(card),
        forall|c: Card| c != card ==> (without_card(hand, card).contains(c) <==> hand.contains(c)),
        without_card(hand, card).to_multiset() == hand.to_multiset().remove(card),
{
    broadcast use vstd::seq_lib::group_to_multiset_ensures;
    broadcast use vstd::multiset::group_multiset_axioms;

    lemma_without_card_multiset(hand, card);
    hand.lemma_multiset_has_no_duplicates();
    let w = without_card(hand, card);
    assert(hand.to_multiset().count(card) == 1);
    assert(w.to_multiset().count(card) == 0);
    let single = vstd::multiset::Multiset::singleton(card);
    assert(single.subset_of(hand.to_multiset())) by {
        assert forall|c: Card| single.count(c) <= hand.to_multiset().count(c) by {
            if c != card {
                assert(single.count(c) == 0);
            }
        }
    }
    assert(hand.to_multiset().remove(card).len() == hand.len() - 1);
    assert forall|c: Card| c != card implies (w.contains(c) <==> hand.contains(c)) by {
        assert(w.to_multiset().count(c) == hand.to_multiset().count(c));
    }
}

/// Dealing loses nothing: two deals of 32 cards are the same exactly when the
/// cards were laid out in the same order.
pub proof fn law_deal_is_injective(s1: Seq<Card>, s2: Seq<Card>)
    requires
        s1.len() == 32,
        s2.len() == 32,
    ensures
        dealt(s1) == dealt(s2) <==> s1 == s2,
{
    if dealt(s1) == dealt(s2) {
        assert forall|i: int| 0 <= i < 32 implies s1[i] == s2[i] by {
            let h = i / 8;
            assert(dealt(s1)[h] == dealt(s2)[h]);
            assert(dealt(s1)[h][i - 8 * h] == s1[i]);
            assert(dealt(s2)[h][i - 8 * h] == s2[i]);
        }
        assert(s1 =~= s2);
    }
}


/// A card that is not in the hand is refused.
pub proof fn law_card_must_be_in_hand(table: Seq<Card>, hand: Seq<Card>, trump: Suit, card: Card)
    requires
        forall|i: int| 0 <= i < hand.len() ==> hand[i] != card,
    ensures
        request_result(table, hand, trump, card) == PlayingRequestResult::Illegal,
{
}

/// The first card of a trick may be any card of the hand.
pub proof fn law_lead_with_any_card(hand: Seq<Card>, trump: Suit, card: Card)
    requires
        exists|i: int| 0 <= i < hand.len() && hand[i] == card,
    ensures
        request_result(Seq::empty(), hand, trump, card) == PlayingRequestResult::Legal,
{
}

/// When a suit other than trump is asked: following it is allowed; another
/// suit is refused while the hand holds the asked suit; without the asked
/// suit, a trump is allowed, and another card only while the partner (the
/// card before last) is taking the trick.
pub proof fn law_follow_the_asked_suit(table: Seq<Card>, hand: Seq<Card>, trump: Suit, card: Card)
    requires
        table.len() > 0,
        table[0].suit != trump,
        exists|i: int| 0 <= i < hand.len() && hand[i] == card,
    ensures
        card.suit == table[0].suit ==> !(request_result(table, hand, trump, card) is Illegal),
        card.suit != table[0].suit && (exists|i: int|
            0 <= i < hand.len() && hand[i].suit == table[0].suit) ==> request_result(
            table,
            hand,
            trump,
            card,
        ) == PlayingRequestResult::Illegal,
        card.suit == trump && (forall|i: int| 0 <= i < hand.len() ==> hand[i].suit != table[0].suit)
            ==> !(request_result(table, hand, trump, card) is Illegal),
        card.suit != trump && card.suit != table[0].suit && (forall|i: int|
            0 <= i < hand.len() ==> hand[i].suit != table[0].suit) ==> (!(request_result(
            table,
            hand,
            trump,
            card,
        ) is Illegal) <==> (table.len() >= 2 && is_master(table, table.len() - 2, trump, table[0].suit))),
{
    assert(contends(table[0], trump, table[0].suit));
    lemma_master_exists(table, trump, table[0].suit);
    if table.len() >= 2 && winner(table, trump, table[0].suit) == table.len() - 2 {
        assert(is_master(table, table.len() - 2, trump, table[0].suit));
    }
    if table.len() >= 2 && is_master(table, table.len() - 2, trump, table[0].suit) {
        lemma_winner_is(table, table.len() - 2, trump, table[0].suit);
    }
    assert(hand.contains(card));
    if card.suit != table[0].suit && (exists|i: int|
        0 <= i < hand.len() && hand[i].suit == table[0].suit) {
        let i = choose|i: int| 0 <= i < hand.len() && hand[i].suit == table[0].suit;
        assert(has_suit(hand, table[0].suit));
    }
}

/// When trump is asked: a card of another suit is refused while the hand
/// holds a trump, and allowed without; a trump stronger than every card on the
/// table is allowed; a trump that does not beat the table is refused while the
/// hand holds a trump that does.
pub proof fn law_trump_asked(table: Seq<Card>, hand: Seq<Card>, trump: Suit, card: Card)
    requires
        table.len() > 0,
        table[0].suit == trump,
        exists|i: int| 0 <= i < hand.len() && hand[i] == card,
    ensures
        card.suit != trump && (exists|i: int| 0 <= i < hand.len() && hand[i].suit == trump)
            ==> request_result(table, hand, trump, card) == PlayingRequestResult::Illegal,
        (forall|i: int| 0 <= i < hand.len() ==> hand[i].suit != trump) ==> !(request_result(
            table,
            hand,
            trump,
            card,
        ) is Illegal),
        card.suit == trump && (forall|j: int| 0 <= j < table.len() ==> card_strength(table[j], trump, trump) < card_strength(card, trump, trump))
            ==> !(request_result(table, hand, trump, card) is Illegal),
        card.suit == trump && (exists|j: int| 0 <= j < table.len() && card_strength(table[j], trump, trump) >= card_strength(card, trump, trump))
            && (exists|k: int| #![trigger hand[k]]
            0 <= k < hand.len() && forall|j: int| 0 <= j < table.len() ==> card_strength(table[j], trump, trump) < card_strength(hand[k], trump, trump))
            ==> request_result(table, hand, trump, card) == PlayingRequestResult::Illegal,
{
    assert(hand.contains(card));
    if card.suit != trump && (exists|i: int| 0 <= i < hand.len() && hand[i].suit == trump) {
        let i = choose|i: int| 0 <= i < hand.len() && hand[i].suit == trump;
        assert(has_suit(hand, trump));
    }
    if card.suit == trump && (forall|j: int| 0 <= j < table.len() ==> card_strength(table[j], trump, trump) < card_strength(card, trump, trump)) {
        assert(beats_table(card, table, trump));
    }
    if card.suit == trump && (exists|j: int| 0 <= j < table.len() && card_strength(table[j], trump, trump) >= card_strength(card, trump, trump))
        && (exists|k: int| #![trigger hand[k]]
        0 <= k < hand.len() && forall|j: int| 0 <= j < table.len() ==> card_strength(table[j], trump, trump) < card_strength(hand[k], trump, trump)) {
        let j0 = choose|j: int| 0 <= j < table.len() && card_strength(table[j], trump, trump) >= card_strength(card, trump, trump);
        let k = choose|k: int| #![trigger hand[k]]
            0 <= k < hand.len() && forall|j: int| 0 <= j < table.len() ==> card_strength(table[j], trump, trump) < card_strength(hand[k], trump, trump);
        assert(!beats_table(card, table, trump));
        assert(!cannot_overtrump(hand, table, trump)) by {
            assert forall|j: int| #![trigger table[j]] 0 <= j < table.len() implies !(forall|kk: int| #![trigger hand[kk]]
                0 <= kk < hand.len() ==> card_strength(hand[kk], trump, trump) < card_strength(table[j], trump, trump)) by {
                assert(card_strength(hand[k], trump, trump) > card_strength(table[j], trump, trump));
            }
        }
    }
}


/// Dealing a shuffle of the cards of the game does not fix any hand: for
/// every card of the game and every player, some order of the 32 cards deals
/// that card to that player.
pub proof fn law_deal_can_put_any_card_anywhere(c: Card, h: int)
    requires
        0 <= h < 4,
    ensures
        exists|s: Seq<Card>|
            s.to_multiset() == full_deck().to_multiset() && #[trigger] dealt(s)[h].contains(c),
{
    let f = full_deck();
    let ic = 8 * suit_index(c.suit) + rank_index(c.rank);
    assert(ic % 8 == ic - 8 * suit_index(c.suit));
    assert(ic / 8 == suit_index(c.suit));
    assert(f[ic] == c);
    let r = if ic >= 8 * h {
        ic - 8 * h
    } else {
        ic - 8 * h + 32
    };
    let a = f.subrange(r, 32);
    let b = f.subrange(0, r);
    let s = a + b;
    vstd::seq_lib::lemma_multiset_commutative(a, b);
    vstd::seq_lib::lemma_multiset_commutative(b, a);
    assert(b + a =~= f);
    assert(s.to_multiset() =~= f.to_multiset()) by {
        broadcast use vstd::multiset::group_multiset_axioms;
    }
    if 8 * h < 32 - r {
        assert(s[8 * h] == f[r + 8 * h]);
    } else {
        assert(s[8 * h] == f[8 * h - (32 - r)]);
    }
    assert(dealt(s)[h][0] == c);
    assert(dealt(s)[h].contains(c));
}


/// The card that takes a trick is a trump or of the suit asked, and it is a
/// trump as soon as the trick holds one.
pub proof fn law_master_is_trump_or_asked(cards: Seq<Card>, i: int, trump: Suit, asked: Suit)
    requires
        is_master(cards, i, trump, asked),
    ensures
        cards[i].suit == trump || cards[i].suit == asked,
        (exists|j: int| 0 <= j < cards.len() && cards[j].suit == trump) ==> cards[i].suit == trump,
{
    if exists|j: int| 0 <= j < cards.len() && cards[j].suit == trump {
        let j = choose|j: int| 0 <= j < cards.len() && cards[j].suit == trump;
        assert(contends(cards[j], trump, asked));
        assert(card_strength(cards[j], trump, asked) >= 10);
    }
}

} // verus!
