//! The bidding phase of coinche. In turn, each player passes or announces a
//! contract: a trump suit and a number of points. A contract is worth at
//! least 80 points, is a multiple of 10, and must beat the previous one.
//! Three passes after a contract end the bidding and that contract wins; four
//! passes without any contract abort the round.

use vstd::prelude::*;
use crate::playing::Suit;

verus! {

/// A bid: pass, or announce a trump suit and a number of points.
#[derive(Clone, Copy, Debug, PartialEq, Eq, Structural)]
pub enum Bid {
    Pass,
    Value(Suit, u32),
}

/// See [`bidding_request`], the only function returning this output.
#[derive(Clone, Copy, Debug, PartialEq, Eq, Structural)]
pub enum BiddingRequestResult {
    /// The bid may be announced and the bidding goes on.
    Legal,
    /// The bid may not be announced.
    Illegal,
    /// Nobody announced a contract: the round is dealt again.
    Abortion,
    /// The bidding is over; the contract at this index of the history wins.
    BiddingWinned(usize),
}

/// The lowest contract.
pub const MIN_BID: u32 = 80;

/// `history[i]` is the last contract announced.
pub open spec fn is_last_contract(history: Seq<Bid>, i: int) -> bool {
    &&& 0 <= i < history.len()
    &&& history[i] is Value
    &&& forall|j: int| i < j < history.len() ==> (#[trigger] history[j]) is Pass
}

/// Some contract has been announced.
pub open spec fn has_contract(history: Seq<Bid>) -> bool {
    exists|i: int| 0 <= i < history.len() && (#[trigger] history[i]) is Value
}

/// The index of the last contract announced (see [`is_last_contract`]).
pub open spec fn last_contract(history: Seq<Bid>) -> int {
    choose|i: int| is_last_contract(history, i)
}

/// The points of a contract.
pub open spec fn points(bid: Bid) -> u32 {
    match bid {
        Bid::Value(_, v) => v,
        Bid::Pass => 0,
    }
}

/// The rules of the bidding phase: what announcing `bid` after `history` gives.
pub open spec fn bidding_result(history: Seq<Bid>, bid: Bid) -> BiddingRequestResult {
    match bid {
        Bid::Value(_, v) => {
            if v >= MIN_BID && v % 10 == 0 && (!has_contract(history) || v > points(
                history[last_contract(history)],
            )) {
                BiddingRequestResult::Legal
            } else {
                BiddingRequestResult::Illegal
            }
        },
        Bid::Pass => {
            if !has_contract(history) {
                if history.len() >= 3 {
                    BiddingRequestResult::Abortion
                } else {
                    BiddingRequestResult::Legal
                }
            } else if history.len() - 1 - last_contract(history) >= 2 {
                BiddingRequestResult::BiddingWinned(last_contract(history) as usize)
            } else {
                BiddingRequestResult::Legal
            }
        },
    }
}

/// Two indices that are both the last contract are the same.
pub proof fn lemma_last_contract_unique(history: Seq<Bid>, i: int, k: int)
    requires
        is_last_contract(history, i),
        is_last_contract(history, k),
    ensures
        i == k,
{
    if i < k {
        assert(history[k] is Pass);
    } else if k < i {
        assert(history[i] is Pass);
    }
}

/// Once a contract has been announced, there is a last one.
pub proof fn lemma_last_contract_exists(history: Seq<Bid>)
    requires
        has_contract(history),
    ensures
        is_last_contract(history, last_contract(history)),
    decreases history.len(),
{
    if history.last() is Value {
        assert(is_last_contract(history, history.len() - 1));
    } else {
        let w = choose|i: int| 0 <= i < history.len() && (#[trigger] history[i]) is Value;
        let rest = history.drop_last();
        assert(rest[w] is Value);
        lemma_last_contract_exists(rest);
        let k = last_contract(rest);
        assert forall|j: int| k < j < history.len() implies (#[trigger] history[j]) is Pass by {
            if j < history.len() - 1 {
                assert(rest[j] is Pass);
            }
        }
        assert(is_last_contract(history, k));
    }
}

/// The index of the last contract, where there is one.
fn find_last_contract(history: &Vec<Bid>) -> (r: Option<usize>)
    ensures
        r is None <==> !has_contract(history@),
        r matches Some(i) ==> i == last_contract(history@) && is_last_contract(history@, i as int),
{
    let mut i: usize = history.len();
    while i > 0
        invariant
            i <= history.len(),
            forall|j: int| i <= j < history.len() ==> (#[trigger] history@[j]) is Pass,
        decreases i,
    {
        i = i - 1;
        match history[i] {
            Bid::Value(_, _) => {
                proof {
                    assert(is_last_contract(history@, i as int));
                    lemma_last_contract_unique(history@, i as int, last_contract(history@));
                }
                return Some(i);
            },
            Bid::Pass => {},
        }
    }
    None
}

/// Contains the rules for the bidding phase: says whether `bid` may follow
/// `history`, and whether it ends or aborts the bidding.
pub fn bidding_request(history: &Vec<Bid>, bid: Bid) -> (res: BiddingRequestResult)
    ensures
        res == bidding_result(history@, bid),
        res matches BiddingRequestResult::BiddingWinned(i) ==> is_last_contract(history@, i as int),
{
    let last = find_last_contract(history);
    match bid {
        Bid::Value(_, v) => {
            let beats_last = match last {
                None => true,
                Some(i) => match history[i] {
                    Bid::Value(_, w) => v > w,
                    Bid::Pass => false,
                },
            };
            if v >= MIN_BID && v % 10 == 0 && beats_last {
                BiddingRequestResult::Legal
            } else {
                BiddingRequestResult::Illegal
            }
        },
        Bid::Pass => match last {
            None => {
                if history.len() >= 3 {
                    BiddingRequestResult::Abortion
                } else {
                    BiddingRequestResult::Legal
                }
            },
            Some(i) => {
                if history.len() - 1 - i >= 2 {
                    BiddingRequestResult::BiddingWinned(i)
                } else {
                    BiddingRequestResult::Legal
                }
            },
        },
    }
}

// ========= Laws ==========

/// Every contract of `history` beats the ones announced before it.
pub open spec fn contracts_rise(history: Seq<Bid>) -> bool {
    forall|i: int, j: int|
        0 <= i < j < history.len() && (#[trigger] history[i]) is Value && (#[trigger] history[j]) is Value
            ==> points(history[i]) < points(history[j])
}

/// A bid that the rules accept keeps the contracts rising: each contract
/// beats every contract announced before it.
pub proof fn law_contracts_rise(history: Seq<Bid>, bid: Bid)
    requires
        contracts_rise(history),
        bidding_result(history, bid) == BiddingRequestResult::Legal,
    ensures
        contracts_rise(history.push(bid)),
{
    let h = history.push(bid);
    if bid is Value && has_contract(history) {
        lemma_last_contract_exists(history);
        let k = last_contract(history);
        assert forall|i: int, j: int|
            0 <= i < j < h.len() && (#[trigger] h[i]) is Value && (#[trigger] h[j]) is Value implies points(
            h[i],
        ) < points(h[j]) by {
            if j == h.len() - 1 {
                assert(h[i] == history[i]);
                if i < k {
                    assert(points(history[i]) < points(history[k]));
                } else if i > k {
                    assert(history[i] is Pass);
                }
            } else {
                assert(h[i] == history[i] && h[j] == history[j]);
            }
        }
    } else {
        assert forall|i: int, j: int|
            0 <= i < j < h.len() && (#[trigger] h[i]) is Value && (#[trigger] h[j]) is Value implies points(
            h[i],
        ) < points(h[j]) by {
            if j == h.len() - 1 && bid is Value {
                assert(history[i] is Value);
                assert(has_contract(history));
            }
            if j < h.len() - 1 {
                assert(h[i] == history[i] && h[j] == history[j]);
            }
        }
    }
}

/// When the bidding ends, the winning contract is the highest one announced,
/// and the bidding ends only after a contract and three passes.
pub proof fn law_winning_contract_is_highest(history: Seq<Bid>, bid: Bid)
    requires
        contracts_rise(history),
        bidding_result(history, bid) is BiddingWinned,
    ensures
        ({
            let i = last_contract(history);
            &&& bidding_result(history, bid) == BiddingRequestResult::BiddingWinned(i as usize)
            &&& is_last_contract(history, i)
            &&& bid is Pass
            &&& history.len() - 1 - i >= 2
            &&& forall|j: int|
                0 <= j < history.len() && (#[trigger] history[j]) is Value ==> points(history[j])
                    <= points(history[i])
        }),
{
    lemma_last_contract_exists(history);
    let i = last_contract(history);
    assert forall|j: int| 0 <= j < history.len() && (#[trigger] history[j]) is Value implies points(
        history[j],
    ) <= points(history[i]) by {
        if j < i {
            assert(points(history[j]) < points(history[i]));
        } else if j > i {
            assert(history[j] is Pass);
        }
    }
}


/// A contract under 80 points, or not a multiple of 10, is refused.
pub proof fn law_contract_at_least_eighty_by_tens(history: Seq<Bid>, suit: Suit, v: u32)
    requires
        v < 80 || v % 10 != 0,
    ensures
        bidding_result(history, Bid::Value(suit, v)) == BiddingRequestResult::Illegal,
{
}

/// In a bidding where contracts have risen so far (as the rules keep them,
/// see [`law_contracts_rise`]), a contract that does not beat every contract
/// announced before is refused; one of at least 80 points, a multiple of 10,
/// that beats them all is accepted.
pub proof fn law_contract_must_beat_the_previous(history: Seq<Bid>, suit: Suit, v: u32)
    ensures
        contracts_rise(history) && (exists|i: int, t: Suit, w: u32|
            0 <= i < history.len() && history[i] == Bid::Value(t, w) && v <= w) ==> bidding_result(
            history,
            Bid::Value(suit, v),
        ) == BiddingRequestResult::Illegal,
        v >= 80 && v % 10 == 0 && (forall|i: int, t: Suit, w: u32|
            0 <= i < history.len() && history[i] == Bid::Value(t, w) ==> w < v) ==> bidding_result(
            history,
            Bid::Value(suit, v),
        ) == BiddingRequestResult::Legal,
{
    if has_contract(history) {
        lemma_last_contract_exists(history);
        let k = last_contract(history);
        let (t, w) = match history[k] {
            Bid::Value(t, w) => (t, w),
            Bid::Pass => (suit, 0),
        };
        assert(history[k] == Bid::Value(t, w));
        if contracts_rise(history) && exists|i: int, t: Suit, w: u32|
            0 <= i < history.len() && history[i] == Bid::Value(t, w) && v <= w {
            let (i, t2, w2) = choose|i: int, t: Suit, w: u32|
                0 <= i < history.len() && history[i] == Bid::Value(t, w) && v <= w;
            if i > k {
                assert(history[i] is Pass);
            } else if i < k {
                assert(points(history[i]) < points(history[k]));
            }
        }
    } else {
        assert forall|i: int, t: Suit, w: u32|
            0 <= i < history.len() && history[i] == Bid::Value(t, w) implies false by {
            assert(history[i] is Value);
        }
    }
}


/// Passing before anyone announced a contract goes on for three players; the
/// fourth pass in a row aborts the round.
pub proof fn law_passes_without_contract(history: Seq<Bid>)
    requires
        forall|i: int| 0 <= i < history.len() ==> history[i] == Bid::Pass,
    ensures
        history.len() < 3 ==> bidding_result(history, Bid::Pass) == BiddingRequestResult::Legal,
        history.len() >= 3 ==> bidding_result(history, Bid::Pass)
            == BiddingRequestResult::Abortion,
{
    assert(!has_contract(history));
}

/// After a contract, the bidding goes on while fewer than three players have
/// passed since; the third pass ends it, and that contract wins.
pub proof fn law_three_passes_end_the_bidding(history: Seq<Bid>, k: int)
    requires
        0 <= k < history.len() <= usize::MAX,
        history[k] is Value,
        forall|i: int| k < i < history.len() ==> history[i] == Bid::Pass,
    ensures
        history.len() - k < 3 ==> bidding_result(history, Bid::Pass) == BiddingRequestResult::Legal,
        history.len() - k >= 3 ==> bidding_result(history, Bid::Pass)
            == BiddingRequestResult::BiddingWinned(k as usize),
{
    assert(is_last_contract(history, k));
    lemma_last_contract_unique(history, k, last_contract(history));
}

} // verus!
