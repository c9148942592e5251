use core_logic::bidding::BiddingRequestResult::{Abortion, BiddingWinned, Illegal, Legal};
use core_logic::bidding::{bidding_request, Bid};
use core_logic::playing::Suit::{Clubs, Hearts, Spades};

#[test]
fn contracts_start_at_eighty_by_tens() {
    assert_eq!(bidding_request(&vec![], Bid::Value(Hearts, 81)), Illegal);
    assert_eq!(bidding_request(&vec![], Bid::Value(Hearts, 70)), Illegal);
    assert_eq!(bidding_request(&vec![], Bid::Value(Hearts, 80)), Legal);
    assert_eq!(bidding_request(&vec![], Bid::Value(Hearts, 250)), Legal);
}

#[test]
fn contracts_must_rise() {
    let history = vec![Bid::Value(Hearts, 90), Bid::Pass];
    assert_eq!(bidding_request(&history, Bid::Value(Spades, 90)), Illegal);
    assert_eq!(bidding_request(&history, Bid::Value(Spades, 80)), Illegal);
    assert_eq!(bidding_request(&history, Bid::Value(Spades, 100)), Legal);
}

#[test]
fn three_passes_after_a_contract_end_the_bidding() {
    let history = vec![Bid::Pass, Bid::Value(Clubs, 100), Bid::Pass];
    assert_eq!(bidding_request(&history, Bid::Pass), Legal);
    let history = vec![Bid::Pass, Bid::Value(Clubs, 100), Bid::Pass, Bid::Pass];
    assert_eq!(bidding_request(&history, Bid::Pass), BiddingWinned(1));
}

#[test]
fn four_passes_abort() {
    assert_eq!(bidding_request(&vec![Bid::Pass, Bid::Pass], Bid::Pass), Legal);
    assert_eq!(bidding_request(&vec![Bid::Pass, Bid::Pass, Bid::Pass], Bid::Pass), Abortion);
}
