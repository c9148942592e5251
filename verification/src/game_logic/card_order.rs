//! Cards compare by rank alone, whatever their suits.

use vstd::prelude::*;
use core::cmp::Ordering;
use vstd::std_specs::cmp::PartialOrdSpecImpl;
use super::Card;

verus! {

impl PartialOrd for Card {
    fn partial_cmp(&self, other: &Self) -> (r: Option<Ordering>) {
        if self.rank < other.rank {
            Some(Ordering::Less)
        } else if self.rank == other.rank {
            Some(Ordering::Equal)
        } else {
            Some(Ordering::Greater)
        }
    }
}

impl PartialOrdSpecImpl for Card {
    open spec fn obeys_partial_cmp_spec() -> bool {
        true
    }

    open spec fn partial_cmp_spec(&self, other: &Self) -> Option<Ordering> {
        if self.rank < other.rank {
            Some(Ordering::Less)
        } else if self.rank == other.rank {
            Some(Ordering::Equal)
        } else {
            Some(Ordering::Greater)
        }
    }
}

} // verus!
