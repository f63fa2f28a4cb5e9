//! Where an order of an interface stands.
use vstd::prelude::*;

verus! {

/// An order starts `Pending` and ends `Completed` or `Canceled`.
#[derive(Clone, Copy, Debug, PartialEq, Eq, Structural)]
pub enum StatusOrder {
    Pending,
    Completed,
    Canceled,
}

/// The status after a move to `to`: only a pending order moves.
pub open spec fn advance(from: StatusOrder, to: StatusOrder) -> StatusOrder {
    if from == StatusOrder::Pending {
        to
    } else {
        from
    }
}

} // verus!
