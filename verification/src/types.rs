use vstd::prelude::*;

verus! {

/// How far past `now` a slot's time may still lie while the batch claim
/// already collects it: one hour, the grace window for claiming.
pub const EXPIRY_HORIZON: u64 = 3600;

/// The currently escrowed highest bid on a slot.
#[derive(Debug, PartialEq)]
pub struct Winner {
    /// The account that placed the bid.
    pub bidder: String,
    /// The escrowed amount; held until refunded or claimed.
    pub amount: u128,
}

/// Mathematical value of a [`Winner`].
pub struct WinnerV {
    pub bidder: Seq<char>,
    pub amount: u128,
}

impl View for Winner {
    type V = WinnerV;

    open spec fn view(&self) -> WinnerV {
        WinnerV { bidder: self.bidder@, amount: self.amount }
    }
}

impl Winner {
    /// An independent copy with the same bidder and amount.
    pub fn duplicate(&self) -> (r: Winner)
        ensures
            r@ == self@,
    {
        Winner { bidder: self.bidder.clone(), amount: self.amount }
    }
}

/// What one slot stores: its description and, once somebody has bid, the
/// escrowed highest bid.
#[derive(Debug, PartialEq)]
pub struct SlotInfo {
    /// Free-form description of the slot.
    pub metadata: String,
    /// The highest bid so far; `None` until the first bid.
    pub winner: Option<Winner>,
}

/// Mathematical value of a [`SlotInfo`].
pub struct SlotInfoV {
    pub metadata: Seq<char>,
    pub winner: Option<WinnerV>,
}

impl View for SlotInfo {
    type V = SlotInfoV;

    open spec fn view(&self) -> SlotInfoV {
        SlotInfoV {
            metadata: self.metadata@,
            winner: match self.winner {
                Some(w) => Some(w@),
                None => None,
            },
        }
    }
}

impl SlotInfo {
    /// An independent copy with the same metadata and winner.
    pub fn duplicate(&self) -> (r: SlotInfo)
        ensures
            r@ == self@,
    {
        SlotInfo {
            metadata: self.metadata.clone(),
            winner: match &self.winner {
                Some(w) => Some(w.duplicate()),
                None => None,
            },
        }
    }
}

/// An outbound payment the operation asks the host to perform: `amount`
/// to `receiver`. The state change has already been committed when a
/// `Transfer` is handed out; dispatching it is the host's duty.
#[derive(Debug, PartialEq)]
pub struct Transfer {
    /// The account to pay.
    pub receiver: String,
    /// The amount to pay.
    pub amount: u128,
}

/// Why a mutating or querying operation rejected its input. Every error
/// aborts the whole operation with no state change.
#[derive(Debug, PartialEq, Eq, Structural, Clone, Copy)]
pub enum ReservationError {
    /// `add_slot` found an entry already present at the given time.
    SlotAlreadyExists,
    /// No slot exists at the given (owner, time) key.
    SlotNotFound,
    /// The attached amount does not exceed the current winning bid.
    BidTooLow,
    /// The owner has no slot collection at all.
    AccountNotFound,
}

} // verus!
