//! A verified reservation book for auctioned time slots.
//!
//! Any account may register named time slots it owns; other accounts place
//! escrowed bids on those slots. The highest bid wins, a displaced bidder is
//! refunded, and the slot owner collects the winning amount once the slot's
//! time has passed. The library is the pure state machine: the surrounding
//! host hands in the caller's identity, the attached payment and the current
//! time, and carries out the outbound transfers the operations request.

pub mod laws;
pub mod service;
pub mod store;
pub mod types;

pub use store::AccountEntry;
pub use store::OwnerSlots;
pub use store::Reservations;
pub use store::SlotEntry;
pub use types::ReservationError;
pub use types::SlotInfo;
pub use types::SlotInfoV;
pub use types::Transfer;
pub use types::Winner;
pub use types::WinnerV;
pub use types::EXPIRY_HORIZON;
