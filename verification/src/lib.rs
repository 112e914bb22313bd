//! The parked sub-pool of a transaction pool.
//!
//! Parked transactions are valid, but cannot be included in a block yet: the
//! base fee is above what they offer, an earlier nonce of the same sender is
//! missing or parked itself, or the sender lacks the balance. [`ParkedPool`]
//! holds them under two orders at once, by identifier and by rank, and offers
//! the operations that move them out again: removal by identifier, the sweep
//! on a new base fee, and eviction down to a size limit.
pub mod identifier;
pub mod transaction;
pub mod ordering;
pub mod entry;
pub mod removal;
pub mod parked;
pub mod senders;
pub mod by_sender;
pub mod truncate;
pub mod basefee;
pub mod laws;

pub use entry::ParkedPoolTransaction;
pub use identifier::{SenderId, TransactionId};
pub use parked::ParkedPool;
pub use senders::SubmissionSenderId;
pub use ordering::{BasefeeOrd, ParkedOrd, QueuedOrd};
pub use transaction::{SubPoolLimit, ValidPoolTransaction};
