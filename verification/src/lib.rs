//! Get In Line: the verified core of a collection of bounded lock-free queues.
mod backoff;
pub mod epochs;
pub mod order;
pub mod parking;
pub mod ring;
pub mod sequenced;
pub mod sharded;
pub mod spsc;

pub use backoff::{Backoff, BackoffAction, ParkingAction, ParkingBackoff};
