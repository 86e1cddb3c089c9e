//! Client-side library for an air-quality sensor appliance: the encrypted
//! envelope used on the wire, the device's directory and file layout, the
//! incremental synchronisation rules and an in-memory rolling window of
//! stored measurements.

use vstd::prelude::*;

pub mod client;
pub mod envelope;
pub mod error;
pub mod file_ref;
pub mod index;
pub mod sync;
pub mod window;

pub use client::{AirQ, DeviceId, Ping, Status};
pub use error::Error;
pub use file_ref::{FilePath, SyncCursor};
pub use window::{Group, Sevendays, Stamped, Timestamps};

verus! {

} // verus!
