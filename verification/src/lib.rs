//! A device-leasing marketplace: clients lease exclusive use of devices
//! against a fee, devices bond a penalty, and the two sides may live in
//! different domains connected by an asynchronous messaging channel.
//!
//! The core is a single state machine over device profiles and at most one
//! outstanding order per device, with two-sided escrow accounting.  The
//! balance store, the clock and the messaging channel are injected
//! capabilities: the ledger is a verified in-memory bank, the clock is a
//! plain timestamp argument, and the channel is a trait the host implements.

pub mod channel;
pub mod codec;
pub mod dispatch;
pub mod laws;
pub mod ledger;
pub mod market;
pub mod orders;
pub mod types;

pub use channel::{Channel, RecordingChannel, SendError, ServiceQuality};
pub use codec::XCMPMessage;
pub use dispatch::Inbound;
pub use ledger::{AccountData, Ledger};
pub use market::{Marketplace, OnReceived};
pub use types::{DeviceProfile, DeviceState, Error, Event, Order, OrderBase};
