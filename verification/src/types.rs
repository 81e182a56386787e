//! Data model: device states and profiles, orders, errors and events.

use vstd::prelude::*;

verus! {

/// Lifecycle state of a registered device.
#[derive(Clone, Copy, PartialEq, Eq, Structural, Debug)]
pub enum DeviceState {
    /// Registered but switched off: accepts no orders.
    Off,
    /// Switched on and free: accepts a new order.
    Ready,
    /// An order is installed and awaits the owner's confirmation.
    Busy,
    /// The installed order was confirmed by the owner.
    Busy2,
    /// The owning identity was removed while the device was not off;
    /// the record is retained and no further transition is defined.
    Timewait,
}

impl Default for DeviceState {
    fn default() -> (r: Self)
        ensures
            r == DeviceState::Off,
    {
        DeviceState::Off
    }
}

/// Per-device profile owned by the device registry.
#[derive(Clone, Copy, PartialEq, Eq, Structural, Debug)]
pub struct DeviceProfile {
    /// Current lifecycle state.
    pub state: DeviceState,
    /// Amount the device must be able to bond per order.
    pub penalty: u64,
    /// Work-cycle duration: minimum lead time between acceptance and deadline.
    pub wcd: u64,
}

/// An order as a client submits it: the device is named, the client is the
/// submitting identity and the origin domain is not yet known.
#[derive(PartialEq, Eq, Debug)]
pub struct OrderBase {
    /// Absolute deadline by which the lease must be fulfilled.
    pub until: u64,
    /// Opaque client-supplied lease terms, not interpreted by the protocol.
    pub data: Vec<u8>,
    /// Amount owed by the client to the device on success.
    pub fee: u64,
    /// Identity of the device to lease.
    pub device: u64,
}

/// An installed order: the device identity is the storage key, so the order
/// itself carries the client and the domain the order came from.
#[derive(PartialEq, Eq, Debug)]
pub struct Order {
    /// Absolute deadline by which the lease must be fulfilled.
    pub until: u64,
    /// Opaque client-supplied lease terms, not interpreted by the protocol.
    pub data: Vec<u8>,
    /// Amount owed by the client to the device on success.
    pub fee: u64,
    /// Identity of the ordering party.
    pub client: u64,
    /// Domain the client resides in; equal to the local domain id for
    /// same-domain orders.
    pub paraid: u32,
}

impl OrderBase {
    /// Attach a client identity, producing an installed order with a
    /// placeholder origin domain of 0; callers that know the origin fill
    /// it in afterwards.
    pub fn convert(self, client: u64) -> (r: Order)
        ensures
            r == (Order {
                until: self.until,
                data: self.data,
                fee: self.fee,
                client: client,
                paraid: 0u32,
            }),
    {
        Order { until: self.until, data: self.data, fee: self.fee, client, paraid: 0 }
    }
}

impl Order {
    /// Strip the client and origin domain, naming the device instead: the
    /// shape in which an order travels to another domain.
    pub fn convert(self, device: u64) -> (r: OrderBase)
        ensures
            r == (OrderBase {
                until: self.until,
                data: self.data,
                fee: self.fee,
                device: device,
            }),
    {
        OrderBase { until: self.until, data: self.data, fee: self.fee, device }
    }
}

/// Error kinds returned to callers; every failure leaves all state exactly
/// as it was before the call.
#[derive(Clone, Copy, PartialEq, Eq, Structural, Debug)]
pub enum Error {
    /// Authorization or timing mismatch, e.g. a non-client cancelling early.
    Prohibited,
    /// An order already exists for the registering identity.
    DeviceExists,
    /// The client cannot afford the order's fee.
    DeviceLowBail,
    /// No order exists where one was required.
    NoOrder,
    /// The order's deadline violates the device's minimum lead time.
    BadOrderDetails,
    /// No device profile exists for the identity.
    NoDevice,
    /// The device or order is not in a state admitting the transition.
    IllegalState,
    /// The deadline has already passed where freshness was required.
    Overdue,
    /// The messaging channel reported failure for a required send.
    CannotReachDestination,
    /// The device cannot bond its penalty.
    InsufficientBalance,
}

/// Observable events recorded by the core, newest last.
#[derive(Clone, Copy, PartialEq, Eq, Structural, Debug)]
pub enum Event {
    /// A device profile was created for the identity.
    NewDevice(u64),
    /// An order was installed for the device.
    NewOrder(u64),
    /// The device's order was confirmed.
    Accept(u64),
    /// The device's order was rejected or cancelled.
    Reject(u64),
    /// The device's order was completed.
    Done(u64),
}

} // verus!
