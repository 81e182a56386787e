//! The order lifecycle: acceptance, confirmation, completion, rejection
//! and cancellation, with their two-sided escrow rules.
//!
//! Every operation is a single atomic transition: when it fails — a guard
//! refuses, escrow cannot be reserved, or a required cross-domain send is
//! not accepted by the channel — the marketplace and the ledger are left
//! exactly as they were.  A required send is therefore performed before
//! any mutation.

use vstd::prelude::*;

use crate::ledger::{same_balances, spec_min, Ledger};
use crate::market::{same_state, Marketplace};
use crate::types::{DeviceProfile, DeviceState, Error, Event, Order, OrderBase};

verus! {

/// True when two ledgers agree on every balance and on the issuance.
pub open spec fn ledger_unchanged(l0: Ledger, l1: Ledger) -> bool {
    &&& same_balances(l0, l1)
    &&& l1.issuance() == l0.issuance()
}

/// Escrow movement at resolution of a same-domain order.  The fee leaves
/// the client's escrow and goes to the device on success or back to the
/// client otherwise; the bonded penalty goes back to the device when the
/// resolution is punctual and to the client otherwise.  Amounts are
/// capped by what is actually in escrow.  When a device leased itself,
/// both flows release escrow of the one account back to itself.
pub open spec fn resolves(
    l0: Ledger,
    l1: Ledger,
    client: u64,
    device: u64,
    fee: u64,
    penalty: u64,
    success: bool,
    punctual: bool,
) -> bool {
    &&& (client == device ==> {
        let f = spec_min(fee as int, l0.reserved_of(client));
        let p = spec_min(penalty as int, l0.reserved_of(client) - f);
        &&& l1.free_of(client) == l0.free_of(client) + f + p
        &&& l1.reserved_of(client) == l0.reserved_of(client) - f - p
    })
    &&& (client != device ==> {
        let f = spec_min(fee as int, l0.reserved_of(client));
        let p = spec_min(penalty as int, l0.reserved_of(device));
        &&& l1.reserved_of(client) == l0.reserved_of(client) - f
        &&& l1.free_of(client) == l0.free_of(client) + (if success {
            0int
        } else {
            f
        }) + (if punctual {
            0int
        } else {
            p
        })
        &&& l1.reserved_of(device) == l0.reserved_of(device) - p
        &&& l1.free_of(device) == l0.free_of(device) + (if success {
            f
        } else {
            0int
        }) + (if punctual {
            p
        } else {
            0int
        })
    })
    &&& l1.issuance() == l0.issuance()
    &&& forall|x: u64|
        x != client && x != device ==> #[trigger] l1.free_of(x) == l0.free_of(x)
            && l1.reserved_of(x) == l0.reserved_of(x)
}

/// Escrow reservation at installation of a same-domain order: the fee
/// moves into the client's escrow and the penalty into the device's;
/// when a device leases itself, its one account bonds both.
pub open spec fn reserved_both(
    l0: Ledger,
    l1: Ledger,
    client: u64,
    device: u64,
    fee: u64,
    penalty: u64,
) -> bool {
    &&& (client == device ==> {
        &&& l1.free_of(client) == l0.free_of(client) - fee - penalty
        &&& l1.reserved_of(client) == l0.reserved_of(client) + fee + penalty
    })
    &&& (client != device ==> {
        &&& l1.free_of(client) == l0.free_of(client) - fee
        &&& l1.reserved_of(client) == l0.reserved_of(client) + fee
        &&& l1.free_of(device) == l0.free_of(device) - penalty
        &&& l1.reserved_of(device) == l0.reserved_of(device) + penalty
    })
    &&& l1.issuance() == l0.issuance()
    &&& forall|x: u64|
        x != client && x != device ==> #[trigger] l1.free_of(x) == l0.free_of(x)
            && l1.reserved_of(x) == l0.reserved_of(x)
}

/// The state after an order was installed on a device with the given
/// acceptance decision: the order is stored, the device moves to the
/// decided state, the journal grows, and for a same-domain order both
/// escrows are reserved.
pub open spec fn installed(
    m0: Marketplace,
    m1: Marketplace,
    l0: Ledger,
    l1: Ledger,
    order: Order,
    device: u64,
    dev: DeviceProfile,
    decision: DeviceState,
) -> bool {
    &&& m1.device_map() == m0.device_map().insert(
        device,
        DeviceProfile { state: decision, ..dev },
    )
    &&& m1.order_map() == m0.order_map().insert(device, order)
    &&& m1.event_log() == if decision == DeviceState::Busy2 {
        m0.event_log().push(Event::NewOrder(device)).push(Event::Accept(device))
    } else {
        m0.event_log().push(Event::NewOrder(device))
    }
    &&& if order.paraid == m0.domain() {
        reserved_both(l0, l1, order.client, device, order.fee, dev.penalty)
    } else {
        ledger_unchanged(l0, l1)
    }
}

/// The guard chain of order acceptance, in the order the checks are made:
/// the error it stops at, or nothing when every guard passes.
pub open spec fn accept_guard_err(m: Marketplace, order: Order, device: u64, now: u64) -> Option<
    Error,
> {
    if now >= order.until {
        Some(Error::Overdue)
    } else if m.order_map().contains_key(device) {
        Some(Error::IllegalState)
    } else if !m.device_map().contains_key(device) {
        Some(Error::NoDevice)
    } else if m.device_map()[device].state != DeviceState::Ready {
        Some(Error::IllegalState)
    } else if order.until < now + m.device_map()[device].wcd {
        Some(Error::BadOrderDetails)
    } else {
        None
    }
}

/// Whether the client cannot afford the fee of a same-domain order.
pub open spec fn short_of_fee(l0: Ledger, m0: Marketplace, order: Order) -> bool {
    order.paraid == m0.domain() && l0.free_of(order.client) < order.fee
}

/// Whether, the fee being affordable, the device cannot bond its penalty
/// for a same-domain order; a device leasing itself must cover fee and
/// penalty from the one account.
pub open spec fn short_of_bond(
    l0: Ledger,
    m0: Marketplace,
    order: Order,
    device: u64,
    penalty: u64,
) -> bool {
    order.paraid == m0.domain() && !short_of_fee(l0, m0, order) && (if order.client == device {
        l0.free_of(device) < order.fee + penalty
    } else {
        l0.free_of(device) < penalty
    })
}

/// The exact outcome of installing an order under a decision that admits
/// one (`Busy` or `Busy2`): the escrow errors are forced both ways, a
/// same-domain installation succeeds exactly when both escrows can be
/// reserved, and a cross-domain one fails only when its required notice
/// cannot be sent.
pub open spec fn install_outcome(
    m0: Marketplace,
    m1: Marketplace,
    l0: Ledger,
    l1: Ledger,
    order: Order,
    device: u64,
    dev: DeviceProfile,
    decision: DeviceState,
    r: Result<(), Error>,
) -> bool {
    let cross = order.paraid != m0.domain();
    let lowbail = short_of_fee(l0, m0, order);
    let lowbond = short_of_bond(l0, m0, order, device, dev.penalty);
    &&& (lowbail <==> r == Err::<(), Error>(Error::DeviceLowBail))
    &&& (lowbond <==> r == Err::<(), Error>(Error::InsufficientBalance))
    &&& (!cross ==> (r is Ok <==> !lowbail && !lowbond))
    &&& (cross && decision == DeviceState::Busy ==> r is Ok)
    &&& (cross ==> r is Ok || r == Err::<(), Error>(Error::CannotReachDestination))
    &&& (r == Err::<(), Error>(Error::CannotReachDestination) ==> cross)
    &&& (r is Ok ==> installed(m0, m1, l0, l1, order, device, dev, decision))
}

/// Everything order acceptance guarantees, given the acceptance policy's
/// decision for this order: failures roll back, each guard forces its
/// error, a decision other than `Busy`/`Busy2` is refused, and otherwise
/// the outcome is exactly that of installing under the decision.
pub open spec fn received_post(
    m0: Marketplace,
    m1: Marketplace,
    l0: Ledger,
    l1: Ledger,
    order: Order,
    device: u64,
    now: u64,
    decision: Option<DeviceState>,
    r: Result<(), Error>,
) -> bool {
    &&& (r is Err ==> same_state(m0, m1) && ledger_unchanged(l0, l1))
    &&& m1.domain() == m0.domain()
    &&& match accept_guard_err(m0, order, device, now) {
        Some(e) => r == Err::<(), Error>(e),
        None => {
            let dev = m0.device_map()[device];
            match decision {
                None => r == Err::<(), Error>(Error::IllegalState),
                Some(s) => if s != DeviceState::Busy && s != DeviceState::Busy2 {
                    r == Err::<(), Error>(Error::IllegalState)
                } else {
                    install_outcome(m0, m1, l0, l1, order, device, dev, s, r)
                },
            }
        },
    }
}

/// The order as the same-domain entry point assembles it from a client's
/// request.
pub open spec fn spec_local_order(domain: u32, who: u64, base: OrderBase) -> Order {
    Order { until: base.until, data: base.data, fee: base.fee, client: who, paraid: domain }
}

/// Everything the device owner's accept call guarantees, for both the
/// confirm and the reject form.
pub open spec fn accept_post(
    m0: Marketplace,
    m1: Marketplace,
    l0: Ledger,
    l1: Ledger,
    id: u64,
    reject: bool,
    onoff: bool,
    now: u64,
    r: Result<(), Error>,
) -> bool {
    let has = m0.order_map().contains_key(id);
    let ord = m0.order_map()[id];
    &&& (r is Err ==> same_state(m0, m1) && ledger_unchanged(l0, l1))
    &&& m1.domain() == m0.domain()
    &&& if !m0.device_map().contains_key(id) {
        r == Err::<(), Error>(Error::NoDevice)
    } else {
        let dev = m0.device_map()[id];
        if reject {
            if dev.state != DeviceState::Busy && dev.state != DeviceState::Busy2 {
                r == Err::<(), Error>(Error::IllegalState)
            } else {
                let cross = has && ord.paraid != m0.domain();
                let newdev = DeviceProfile {
                    state: if onoff {
                        DeviceState::Ready
                    } else {
                        DeviceState::Off
                    },
                    ..dev
                };
                &&& (!cross ==> r is Ok)
                &&& (r is Ok || r == Err::<(), Error>(Error::CannotReachDestination))
                &&& (r is Ok ==> {
                    &&& m1.order_map() == m0.order_map().remove(id)
                    &&& m1.device_map() == m0.device_map().insert(id, newdev)
                    &&& m1.event_log() == m0.event_log().push(Event::Reject(id))
                    &&& (has && !cross ==> resolves(
                        l0,
                        l1,
                        ord.client,
                        id,
                        ord.fee,
                        dev.penalty,
                        false,
                        now < ord.until,
                    ))
                    &&& (!(has && !cross) ==> ledger_unchanged(l0, l1))
                })
            }
        } else {
            if dev.state != DeviceState::Busy {
                r == Err::<(), Error>(Error::IllegalState)
            } else if !(has) {
                r == Err::<(), Error>(Error::NoOrder)
            } else if now >= ord.until {
                r == Err::<(), Error>(Error::Overdue)
            } else {
                let cross = ord.paraid != m0.domain();
                &&& (!cross ==> r is Ok)
                &&& (r is Ok || r == Err::<(), Error>(Error::CannotReachDestination))
                &&& (r is Ok ==> {
                    &&& m1.order_map() == m0.order_map()
                    &&& m1.device_map() == m0.device_map().insert(
                        id,
                        DeviceProfile { state: DeviceState::Busy2, ..dev },
                    )
                    &&& m1.event_log() == m0.event_log().push(Event::Accept(id))
                    &&& ledger_unchanged(l0, l1)
                })
            }
        }
    }
}

/// Everything the device owner's completion call guarantees.
pub open spec fn done_post(
    m0: Marketplace,
    m1: Marketplace,
    l0: Ledger,
    l1: Ledger,
    id: u64,
    onoff: bool,
    now: u64,
    r: Result<(), Error>,
) -> bool {
    let has = m0.order_map().contains_key(id);
    let ord = m0.order_map()[id];
    &&& (r is Err ==> same_state(m0, m1) && ledger_unchanged(l0, l1))
    &&& m1.domain() == m0.domain()
    &&& if !m0.device_map().contains_key(id) {
        r == Err::<(), Error>(Error::NoDevice)
    } else {
        let dev = m0.device_map()[id];
        if dev.state != DeviceState::Busy2 {
            r == Err::<(), Error>(Error::IllegalState)
        } else if !(has) {
            r == Err::<(), Error>(Error::NoOrder)
        } else {
            let cross = ord.paraid != m0.domain();
            &&& (!cross ==> r is Ok)
            &&& (r is Ok || r == Err::<(), Error>(Error::CannotReachDestination))
            &&& (r is Ok ==> {
                &&& m1.order_map() == m0.order_map().remove(id)
                &&& m1.device_map() == m0.device_map().insert(
                    id,
                    DeviceProfile {
                        state: if onoff {
                            DeviceState::Ready
                        } else {
                            DeviceState::Off
                        },
                        ..dev
                    },
                )
                &&& m1.event_log() == m0.event_log().push(Event::Done(id))
                &&& (!cross ==> resolves(
                    l0,
                    l1,
                    ord.client,
                    id,
                    ord.fee,
                    dev.penalty,
                    true,
                    now < ord.until,
                ))
                &&& (cross ==> ledger_unchanged(l0, l1))
            })
        }
    }
}

/// Everything the client's cancellation guarantees: permitted only at or
/// after the deadline, by the order's client, and it leaves the device's
/// state exactly as it was.
pub open spec fn cancel_post(
    m0: Marketplace,
    m1: Marketplace,
    l0: Ledger,
    l1: Ledger,
    who: u64,
    device: u64,
    now: u64,
    r: Result<(), Error>,
) -> bool {
    let has = m0.order_map().contains_key(device);
    let ord = m0.order_map()[device];
    &&& (r is Err ==> same_state(m0, m1) && ledger_unchanged(l0, l1))
    &&& m1.domain() == m0.domain()
    &&& if !(has) {
        r == Err::<(), Error>(Error::NoOrder)
    } else if now < ord.until || ord.client != who {
        r == Err::<(), Error>(Error::Prohibited)
    } else if !m0.device_map().contains_key(device) {
        r == Err::<(), Error>(Error::NoDevice)
    } else {
        let dev = m0.device_map()[device];
        let cross = ord.paraid != m0.domain();
        &&& (!cross ==> r is Ok)
        &&& (r is Ok || r == Err::<(), Error>(Error::CannotReachDestination))
        &&& (r is Ok ==> {
            &&& m1.order_map() == m0.order_map().remove(device)
            &&& m1.device_map() == m0.device_map()
            &&& m1.event_log() == m0.event_log().push(Event::Reject(device))
            &&& (!cross ==> resolves(
                l0,
                l1,
                ord.client,
                device,
                ord.fee,
                dev.penalty,
                false,
                now < ord.until,
            ))
            &&& (cross ==> ledger_unchanged(l0, l1))
        })
    }
}

} // verus!
