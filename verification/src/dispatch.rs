//! Role dispatch at the messaging boundary: the inbound demultiplexer and
//! the client role's outbound entry points.
//!
//! A malformed inbound payload is never an error to the sender — there is
//! nobody to answer — it is reported as such and dropped without touching
//! any state.

use vstd::prelude::*;

use crate::channel::{Channel, ServiceQuality};
use crate::codec::{decode, encode, msg_wf, spec_encode, XCMPMessage};
use crate::ledger::Ledger;
use crate::market::{same_state, Marketplace, OnReceived};
use crate::orders::{ledger_unchanged, received_post};
use crate::types::{Error, Order, OrderBase};

verus! {

/// What an inbound payload turned out to be, and what was done with it.
#[derive(PartialEq, Eq, Debug)]
pub enum Inbound {
    /// A new order for a device of this domain: the device identity and
    /// the outcome of the acceptance path.
    Order(u64, Result<(), Error>),
    /// Notice that a remote device confirmed the order: client, device.
    Accepted(u64, u64),
    /// Notice that a remote device rejected the order: client, device,
    /// follow-up on/off intent.
    Rejected(u64, u64, bool),
    /// Notice that a remote device completed the order: client, device,
    /// follow-up on/off intent.
    Completed(u64, u64, bool),
    /// The payload encodes no protocol message; it was dropped.
    Malformed,
}

impl Marketplace {
    /// The inbound demultiplexer: decode the payload and apply a
    /// `NewOrder` to the acceptance path with the sender as origin
    /// domain; the three notices only report to the client role, which
    /// keeps no device mirror here.
    pub fn on_message<P: OnReceived, C: Channel>(
        &mut self,
        sender: u32,
        blob: &Vec<u8>,
        now: u64,
        ledger: &mut Ledger,
        chan: &mut C,
    ) -> (r: Inbound)
        requires
            old(ledger).wf(),
        ensures
            final(ledger).wf(),
            old(self).inv() ==> final(self).inv(),
            old(self).inv() && old(self).single_order() ==> final(self).single_order(),
            match r {
                Inbound::Malformed => (forall|m: XCMPMessage|
                    msg_wf(m) ==> #[trigger] spec_encode(m) != blob@) && same_state(
                    *old(self),
                    *final(self),
                ) && ledger_unchanged(*old(ledger), *final(ledger)),
                Inbound::Accepted(c, d) => blob@ == spec_encode(XCMPMessage::OrderAccept(c, d))
                    && same_state(*old(self), *final(self)) && ledger_unchanged(
                    *old(ledger),
                    *final(ledger),
                ),
                Inbound::Rejected(c, d, f) => blob@ == spec_encode(
                    XCMPMessage::OrderReject(c, d, f),
                ) && same_state(*old(self), *final(self)) && ledger_unchanged(
                    *old(ledger),
                    *final(ledger),
                ),
                Inbound::Completed(c, d, f) => blob@ == spec_encode(
                    XCMPMessage::OrderDone(c, d, f),
                ) && same_state(*old(self), *final(self)) && ledger_unchanged(
                    *old(ledger),
                    *final(ledger),
                ),
                Inbound::Order(dv, res) => exists|c: u64, ob: OrderBase|
                    {
                        let o = Order {
                            until: ob.until,
                            data: ob.data,
                            fee: ob.fee,
                            client: c,
                            paraid: sender,
                        };
                        &&& msg_wf(XCMPMessage::NewOrder(c, ob))
                        &&& #[trigger] spec_encode(XCMPMessage::NewOrder(c, ob)) == blob@
                        &&& dv == ob.device
                        &&& received_post(
                            *old(self),
                            *final(self),
                            *old(ledger),
                            *final(ledger),
                            o,
                            ob.device,
                            now,
                            P::decision(ob.device, o),
                            res,
                        )
                    },
            },
    {
        match decode(blob) {
            None => Inbound::Malformed,
            Some(m) => match m {
                XCMPMessage::NewOrder(client, base) => {
                    let ghost gclient = client;
                    let ghost gbase = base;
                    let device = base.device;
                    let order = Order {
                        until: base.until,
                        data: base.data,
                        fee: base.fee,
                        client,
                        paraid: sender,
                    };
                    let res = self.order_received::<P, C>(order, device, now, ledger, chan);
                    proof {
                        assert(spec_encode(XCMPMessage::NewOrder(gclient, gbase)) == blob@);
                    }
                    Inbound::Order(device, res)
                },
                XCMPMessage::OrderAccept(c, d) => Inbound::Accepted(c, d),
                XCMPMessage::OrderReject(c, d, f) => Inbound::Rejected(c, d, f),
                XCMPMessage::OrderDone(c, d, f) => Inbound::Completed(c, d, f),
            },
        }
    }
}

/// The client role's cross-domain placement: wrap the request and the
/// client identity into a `NewOrder` payload for the device's domain and
/// hand it to the channel.  Nothing is recorded locally; the receiving
/// domain runs the acceptance path and answers over the channel.
pub fn send_order<C: Channel>(who: u64, order: OrderBase, dest: u32, chan: &mut C) -> (r: Result<
    (),
    Error,
>)
    ensures
        order.data@.len() > u32::MAX <==> r == Err::<(), Error>(Error::BadOrderDetails),
        r is Ok || r == Err::<(), Error>(Error::BadOrderDetails) || r == Err::<(), Error>(
            Error::CannotReachDestination,
        ),
{
    let msg = XCMPMessage::NewOrder(who, order);
    let bytes = match encode(&msg) {
        Some(b) => b,
        None => {
            return Err(Error::BadOrderDetails);
        },
    };
    match chan.send(dest, bytes, ServiceQuality::Ordered) {
        Ok(()) => Ok(()),
        Err(_) => Err(Error::CannotReachDestination),
    }
}

/// Diagnostic ping of the messaging channel: a tiny fixed payload toward
/// domain 200, reporting only whether the channel accepted it.
pub fn test<C: Channel>(chan: &mut C) -> (r: Result<(), Error>)
    ensures
        r is Ok || r == Err::<(), Error>(Error::CannotReachDestination),
{
    let payload: Vec<u8> = vec![0x00u8, 0x20u8];
    match chan.send(200, payload, ServiceQuality::Ordered) {
        Ok(()) => Ok(()),
        Err(_) => Err(Error::CannotReachDestination),
    }
}

} // verus!
