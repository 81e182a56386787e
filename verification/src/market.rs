//! The marketplace core: device registry and the single outstanding order
//! per device.
//!
//! One `Marketplace` value holds the device profiles, the orders and a
//! journal of observable events for one domain.  The ledger, the clock and
//! the messaging channel are injected: every operation takes the current
//! timestamp and, where escrow or a cross-domain notice is involved, a
//! `&mut Ledger` and a channel.

use vstd::prelude::*;

use std::collections::HashMap;

use crate::channel::{Channel, ServiceQuality};
use crate::codec::{encode_wf, XCMPMessage};
use crate::ledger::{spec_min, Ledger};
use crate::orders::{
    accept_guard_err, accept_post, cancel_post, done_post, install_outcome, installed, ledger_unchanged,
    received_post, reserved_both, resolves, spec_local_order,
};
use crate::types::{DeviceProfile, DeviceState, Error, Event, Order, OrderBase};

verus! {

broadcast use vstd::std_specs::hash::group_hash_axioms;

/// The registry's acceptance policy, a pluggable decision point invoked
/// when an order arrives: `Busy` installs the order awaiting confirmation,
/// `Busy2` auto-confirms it, anything else refuses the order.
pub trait OnReceived {
    /// What the policy decides for a device and an order; the acceptance
    /// path's contract is stated over this.
    spec fn decision(device: u64, order: Order) -> Option<DeviceState>;

    /// Decide the target state for a new order on the device.
    fn on_received(device: u64, order: &Order) -> (r: Option<DeviceState>)
        ensures
            r == Self::decision(device, *order),
    ;
}

/// The default policy: every order is installed awaiting the owner's
/// confirmation, never auto-confirmed.
impl OnReceived for () {
    open spec fn decision(device: u64, order: Order) -> Option<DeviceState> {
        Some(DeviceState::Busy)
    }

    fn on_received(_device: u64, _order: &Order) -> (r: Option<DeviceState>) {
        Some(DeviceState::Busy)
    }
}

/// A state that admits an outstanding order.
pub open spec fn state_busy(s: DeviceState) -> bool {
    s == DeviceState::Busy || s == DeviceState::Busy2
}

/// Device registry, order ledger and event journal of one domain.
pub struct Marketplace {
    pub(crate) device_store: HashMap<u64, DeviceProfile>,
    pub(crate) order_store: HashMap<u64, Order>,
    pub(crate) journal: Vec<Event>,
    pub(crate) local_domain: u32,
}

/// True when two marketplace values hold the same observable state.
pub open spec fn same_state(m0: Marketplace, m1: Marketplace) -> bool {
    &&& m1.device_map() == m0.device_map()
    &&& m1.order_map() == m0.order_map()
    &&& m1.event_log() == m0.event_log()
    &&& m1.domain() == m0.domain()
}

impl Marketplace {
    /// Device profiles by identity.
    pub closed spec fn device_map(&self) -> Map<u64, DeviceProfile> {
        self.device_store@
    }

    /// Outstanding orders by device identity.
    pub closed spec fn order_map(&self) -> Map<u64, Order> {
        self.order_store@
    }

    /// Observable events, oldest first.
    pub closed spec fn event_log(&self) -> Seq<Event> {
        self.journal@
    }

    /// The domain this marketplace runs in.
    pub closed spec fn domain(&self) -> u32 {
        self.local_domain
    }

    /// Soundness of the order store: every order belongs to a known device
    /// whose state admits it (an abandoned device may still hold one).
    pub open spec fn inv(&self) -> bool {
        forall|d: u64| #[trigger]
            self.order_map().contains_key(d) ==> self.device_map().contains_key(d) && (state_busy(
                self.device_map()[d].state,
            ) || self.device_map()[d].state == DeviceState::Timewait)
    }

    /// The single-order invariant: an order exists exactly for the devices
    /// whose state is `Busy` or `Busy2`.  Every operation preserves it —
    /// see the `single_order` clauses in their contracts — except the two
    /// that deliberately step outside it: cancellation keeps the device's
    /// state while removing its order, and removal of a busy identity
    /// keeps the order on an abandoned device.  Both still preserve the
    /// weaker soundness `inv`.
    pub open spec fn single_order(&self) -> bool {
        forall|d: u64|
            #![trigger self.order_map().contains_key(d)]
            #![trigger self.device_map().contains_key(d)]
            self.order_map().contains_key(d) <==> (self.device_map().contains_key(d) && state_busy(
                self.device_map()[d].state,
            ))
    }

    /// An empty marketplace for the domain.
    pub fn new(local_domain: u32) -> (m: Marketplace)
        ensures
            m.device_map() == Map::<u64, DeviceProfile>::empty(),
            m.order_map() == Map::<u64, Order>::empty(),
            m.event_log() == Seq::<Event>::empty(),
            m.domain() == local_domain,
            m.inv(),
            m.single_order(),
    {
        Marketplace {
            device_store: HashMap::new(),
            order_store: HashMap::new(),
            journal: Vec::new(),
            local_domain,
        }
    }

    /// The profile of a device, if registered.
    pub fn devices(&self, id: u64) -> (r: Option<DeviceProfile>)
        ensures
            match r {
                Some(d) => self.device_map().contains_key(id) && d == self.device_map()[id],
                None => !self.device_map().contains_key(id),
            },
    {
        match self.device_store.get(&id) {
            Some(d) => Some(*d),
            None => None,
        }
    }

    /// The outstanding order of a device, if any.
    pub fn orders(&self, id: u64) -> (r: Option<&Order>)
        ensures
            match r {
                Some(o) => self.order_map().contains_key(id) && *o == self.order_map()[id],
                None => !self.order_map().contains_key(id),
            },
    {
        self.order_store.get(&id)
    }

    /// The event journal, oldest first.
    pub fn events(&self) -> (r: &Vec<Event>)
        ensures
            r@ == self.event_log(),
    {
        &self.journal
    }

    /// Create or replace the device's profile; refused while an order for
    /// the identity exists.
    pub fn register(&mut self, id: u64, penalty: u64, wcd: u64, onoff: bool) -> (r: Result<
        (),
        Error,
    >)
        ensures
            old(self).order_map().contains_key(id) <==> r == Err::<(), Error>(Error::DeviceExists),
            r is Ok || r == Err::<(), Error>(Error::DeviceExists),
            r is Err ==> same_state(*old(self), *final(self)),
            r is Ok ==> {
                &&& final(self).device_map() == old(self).device_map().insert(
                    id,
                    DeviceProfile {
                        state: if onoff {
                            DeviceState::Ready
                        } else {
                            DeviceState::Off
                        },
                        penalty,
                        wcd,
                    },
                )
                &&& final(self).order_map() == old(self).order_map()
                &&& final(self).event_log() == old(self).event_log().push(Event::NewDevice(id))
            },
            final(self).domain() == old(self).domain(),
            old(self).inv() ==> final(self).inv(),
            old(self).inv() && old(self).single_order() ==> final(self).single_order(),
    {
        if self.order_store.contains_key(&id) {
            return Err(Error::DeviceExists);
        }
        let state = if onoff {
            DeviceState::Ready
        } else {
            DeviceState::Off
        };
        self.device_store.insert(id, DeviceProfile { state, penalty, wcd });
        self.journal.push(Event::NewDevice(id));
        Ok(())
    }

    /// Toggle a device between `Off` and `Ready`; any other current state
    /// refuses the switch.
    pub fn set_state(&mut self, id: u64, onoff: bool) -> (r: Result<(), Error>)
        ensures
            !old(self).device_map().contains_key(id) ==> r == Err::<(), Error>(Error::NoDevice),
            old(self).device_map().contains_key(id) && !(old(self).device_map()[id].state
                == DeviceState::Off || old(self).device_map()[id].state == DeviceState::Ready)
                ==> r == Err::<(), Error>(Error::IllegalState),
            old(self).device_map().contains_key(id) && (old(self).device_map()[id].state
                == DeviceState::Off || old(self).device_map()[id].state == DeviceState::Ready) ==> r
                is Ok && final(self).device_map() == old(self).device_map().insert(
                id,
                DeviceProfile {
                    state: if onoff {
                        DeviceState::Ready
                    } else {
                        DeviceState::Off
                    },
                    ..old(self).device_map()[id]
                },
            ),
            r is Err ==> same_state(*old(self), *final(self)),
            final(self).order_map() == old(self).order_map(),
            final(self).event_log() == old(self).event_log(),
            final(self).domain() == old(self).domain(),
            old(self).inv() ==> final(self).inv(),
            old(self).inv() && old(self).single_order() ==> final(self).single_order(),
    {
        let dev = match self.device_store.get(&id) {
            Some(d) => *d,
            None => {
                return Err(Error::NoDevice);
            },
        };
        if !(dev.state == DeviceState::Off || dev.state == DeviceState::Ready) {
            return Err(Error::IllegalState);
        }
        let state = if onoff {
            DeviceState::Ready
        } else {
            DeviceState::Off
        };
        proof {
            if old(self).inv() {
                assert(!old(self).order_map().contains_key(id));
            }
        }
        self.device_store.insert(id, DeviceProfile { state, ..dev });
        Ok(())
    }

    /// React to removal of an identity: an `Off` device's profile is
    /// deleted, any other profile is retained as abandoned.
    pub fn on_killed_account(&mut self, who: u64)
        ensures
            final(self).order_map() == old(self).order_map(),
            final(self).event_log() == old(self).event_log(),
            final(self).domain() == old(self).domain(),
            !old(self).device_map().contains_key(who) ==> final(self).device_map() == old(self).device_map(),
            old(self).device_map().contains_key(who) && old(self).device_map()[who].state
                == DeviceState::Off ==> final(self).device_map() == old(self).device_map().remove(who),
            old(self).device_map().contains_key(who) && old(self).device_map()[who].state
                != DeviceState::Off ==> final(self).device_map() == old(self).device_map().insert(
                who,
                DeviceProfile { state: DeviceState::Timewait, ..old(self).device_map()[who] },
            ),
            old(self).inv() ==> final(self).inv(),
    {
        let dev_opt: Option<DeviceProfile> = match self.device_store.get(&who) {
            Some(d) => Some(*d),
            None => None,
        };
        match dev_opt {
            Some(dev) => {
                if dev.state == DeviceState::Off {
                    self.device_store.remove(&who);
                } else {
                    self.device_store.insert(
                        who,
                        DeviceProfile { state: DeviceState::Timewait, ..dev },
                    );
                }
            },
            None => {},
        }
    }
}

proof fn lemma_reserved_self(l0: Ledger, lm: Ledger, l1: Ledger, device: u64, fee: u64, penalty: u64)
    requires
        lm.free_of(device) == l0.free_of(device) - fee,
        lm.reserved_of(device) == l0.reserved_of(device) + fee,
        lm.issuance() == l0.issuance(),
        forall|x: u64|
            x != device ==> #[trigger] lm.free_of(x) == l0.free_of(x) && lm.reserved_of(x)
                == l0.reserved_of(x),
        l1.free_of(device) == lm.free_of(device) - penalty,
        l1.reserved_of(device) == lm.reserved_of(device) + penalty,
        l1.issuance() == lm.issuance(),
        forall|x: u64|
            x != device ==> #[trigger] l1.free_of(x) == lm.free_of(x) && l1.reserved_of(x)
                == lm.reserved_of(x),
    ensures
        reserved_both(l0, l1, device, device, fee, penalty),
{
    assert forall|x: u64|
        x != device implies #[trigger] l1.free_of(x) == l0.free_of(x) && l1.reserved_of(x)
            == l0.reserved_of(x) by {
        assert(lm.free_of(x) == l0.free_of(x));
        assert(l1.free_of(x) == lm.free_of(x));
        assert(lm.reserved_of(x) == l0.reserved_of(x));
        assert(l1.reserved_of(x) == lm.reserved_of(x));
    }
}

impl Marketplace {
    /// Install an order on a device under an already-made acceptance
    /// decision.  `Busy` and `Busy2` are the only decisions that install;
    /// a same-domain order reserves the fee from the client and the
    /// penalty from the device first — from the one account, when a
    /// device leases itself — and an auto-confirmed cross-domain order
    /// notifies the client's domain before anything is mutated.  The
    /// device must be registered, ready and free of an order, so that
    /// never more than one escrow is outstanding per device.
    #[verifier::rlimit(60)]
    pub fn install_order<C: Channel>(
        &mut self,
        decision: DeviceState,
        order: Order,
        device: u64,
        dev: DeviceProfile,
        ledger: &mut Ledger,
        chan: &mut C,
    ) -> (r: Result<(), Error>)
        requires
            old(ledger).wf(),
            !old(self).order_map().contains_key(device),
            old(self).device_map().contains_key(device),
            old(self).device_map()[device].state == DeviceState::Ready,
        ensures
            final(ledger).wf(),
            final(self).domain() == old(self).domain(),
            r is Err ==> same_state(*old(self), *final(self)) && ledger_unchanged(
                *old(ledger),
                *final(ledger),
            ),
            decision != DeviceState::Busy && decision != DeviceState::Busy2 ==> r == Err::<
                (),
                Error,
            >(Error::IllegalState),
            decision == DeviceState::Busy || decision == DeviceState::Busy2 ==> install_outcome(
                *old(self),
                *final(self),
                *old(ledger),
                *final(ledger),
                order,
                device,
                dev,
                decision,
                r,
            ),
            old(self).inv() ==> final(self).inv(),
            old(self).inv() && old(self).single_order() ==> final(self).single_order(),
    {
        if !(decision == DeviceState::Busy || decision == DeviceState::Busy2) {
            return Err(Error::IllegalState);
        }
        if order.paraid != self.local_domain {
            if decision == DeviceState::Busy2 {
                let bytes = encode_wf(&XCMPMessage::OrderAccept(order.client, device));
                if chan.send(order.paraid, bytes, ServiceQuality::Ordered).is_err() {
                    return Err(Error::CannotReachDestination);
                }
            }
        } else {
            if !ledger.can_reserve(order.client, order.fee) {
                return Err(Error::DeviceLowBail);
            }
            if order.client == device {
                let free = ledger.free_balance(device);
                if free - order.fee < dev.penalty {
                    return Err(Error::InsufficientBalance);
                }
                let ok_fee = ledger.reserve(device, order.fee);
                let ghost lmid = *ledger;
                let ok_pen = ledger.reserve(device, dev.penalty);
                proof {
                    assert(ok_fee);
                    assert(ok_pen);
                    lemma_reserved_self(
                        *old(ledger),
                        lmid,
                        *ledger,
                        device,
                        order.fee,
                        dev.penalty,
                    );
                    assert(reserved_both(
                        *old(ledger),
                        *ledger,
                        order.client,
                        device,
                        order.fee,
                        dev.penalty,
                    ));
                }
            } else {
                if !ledger.reserve(device, dev.penalty) {
                    return Err(Error::InsufficientBalance);
                }
                let ok = ledger.reserve(order.client, order.fee);
                proof {
                    assert(ok);
                    assert forall|x: u64| x != order.client && x != device implies #[trigger] ledger.free_of(
                        x,
                    ) == old(ledger).free_of(x) && ledger.reserved_of(x) == old(
                        ledger,
                    ).reserved_of(x) by {}
                    assert(ledger.free_of(order.client) == old(ledger).free_of(order.client)
                        - order.fee);
                    assert(ledger.reserved_of(order.client) == old(ledger).reserved_of(
                        order.client,
                    ) + order.fee);
                    assert(ledger.free_of(device) == old(ledger).free_of(device) - dev.penalty);
                    assert(ledger.reserved_of(device) == old(ledger).reserved_of(device)
                        + dev.penalty);
                    assert(ledger.issuance() == old(ledger).issuance());
                    assert(reserved_both(
                        *old(ledger),
                        *ledger,
                        order.client,
                        device,
                        order.fee,
                        dev.penalty,
                    ));
                }
            }
        }
        let dev2 = DeviceProfile { state: decision, ..dev };
        self.order_store.insert(device, order);
        self.journal.push(Event::NewOrder(device));
        self.device_store.insert(device, dev2);
        if decision == DeviceState::Busy2 {
            self.journal.push(Event::Accept(device));
        }
        proof {
            let m0 = *old(self);
            if m0.inv() {
                assert forall|d: u64| #[trigger]
                    self.order_map().contains_key(d) implies self.device_map().contains_key(d) && (
                state_busy(self.device_map()[d].state) || self.device_map()[d].state
                    == DeviceState::Timewait) by {
                    if d != device {
                        assert(m0.order_map().contains_key(d));
                    }
                }
                if m0.single_order() {
                    assert forall|d: u64|
                        #![trigger self.order_map().contains_key(d)]
                        #![trigger self.device_map().contains_key(d)]
                        self.order_map().contains_key(d) <==> (self.device_map().contains_key(d)
                            && state_busy(self.device_map()[d].state)) by {
                        if d != device {
                            assert(m0.order_map().contains_key(d) <==> (
                            m0.device_map().contains_key(d) && state_busy(
                                m0.device_map()[d].state,
                            )));
                        }
                    }
                }
            }
        }
        Ok(())
    }

    /// The acceptance path for an arriving order, local or inbound: check
    /// the guards, ask the acceptance policy, and install.
    pub fn order_received<P: OnReceived, C: Channel>(
        &mut self,
        order: Order,
        device: u64,
        now: u64,
        ledger: &mut Ledger,
        chan: &mut C,
    ) -> (r: Result<(), Error>)
        requires
            old(ledger).wf(),
        ensures
            final(ledger).wf(),
            received_post(
                *old(self),
                *final(self),
                *old(ledger),
                *final(ledger),
                order,
                device,
                now,
                P::decision(device, order),
                r,
            ),
            old(self).inv() ==> final(self).inv(),
            old(self).inv() && old(self).single_order() ==> final(self).single_order(),
    {
        if now >= order.until {
            return Err(Error::Overdue);
        }
        if self.order_store.contains_key(&device) {
            return Err(Error::IllegalState);
        }
        let dev = match self.device_store.get(&device) {
            Some(d) => *d,
            None => {
                return Err(Error::NoDevice);
            },
        };
        if dev.state != DeviceState::Ready {
            return Err(Error::IllegalState);
        }
        if order.until - now < dev.wcd {
            return Err(Error::BadOrderDetails);
        }
        let decision = match P::on_received(device, &order) {
            Some(s) => s,
            None => {
                return Err(Error::IllegalState);
            },
        };
        proof {
            assert(accept_guard_err(*old(self), order, device, now) is None);
        }
        self.install_order(decision, order, device, dev, ledger, chan)
    }

    /// A client's request for a device of this domain: wrap it into an
    /// order originating here and run the acceptance path.
    pub fn order<P: OnReceived, C: Channel>(
        &mut self,
        who: u64,
        order: OrderBase,
        now: u64,
        ledger: &mut Ledger,
        chan: &mut C,
    ) -> (r: Result<(), Error>)
        requires
            old(ledger).wf(),
        ensures
            final(ledger).wf(),
            received_post(
                *old(self),
                *final(self),
                *old(ledger),
                *final(ledger),
                spec_local_order(old(self).domain(), who, order),
                order.device,
                now,
                P::decision(order.device, spec_local_order(old(self).domain(), who, order)),
                r,
            ),
            old(self).inv() ==> final(self).inv(),
            old(self).inv() && old(self).single_order() ==> final(self).single_order(),
    {
        let device = order.device;
        let o = Order {
            until: order.until,
            data: order.data,
            fee: order.fee,
            client: who,
            paraid: self.local_domain,
        };
        self.order_received::<P, C>(o, device, now, ledger, chan)
    }
}

impl Marketplace {
    /// Resolve an order as rejected or cancelled: release or forfeit the
    /// escrow of a same-domain order, or notify the client's domain first,
    /// then drop the order and store the given profile.
    fn order_reject<C: Channel>(
        &mut self,
        device: u64,
        info: Option<(u64, u64, u32, u64)>,
        dev: DeviceProfile,
        onoff: bool,
        now: u64,
        ledger: &mut Ledger,
        chan: &mut C,
    ) -> (r: Result<(), Error>)
        requires
            old(ledger).wf(),
        ensures
            final(ledger).wf(),
            final(self).domain() == old(self).domain(),
            r is Err ==> same_state(*old(self), *final(self)) && ledger_unchanged(
                *old(ledger),
                *final(ledger),
            ),
            match info {
                Some(t) => {
                    &&& (t.2 == old(self).domain() ==> r is Ok)
                    &&& (r is Ok || r == Err::<(), Error>(Error::CannotReachDestination))
                    &&& (r is Ok ==> {
                        &&& final(self).order_map() == old(self).order_map().remove(device)
                        &&& final(self).device_map() == old(self).device_map().insert(device, dev)
                        &&& final(self).event_log() == old(self).event_log().push(
                            Event::Reject(device),
                        )
                        &&& (t.2 == old(self).domain() ==> resolves(
                            *old(ledger),
                            *final(ledger),
                            t.0,
                            device,
                            t.1,
                            dev.penalty,
                            false,
                            now < t.3,
                        ))
                        &&& (t.2 != old(self).domain() ==> ledger_unchanged(
                            *old(ledger),
                            *final(ledger),
                        ))
                    })
                },
                None => {
                    &&& r is Ok
                    &&& final(self).order_map() == old(self).order_map().remove(device)
                    &&& final(self).device_map() == old(self).device_map().insert(device, dev)
                    &&& final(self).event_log() == old(self).event_log().push(
                        Event::Reject(device),
                    )
                    &&& ledger_unchanged(*old(ledger), *final(ledger))
                },
            },
            old(self).inv() ==> final(self).inv(),
            old(self).inv() && old(self).single_order() && !state_busy(dev.state) ==> final(self).single_order(),
    {
        match info {
            Some((client, fee, paraid, until)) => {
                if paraid != self.local_domain {
                    let bytes = encode_wf(&XCMPMessage::OrderReject(client, device, onoff));
                    if chan.send(paraid, bytes, ServiceQuality::Ordered).is_err() {
                        return Err(Error::CannotReachDestination);
                    }
                } else {
                    let _fee_back = ledger.unreserve(client, fee);
                    if now < until {
                        let _pen_back = ledger.unreserve(device, dev.penalty);
                    } else {
                        let _pen_out = ledger.repatriate(device, client, dev.penalty);
                    }
                    proof {
                        if client == device {
                            let f = spec_min(fee as int, old(ledger).reserved_of(client));
                            let p = spec_min(
                                dev.penalty as int,
                                old(ledger).reserved_of(client) - f,
                            );
                            assert(ledger.free_of(client) == old(ledger).free_of(client) + f + p);
                            assert(ledger.reserved_of(client) == old(ledger).reserved_of(client)
                                - f - p);
                        } else {
                            assert(ledger.free_of(client) == old(ledger).free_of(client)
                                + spec_min(fee as int, old(ledger).reserved_of(client)) + if now
                                < until {
                                0int
                            } else {
                                spec_min(dev.penalty as int, old(ledger).reserved_of(device))
                            });
                        }
                        assert(resolves(
                            *old(ledger),
                            *ledger,
                            client,
                            device,
                            fee,
                            dev.penalty,
                            false,
                            now < until,
                        ));
                    }
                }
            },
            None => {},
        }
        self.order_store.remove(&device);
        self.device_store.insert(device, dev);
        self.journal.push(Event::Reject(device));
        proof {
            let m0 = *old(self);
            if m0.inv() {
                assert forall|d: u64| #[trigger]
                    self.order_map().contains_key(d) implies self.device_map().contains_key(d) && (
                state_busy(self.device_map()[d].state) || self.device_map()[d].state
                    == DeviceState::Timewait) by {
                    assert(m0.order_map().contains_key(d));
                }
                if m0.single_order() && !state_busy(dev.state) {
                    assert forall|d: u64|
                        #![trigger self.order_map().contains_key(d)]
                        #![trigger self.device_map().contains_key(d)]
                        self.order_map().contains_key(d) <==> (self.device_map().contains_key(d)
                            && state_busy(self.device_map()[d].state)) by {
                        if d != device {
                            assert(m0.order_map().contains_key(d) <==> (
                            m0.device_map().contains_key(d) && state_busy(
                                m0.device_map()[d].state,
                            )));
                        }
                    }
                }
            }
        }
        Ok(())
    }

    /// Confirm an order: notify the client's domain first when it is
    /// remote, then move the device to the confirmed state.
    fn order_accept<C: Channel>(
        &mut self,
        device: u64,
        client: u64,
        paraid: u32,
        dev: DeviceProfile,
        chan: &mut C,
    ) -> (r: Result<(), Error>)
        ensures
            final(self).domain() == old(self).domain(),
            r is Err ==> same_state(*old(self), *final(self)),
            paraid == old(self).domain() ==> r is Ok,
            r is Ok || r == Err::<(), Error>(Error::CannotReachDestination),
            r is Ok ==> {
                &&& final(self).device_map() == old(self).device_map().insert(
                    device,
                    DeviceProfile { state: DeviceState::Busy2, ..dev },
                )
                &&& final(self).order_map() == old(self).order_map()
                &&& final(self).event_log() == old(self).event_log().push(Event::Accept(device))
            },
            old(self).inv() ==> final(self).inv(),
            old(self).inv() && old(self).single_order() && old(self).order_map().contains_key(
                device,
            ) ==> final(self).single_order(),
    {
        if paraid != self.local_domain {
            let bytes = encode_wf(&XCMPMessage::OrderAccept(client, device));
            if chan.send(paraid, bytes, ServiceQuality::Ordered).is_err() {
                return Err(Error::CannotReachDestination);
            }
        }
        self.device_store.insert(device, DeviceProfile { state: DeviceState::Busy2, ..dev });
        self.journal.push(Event::Accept(device));
        proof {
            let m0 = *old(self);
            if m0.inv() {
                assert forall|d: u64| #[trigger]
                    self.order_map().contains_key(d) implies self.device_map().contains_key(d) && (
                state_busy(self.device_map()[d].state) || self.device_map()[d].state
                    == DeviceState::Timewait) by {
                    assert(m0.order_map().contains_key(d));
                }
                if m0.single_order() && m0.order_map().contains_key(device) {
                    assert forall|d: u64|
                        #![trigger self.order_map().contains_key(d)]
                        #![trigger self.device_map().contains_key(d)]
                        self.order_map().contains_key(d) <==> (self.device_map().contains_key(d)
                            && state_busy(self.device_map()[d].state)) by {
                        if d != device {
                            assert(m0.order_map().contains_key(d) <==> (
                            m0.device_map().contains_key(d) && state_busy(
                                m0.device_map()[d].state,
                            )));
                        }
                    }
                }
            }
        }
        Ok(())
    }

    /// Resolve an order as completed: pay the fee over, settle the penalty
    /// by punctuality — or notify the client's domain first when it is
    /// remote — then drop the order and store the given profile.
    fn order_done<C: Channel>(
        &mut self,
        device: u64,
        client: u64,
        fee: u64,
        paraid: u32,
        until: u64,
        dev: DeviceProfile,
        onoff: bool,
        now: u64,
        ledger: &mut Ledger,
        chan: &mut C,
    ) -> (r: Result<(), Error>)
        requires
            old(ledger).wf(),
        ensures
            final(ledger).wf(),
            final(self).domain() == old(self).domain(),
            r is Err ==> same_state(*old(self), *final(self)) && ledger_unchanged(
                *old(ledger),
                *final(ledger),
            ),
            paraid == old(self).domain() ==> r is Ok,
            r is Ok || r == Err::<(), Error>(Error::CannotReachDestination),
            r is Ok ==> {
                &&& final(self).order_map() == old(self).order_map().remove(device)
                &&& final(self).device_map() == old(self).device_map().insert(device, dev)
                &&& final(self).event_log() == old(self).event_log().push(Event::Done(device))
                &&& (paraid == old(self).domain() ==> resolves(
                    *old(ledger),
                    *final(ledger),
                    client,
                    device,
                    fee,
                    dev.penalty,
                    true,
                    now < until,
                ))
                &&& (paraid != old(self).domain() ==> ledger_unchanged(
                    *old(ledger),
                    *final(ledger),
                ))
            },
            old(self).inv() ==> final(self).inv(),
            old(self).inv() && old(self).single_order() && !state_busy(dev.state) ==> final(self).single_order(),
    {
        if paraid != self.local_domain {
            let bytes = encode_wf(&XCMPMessage::OrderDone(client, device, onoff));
            if chan.send(paraid, bytes, ServiceQuality::Ordered).is_err() {
                return Err(Error::CannotReachDestination);
            }
        } else {
            let _fee_over = ledger.repatriate(client, device, fee);
            if now < until {
                let _pen_back = ledger.unreserve(device, dev.penalty);
            } else {
                let _pen_out = ledger.repatriate(device, client, dev.penalty);
            }
            proof {
                if client == device {
                    let f = spec_min(fee as int, old(ledger).reserved_of(client));
                    let p = spec_min(dev.penalty as int, old(ledger).reserved_of(client) - f);
                    assert(ledger.free_of(client) == old(ledger).free_of(client) + f + p);
                    assert(ledger.reserved_of(client) == old(ledger).reserved_of(client) - f - p);
                } else {
                    let f = spec_min(fee as int, old(ledger).reserved_of(client));
                    let p = spec_min(dev.penalty as int, old(ledger).reserved_of(device));
                    assert(ledger.free_of(client) == old(ledger).free_of(client) + if now
                        < until {
                        0int
                    } else {
                        p
                    });
                    assert(ledger.reserved_of(client) == old(ledger).reserved_of(client) - f);
                    assert(ledger.reserved_of(device) == old(ledger).reserved_of(device) - p);
                    assert(ledger.free_of(device) == old(ledger).free_of(device) + f + if now
                        < until {
                        p
                    } else {
                        0int
                    });
                    assert(ledger.issuance() == old(ledger).issuance());
                    assert forall|x: u64|
                        x != client && x != device implies #[trigger] ledger.free_of(x) == old(
                        ledger,
                    ).free_of(x) && ledger.reserved_of(x) == old(ledger).reserved_of(x) by {}
                }
                assert(resolves(
                    *old(ledger),
                    *ledger,
                    client,
                    device,
                    fee,
                    dev.penalty,
                    true,
                    now < until,
                ));
            }
        }
        self.order_store.remove(&device);
        self.device_store.insert(device, dev);
        self.journal.push(Event::Done(device));
        proof {
            let m0 = *old(self);
            if m0.inv() {
                assert forall|d: u64| #[trigger]
                    self.order_map().contains_key(d) implies self.device_map().contains_key(d) && (
                state_busy(self.device_map()[d].state) || self.device_map()[d].state
                    == DeviceState::Timewait) by {
                    assert(m0.order_map().contains_key(d));
                }
                if m0.single_order() && !state_busy(dev.state) {
                    assert forall|d: u64|
                        #![trigger self.order_map().contains_key(d)]
                        #![trigger self.device_map().contains_key(d)]
                        self.order_map().contains_key(d) <==> (self.device_map().contains_key(d)
                            && state_busy(self.device_map()[d].state)) by {
                        if d != device {
                            assert(m0.order_map().contains_key(d) <==> (
                            m0.device_map().contains_key(d) && state_busy(
                                m0.device_map()[d].state,
                            )));
                        }
                    }
                }
            }
        }
        Ok(())
    }

    /// The device owner's answer to an installed order: with `reject` set,
    /// resolve it as rejected and switch the device per `onoff`; without,
    /// confirm it, which requires the deadline not to have passed.
    pub fn accept<C: Channel>(
        &mut self,
        id: u64,
        reject: bool,
        onoff: bool,
        now: u64,
        ledger: &mut Ledger,
        chan: &mut C,
    ) -> (r: Result<(), Error>)
        requires
            old(ledger).wf(),
        ensures
            old(self).inv() ==> final(self).inv(),
            final(ledger).wf(),
            accept_post(
                *old(self),
                *final(self),
                *old(ledger),
                *final(ledger),
                id,
                reject,
                onoff,
                now,
                r,
            ),
            old(self).single_order() ==> final(self).single_order(),
    {
        let info: Option<(u64, u64, u32, u64)> = match self.order_store.get(&id) {
            Some(o) => Some((o.client, o.fee, o.paraid, o.until)),
            None => None,
        };
        let dev = match self.device_store.get(&id) {
            Some(d) => *d,
            None => {
                return Err(Error::NoDevice);
            },
        };
        if reject {
            if !(dev.state == DeviceState::Busy || dev.state == DeviceState::Busy2) {
                return Err(Error::IllegalState);
            }
            let state = if onoff {
                DeviceState::Ready
            } else {
                DeviceState::Off
            };
            let dev2 = DeviceProfile { state, ..dev };
            return self.order_reject(id, info, dev2, onoff, now, ledger, chan);
        }
        if dev.state != DeviceState::Busy {
            return Err(Error::IllegalState);
        }
        let (client, _fee, paraid, until) = match info {
            Some(t) => t,
            None => {
                return Err(Error::NoOrder);
            },
        };
        if now >= until {
            return Err(Error::Overdue);
        }
        self.order_accept(id, client, paraid, dev, chan)
    }

    /// The device owner reports the lease fulfilled: pay the fee over,
    /// settle the penalty by punctuality, and switch the device per
    /// `onoff`.
    pub fn done<C: Channel>(
        &mut self,
        id: u64,
        onoff: bool,
        now: u64,
        ledger: &mut Ledger,
        chan: &mut C,
    ) -> (r: Result<(), Error>)
        requires
            old(ledger).wf(),
        ensures
            old(self).inv() ==> final(self).inv(),
            final(ledger).wf(),
            done_post(*old(self), *final(self), *old(ledger), *final(ledger), id, onoff, now, r),
            old(self).single_order() ==> final(self).single_order(),
    {
        let dev = match self.device_store.get(&id) {
            Some(d) => *d,
            None => {
                return Err(Error::NoDevice);
            },
        };
        if dev.state != DeviceState::Busy2 {
            return Err(Error::IllegalState);
        }
        let (client, fee, paraid, until) = match self.order_store.get(&id) {
            Some(o) => (o.client, o.fee, o.paraid, o.until),
            None => {
                return Err(Error::NoOrder);
            },
        };
        proof {
            assert(self.order_map().contains_key(id));
        }
        let state = if onoff {
            DeviceState::Ready
        } else {
            DeviceState::Off
        };
        let dev2 = DeviceProfile { state, ..dev };
        self.order_done(id, client, fee, paraid, until, dev2, onoff, now, ledger, chan)
    }

    /// The client abandons an order whose deadline has passed.  The escrow
    /// resolves as for a rejection — the penalty is forfeited, since the
    /// deadline is over — but the device's state is left exactly as it
    /// was.
    pub fn cancel<C: Channel>(
        &mut self,
        who: u64,
        device: u64,
        now: u64,
        ledger: &mut Ledger,
        chan: &mut C,
    ) -> (r: Result<(), Error>)
        requires
            old(ledger).wf(),
        ensures
            old(self).inv() ==> final(self).inv(),
            final(ledger).wf(),
            cancel_post(*old(self), *final(self), *old(ledger), *final(ledger), who, device, now, r),
    {
        let (client, fee, paraid, until) = match self.order_store.get(&device) {
            Some(o) => (o.client, o.fee, o.paraid, o.until),
            None => {
                return Err(Error::NoOrder);
            },
        };
        if now < until || client != who {
            return Err(Error::Prohibited);
        }
        let dev = match self.device_store.get(&device) {
            Some(d) => *d,
            None => {
                return Err(Error::NoDevice);
            },
        };
        proof {
            assert(self.order_map().contains_key(device));
        }
        let r = self.order_reject(device, Some((client, fee, paraid, until)), dev, false, now, ledger, chan);
        proof {
            if r is Ok {
                assert(old(self).device_map().insert(device, dev) =~= old(self).device_map());
            }
        }
        r
    }
}

} // verus!
