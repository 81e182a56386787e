//! Laws of the escrow rules, proved over the resolution predicate that
//! the operations' contracts use.

use vstd::prelude::*;

use crate::ledger::{spec_min, Ledger};
use crate::orders::resolves;

verus! {

/// Escrow conservation: a resolution never creates or destroys value.
/// The issuance is untouched, every account other than the client and the
/// device keeps its combined balance, and what those two gain and lose
/// sums to zero; with a device that leased itself, its one combined
/// balance is untouched.
pub proof fn lemma_escrow_conservation(
    l0: Ledger,
    l1: Ledger,
    client: u64,
    device: u64,
    fee: u64,
    penalty: u64,
    success: bool,
    punctual: bool,
)
    requires
        resolves(l0, l1, client, device, fee, penalty, success, punctual),
    ensures
        l1.issuance() == l0.issuance(),
        (l1.total_of(client) - l0.total_of(client)) + (if client == device {
            0int
        } else {
            l1.total_of(device) - l0.total_of(device)
        }) == 0,
        forall|x: u64|
            x != client && x != device ==> #[trigger] l1.total_of(x) == l0.total_of(x),
{
    assert forall|x: u64|
        x != client && x != device implies #[trigger] l1.total_of(x) == l0.total_of(x) by {
        assert(l1.free_of(x) == l0.free_of(x));
    }
}

/// The punctuality rule: with the penalty fully bonded, it is released
/// back to the device exactly when resolution happens strictly before the
/// deadline, and moved to the client's spendable balance otherwise —
/// independent of whether the resolution was a completion.  It speaks of
/// distinct parties: when a device leased itself, the penalty has nobody
/// to move to and stays with the one account either way.
pub proof fn lemma_punctuality(
    l0: Ledger,
    l1: Ledger,
    client: u64,
    device: u64,
    fee: u64,
    penalty: u64,
    success: bool,
    punctual: bool,
)
    requires
        client != device,
        l0.reserved_of(device) >= penalty,
        resolves(l0, l1, client, device, fee, penalty, success, punctual),
    ensures
        l1.reserved_of(device) == l0.reserved_of(device) - penalty,
        punctual ==> l1.total_of(device) == l0.total_of(device) + (if success {
            spec_min(fee as int, l0.reserved_of(client))
        } else {
            0int
        }),
        punctual ==> l1.free_of(client) == l0.free_of(client) + (if success {
            0int
        } else {
            spec_min(fee as int, l0.reserved_of(client))
        }),
        !punctual ==> l1.total_of(device) == l0.total_of(device) - penalty + (if success {
            spec_min(fee as int, l0.reserved_of(client))
        } else {
            0int
        }),
        !punctual ==> l1.free_of(client) == l0.free_of(client) + penalty + (if success {
            0int
        } else {
            spec_min(fee as int, l0.reserved_of(client))
        }),
{
}

} // verus!
