//! The device-side lifecycle: registration, ordering, acceptance,
//! completion, cancellation and the escrow that goes with them, all in
//! one domain.

use device_lease::{
    DeviceProfile, DeviceState, Error, Ledger, Marketplace, OrderBase, RecordingChannel,
};

const DEV1: u64 = 100;
const DEV2: u64 = 101;
const DEV3: u64 = 102; // zero balance

const CL1: u64 = 200;
const CL2: u64 = 201;
const CL3: u64 = 203; // zero balance

const PENALTY: u64 = 10_000;
const DEFAULT_WCD: u64 = 1000;
const DEFAULT_FEE: u64 = 100_000;

const INITIAL_BALANCE: u64 = 100_000_000;

struct Env {
    m: Marketplace,
    l: Ledger,
    ch: RecordingChannel,
    now: u64,
}

fn new_test_ext() -> Env {
    let mut l = Ledger::new();
    for id in [1u64, 2, 100, 101, 200, 201] {
        assert!(l.deposit(id, INITIAL_BALANCE));
    }
    Env { m: Marketplace::new(0), l, ch: RecordingChannel::new(), now: 0 }
}

fn aux_register_device(env: &mut Env, id: u64, onoff: bool) -> Option<DeviceProfile> {
    env.m.register(id, PENALTY, DEFAULT_WCD, onoff).ok()?;
    env.m.devices(id)
}

fn aux_order(env: &mut Env, dev_id: u64, client: u64, fee: u64, wcd: u64) -> Result<(), Error> {
    let until = env.now + wcd;
    env.m.order::<(), RecordingChannel>(
        client,
        OrderBase { until, data: Vec::new(), fee, device: dev_id },
        env.now,
        &mut env.l,
        &mut env.ch,
    )
}

fn aux_free_balance(env: &Env, id: u64) -> u64 {
    env.l.free_balance(id)
}

fn aux_total_balance(env: &Env, id: u64) -> u64 {
    env.l.total_balance(id)
}

fn aux_init_order(env: &mut Env, dev_id: u64, client: u64, wcd: u64) -> Result<(), Error> {
    let until = env.now + wcd;
    env.m.register(dev_id, PENALTY, DEFAULT_WCD, true)?;
    env.m.order::<(), RecordingChannel>(
        client,
        OrderBase { until, data: Vec::new(), fee: DEFAULT_FEE, device: dev_id },
        env.now,
        &mut env.l,
        &mut env.ch,
    )?;
    if env.m.orders(dev_id).is_some() {
        Ok(())
    } else {
        Err(Error::NoOrder)
    }
}

#[test]
fn register_device() {
    let mut env = new_test_ext();
    assert!(env.m.register(DEV1, PENALTY, DEFAULT_WCD, true).is_ok());
    let dev = env.m.devices(DEV1);

    let dev = dev.expect("device profile registered");

    assert_eq!(dev.state, DeviceState::Ready);
    assert_eq!(dev.wcd, 1000_u64);
}

#[test]
fn register_device_then_on() {
    let mut env = new_test_ext();
    let dev = aux_register_device(&mut env, DEV1, false);
    let dev = dev.expect("device profile registered");

    assert_eq!(dev.state, DeviceState::Off);

    assert!(env.m.set_state(DEV1, true).is_ok());
    let dev = env.m.devices(DEV1).unwrap();

    assert_eq!(dev.state, DeviceState::Ready);
}

#[test]
fn order_when_off() {
    let mut env = new_test_ext();
    assert_eq!(aux_order(&mut env, DEV1, CL1, DEFAULT_FEE, DEFAULT_WCD), Err(Error::NoDevice));
    aux_register_device(&mut env, DEV1, false);
    assert_eq!(aux_order(&mut env, DEV1, CL1, DEFAULT_FEE, DEFAULT_WCD), Err(Error::IllegalState));
    // amend
    assert!(env.m.set_state(DEV1, true).is_ok());
    assert!(aux_order(&mut env, DEV1, CL1, DEFAULT_FEE, DEFAULT_WCD).is_ok());
}

#[test]
fn order_when_busy() {
    let mut env = new_test_ext();
    let _dev1 = aux_register_device(&mut env, DEV1, true).expect("registered");
    let _dev2 = aux_register_device(&mut env, DEV2, true).expect("registered");

    assert!(aux_order(&mut env, DEV1, CL1, DEFAULT_FEE, DEFAULT_WCD).is_ok());
    let dev1 = env.m.devices(DEV1).expect("device profile");

    assert_eq!(dev1.state, DeviceState::Busy);
    assert_eq!(aux_order(&mut env, DEV1, CL2, DEFAULT_FEE, DEFAULT_WCD), Err(Error::IllegalState));
    assert!(aux_order(&mut env, DEV2, CL2, DEFAULT_FEE, DEFAULT_WCD).is_ok());
}

#[test]
fn order_rush() {
    let mut env = new_test_ext();
    let _dev1 = aux_register_device(&mut env, DEV1, true).expect("registered");
    assert_eq!(
        aux_order(&mut env, DEV1, CL1, DEFAULT_FEE, DEFAULT_WCD - 1),
        Err(Error::BadOrderDetails)
    );
}

#[test]
fn order_without_collateral() {
    let mut env = new_test_ext();
    let _dev1 = aux_register_device(&mut env, DEV1, true).expect("registered");
    assert!(aux_free_balance(&env, DEV1) > PENALTY);

    let _dev2 = aux_register_device(&mut env, DEV2, true).expect("registered");
    assert!(aux_free_balance(&env, DEV1) > PENALTY);

    let _dev3 = aux_register_device(&mut env, DEV3, true).expect("registered");
    assert!(aux_free_balance(&env, DEV3) < PENALTY);

    assert!(aux_order(&mut env, DEV1, CL1, DEFAULT_FEE, DEFAULT_WCD).is_ok());

    assert_eq!(aux_free_balance(&env, CL3), 0);
    assert!(aux_free_balance(&env, CL2) > DEFAULT_FEE);
    // client balance
    assert_eq!(aux_order(&mut env, DEV2, CL3, DEFAULT_FEE, DEFAULT_WCD), Err(Error::DeviceLowBail));
    // amend
    assert!(aux_order(&mut env, DEV2, CL2, DEFAULT_FEE, DEFAULT_WCD).is_ok());
    // device collateral
    assert_eq!(
        aux_order(&mut env, DEV3, CL2, DEFAULT_FEE, DEFAULT_WCD),
        Err(Error::InsufficientBalance)
    );

    // amend
    assert!(env.l.transfer(1, DEV3, PENALTY));
    assert!(aux_order(&mut env, DEV3, CL2, DEFAULT_FEE, DEFAULT_WCD).is_ok());
}

#[test]
fn order_reject() {
    let mut env = new_test_ext();
    let devid = DEV1;
    let _dev1 = aux_register_device(&mut env, DEV1, true).expect("registered");

    let b1 = aux_free_balance(&env, CL1);
    assert!(aux_order(&mut env, DEV1, CL1, DEFAULT_FEE, DEFAULT_WCD).is_ok());

    let b2 = aux_free_balance(&env, CL1);
    assert_eq!(b1 - b2, DEFAULT_FEE);
    let dev1 = env.m.devices(devid).expect("device profile");
    assert_eq!(dev1.state, DeviceState::Busy);

    // reject
    assert!(env.m.accept(devid, true, true, env.now, &mut env.l, &mut env.ch).is_ok());
    let b3 = aux_free_balance(&env, CL1);
    assert_eq!(b1, b3);

    let dev1 = env.m.devices(devid).expect("device profile");
    assert_eq!(dev1.state, DeviceState::Ready);
}

#[test]
fn full_circle() {
    let mut env = new_test_ext();
    let devid = DEV1;
    let _dev1 = aux_register_device(&mut env, DEV1, true).expect("registered");
    let td1 = aux_total_balance(&env, DEV1);

    let b1 = aux_free_balance(&env, CL1);
    assert!(aux_order(&mut env, DEV1, CL1, DEFAULT_FEE, DEFAULT_WCD * 3).is_ok());

    let b2 = aux_free_balance(&env, CL1);
    assert_eq!(b1 - b2, DEFAULT_FEE);
    let dev1 = env.m.devices(devid).expect("device profile");
    assert_eq!(dev1.state, DeviceState::Busy);

    assert!(env.m.accept(devid, false, true, env.now, &mut env.l, &mut env.ch).is_ok());

    env.now = DEFAULT_WCD * 2;
    let dev1 = env.m.devices(devid).expect("device profile");
    assert_eq!(dev1.state, DeviceState::Busy2);

    let tb1 = aux_total_balance(&env, CL1);
    assert_eq!(b2, tb1 - DEFAULT_FEE);

    assert!(env.m.orders(devid).is_some());

    assert!(env.m.done(devid, true, env.now, &mut env.l, &mut env.ch).is_ok());
    let dev1 = env.m.devices(devid).expect("device profile");
    assert_eq!(dev1.state, DeviceState::Ready);

    let tb2 = aux_total_balance(&env, CL1);
    assert_eq!(b2, tb2);

    assert!(env.m.orders(devid).is_none());

    let td2 = aux_total_balance(&env, DEV1);
    assert_eq!(td2 - td1, DEFAULT_FEE);
}

#[test]
fn order_cancel() {
    let mut env = new_test_ext();
    let devid = DEV1;
    let b1 = aux_free_balance(&env, CL1);

    let _order = aux_init_order(&mut env, DEV1, CL1, DEFAULT_WCD * 10);
    env.now = DEFAULT_WCD * 1;
    assert!(env.m.accept(devid, false, true, env.now, &mut env.l, &mut env.ch).is_ok());
    assert!(env.m.orders(devid).is_some());

    let b2 = aux_free_balance(&env, CL1);
    assert_eq!(b1 - b2, DEFAULT_FEE);

    env.now = DEFAULT_WCD * 11;

    assert!(env.m.cancel(CL1, devid, env.now, &mut env.l, &mut env.ch).is_ok());

    let b3 = aux_free_balance(&env, CL1);
    assert!(env.m.orders(devid).is_none());
    let dev = env.m.devices(DEV1).expect("device profile");
    assert_eq!(dev.state, DeviceState::Busy2);

    let t3 = aux_total_balance(&env, CL1);
    assert_eq!(b3 - b1, PENALTY);
    assert_eq!(b3, t3);
}

#[test]
fn order_try_accept_foreign() {
    let mut env = new_test_ext();
    let _order = aux_init_order(&mut env, DEV1, CL1, DEFAULT_WCD * 10);
    env.now = DEFAULT_WCD * 1;
    assert_eq!(
        env.m.accept(DEV2, false, true, env.now, &mut env.l, &mut env.ch),
        Err(Error::NoDevice)
    );
}

#[test]
fn order_hasty_cancel() {
    let mut env = new_test_ext();
    let devid = DEV1;
    let _order = aux_init_order(&mut env, DEV1, CL1, DEFAULT_WCD * 10);
    env.now = DEFAULT_WCD * 1;
    assert!(env.m.orders(devid).is_some());

    env.now = DEFAULT_WCD * 2;
    assert_eq!(env.m.cancel(CL1, devid, env.now, &mut env.l, &mut env.ch), Err(Error::Prohibited));

    // amend
    env.now = DEFAULT_WCD * 10;
    assert!(env.m.cancel(CL1, devid, env.now, &mut env.l, &mut env.ch).is_ok());
}

#[test]
fn delay_accept() {
    let mut env = new_test_ext();
    let devid = DEV1;
    let d1 = aux_total_balance(&env, DEV1);
    let _order = aux_init_order(&mut env, DEV1, CL1, DEFAULT_WCD * 10);

    env.now = DEFAULT_WCD * 11;
    // try accept
    assert_eq!(
        env.m.accept(devid, false, true, env.now, &mut env.l, &mut env.ch),
        Err(Error::Overdue)
    );
    assert!(env.m.orders(devid).is_some());
    let dev = env.m.devices(devid).expect("device profile");
    assert_eq!(dev.state, DeviceState::Busy);

    // amend
    // reject
    assert!(env.m.accept(devid, true, false, env.now, &mut env.l, &mut env.ch).is_ok());
    assert!(env.m.orders(devid).is_none());
    let dev = env.m.devices(devid).expect("device profile");
    assert_eq!(dev.state, DeviceState::Off);
    let d2 = aux_total_balance(&env, DEV1);

    assert_eq!(d1 - d2, PENALTY);
}

#[test]
fn delay_confirm() {
    let mut env = new_test_ext();
    let d1 = aux_total_balance(&env, DEV1);
    let _order = aux_init_order(&mut env, DEV1, CL1, DEFAULT_WCD * 10);
    // accept
    assert!(env.m.accept(DEV1, false, true, env.now, &mut env.l, &mut env.ch).is_ok());
    let d2 = aux_total_balance(&env, DEV1);
    assert_eq!(d1, d2);
    // delay
    env.now = DEFAULT_WCD * 11;
    assert!(env.m.done(DEV1, true, env.now, &mut env.l, &mut env.ch).is_ok());

    let d3 = aux_total_balance(&env, DEV1);
    assert_eq!(d3 - d1, DEFAULT_FEE - PENALTY);
}

#[test]
fn device_off_after_confirm() {
    let mut env = new_test_ext();
    let devid = DEV1;
    let _order = aux_init_order(&mut env, DEV1, CL1, DEFAULT_WCD * 10);
    assert!(env.m.accept(devid, false, true, env.now, &mut env.l, &mut env.ch).is_ok());

    env.now = DEFAULT_WCD * 1;

    assert!(env.m.orders(devid).is_some());

    // confirm
    assert!(env.m.done(devid, false, env.now, &mut env.l, &mut env.ch).is_ok());

    let dev = env.m.devices(devid).expect("device profile");
    assert_eq!(dev.state, DeviceState::Off);

    assert!(env.m.orders(devid).is_none());
}

#[test]
fn device_reregister() {
    let mut env = new_test_ext();
    let devid = DEV1;
    let _order = aux_init_order(&mut env, DEV1, CL1, DEFAULT_WCD * 10);
    assert!(env.m.accept(devid, false, true, env.now, &mut env.l, &mut env.ch).is_ok());

    assert_eq!(
        env.m.register(devid, PENALTY * 2, DEFAULT_WCD * 2, true),
        Err(Error::DeviceExists)
    );
    // amend
    assert!(env.m.done(devid, false, env.now, &mut env.l, &mut env.ch).is_ok());
    let dev = env.m.devices(devid).expect("device profile");
    assert_eq!(dev.state, DeviceState::Off);

    assert!(env.m.register(devid, PENALTY * 2, DEFAULT_WCD * 2, true).is_ok());
    let dev = env.m.devices(devid).expect("device profile");
    assert_eq!(dev.state, DeviceState::Ready);
}

#[test]
fn order_abandoned() {
    let mut env = new_test_ext();
    let d1 = aux_total_balance(&env, DEV1);
    let devid = DEV1;
    let _order = aux_init_order(&mut env, DEV1, CL1, DEFAULT_WCD * 10);

    env.now = DEFAULT_WCD * 11;

    assert!(env.m.cancel(CL1, devid, env.now, &mut env.l, &mut env.ch).is_ok());
    let d2 = aux_total_balance(&env, DEV1);

    assert_eq!(d1 - d2, PENALTY);
    let dev = env.m.devices(devid).expect("device profile");
    // abandoned device has busy state
    assert_eq!(dev.state, DeviceState::Busy);

    assert_eq!(
        aux_order(&mut env, DEV1, CL1, DEFAULT_FEE, DEFAULT_WCD * 10),
        Err(Error::IllegalState)
    );
}
