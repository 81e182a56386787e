//! The wire protocol and the messaging boundary: encoding round trips,
//! agreement with the reference SCALE codec, the inbound demultiplexer,
//! and the all-or-nothing rule for operations that must notify another
//! domain.

use device_lease::codec::{decode, encode};
use device_lease::dispatch::{send_order, Inbound};
use device_lease::{
    Channel, DeviceState, Error, Ledger, Marketplace, OrderBase, RecordingChannel, ServiceQuality,
    XCMPMessage,
};

use parity_scale_codec::{Compact, Encode};

#[test]
fn order_conversions() {
    let base = OrderBase { until: 9, data: vec![1, 2], fee: 5, device: 77 };
    let order = base.convert(200);
    assert_eq!(
        order,
        device_lease::Order { until: 9, data: vec![1, 2], fee: 5, client: 200, paraid: 0 }
    );
    let back = order.convert(77);
    assert_eq!(back, OrderBase { until: 9, data: vec![1, 2], fee: 5, device: 77 });
}

fn round_trip(m: XCMPMessage) {
    let bytes = encode(&m).expect("encodable message");
    let back = decode(&bytes).expect("decodes back");
    assert_eq!(back, m);
}

#[test]
fn codec_round_trips() {
    round_trip(XCMPMessage::OrderAccept(7, 9));
    round_trip(XCMPMessage::OrderReject(1, 2, true));
    round_trip(XCMPMessage::OrderReject(1, 2, false));
    round_trip(XCMPMessage::OrderDone(u64::MAX, 0, true));
    for len in [0usize, 5, 63, 64, 100, 16383, 16384, 20000] {
        round_trip(XCMPMessage::NewOrder(
            42,
            OrderBase { until: 123456789, data: vec![0xabu8; len], fee: 55, device: 77 },
        ));
    }
}

#[test]
fn codec_matches_reference_scale() {
    // The wire format is the SCALE encoding of the message enum: tag byte,
    // then the fields in declaration order.
    let c: u64 = 0x1122334455667788;
    let d: u64 = 9;

    let ours = encode(&XCMPMessage::OrderAccept(c, d)).unwrap();
    let mut reference: Vec<u8> = vec![1u8];
    c.encode_to(&mut reference);
    d.encode_to(&mut reference);
    assert_eq!(ours, reference);

    let ours = encode(&XCMPMessage::OrderDone(c, d, true)).unwrap();
    let mut reference: Vec<u8> = vec![3u8];
    c.encode_to(&mut reference);
    d.encode_to(&mut reference);
    true.encode_to(&mut reference);
    assert_eq!(ours, reference);

    for len in [0usize, 63, 64, 16383, 16384] {
        let data = vec![0x5au8; len];
        let ours = encode(&XCMPMessage::NewOrder(
            c,
            OrderBase { until: 1000, data: data.clone(), fee: 2000, device: d },
        ))
        .unwrap();
        let mut reference: Vec<u8> = vec![0u8];
        c.encode_to(&mut reference);
        1000u64.encode_to(&mut reference);
        Compact(len as u32).encode_to(&mut reference);
        reference.extend_from_slice(&data);
        2000u64.encode_to(&mut reference);
        d.encode_to(&mut reference);
        assert_eq!(ours, reference);
    }
}

#[test]
fn codec_rejects_malformed() {
    assert_eq!(decode(&vec![]), None);
    // unknown tag
    assert_eq!(decode(&vec![4u8; 17]), None);
    // wrong length for a confirmation
    let mut accept = encode(&XCMPMessage::OrderAccept(1, 2)).unwrap();
    accept.push(0);
    assert_eq!(decode(&accept), None);
    let mut accept = encode(&XCMPMessage::OrderAccept(1, 2)).unwrap();
    accept.pop();
    assert_eq!(decode(&accept), None);
    // a boolean must be 0 or 1
    let mut reject = encode(&XCMPMessage::OrderReject(1, 2, true)).unwrap();
    reject[17] = 2;
    assert_eq!(decode(&reject), None);
    // truncated order payload
    let mut order = encode(&XCMPMessage::NewOrder(
        1,
        OrderBase { until: 5, data: vec![1, 2, 3], fee: 6, device: 7 },
    ))
    .unwrap();
    order.pop();
    assert_eq!(decode(&order), None);
    // a fourth-mode length with no matching payload behind it
    let mut blob: Vec<u8> = vec![0u8];
    1u64.encode_to(&mut blob);
    5u64.encode_to(&mut blob);
    blob.push(0b11);
    blob.extend_from_slice(&[0, 0, 0, 64]);
    6u64.encode_to(&mut blob);
    7u64.encode_to(&mut blob);
    assert_eq!(decode(&blob), None);
    // a non-minimal fourth-mode length (three fits one byte) is refused
    let mut blob: Vec<u8> = vec![0u8];
    1u64.encode_to(&mut blob);
    5u64.encode_to(&mut blob);
    blob.push(0b11);
    blob.extend_from_slice(&[3, 0, 0, 0]);
    blob.extend_from_slice(&[9, 9, 9]);
    6u64.encode_to(&mut blob);
    7u64.encode_to(&mut blob);
    assert_eq!(decode(&blob), None);
    // a big-integer marker for more than four value bytes never encodes
    // a 32-bit length
    let mut blob: Vec<u8> = vec![0u8];
    1u64.encode_to(&mut blob);
    5u64.encode_to(&mut blob);
    blob.push(0b111);
    blob.extend_from_slice(&[0, 0, 0, 0, 64]);
    6u64.encode_to(&mut blob);
    7u64.encode_to(&mut blob);
    assert_eq!(decode(&blob), None);
    // a non-minimal compact length is refused: two bytes claiming length 3
    let mut blob: Vec<u8> = vec![0u8];
    1u64.encode_to(&mut blob);
    5u64.encode_to(&mut blob);
    blob.push((3u8 << 2) | 1);
    blob.push(0);
    blob.extend_from_slice(&[9, 9, 9]);
    6u64.encode_to(&mut blob);
    7u64.encode_to(&mut blob);
    assert_eq!(decode(&blob), None);
}

#[test]
fn send_order_goes_over_the_wire() {
    let mut ch = RecordingChannel::new();
    let base = OrderBase { until: 900, data: vec![1, 2, 3], fee: 40, device: 77 };
    assert!(send_order(5, base, 3, &mut ch).is_ok());
    assert_eq!(ch.sent.len(), 1);
    assert_eq!(ch.sent[0].0, 3);
    let msg = decode(&ch.sent[0].1).expect("valid payload");
    assert_eq!(
        msg,
        XCMPMessage::NewOrder(5, OrderBase { until: 900, data: vec![1, 2, 3], fee: 40, device: 77 })
    );

    ch.broken = true;
    let base = OrderBase { until: 900, data: Vec::new(), fee: 40, device: 77 };
    assert_eq!(send_order(5, base, 3, &mut ch), Err(Error::CannotReachDestination));
    assert_eq!(ch.sent.len(), 1);
}

#[test]
fn test_pings_the_channel() {
    let mut ch = RecordingChannel::new();
    assert!(device_lease::dispatch::test(&mut ch).is_ok());
    assert_eq!(ch.sent.len(), 1);
    assert_eq!(ch.sent[0].0, 200);
    assert_eq!(ch.sent[0].1, vec![0x00u8, 0x20]);

    ch.broken = true;
    assert_eq!(device_lease::dispatch::test(&mut ch), Err(Error::CannotReachDestination));
}

fn cross_domain_busy_device() -> (Marketplace, Ledger, RecordingChannel) {
    let mut m = Marketplace::new(0);
    let mut l = Ledger::new();
    let mut ch = RecordingChannel::new();
    assert!(m.register(77, 500, 10, true).is_ok());
    let blob = encode(&XCMPMessage::NewOrder(
        5,
        OrderBase { until: 1000, data: Vec::new(), fee: 40, device: 77 },
    ))
    .unwrap();
    let r = m.on_message::<(), RecordingChannel>(9, &blob, 0, &mut l, &mut ch);
    assert_eq!(r, Inbound::Order(77, Ok(())));
    assert_eq!(m.devices(77).unwrap().state, DeviceState::Busy);
    let order = m.orders(77).expect("order installed");
    assert_eq!(order.paraid, 9);
    assert_eq!(order.client, 5);
    // no local escrow for a cross-domain order
    assert_eq!(l.reserved_balance(77), 0);
    assert_eq!(l.reserved_balance(5), 0);
    (m, l, ch)
}

#[test]
fn inbound_new_order_installs() {
    let (_m, _l, ch) = cross_domain_busy_device();
    assert_eq!(ch.sent.len(), 0);
}

#[test]
fn inbound_notices_touch_nothing() {
    let mut m = Marketplace::new(0);
    let mut l = Ledger::new();
    let mut ch = RecordingChannel::new();
    assert!(m.register(77, 500, 10, true).is_ok());

    let blob = encode(&XCMPMessage::OrderAccept(5, 77)).unwrap();
    let r = m.on_message::<(), RecordingChannel>(9, &blob, 0, &mut l, &mut ch);
    assert_eq!(r, Inbound::Accepted(5, 77));

    let blob = encode(&XCMPMessage::OrderReject(5, 77, true)).unwrap();
    let r = m.on_message::<(), RecordingChannel>(9, &blob, 0, &mut l, &mut ch);
    assert_eq!(r, Inbound::Rejected(5, 77, true));

    let blob = encode(&XCMPMessage::OrderDone(5, 77, false)).unwrap();
    let r = m.on_message::<(), RecordingChannel>(9, &blob, 0, &mut l, &mut ch);
    assert_eq!(r, Inbound::Completed(5, 77, false));

    let r = m.on_message::<(), RecordingChannel>(9, &vec![0xff, 0x00], 0, &mut l, &mut ch);
    assert_eq!(r, Inbound::Malformed);

    // the device was never touched
    assert_eq!(m.devices(77).unwrap().state, DeviceState::Ready);
    assert!(m.orders(77).is_none());
}

#[test]
fn failed_send_rolls_back_accept() {
    let (mut m, mut l, mut ch) = cross_domain_busy_device();

    ch.broken = true;
    assert_eq!(m.accept(77, false, true, 10, &mut l, &mut ch), Err(Error::CannotReachDestination));
    assert_eq!(m.devices(77).unwrap().state, DeviceState::Busy);
    assert!(m.orders(77).is_some());

    ch.broken = false;
    assert!(m.accept(77, false, true, 10, &mut l, &mut ch).is_ok());
    assert_eq!(m.devices(77).unwrap().state, DeviceState::Busy2);
    assert_eq!(ch.sent.len(), 1);
    assert_eq!(ch.sent[0].0, 9);
    assert_eq!(decode(&ch.sent[0].1), Some(XCMPMessage::OrderAccept(5, 77)));
}

#[test]
fn failed_send_rolls_back_done() {
    let (mut m, mut l, mut ch) = cross_domain_busy_device();
    assert!(m.accept(77, false, true, 10, &mut l, &mut ch).is_ok());

    ch.broken = true;
    assert_eq!(m.done(77, true, 20, &mut l, &mut ch), Err(Error::CannotReachDestination));
    assert_eq!(m.devices(77).unwrap().state, DeviceState::Busy2);
    assert!(m.orders(77).is_some());

    ch.broken = false;
    assert!(m.done(77, true, 20, &mut l, &mut ch).is_ok());
    assert_eq!(m.devices(77).unwrap().state, DeviceState::Ready);
    assert!(m.orders(77).is_none());
    assert_eq!(decode(&ch.sent[1].1), Some(XCMPMessage::OrderDone(5, 77, true)));
}

#[test]
fn failed_send_rolls_back_reject() {
    let (mut m, mut l, mut ch) = cross_domain_busy_device();

    ch.broken = true;
    assert_eq!(m.accept(77, true, false, 10, &mut l, &mut ch), Err(Error::CannotReachDestination));
    assert_eq!(m.devices(77).unwrap().state, DeviceState::Busy);
    assert!(m.orders(77).is_some());

    ch.broken = false;
    assert!(m.accept(77, true, false, 10, &mut l, &mut ch).is_ok());
    assert_eq!(m.devices(77).unwrap().state, DeviceState::Off);
    assert!(m.orders(77).is_none());
    assert_eq!(decode(&ch.sent[0].1), Some(XCMPMessage::OrderReject(5, 77, false)));
}

#[test]
fn failed_send_rolls_back_cancel() {
    let (mut m, mut l, mut ch) = cross_domain_busy_device();

    ch.broken = true;
    assert_eq!(m.cancel(5, 77, 1000, &mut l, &mut ch), Err(Error::CannotReachDestination));
    assert!(m.orders(77).is_some());

    ch.broken = false;
    assert!(m.cancel(5, 77, 1000, &mut l, &mut ch).is_ok());
    assert!(m.orders(77).is_none());
    // cancel leaves the device state as it was
    assert_eq!(m.devices(77).unwrap().state, DeviceState::Busy);
}

#[test]
fn quality_hint_is_ordered() {
    // The one delivery hint the protocol uses.
    let mut ch = RecordingChannel::new();
    assert!(ch.send(1, vec![9], ServiceQuality::Ordered).is_ok());
    assert_eq!(ch.sent.len(), 1);
}
