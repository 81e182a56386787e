//! The wire protocol: four self-describing message kinds and their byte
//! encoding.
//!
//! The format is the SCALE encoding of the message enum: a one-byte tag,
//! fixed-width little-endian integers, and byte payloads prefixed with a
//! compact-encoded length.  Encoding of the primitive pieces is delegated
//! to `parity_scale_codec`; the decoder is written and verified here, and
//! its contract ties it to the same byte-level specification, so decoding
//! an encoded message gives the message back.

use vstd::prelude::*;

use crate::types::OrderBase;

verus! {

/// A cross-domain protocol message.
#[derive(PartialEq, Eq, Debug)]
pub enum XCMPMessage {
    /// An order sent to a device's domain: client identity and order.
    NewOrder(u64, OrderBase),
    /// The order was confirmed: client identity, device identity.
    OrderAccept(u64, u64),
    /// The order was rejected: client, device, follow-up on/off intent.
    OrderReject(u64, u64, bool),
    /// The order was completed: client, device, follow-up on/off intent.
    OrderDone(u64, u64, bool),
}

/// Fixed-width little-endian bytes of a 64-bit integer.
pub open spec fn u64_bytes(x: u64) -> Seq<u8> {
    seq![
        (x & 0xff) as u8,
        ((x >> 8) & 0xff) as u8,
        ((x >> 16) & 0xff) as u8,
        ((x >> 24) & 0xff) as u8,
        ((x >> 32) & 0xff) as u8,
        ((x >> 40) & 0xff) as u8,
        ((x >> 48) & 0xff) as u8,
        ((x >> 56) & 0xff) as u8,
    ]
}

/// SCALE compact encoding of a 32-bit length: the low two bits of the
/// first byte select one, two or four little-endian bytes holding the
/// value shifted left by two; values of 2^30 and above use the fourth
/// mode, a marker byte followed by the four little-endian value bytes.
pub open spec fn compact_bytes(n: u32) -> Seq<u8> {
    if n < 0x40 {
        seq![(n << 2) as u8]
    } else if n < 0x4000 {
        let w = (n << 2) | 1;
        seq![(w & 0xff) as u8, ((w >> 8) & 0xff) as u8]
    } else if n < 0x40000000 {
        let w = (n << 2) | 2;
        seq![
            (w & 0xff) as u8,
            ((w >> 8) & 0xff) as u8,
            ((w >> 16) & 0xff) as u8,
            ((w >> 24) & 0xff) as u8,
        ]
    } else {
        seq![
            3u8,
            (n & 0xff) as u8,
            ((n >> 8) & 0xff) as u8,
            ((n >> 16) & 0xff) as u8,
            ((n >> 24) & 0xff) as u8,
        ]
    }
}

/// SCALE encoding of a boolean.
pub open spec fn bool_byte(f: bool) -> u8 {
    if f {
        1u8
    } else {
        0u8
    }
}

/// A message is encodable when its payload length fits the 32-bit length
/// prefix of the wire format.
pub open spec fn msg_wf(m: XCMPMessage) -> bool {
    match m {
        XCMPMessage::NewOrder(_, ob) => ob.data@.len() <= u32::MAX,
        _ => true,
    }
}

/// The byte encoding of a message: tag byte, then the fields in order.
pub open spec fn spec_encode(m: XCMPMessage) -> Seq<u8> {
    match m {
        XCMPMessage::NewOrder(c, ob) => seq![0u8] + u64_bytes(c) + u64_bytes(ob.until)
            + compact_bytes(ob.data@.len() as u32) + ob.data@ + u64_bytes(ob.fee) + u64_bytes(
            ob.device,
        ),
        XCMPMessage::OrderAccept(c, d) => seq![1u8] + u64_bytes(c) + u64_bytes(d),
        XCMPMessage::OrderReject(c, d, f) => seq![2u8] + u64_bytes(c) + u64_bytes(d) + seq![
            bool_byte(f),
        ],
        XCMPMessage::OrderDone(c, d, f) => seq![3u8] + u64_bytes(c) + u64_bytes(d) + seq![
            bool_byte(f),
        ],
    }
}

/// Relies on `parity_scale_codec::Encode` for `u64`: SCALE encodes basic
/// integers as fixed-width little-endian bytes, appended to the output.
#[verifier::external_body]
fn scale_u64(x: u64, out: &mut Vec<u8>)
    ensures
        final(out)@ == old(out)@ + u64_bytes(x),
{
    parity_scale_codec::Encode::encode_to(&x, out);
}

/// Relies on `parity_scale_codec::Compact<u32>`: SCALE's compact length
/// format appends one, two or four bytes for values below 2^30, as
/// `compact_bytes` states; larger values use the fourth mode, written by
/// hand in `push_compact`.
#[verifier::external_body]
fn scale_compact_u32(n: u32, out: &mut Vec<u8>)
    requires
        n < 0x40000000,
    ensures
        final(out)@ == old(out)@ + compact_bytes(n),
{
    parity_scale_codec::Encode::encode_to(&parity_scale_codec::Compact(n), out);
}

fn push_compact(out: &mut Vec<u8>, n: u32)
    ensures
        final(out)@ == old(out)@ + compact_bytes(n),
{
    if n < 0x40000000 {
        scale_compact_u32(n, out);
    } else {
        out.push(3u8);
        out.push((n & 0xff) as u8);
        out.push(((n >> 8) & 0xff) as u8);
        out.push(((n >> 16) & 0xff) as u8);
        out.push(((n >> 24) & 0xff) as u8);
        proof {
            assert(out@ =~= old(out)@ + compact_bytes(n));
        }
    }
}

fn append_bytes(out: &mut Vec<u8>, data: &Vec<u8>)
    ensures
        final(out)@ == old(out)@ + data@,
{
    let mut i: usize = 0;
    while i < data.len()
        invariant
            i <= data@.len(),
            out@ == old(out)@ + data@.subrange(0, i as int),
        decreases data@.len() - i,
    {
        out.push(data[i]);
        proof {
            assert(old(out)@ + data@.subrange(0, i as int) + seq![data@[i as int]] =~= old(out)@
                + data@.subrange(0, i as int + 1));
        }
        i = i + 1;
    }
    proof {
        assert(data@.subrange(0, data@.len() as int) =~= data@);
    }
}

/// Encode a message for the wire; fails exactly when the payload is too
/// long for the 32-bit length prefix.
pub fn encode(m: &XCMPMessage) -> (r: Option<Vec<u8>>)
    ensures
        r is Some <==> msg_wf(*m),
        r matches Some(v) ==> v@ == spec_encode(*m),
{
    let mut out: Vec<u8> = Vec::new();
    match m {
        XCMPMessage::NewOrder(c, ob) => {
            if ob.data.len() > u32::MAX as usize {
                return None;
            }
            out.push(0u8);
            scale_u64(*c, &mut out);
            scale_u64(ob.until, &mut out);
            push_compact(&mut out, ob.data.len() as u32);
            append_bytes(&mut out, &ob.data);
            scale_u64(ob.fee, &mut out);
            scale_u64(ob.device, &mut out);
            proof {
                assert(out@ =~= spec_encode(*m));
            }
            Some(out)
        },
        XCMPMessage::OrderAccept(c, d) => {
            out.push(1u8);
            scale_u64(*c, &mut out);
            scale_u64(*d, &mut out);
            proof {
                assert(out@ =~= spec_encode(*m));
            }
            Some(out)
        },
        XCMPMessage::OrderReject(c, d, f) => {
            out.push(2u8);
            scale_u64(*c, &mut out);
            scale_u64(*d, &mut out);
            out.push(if *f {
                1u8
            } else {
                0u8
            });
            proof {
                assert(out@ =~= spec_encode(*m));
            }
            Some(out)
        },
        XCMPMessage::OrderDone(c, d, f) => {
            out.push(3u8);
            scale_u64(*c, &mut out);
            scale_u64(*d, &mut out);
            out.push(if *f {
                1u8
            } else {
                0u8
            });
            proof {
                assert(out@ =~= spec_encode(*m));
            }
            Some(out)
        },
    }
}

/// Encode a message known to be well formed.
pub fn encode_wf(m: &XCMPMessage) -> (v: Vec<u8>)
    requires
        msg_wf(*m),
    ensures
        v@ == spec_encode(*m),
{
    match encode(m) {
        Some(v) => v,
        None => {
            proof {
                assert(false);
            }
            Vec::new()
        },
    }
}

/// The members of `s` stand at offset `off` in `b`.
pub open spec fn is_prefix_at(s: Seq<u8>, b: Seq<u8>, off: int) -> bool {
    &&& 0 <= off
    &&& off + s.len() <= b.len()
    &&& b.subrange(off, off + s.len()) == s
}

proof fn lemma_concat_two(b: Seq<u8>, i: int, j: int, k: int)
    requires
        0 <= i <= j <= k <= b.len(),
    ensures
        b.subrange(i, k) == b.subrange(i, j) + b.subrange(j, k),
{
    assert(b.subrange(i, k) =~= b.subrange(i, j) + b.subrange(j, k));
}

proof fn lemma_compact_shape(n: u32)
    ensures
        1 <= compact_bytes(n).len(),
        compact_bytes(n).len() == if n < 0x40 {
            1int
        } else if n < 0x4000 {
            2int
        } else if n < 0x40000000 {
            4int
        } else {
            5int
        },
        (compact_bytes(n)[0] & 3) == if n < 0x40 {
            0u8
        } else if n < 0x4000 {
            1u8
        } else if n < 0x40000000 {
            2u8
        } else {
            3u8
        },
        n >= 0x40000000 ==> compact_bytes(n)[0] == 3u8,
{
    if n < 0x40 {
        assert((((n << 2) as u8) & 3) == 0) by (bit_vector)
            requires
                n < 0x40,
        ;
    } else if n < 0x4000 {
        assert(((((((n << 2) | 1)) & 0xff) as u8) & 3) == 1) by (bit_vector);
    } else if n < 0x40000000 {
        assert(((((((n << 2) | 2)) & 0xff) as u8) & 3) == 2) by (bit_vector);
    } else {
        assert((3u8 & 3) == 3) by (bit_vector);
    }
}

fn read_u64(b: &Vec<u8>, off: usize) -> (x: u64)
    requires
        off + 8 <= b@.len(),
    ensures
        u64_bytes(x) == b@.subrange(off as int, off as int + 8),
{
    let bl: usize = b.len();
    let p0: u64 = b[off] as u64;
    let p1: u64 = b[off + 1] as u64;
    let p2: u64 = b[off + 2] as u64;
    let p3: u64 = b[off + 3] as u64;
    let p4: u64 = b[off + 4] as u64;
    let p5: u64 = b[off + 5] as u64;
    let p6: u64 = b[off + 6] as u64;
    let p7: u64 = b[off + 7] as u64;
    let x: u64 = p0 | (p1 << 8) | (p2 << 16) | (p3 << 24) | (p4 << 32) | (p5 << 40) | (p6 << 48) | (
    p7 << 56);
    proof {
        let o: int = off as int;
        let b0: u8 = b@[o];
        let b1: u8 = b@[o + 1];
        let b2: u8 = b@[o + 2];
        let b3: u8 = b@[o + 3];
        let b4: u8 = b@[o + 4];
        let b5: u8 = b@[o + 5];
        let b6: u8 = b@[o + 6];
        let b7: u8 = b@[o + 7];
        assert((x & 0xff) as u8 == b0 && ((x >> 8) & 0xff) as u8 == b1 && ((x >> 16) & 0xff) as u8
            == b2 && ((x >> 24) & 0xff) as u8 == b3 && ((x >> 32) & 0xff) as u8 == b4 && ((x >> 40)
            & 0xff) as u8 == b5 && ((x >> 48) & 0xff) as u8 == b6 && ((x >> 56) & 0xff) as u8
            == b7) by (bit_vector)
            requires
                x == (b0 as u64) | ((b1 as u64) << 8) | ((b2 as u64) << 16) | ((b3 as u64) << 24)
                    | ((b4 as u64) << 32) | ((b5 as u64) << 40) | ((b6 as u64) << 48) | ((
                b7 as u64) << 56),
        ;
        assert(u64_bytes(x) =~= b@.subrange(o, o + 8));
    }
    x
}

fn read_compact(b: &Vec<u8>, off: usize) -> (r: Option<(u32, usize)>)
    requires
        off <= b@.len(),
    ensures
        match r {
            Some(p) => {
                &&& p.1 as int == compact_bytes(p.0).len()
                &&& is_prefix_at(compact_bytes(p.0), b@, off as int)
                &&& forall|n2: u32|
                    is_prefix_at(compact_bytes(n2), b@, off as int) ==> n2 == p.0
            },
            None => forall|n2: u32| !is_prefix_at(compact_bytes(n2), b@, off as int),
        },
{
    let o = Ghost(off as int);
    if b.len() - off < 1 {
        proof {
            assert forall|n2: u32| !is_prefix_at(compact_bytes(n2), b@, o@) by {
                lemma_compact_shape(n2);
            }
        }
        return None;
    }
    let f: u8 = b[off];
    let mode: u8 = f & 3;
    if mode == 0 {
        let n: u32 = (f >> 2) as u32;
        proof {
            assert(n < 0x40 && ((n << 2) as u8) == f) by (bit_vector)
                requires
                    (f & 3) == 0 && n == (f >> 2) as u32,
            ;
            assert(compact_bytes(n) =~= b@.subrange(o@, o@ + 1));
            assert forall|n2: u32| is_prefix_at(compact_bytes(n2), b@, o@) implies n2 == n by {
                lemma_compact_shape(n2);
                assert(compact_bytes(n2)[0] == b@[o@]);
                if n2 < 0x40 {
                    assert(((n2 << 2) as u8) == f ==> n2 == ((f >> 2) as u32)) by (bit_vector)
                        requires
                            n2 < 0x40,
                    ;
                } else {
                    assert(false);
                }
            }
        }
        return Some((n, 1));
    }
    if mode == 1 {
        if b.len() - off < 2 {
            proof {
                assert forall|n2: u32| !is_prefix_at(compact_bytes(n2), b@, o@) by {
                    lemma_compact_shape(n2);
                    if is_prefix_at(compact_bytes(n2), b@, o@) {
                        assert(compact_bytes(n2)[0] == b@[o@]);
                    }
                }
            }
            return None;
        }
        let hi: u8 = b[off + 1];
        let w: u32 = (f as u32) | ((hi as u32) << 8);
        let n: u32 = w >> 2;
        if n < 0x40 {
            proof {
                assert forall|n2: u32| !is_prefix_at(compact_bytes(n2), b@, o@) by {
                    lemma_compact_shape(n2);
                    if is_prefix_at(compact_bytes(n2), b@, o@) {
                        assert(compact_bytes(n2)[0] == b@[o@]);
                        if 0x40 <= n2 < 0x4000 {
                            assert(compact_bytes(n2)[1] == b@[o@ + 1]);
                            assert(n2 == ((f as u32) | ((hi as u32) << 8)) >> 2) by (bit_vector)
                                requires
                                    0x40 <= n2 < 0x4000 && f == (((n2 << 2) | 1) & 0xff) as u8
                                        && hi == ((((n2 << 2) | 1) >> 8) & 0xff) as u8,
                            ;
                        }
                    }
                }
            }
            return None;
        }
        proof {
            assert(n < 0x4000 && (((n << 2) | 1) & 0xff) as u8 == f && ((((n << 2) | 1) >> 8)
                & 0xff) as u8 == hi) by (bit_vector)
                requires
                    (f & 3) == 1 && n == ((f as u32) | ((hi as u32) << 8)) >> 2 && n >= 0x40,
            ;
            assert(compact_bytes(n) =~= b@.subrange(o@, o@ + 2));
            assert forall|n2: u32| is_prefix_at(compact_bytes(n2), b@, o@) implies n2 == n by {
                lemma_compact_shape(n2);
                assert(compact_bytes(n2)[0] == b@[o@]);
                if 0x40 <= n2 < 0x4000 {
                    assert(compact_bytes(n2)[1] == b@[o@ + 1]);
                    assert(n2 == ((f as u32) | ((hi as u32) << 8)) >> 2) by (bit_vector)
                        requires
                            0x40 <= n2 < 0x4000 && f == (((n2 << 2) | 1) & 0xff) as u8 && hi == ((((
                            n2 << 2) | 1) >> 8) & 0xff) as u8,
                    ;
                }
            }
        }
        return Some((n, 2));
    }
    if mode == 2 {
        if b.len() - off < 4 {
            proof {
                assert forall|n2: u32| !is_prefix_at(compact_bytes(n2), b@, o@) by {
                    lemma_compact_shape(n2);
                    if is_prefix_at(compact_bytes(n2), b@, o@) {
                        assert(compact_bytes(n2)[0] == b@[o@]);
                    }
                }
            }
            return None;
        }
        let c1: u8 = b[off + 1];
        let c2: u8 = b[off + 2];
        let c3: u8 = b[off + 3];
        let w: u32 = (f as u32) | ((c1 as u32) << 8) | ((c2 as u32) << 16) | ((c3 as u32) << 24);
        let n: u32 = w >> 2;
        if n < 0x4000 {
            proof {
                assert forall|n2: u32| !is_prefix_at(compact_bytes(n2), b@, o@) by {
                    lemma_compact_shape(n2);
                    if is_prefix_at(compact_bytes(n2), b@, o@) {
                        assert(compact_bytes(n2)[0] == b@[o@]);
                        if 0x4000 <= n2 < 0x40000000 {
                            assert(compact_bytes(n2)[1] == b@[o@ + 1]);
                            assert(compact_bytes(n2)[2] == b@[o@ + 2]);
                            assert(compact_bytes(n2)[3] == b@[o@ + 3]);
                            assert(n2 == ((f as u32) | ((c1 as u32) << 8) | ((c2 as u32) << 16) | ((
                            c3 as u32) << 24)) >> 2) by (bit_vector)
                                requires
                                    0x4000 <= n2 < 0x40000000 && f == (((n2 << 2) | 2) & 0xff) as u8
                                        && c1 == ((((n2 << 2) | 2) >> 8) & 0xff) as u8 && c2 == ((((
                                    n2 << 2) | 2) >> 16) & 0xff) as u8 && c3 == ((((n2 << 2) | 2)
                                        >> 24) & 0xff) as u8,
                            ;
                        }
                    }
                }
            }
            return None;
        }
        proof {
            assert(n < 0x40000000 && (((n << 2) | 2) & 0xff) as u8 == f && ((((n << 2) | 2) >> 8)
                & 0xff) as u8 == c1 && ((((n << 2) | 2) >> 16) & 0xff) as u8 == c2 && ((((n << 2)
                | 2) >> 24) & 0xff) as u8 == c3) by (bit_vector)
                requires
                    (f & 3) == 2 && n == ((f as u32) | ((c1 as u32) << 8) | ((c2 as u32) << 16) | ((
                    c3 as u32) << 24)) >> 2 && n >= 0x4000,
            ;
            assert(compact_bytes(n) =~= b@.subrange(o@, o@ + 4));
            assert forall|n2: u32| is_prefix_at(compact_bytes(n2), b@, o@) implies n2 == n by {
                lemma_compact_shape(n2);
                assert(compact_bytes(n2)[0] == b@[o@]);
                if 0x4000 <= n2 < 0x40000000 {
                    assert(compact_bytes(n2)[1] == b@[o@ + 1]);
                    assert(compact_bytes(n2)[2] == b@[o@ + 2]);
                    assert(compact_bytes(n2)[3] == b@[o@ + 3]);
                    assert(n2 == ((f as u32) | ((c1 as u32) << 8) | ((c2 as u32) << 16) | ((
                    c3 as u32) << 24)) >> 2) by (bit_vector)
                        requires
                            0x4000 <= n2 < 0x40000000 && f == (((n2 << 2) | 2) & 0xff) as u8 && c1
                                == ((((n2 << 2) | 2) >> 8) & 0xff) as u8 && c2 == ((((n2 << 2) | 2)
                                >> 16) & 0xff) as u8 && c3 == ((((n2 << 2) | 2) >> 24) & 0xff) as u8,
                    ;
                }
            }
        }
        return Some((n, 4));
    }
    // the fourth mode: a marker byte, then the four value bytes; for a
    // 32-bit length the marker is exactly 3
    if f != 3 {
        proof {
            assert forall|n2: u32| !is_prefix_at(compact_bytes(n2), b@, o@) by {
                lemma_compact_shape(n2);
                if is_prefix_at(compact_bytes(n2), b@, o@) {
                    assert(compact_bytes(n2)[0] == b@[o@]);
                }
            }
        }
        return None;
    }
    if b.len() - off < 5 {
        proof {
            assert forall|n2: u32| !is_prefix_at(compact_bytes(n2), b@, o@) by {
                lemma_compact_shape(n2);
                if is_prefix_at(compact_bytes(n2), b@, o@) {
                    assert(compact_bytes(n2)[0] == b@[o@]);
                }
            }
        }
        return None;
    }
    let c1: u8 = b[off + 1];
    let c2: u8 = b[off + 2];
    let c3: u8 = b[off + 3];
    let c4: u8 = b[off + 4];
    let n: u32 = (c1 as u32) | ((c2 as u32) << 8) | ((c3 as u32) << 16) | ((c4 as u32) << 24);
    if n < 0x40000000 {
        proof {
            assert forall|n2: u32| !is_prefix_at(compact_bytes(n2), b@, o@) by {
                lemma_compact_shape(n2);
                if is_prefix_at(compact_bytes(n2), b@, o@) {
                    assert(compact_bytes(n2)[0] == b@[o@]);
                    if 0x40000000 <= n2 {
                        assert(compact_bytes(n2)[1] == b@[o@ + 1]);
                        assert(compact_bytes(n2)[2] == b@[o@ + 2]);
                        assert(compact_bytes(n2)[3] == b@[o@ + 3]);
                        assert(compact_bytes(n2)[4] == b@[o@ + 4]);
                        assert(n2 == ((c1 as u32) | ((c2 as u32) << 8) | ((c3 as u32) << 16) | ((
                        c4 as u32) << 24))) by (bit_vector)
                            requires
                                c1 == (n2 & 0xff) as u8 && c2 == ((n2 >> 8) & 0xff) as u8 && c3
                                    == ((n2 >> 16) & 0xff) as u8 && c4 == ((n2 >> 24)
                                    & 0xff) as u8,
                        ;
                    }
                }
            }
        }
        return None;
    }
    proof {
        assert((n & 0xff) as u8 == c1 && ((n >> 8) & 0xff) as u8 == c2 && ((n >> 16) & 0xff) as u8
            == c3 && ((n >> 24) & 0xff) as u8 == c4) by (bit_vector)
            requires
                n == (c1 as u32) | ((c2 as u32) << 8) | ((c3 as u32) << 16) | ((c4 as u32) << 24),
        ;
        assert(compact_bytes(n) =~= b@.subrange(o@, o@ + 5));
        assert forall|n2: u32| is_prefix_at(compact_bytes(n2), b@, o@) implies n2 == n by {
            lemma_compact_shape(n2);
            assert(compact_bytes(n2)[0] == b@[o@]);
            if 0x40000000 <= n2 {
                assert(compact_bytes(n2)[1] == b@[o@ + 1]);
                assert(compact_bytes(n2)[2] == b@[o@ + 2]);
                assert(compact_bytes(n2)[3] == b@[o@ + 3]);
                assert(compact_bytes(n2)[4] == b@[o@ + 4]);
                assert(n2 == ((c1 as u32) | ((c2 as u32) << 8) | ((c3 as u32) << 16) | ((
                c4 as u32) << 24))) by (bit_vector)
                    requires
                        c1 == (n2 & 0xff) as u8 && c2 == ((n2 >> 8) & 0xff) as u8 && c3 == ((n2
                            >> 16) & 0xff) as u8 && c4 == ((n2 >> 24) & 0xff) as u8,
                ;
            }
        }
    }
    Some((n, 5))
}

proof fn lemma_encode_shape(m: XCMPMessage)
    requires
        msg_wf(m),
    ensures
        spec_encode(m).len() >= 17,
        match m {
            XCMPMessage::NewOrder(c, ob) => {
                &&& spec_encode(m)[0] == 0u8
                &&& spec_encode(m).len() == 33 + compact_bytes(ob.data@.len() as u32).len()
                    + ob.data@.len()
            },
            XCMPMessage::OrderAccept(c, d) => spec_encode(m)[0] == 1u8 && spec_encode(m).len()
                == 17,
            XCMPMessage::OrderReject(c, d, f) => spec_encode(m)[0] == 2u8 && spec_encode(m).len()
                == 18 && spec_encode(m)[17] == bool_byte(f),
            XCMPMessage::OrderDone(c, d, f) => spec_encode(m)[0] == 3u8 && spec_encode(m).len()
                == 18 && spec_encode(m)[17] == bool_byte(f),
        },
{
    match m {
        XCMPMessage::NewOrder(c, ob) => {
            lemma_compact_shape(ob.data@.len() as u32);
        },
        XCMPMessage::OrderAccept(c, d) => {},
        XCMPMessage::OrderReject(c, d, f) => {},
        XCMPMessage::OrderDone(c, d, f) => {},
    }
}

proof fn lemma_new_order_slices(c: u64, ob: OrderBase, b: Seq<u8>)
    requires
        msg_wf(XCMPMessage::NewOrder(c, ob)),
        spec_encode(XCMPMessage::NewOrder(c, ob)) == b,
    ensures
        b.len() == 33 + compact_bytes(ob.data@.len() as u32).len() + ob.data@.len(),
        is_prefix_at(compact_bytes(ob.data@.len() as u32), b, 17),
{
    lemma_compact_shape(ob.data@.len() as u32);
    let cb = compact_bytes(ob.data@.len() as u32);
    assert(b.subrange(17, 17 + cb.len() as int) =~= cb);
}

proof fn lemma_u64_bytes_inj(x: u64, y: u64)
    requires
        u64_bytes(x) == u64_bytes(y),
    ensures
        x == y,
{
    assert(u64_bytes(x)[0] == u64_bytes(y)[0]);
    assert(u64_bytes(x)[1] == u64_bytes(y)[1]);
    assert(u64_bytes(x)[2] == u64_bytes(y)[2]);
    assert(u64_bytes(x)[3] == u64_bytes(y)[3]);
    assert(u64_bytes(x)[4] == u64_bytes(y)[4]);
    assert(u64_bytes(x)[5] == u64_bytes(y)[5]);
    assert(u64_bytes(x)[6] == u64_bytes(y)[6]);
    assert(u64_bytes(x)[7] == u64_bytes(y)[7]);
    assert(x == y) by (bit_vector)
        requires
            (x & 0xff) as u8 == (y & 0xff) as u8 && ((x >> 8) & 0xff) as u8 == ((y >> 8)
                & 0xff) as u8 && ((x >> 16) & 0xff) as u8 == ((y >> 16) & 0xff) as u8 && ((x >> 24)
                & 0xff) as u8 == ((y >> 24) & 0xff) as u8 && ((x >> 32) & 0xff) as u8 == ((y >> 32)
                & 0xff) as u8 && ((x >> 40) & 0xff) as u8 == ((y >> 40) & 0xff) as u8 && ((x >> 48)
                & 0xff) as u8 == ((y >> 48) & 0xff) as u8 && ((x >> 56) & 0xff) as u8 == ((y >> 56)
                & 0xff) as u8,
    ;
}

proof fn lemma_compact_prefix_unique(b: Seq<u8>, off: int, n1: u32, n2: u32)
    requires
        is_prefix_at(compact_bytes(n1), b, off),
        is_prefix_at(compact_bytes(n2), b, off),
    ensures
        n1 == n2,
{
    lemma_compact_shape(n1);
    lemma_compact_shape(n2);
    let f = b[off];
    assert(compact_bytes(n1)[0] == f);
    assert(compact_bytes(n2)[0] == f);
    if n1 < 0x40 {
        assert(n2 < 0x40);
        assert(n1 == n2) by (bit_vector)
            requires
                n1 < 0x40 && n2 < 0x40 && ((n1 << 2) as u8) == ((n2 << 2) as u8),
        ;
    } else if n1 < 0x4000 {
        assert(0x40 <= n2 && n2 < 0x4000);
        assert(compact_bytes(n1)[1] == b[off + 1]);
        assert(compact_bytes(n2)[1] == b[off + 1]);
        assert(n1 == n2) by (bit_vector)
            requires
                0x40 <= n1 < 0x4000 && 0x40 <= n2 < 0x4000 && ((((n1 << 2) | 1) & 0xff) as u8) == ((
                ((n2 << 2) | 1) & 0xff) as u8) && (((((n1 << 2) | 1) >> 8) & 0xff) as u8) == (((((
                n2 << 2) | 1) >> 8) & 0xff) as u8),
        ;
    } else if n1 < 0x40000000 {
        assert(0x4000 <= n2 && n2 < 0x40000000);
        assert(compact_bytes(n1)[1] == b[off + 1]);
        assert(compact_bytes(n2)[1] == b[off + 1]);
        assert(compact_bytes(n1)[2] == b[off + 2]);
        assert(compact_bytes(n2)[2] == b[off + 2]);
        assert(compact_bytes(n1)[3] == b[off + 3]);
        assert(compact_bytes(n2)[3] == b[off + 3]);
        assert(n1 == n2) by (bit_vector)
            requires
                0x4000 <= n1 < 0x40000000 && 0x4000 <= n2 < 0x40000000 && ((((n1 << 2) | 2)
                    & 0xff) as u8) == ((((n2 << 2) | 2) & 0xff) as u8) && (((((n1 << 2) | 2) >> 8)
                    & 0xff) as u8) == (((((n2 << 2) | 2) >> 8) & 0xff) as u8) && (((((n1 << 2) | 2)
                    >> 16) & 0xff) as u8) == (((((n2 << 2) | 2) >> 16) & 0xff) as u8) && (((((n1
                    << 2) | 2) >> 24) & 0xff) as u8) == (((((n2 << 2) | 2) >> 24) & 0xff) as u8),
        ;
    } else {
        assert(0x40000000 <= n2);
        assert(compact_bytes(n1)[1] == b[off + 1]);
        assert(compact_bytes(n2)[1] == b[off + 1]);
        assert(compact_bytes(n1)[2] == b[off + 2]);
        assert(compact_bytes(n2)[2] == b[off + 2]);
        assert(compact_bytes(n1)[3] == b[off + 3]);
        assert(compact_bytes(n2)[3] == b[off + 3]);
        assert(compact_bytes(n1)[4] == b[off + 4]);
        assert(compact_bytes(n2)[4] == b[off + 4]);
        assert(n1 == n2) by (bit_vector)
            requires
                ((n1 & 0xff) as u8) == ((n2 & 0xff) as u8) && (((n1 >> 8) & 0xff) as u8) == (((n2
                    >> 8) & 0xff) as u8) && (((n1 >> 16) & 0xff) as u8) == (((n2 >> 16)
                    & 0xff) as u8) && (((n1 >> 24) & 0xff) as u8) == (((n2 >> 24) & 0xff) as u8),
        ;
    }
}

/// The wire format is injective: one byte string encodes at most one
/// message.  Two messages with the same encoding agree on every field;
/// the opaque payload is compared by its contents.
#[verifier::rlimit(60)]
pub proof fn lemma_encode_injective(m1: XCMPMessage, m2: XCMPMessage)
    requires
        msg_wf(m1),
        msg_wf(m2),
        spec_encode(m1) == spec_encode(m2),
    ensures
        match (m1, m2) {
            (XCMPMessage::NewOrder(c1, a), XCMPMessage::NewOrder(c2, b)) => c1 == c2 && a.until
                == b.until && a.data@ == b.data@ && a.fee == b.fee && a.device == b.device,
            (XCMPMessage::OrderAccept(c1, d1), XCMPMessage::OrderAccept(c2, d2)) => c1 == c2 && d1
                == d2,
            (XCMPMessage::OrderReject(c1, d1, f1), XCMPMessage::OrderReject(c2, d2, f2)) => c1
                == c2 && d1 == d2 && f1 == f2,
            (XCMPMessage::OrderDone(c1, d1, f1), XCMPMessage::OrderDone(c2, d2, f2)) => c1 == c2
                && d1 == d2 && f1 == f2,
            _ => false,
        },
{
    let e = spec_encode(m1);
    lemma_encode_shape(m1);
    lemma_encode_shape(m2);
    match (m1, m2) {
        (XCMPMessage::NewOrder(c1, a), XCMPMessage::NewOrder(c2, b)) => {
            lemma_new_order_slices(c1, a, e);
            lemma_new_order_slices(c2, b, e);
            let na = a.data@.len() as u32;
            let nb = b.data@.len() as u32;
            lemma_compact_prefix_unique(e, 17, na, nb);
            lemma_compact_shape(na);
            let ds = 17 + compact_bytes(na).len() as int;
            let nn = a.data@.len() as int;
            assert(u64_bytes(c1) =~= e.subrange(1, 9));
            assert(u64_bytes(c2) =~= e.subrange(1, 9));
            lemma_u64_bytes_inj(c1, c2);
            assert(u64_bytes(a.until) =~= e.subrange(9, 17));
            assert(u64_bytes(b.until) =~= e.subrange(9, 17));
            lemma_u64_bytes_inj(a.until, b.until);
            assert(a.data@ =~= e.subrange(ds, ds + nn));
            assert(b.data@ =~= e.subrange(ds, ds + nn));
            assert(u64_bytes(a.fee) =~= e.subrange(ds + nn, ds + nn + 8));
            assert(u64_bytes(b.fee) =~= e.subrange(ds + nn, ds + nn + 8));
            lemma_u64_bytes_inj(a.fee, b.fee);
            assert(u64_bytes(a.device) =~= e.subrange(ds + nn + 8, ds + nn + 16));
            assert(u64_bytes(b.device) =~= e.subrange(ds + nn + 8, ds + nn + 16));
            lemma_u64_bytes_inj(a.device, b.device);
        },
        (XCMPMessage::OrderAccept(c1, d1), XCMPMessage::OrderAccept(c2, d2)) => {
            assert(u64_bytes(c1) =~= e.subrange(1, 9));
            assert(u64_bytes(c2) =~= e.subrange(1, 9));
            lemma_u64_bytes_inj(c1, c2);
            assert(u64_bytes(d1) =~= e.subrange(9, 17));
            assert(u64_bytes(d2) =~= e.subrange(9, 17));
            lemma_u64_bytes_inj(d1, d2);
        },
        (XCMPMessage::OrderReject(c1, d1, f1), XCMPMessage::OrderReject(c2, d2, f2)) => {
            assert(u64_bytes(c1) =~= e.subrange(1, 9));
            assert(u64_bytes(c2) =~= e.subrange(1, 9));
            lemma_u64_bytes_inj(c1, c2);
            assert(u64_bytes(d1) =~= e.subrange(9, 17));
            assert(u64_bytes(d2) =~= e.subrange(9, 17));
            lemma_u64_bytes_inj(d1, d2);
            assert(bool_byte(f1) == e[17] && bool_byte(f2) == e[17]);
        },
        (XCMPMessage::OrderDone(c1, d1, f1), XCMPMessage::OrderDone(c2, d2, f2)) => {
            assert(u64_bytes(c1) =~= e.subrange(1, 9));
            assert(u64_bytes(c2) =~= e.subrange(1, 9));
            lemma_u64_bytes_inj(c1, c2);
            assert(u64_bytes(d1) =~= e.subrange(9, 17));
            assert(u64_bytes(d2) =~= e.subrange(9, 17));
            lemma_u64_bytes_inj(d1, d2);
            assert(bool_byte(f1) == e[17] && bool_byte(f2) == e[17]);
        },
        _ => {},
    }
}

/// Decode a wire payload; returns the unique message that encodes to
/// exactly these bytes, and nothing on any other byte string.
pub fn decode(b: &Vec<u8>) -> (r: Option<XCMPMessage>)
    ensures
        match r {
            Some(m) => msg_wf(m) && spec_encode(m) == b@,
            None => forall|m: XCMPMessage| msg_wf(m) ==> #[trigger] spec_encode(m) != b@,
        },
{
    if b.len() == 0 {
        proof {
            assert forall|m: XCMPMessage| msg_wf(m) implies #[trigger] spec_encode(m) != b@ by {
                lemma_encode_shape(m);
            }
        }
        return None;
    }
    let tag: u8 = b[0];
    if tag == 0 {
        if b.len() < 17 {
            proof {
                assert forall|m: XCMPMessage| msg_wf(m) implies #[trigger] spec_encode(m)
                    != b@ by {
                    lemma_encode_shape(m);
                    if spec_encode(m) == b@ {
                        match m {
                            XCMPMessage::NewOrder(c2, ob2) => {
                                lemma_compact_shape(ob2.data@.len() as u32);
                            },
                            _ => {},
                        }
                    }
                }
            }
            return None;
        }
        let c: u64 = read_u64(b, 1);
        let u: u64 = read_u64(b, 9);
        let rc = read_compact(b, 17);
        match rc {
            None => {
                proof {
                    assert forall|m: XCMPMessage| msg_wf(m) implies #[trigger] spec_encode(m)
                        != b@ by {
                        lemma_encode_shape(m);
                        if spec_encode(m) == b@ {
                            match m {
                                XCMPMessage::NewOrder(c2, ob2) => {
                                    lemma_new_order_slices(c2, ob2, b@);
                                },
                                _ => {},
                            }
                        }
                    }
                }
                None
            },
            Some((n, consumed)) => {
                let ds: usize = 17 + consumed;
                let nn: usize = n as usize;
                if b.len() - ds < 16 || b.len() - ds - 16 != nn {
                    proof {
                        assert forall|m: XCMPMessage| msg_wf(m) implies #[trigger] spec_encode(m)
                            != b@ by {
                            lemma_encode_shape(m);
                            if spec_encode(m) == b@ {
                                match m {
                                    XCMPMessage::NewOrder(c2, ob2) => {
                                        lemma_new_order_slices(c2, ob2, b@);
                                        lemma_compact_shape(ob2.data@.len() as u32);
                                    },
                                    _ => {},
                                }
                            }
                        }
                    }
                    return None;
                }
                let mut data: Vec<u8> = Vec::new();
                let mut i: usize = 0;
                while i < nn
                    invariant
                        i <= nn,
                        ds + nn + 16 == b@.len(),
                        b@.len() <= usize::MAX,
                        data@ == b@.subrange(ds as int, ds as int + i as int),
                    decreases nn - i,
                {
                    data.push(b[ds + i]);
                    proof {
                        assert(b@.subrange(ds as int, ds as int + i as int) + seq![
                            b@[ds as int + i as int],
                        ] =~= b@.subrange(ds as int, ds as int + i as int + 1));
                    }
                    i = i + 1;
                }
                let fee: u64 = read_u64(b, ds + nn);
                let dv: u64 = read_u64(b, ds + nn + 8);
                let ob = OrderBase { until: u, data, fee, device: dv };
                let m = XCMPMessage::NewOrder(c, ob);
                proof {
                    let bl: int = b@.len() as int;
                    let dsi: int = ds as int;
                    let nni: int = nn as int;
                    lemma_concat_two(b@, 0, 1, 9);
                    lemma_concat_two(b@, 0, 9, 17);
                    lemma_concat_two(b@, 0, 17, dsi);
                    lemma_concat_two(b@, 0, dsi, dsi + nni);
                    lemma_concat_two(b@, 0, dsi + nni, dsi + nni + 8);
                    lemma_concat_two(b@, 0, dsi + nni + 8, bl);
                    assert(b@.subrange(0, 1) =~= seq![0u8]);
                    assert(b@.subrange(0, bl) =~= b@);
                    assert(b@.subrange(17, dsi) == compact_bytes(n));
                    assert(spec_encode(m) == b@);
                }
                Some(m)
            },
        }
    } else if tag == 1 {
        if b.len() != 17 {
            proof {
                assert forall|m: XCMPMessage| msg_wf(m) implies #[trigger] spec_encode(m)
                    != b@ by {
                    lemma_encode_shape(m);
                }
            }
            return None;
        }
        let c: u64 = read_u64(b, 1);
        let d: u64 = read_u64(b, 9);
        let m = XCMPMessage::OrderAccept(c, d);
        proof {
            lemma_concat_two(b@, 0, 1, 9);
            lemma_concat_two(b@, 0, 9, 17);
            assert(b@.subrange(0, 1) =~= seq![1u8]);
            assert(b@.subrange(0, 17) =~= b@);
            assert(spec_encode(m) == b@);
        }
        Some(m)
    } else if tag == 2 || tag == 3 {
        if b.len() != 18 {
            proof {
                assert forall|m: XCMPMessage| msg_wf(m) implies #[trigger] spec_encode(m)
                    != b@ by {
                    lemma_encode_shape(m);
                }
            }
            return None;
        }
        let fb: u8 = b[17];
        if fb > 1 {
            proof {
                assert forall|m: XCMPMessage| msg_wf(m) implies #[trigger] spec_encode(m)
                    != b@ by {
                    lemma_encode_shape(m);
                }
            }
            return None;
        }
        let c: u64 = read_u64(b, 1);
        let d: u64 = read_u64(b, 9);
        let m = if tag == 2 {
            XCMPMessage::OrderReject(c, d, fb == 1)
        } else {
            XCMPMessage::OrderDone(c, d, fb == 1)
        };
        proof {
            lemma_concat_two(b@, 0, 1, 9);
            lemma_concat_two(b@, 0, 9, 17);
            lemma_concat_two(b@, 0, 17, 18);
            if tag == 2 {
                assert(b@.subrange(0, 1) =~= seq![2u8]);
            } else {
                assert(b@.subrange(0, 1) =~= seq![3u8]);
            }
            assert(b@.subrange(17, 18) =~= seq![bool_byte(fb == 1)]);
            assert(b@.subrange(0, 18) =~= b@);
            assert(spec_encode(m) == b@);
        }
        Some(m)
    } else {
        proof {
            assert forall|m: XCMPMessage| msg_wf(m) implies #[trigger] spec_encode(m) != b@ by {
                lemma_encode_shape(m);
            }
        }
        None
    }
}

} // verus!
