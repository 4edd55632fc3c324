//! Fixed 50-byte frames: byte 0 is the XOR of bytes 1..50, byte 1 the message type,
//! the rest a big-endian payload padded with zeros.
use vstd::prelude::*;

use crate::types::{
    BroadcastStats, CancelOrder, MatchResult, Order, OrderExecution, MESSAGE_TOTAL_SIZE,
    MSG_ORDER_CANCEL, MSG_ORDER_SUBMIT, MSG_STATUS_BROADCAST, MSG_TRADE_BROADCAST, count_of,
};

verus! {

/// Number of order-id slots in a cancellation frame.
pub const MAX_IDS_PER_CHUNK: usize = 5;

/// Offset of the payload within a frame.
pub const PAYLOAD_START: usize = 2;

/// Length of a frame's body: everything but the checksum byte.
pub const BODY_SIZE: usize = 49;

/// Why a frame or payload could not be decoded.
#[derive(Clone, Copy, Debug, PartialEq, Eq, Structural)]
pub enum CodecError {
    /// The buffer is not exactly one frame long.
    LengthError,
    /// Byte 0 is not the XOR of the other bytes.
    ChecksumError,
    /// The message type is none of the known ones.
    UnknownType,
    /// The payload is shorter than its message type needs.
    PayloadTooShort,
}

// ----- the model -----

/// XOR of all bytes of `s`.
pub open spec fn xor_all(s: Seq<u8>) -> u8
    decreases s.len(),
{
    if s.len() == 0 {
        0
    } else {
        xor_all(s.drop_last()) ^ s.last()
    }
}

/// `n` zero bytes.
pub open spec fn zeros(n: nat) -> Seq<u8> {
    Seq::new(n, |i: int| 0u8)
}

/// Big-endian bytes of a 16-bit value.
pub open spec fn be16(v: u16) -> Seq<u8> {
    seq![((v >> 8u16) & 0xffu16) as u8, (v & 0xffu16) as u8]
}

/// Big-endian bytes of a 32-bit value.
pub open spec fn be32(v: u32) -> Seq<u8> {
    seq![
        ((v >> 24u32) & 0xffu32) as u8,
        ((v >> 16u32) & 0xffu32) as u8,
        ((v >> 8u32) & 0xffu32) as u8,
        (v & 0xffu32) as u8,
    ]
}

/// Big-endian bytes of a 64-bit value.
pub open spec fn be64(v: u64) -> Seq<u8> {
    seq![
        ((v >> 56u64) & 0xffu64) as u8,
        ((v >> 48u64) & 0xffu64) as u8,
        ((v >> 40u64) & 0xffu64) as u8,
        ((v >> 32u64) & 0xffu64) as u8,
        ((v >> 24u64) & 0xffu64) as u8,
        ((v >> 16u64) & 0xffu64) as u8,
        ((v >> 8u64) & 0xffu64) as u8,
        (v & 0xffu64) as u8,
    ]
}

/// The 16-bit value stored big-endian at `s[i..i+2]`.
pub open spec fn be16_at(s: Seq<u8>, i: int) -> u16 {
    ((s[i] as u16) << 8u16) | (s[i + 1] as u16)
}

/// The 32-bit value stored big-endian at `s[i..i+4]`.
pub open spec fn be32_at(s: Seq<u8>, i: int) -> u32 {
    ((s[i] as u32) << 24u32) | ((s[i + 1] as u32) << 16u32) | ((s[i + 2] as u32) << 8u32) | (s[i
        + 3] as u32)
}

/// The 64-bit value stored big-endian at `s[i..i+8]`.
pub open spec fn be64_at(s: Seq<u8>, i: int) -> u64 {
    ((s[i] as u64) << 56u64) | ((s[i + 1] as u64) << 48u64) | ((s[i + 2] as u64) << 40u64) | ((s[i
        + 3] as u64) << 32u64) | ((s[i + 4] as u64) << 24u64) | ((s[i + 5] as u64) << 16u64) | ((s[i
        + 6] as u64) << 8u64) | (s[i + 7] as u64)
}

/// A frame: the checksum of the body, then the body.
pub open spec fn frame_of(body: Seq<u8>) -> Seq<u8> {
    seq![xor_all(body)] + body
}

/// Body of a SUBMIT frame.
pub open spec fn submit_body(o: Order) -> Seq<u8> {
    seq![MSG_ORDER_SUBMIT] + be16(o.product_id) + be64(o.order_id) + be64(o.price) + be32(
        o.quantity,
    ) + seq![o.order_type, o.price_type] + be64(o.submit_time) + be64(o.expire_time) + zeros(8)
}

/// The id in slot `k` of a cancellation chunk that starts at `start`; 0 past the end.
pub open spec fn cancel_slot(ids: Seq<u64>, start: int, k: int) -> u64 {
    if 0 <= start + k < ids.len() {
        ids[start + k]
    } else {
        0
    }
}

/// Body of a CANCEL frame holding up to five ids from `start` on.
pub open spec fn cancel_body(product_id: u16, ids: Seq<u64>, start: int) -> Seq<u8> {
    seq![MSG_ORDER_CANCEL] + be16(product_id) + be64(cancel_slot(ids, start, 0)) + be64(
        cancel_slot(ids, start, 1),
    ) + be64(cancel_slot(ids, start, 2)) + be64(cancel_slot(ids, start, 3)) + be64(
        cancel_slot(ids, start, 4),
    ) + zeros(6)
}

/// Body of a TRADE frame; the frame has room for the first 8 bytes of the tag, and
/// its last field carries the time shared by the executions of one match call.
pub open spec fn trade_body(e: OrderExecution, shared_time: u32) -> Seq<u8> {
    seq![MSG_TRADE_BROADCAST] + e.instance_tag@.subrange(0, 8) + be16(e.product_id) + be64(
        e.buy_order_id,
    ) + be64(e.sell_order_id) + be64(e.price) + be32(e.quantity) + be32(e.trade_time_network)
        + be32(shared_time) + zeros(2)
}

/// Body of a STATS frame.
pub open spec fn stats_body(s: BroadcastStats) -> Seq<u8> {
    seq![MSG_STATUS_BROADCAST] + s.instance_tag@ + be16(s.product_id) + be32(s.bids_size) + be32(
        s.ask_size,
    ) + be32(s.matched_orders) + be32(s.total_received_orders) + be64(s.start_time) + zeros(6)
}

/// The message types this protocol knows.
pub open spec fn known_type(t: u8) -> bool {
    t == MSG_ORDER_SUBMIT || t == MSG_ORDER_CANCEL || t == MSG_TRADE_BROADCAST || t
        == MSG_STATUS_BROADCAST
}

/// What unpacking a received buffer gives: its type and payload, or why not.
pub open spec fn unpacked(buf: Seq<u8>) -> Result<(u8, Seq<u8>), CodecError> {
    if buf.len() != MESSAGE_TOTAL_SIZE {
        Err(CodecError::LengthError)
    } else if buf[0] != xor_all(buf.subrange(1, buf.len() as int)) {
        Err(CodecError::ChecksumError)
    } else if !known_type(buf[1]) {
        Err(CodecError::UnknownType)
    } else {
        Ok((buf[1], buf.subrange(PAYLOAD_START as int, buf.len() as int)))
    }
}

/// The order a SUBMIT payload describes (at least 40 bytes).
pub open spec fn order_of_payload(p: Seq<u8>) -> Order {
    Order {
        product_id: be16_at(p, 0),
        order_id: be64_at(p, 2),
        price: be64_at(p, 10),
        quantity: be32_at(p, 18),
        order_type: p[22],
        price_type: p[23],
        submit_time: be64_at(p, 24),
        expire_time: be64_at(p, 32),
    }
}

/// The non-zero ids among the first `k` slots of a CANCEL payload, in slot order.
pub open spec fn cancel_ids_of_payload(p: Seq<u8>, k: int) -> Seq<u64>
    decreases k,
{
    if k <= 0 {
        seq![]
    } else {
        let id = be64_at(p, 2 + 8 * (k - 1));
        if id != 0 {
            cancel_ids_of_payload(p, k - 1).push(id)
        } else {
            cancel_ids_of_payload(p, k - 1)
        }
    }
}

// ----- byte-level lemmas -----

proof fn lemma_be16(v: u16)
    ensures
        be16_at(be16(v), 0) == v,
{
    let hi = (v >> 8u16) & 0xffu16;
    let lo = v & 0xffu16;
    assert((hi << 8u16) | lo == v) by (bit_vector)
        requires
            hi == (v >> 8u16) & 0xffu16,
            lo == v & 0xffu16,
    ;
    assert(hi < 256 && lo < 256) by (bit_vector)
        requires
            hi == (v >> 8u16) & 0xffu16,
            lo == v & 0xffu16,
    ;
}

proof fn lemma_be32(v: u32)
    ensures
        be32_at(be32(v), 0) == v,
{
    let b0 = (v >> 24u32) & 0xffu32;
    let b1 = (v >> 16u32) & 0xffu32;
    let b2 = (v >> 8u32) & 0xffu32;
    let b3 = v & 0xffu32;
    assert((b0 << 24u32) | (b1 << 16u32) | (b2 << 8u32) | b3 == v && b0 < 256 && b1 < 256 && b2
        < 256 && b3 < 256) by (bit_vector)
        requires
            b0 == (v >> 24u32) & 0xffu32,
            b1 == (v >> 16u32) & 0xffu32,
            b2 == (v >> 8u32) & 0xffu32,
            b3 == v & 0xffu32,
    ;
}

proof fn lemma_be64(v: u64)
    ensures
        be64_at(be64(v), 0) == v,
{
    let b0 = (v >> 56u64) & 0xffu64;
    let b1 = (v >> 48u64) & 0xffu64;
    let b2 = (v >> 40u64) & 0xffu64;
    let b3 = (v >> 32u64) & 0xffu64;
    let b4 = (v >> 24u64) & 0xffu64;
    let b5 = (v >> 16u64) & 0xffu64;
    let b6 = (v >> 8u64) & 0xffu64;
    let b7 = v & 0xffu64;
    assert((b0 << 56u64) | (b1 << 48u64) | (b2 << 40u64) | (b3 << 32u64) | (b4 << 24u64) | (b5
        << 16u64) | (b6 << 8u64) | b7 == v) by (bit_vector)
        requires
            b0 == (v >> 56u64) & 0xffu64,
            b1 == (v >> 48u64) & 0xffu64,
            b2 == (v >> 40u64) & 0xffu64,
            b3 == (v >> 32u64) & 0xffu64,
            b4 == (v >> 24u64) & 0xffu64,
            b5 == (v >> 16u64) & 0xffu64,
            b6 == (v >> 8u64) & 0xffu64,
            b7 == v & 0xffu64,
    ;
    assert(b0 < 256 && b1 < 256 && b2 < 256 && b3 < 256 && b4 < 256 && b5 < 256 && b6 < 256 && b7
        < 256) by (bit_vector)
        requires
            b0 == (v >> 56u64) & 0xffu64,
            b1 == (v >> 48u64) & 0xffu64,
            b2 == (v >> 40u64) & 0xffu64,
            b3 == (v >> 32u64) & 0xffu64,
            b4 == (v >> 24u64) & 0xffu64,
            b5 == (v >> 16u64) & 0xffu64,
            b6 == (v >> 8u64) & 0xffu64,
            b7 == v & 0xffu64,
    ;
}

/// Reading a field back at an offset within a larger sequence.
proof fn lemma_be64_within(s: Seq<u8>, i: int, v: u64)
    requires
        0 <= i,
        i + 8 <= s.len(),
        s.subrange(i, i + 8) == be64(v),
    ensures
        be64_at(s, i) == v,
{
    lemma_be64(v);
    let b = be64(v);
    assert(s[i] == b[0] && s[i + 1] == b[1] && s[i + 2] == b[2] && s[i + 3] == b[3]);
    assert(s[i + 4] == b[4] && s[i + 5] == b[5] && s[i + 6] == b[6] && s[i + 7] == b[7]);
}

proof fn lemma_be32_within(s: Seq<u8>, i: int, v: u32)
    requires
        0 <= i,
        i + 4 <= s.len(),
        s.subrange(i, i + 4) == be32(v),
    ensures
        be32_at(s, i) == v,
{
    lemma_be32(v);
    let b = be32(v);
    assert(s[i] == b[0] && s[i + 1] == b[1] && s[i + 2] == b[2] && s[i + 3] == b[3]);
}

proof fn lemma_be16_within(s: Seq<u8>, i: int, v: u16)
    requires
        0 <= i,
        i + 2 <= s.len(),
        s.subrange(i, i + 2) == be16(v),
    ensures
        be16_at(s, i) == v,
{
    lemma_be16(v);
    let b = be16(v);
    assert(s[i] == b[0] && s[i + 1] == b[1]);
}

// ----- writing -----

spec fn slot_bytes(s: Seq<u8>, j: int) -> Seq<u8> {
    s.subrange(3 + 8 * j, 11 + 8 * j)
}

fn push_u16(out: &mut Vec<u8>, v: u16)
    ensures
        final(out)@ == old(out)@ + be16(v),
{
    out.push(((v >> 8) & 0xff) as u8);
    out.push((v & 0xff) as u8);
    assert(out@ =~= old(out)@ + be16(v));
}

fn push_u32(out: &mut Vec<u8>, v: u32)
    ensures
        final(out)@ == old(out)@ + be32(v),
{
    out.push(((v >> 24) & 0xff) as u8);
    out.push(((v >> 16) & 0xff) as u8);
    out.push(((v >> 8) & 0xff) as u8);
    out.push((v & 0xff) as u8);
    assert(out@ =~= old(out)@ + be32(v));
}

fn push_u64(out: &mut Vec<u8>, v: u64)
    ensures
        final(out)@ == old(out)@ + be64(v),
{
    out.push(((v >> 56) & 0xff) as u8);
    out.push(((v >> 48) & 0xff) as u8);
    out.push(((v >> 40) & 0xff) as u8);
    out.push(((v >> 32) & 0xff) as u8);
    out.push(((v >> 24) & 0xff) as u8);
    out.push(((v >> 16) & 0xff) as u8);
    out.push(((v >> 8) & 0xff) as u8);
    out.push((v & 0xff) as u8);
    assert(out@ =~= old(out)@ + be64(v));
}

fn push_bytes(out: &mut Vec<u8>, bytes: &[u8], n: usize)
    requires
        n <= bytes@.len(),
    ensures
        final(out)@ == old(out)@ + bytes@.subrange(0, n as int),
{
    let mut i: usize = 0;
    while i < n
        invariant
            n <= bytes@.len(),
            i <= n,
            out@ == old(out)@ + bytes@.subrange(0, i as int),
        decreases n - i,
    {
        out.push(bytes[i]);
        i += 1;
        assert(out@ =~= old(out)@ + bytes@.subrange(0, i as int));
    }
}

fn push_zeros(out: &mut Vec<u8>, n: usize)
    ensures
        final(out)@ == old(out)@ + zeros(n as nat),
{
    let mut i: usize = 0;
    while i < n
        invariant
            i <= n,
            out@ == old(out)@ + zeros(i as nat),
        decreases n - i,
    {
        out.push(0);
        i += 1;
        assert(out@ =~= old(out)@ + zeros(i as nat));
    }
}

/// XOR checksum over every byte but the first.
pub fn calculate_checksum(buf: &[u8]) -> (r: u8)
    requires
        buf@.len() >= 1,
    ensures
        r == xor_all(buf@.subrange(1, buf@.len() as int)),
{
    let mut acc: u8 = 0;
    let mut i: usize = 1;
    assert(buf@.subrange(1, 1) =~= Seq::<u8>::empty());
    while i < buf.len()
        invariant
            1 <= i <= buf@.len(),
            acc == xor_all(buf@.subrange(1, i as int)),
        decreases buf@.len() - i,
    {
        assert(buf@.subrange(1, i as int + 1).drop_last() =~= buf@.subrange(1, i as int));
        acc = acc ^ buf[i];
        i += 1;
    }
    acc
}

/// Lays down the checksum in front of a body, which becomes the frame.
fn seal(body: &Vec<u8>) -> (r: [u8; MESSAGE_TOTAL_SIZE])
    requires
        body@.len() == BODY_SIZE,
    ensures
        r@ == frame_of(body@),
{
    let mut buf = [0u8; MESSAGE_TOTAL_SIZE];
    let mut i: usize = 0;
    while i < BODY_SIZE
        invariant
            body@.len() == BODY_SIZE,
            i <= BODY_SIZE,
            buf@.len() == MESSAGE_TOTAL_SIZE,
            forall|j: int| 0 <= j < i ==> buf@[j + 1] == body@[j],
        decreases BODY_SIZE - i,
    {
        buf[i + 1] = body[i];
        i += 1;
    }
    assert(buf@.subrange(1, MESSAGE_TOTAL_SIZE as int) =~= body@);
    buf[0] = calculate_checksum(&buf);
    assert(buf@ =~= frame_of(body@));
    buf
}

/// Encodes an order as a SUBMIT frame.
pub fn serialize_order(order: &Order) -> (r: [u8; MESSAGE_TOTAL_SIZE])
    ensures
        r@ == frame_of(submit_body(*order)),
{
    let mut body: Vec<u8> = Vec::with_capacity(BODY_SIZE);
    body.push(MSG_ORDER_SUBMIT);
    push_u16(&mut body, order.product_id);
    push_u64(&mut body, order.order_id);
    push_u64(&mut body, order.price);
    push_u32(&mut body, order.quantity);
    body.push(order.order_type);
    body.push(order.price_type);
    push_u64(&mut body, order.submit_time);
    push_u64(&mut body, order.expire_time);
    push_zeros(&mut body, 8);
    assert(body@ =~= submit_body(*order));
    seal(&body)
}

/// Encodes the ids `start_index ..` (up to five) of a cancellation as a CANCEL frame;
/// unused slots hold 0, which is why no id in the chunk may be 0.
pub fn serialize_cancel_order_chunk(cancel: &CancelOrder, start_index: usize) -> (r: [u8;
    MESSAGE_TOTAL_SIZE])
    requires
        forall|k: int|
            0 <= k < MAX_IDS_PER_CHUNK ==> cancel_slot(cancel.order_ids@, start_index as int, k)
                != 0 || start_index + k >= cancel.order_ids@.len(),
    ensures
        r@ == frame_of(cancel_body(cancel.product_id, cancel.order_ids@, start_index as int)),
{
    let mut body: Vec<u8> = Vec::with_capacity(BODY_SIZE);
    body.push(MSG_ORDER_CANCEL);
    push_u16(&mut body, cancel.product_id);
    let total = cancel.order_ids.len();
    let mut k: usize = 0;
    while k < MAX_IDS_PER_CHUNK
        invariant
            k <= MAX_IDS_PER_CHUNK,
            total == cancel.order_ids@.len(),
            body@.len() == 3 + 8 * k,
            body@.subrange(0, 3) == seq![MSG_ORDER_CANCEL] + be16(cancel.product_id),
            forall|j: int|
                0 <= j < k ==> #[trigger] slot_bytes(body@, j) == be64(
                    cancel_slot(cancel.order_ids@, start_index as int, j),
                ),
        decreases MAX_IDS_PER_CHUNK - k,
    {
        let id: u64 = if start_index < total && k < total - start_index {
            cancel.order_ids[start_index + k]
        } else {
            0
        };
        let ghost before = body@;
        push_u64(&mut body, id);
        assert(body@.subrange(0, 3) =~= before.subrange(0, 3));
        assert forall|j: int| 0 <= j < k + 1 implies #[trigger] slot_bytes(body@, j) == be64(
            cancel_slot(cancel.order_ids@, start_index as int, j),
        ) by {
            if j < k {
                assert(slot_bytes(body@, j) =~= slot_bytes(before, j));
            } else {
                assert(slot_bytes(body@, j) =~= be64(id));
            }
        }
        k += 1;
    }
    let ghost mid = body@;
    push_zeros(&mut body, 6);
    let ghost ids = cancel.order_ids@;
    let ghost s = start_index as int;
    let ghost expected = cancel_body(cancel.product_id, ids, s);
    assert forall|j: int| 0 <= j < 5 implies #[trigger] slot_bytes(body@, j) == slot_bytes(mid, j) by {
        assert(slot_bytes(body@, j) =~= slot_bytes(mid, j));
    }
    assert(body@.subrange(0, 3) =~= mid.subrange(0, 3));
    assert forall|i: int| 0 <= i < BODY_SIZE implies body@[i] == expected[i] by {
        if i < 3 {
            assert(body@[i] == body@.subrange(0, 3)[i]);
        } else if i < 43 {
            let j = (i - 3) / 8;
            assert(slot_bytes(body@, j) == be64(cancel_slot(ids, s, j)));
            assert(body@[i] == slot_bytes(body@, j)[i - 3 - 8 * j]);
        }
    }
    assert(body@ =~= expected);
    seal(&body)
}

/// Encodes one execution as a TRADE frame, with `shared_time` in its last field.
pub fn serialize_trade(execution: &OrderExecution, shared_time: u32) -> (r: [u8;
    MESSAGE_TOTAL_SIZE])
    ensures
        r@ == frame_of(trade_body(*execution, shared_time)),
{
    let mut body: Vec<u8> = Vec::with_capacity(BODY_SIZE);
    body.push(MSG_TRADE_BROADCAST);
    push_bytes(&mut body, &execution.instance_tag, 8);
    push_u16(&mut body, execution.product_id);
    push_u64(&mut body, execution.buy_order_id);
    push_u64(&mut body, execution.sell_order_id);
    push_u64(&mut body, execution.price);
    push_u32(&mut body, execution.quantity);
    push_u32(&mut body, execution.trade_time_network);
    push_u32(&mut body, shared_time);
    push_zeros(&mut body, 2);
    assert(body@ =~= trade_body(*execution, shared_time));
    seal(&body)
}

/// Encodes a match result as one TRADE frame per execution, in order; each frame
/// carries the result's time per trade.
pub fn serialize_match_result(result: &MatchResult) -> (r: Vec<[u8; MESSAGE_TOTAL_SIZE]>)
    requires
        result.end_time >= result.start_time,
    ensures
        r@.len() == result.order_execution_list@.len(),
        forall|i: int|
            0 <= i < r@.len() ==> #[trigger] r@[i]@ == frame_of(
                trade_body(
                    result.order_execution_list@[i],
                    (if count_of(result) == 0 {
                        0
                    } else {
                        ((result.end_time - result.start_time) as int / count_of(
                            result,
                        ) as int) as u32
                    }),
                ),
            ),
{
    let shared = result.time_per_trade();
    let mut frames: Vec<[u8; MESSAGE_TOTAL_SIZE]> = Vec::with_capacity(
        result.order_execution_list.len(),
    );
    let mut i: usize = 0;
    while i < result.order_execution_list.len()
        invariant
            i <= result.order_execution_list@.len(),
            frames@.len() == i,
            forall|j: int|
                0 <= j < i ==> #[trigger] frames@[j]@ == frame_of(
                    trade_body(result.order_execution_list@[j], shared),
                ),
        decreases result.order_execution_list@.len() - i,
    {
        let f = serialize_trade(&result.order_execution_list[i], shared);
        frames.push(f);
        i += 1;
    }
    frames
}

/// Encodes a statistics snapshot as a STATS frame.
pub fn serialize_stats_result(stats: &BroadcastStats) -> (r: [u8; MESSAGE_TOTAL_SIZE])
    ensures
        r@ == frame_of(stats_body(*stats)),
{
    let mut body: Vec<u8> = Vec::with_capacity(BODY_SIZE);
    body.push(MSG_STATUS_BROADCAST);
    push_bytes(&mut body, &stats.instance_tag, 16);
    push_u16(&mut body, stats.product_id);
    push_u32(&mut body, stats.bids_size);
    push_u32(&mut body, stats.ask_size);
    push_u32(&mut body, stats.matched_orders);
    push_u32(&mut body, stats.total_received_orders);
    push_u64(&mut body, stats.start_time);
    push_zeros(&mut body, 6);
    assert(stats.instance_tag@.subrange(0, 16) =~= stats.instance_tag@);
    assert(body@ =~= stats_body(*stats));
    seal(&body)
}

// ----- reading -----

fn read_u16(p: &[u8], at: usize) -> (r: u16)
    requires
        at + 2 <= p@.len(),
    ensures
        r == be16_at(p@, at as int),
{
    ((p[at] as u16) << 8) | (p[at + 1] as u16)
}

fn read_u32(p: &[u8], at: usize) -> (r: u32)
    requires
        at + 4 <= p@.len(),
    ensures
        r == be32_at(p@, at as int),
{
    ((p[at] as u32) << 24) | ((p[at + 1] as u32) << 16) | ((p[at + 2] as u32) << 8) | (p[at
        + 3] as u32)
}

fn read_u64(p: &[u8], at: usize) -> (r: u64)
    requires
        at + 8 <= p@.len(),
    ensures
        r == be64_at(p@, at as int),
{
    ((p[at] as u64) << 56) | ((p[at + 1] as u64) << 48) | ((p[at + 2] as u64) << 40) | ((p[at
        + 3] as u64) << 32) | ((p[at + 4] as u64) << 24) | ((p[at + 5] as u64) << 16) | ((p[at
        + 6] as u64) << 8) | (p[at + 7] as u64)
}

/// Checks a received frame and splits it into its message type and payload.
pub fn unpack_message_payload(buf: &[u8]) -> (r: Result<(u8, Vec<u8>), CodecError>)
    ensures
        match r {
            Ok((t, p)) => unpacked(buf@) == Ok::<(u8, Seq<u8>), CodecError>((t, p@)),
            Err(e) => unpacked(buf@) == Err::<(u8, Seq<u8>), CodecError>(e),
        },
{
    if buf.len() != MESSAGE_TOTAL_SIZE {
        return Err(CodecError::LengthError);
    }
    let received = buf[0];
    let calculated = calculate_checksum(buf);
    if received != calculated {
        return Err(CodecError::ChecksumError);
    }
    let message_type = buf[1];
    if !(message_type == MSG_ORDER_SUBMIT || message_type == MSG_ORDER_CANCEL || message_type
        == MSG_TRADE_BROADCAST || message_type == MSG_STATUS_BROADCAST) {
        return Err(CodecError::UnknownType);
    }
    let mut payload: Vec<u8> = Vec::with_capacity(MESSAGE_TOTAL_SIZE - PAYLOAD_START);
    let mut i: usize = PAYLOAD_START;
    while i < MESSAGE_TOTAL_SIZE
        invariant
            buf@.len() == MESSAGE_TOTAL_SIZE,
            PAYLOAD_START <= i <= MESSAGE_TOTAL_SIZE,
            payload@ == buf@.subrange(PAYLOAD_START as int, i as int),
        decreases MESSAGE_TOTAL_SIZE - i,
    {
        payload.push(buf[i]);
        i += 1;
        assert(payload@ =~= buf@.subrange(PAYLOAD_START as int, i as int));
    }
    Ok((message_type, payload))
}

/// Decodes a SUBMIT payload.
pub fn deserialize_order(payload: &[u8]) -> (r: Result<Order, CodecError>)
    ensures
        payload@.len() < 40 ==> r == Err::<Order, CodecError>(CodecError::PayloadTooShort),
        payload@.len() >= 40 ==> r == Ok::<Order, CodecError>(order_of_payload(payload@)),
{
    if payload.len() < 40 {
        return Err(CodecError::PayloadTooShort);
    }
    Ok(
        Order {
            product_id: read_u16(payload, 0),
            order_id: read_u64(payload, 2),
            price: read_u64(payload, 10),
            quantity: read_u32(payload, 18),
            order_type: payload[22],
            price_type: payload[23],
            submit_time: read_u64(payload, 24),
            expire_time: read_u64(payload, 32),
        },
    )
}

/// Decodes a CANCEL payload: the product id and the non-zero ids of its five slots.
pub fn deserialize_cancel_order(payload: &[u8]) -> (r: Result<CancelOrder, CodecError>)
    ensures
        payload@.len() < 42 ==> r is Err && r->Err_0 == CodecError::PayloadTooShort,
        payload@.len() >= 42 ==> r is Ok && r->Ok_0.product_id == be16_at(payload@, 0)
            && r->Ok_0.order_ids@ == cancel_ids_of_payload(payload@, MAX_IDS_PER_CHUNK as int),
{
    if payload.len() < 2 + 8 * MAX_IDS_PER_CHUNK {
        return Err(CodecError::PayloadTooShort);
    }
    let product_id = read_u16(payload, 0);
    let mut order_ids: Vec<u64> = Vec::with_capacity(MAX_IDS_PER_CHUNK);
    let mut k: usize = 0;
    while k < MAX_IDS_PER_CHUNK
        invariant
            payload@.len() >= 42,
            k <= MAX_IDS_PER_CHUNK,
            order_ids@ == cancel_ids_of_payload(payload@, k as int),
        decreases MAX_IDS_PER_CHUNK - k,
    {
        let id = read_u64(payload, 2 + 8 * k);
        if id != 0 {
            order_ids.push(id);
        }
        k += 1;
    }
    Ok(CancelOrder { product_id, order_ids })
}

// ----- laws -----

/// A SUBMIT frame passes the checks of unpacking, and its payload decodes to the
/// order that was encoded.
pub proof fn lemma_submit_round_trip(o: Order)
    ensures
        unpacked(frame_of(submit_body(o))) is Ok,
        unpacked(frame_of(submit_body(o)))->Ok_0.0 == MSG_ORDER_SUBMIT,
        order_of_payload(unpacked(frame_of(submit_body(o)))->Ok_0.1) == o,
{
    let body = submit_body(o);
    let f = frame_of(body);
    assert(f.subrange(1, 50) =~= body);
    let p = f.subrange(2, 50);
    assert(p.subrange(0, 2) =~= be16(o.product_id));
    assert(p.subrange(2, 10) =~= be64(o.order_id));
    assert(p.subrange(10, 18) =~= be64(o.price));
    assert(p.subrange(18, 22) =~= be32(o.quantity));
    assert(p.subrange(24, 32) =~= be64(o.submit_time));
    assert(p.subrange(32, 40) =~= be64(o.expire_time));
    lemma_be16_within(p, 0, o.product_id);
    lemma_be64_within(p, 2, o.order_id);
    lemma_be64_within(p, 10, o.price);
    lemma_be32_within(p, 18, o.quantity);
    lemma_be64_within(p, 24, o.submit_time);
    lemma_be64_within(p, 32, o.expire_time);
    assert(p[22] == o.order_type && p[23] == o.price_type);
}

proof fn lemma_cancel_ids_prefix(p: Seq<u8>, ids: Seq<u64>, k: int)
    requires
        0 <= k <= 5,
        ids.len() <= MAX_IDS_PER_CHUNK,
        forall|i: int| 0 <= i < ids.len() ==> ids[i] != 0,
        forall|j: int| 0 <= j < 5 ==> be64_at(p, 2 + 8 * j) == cancel_slot(ids, 0, j),
    ensures
        cancel_ids_of_payload(p, k) =~= ids.subrange(0, if k < ids.len() {
            k
        } else {
            ids.len() as int
        }),
    decreases k,
{
    if k > 0 {
        lemma_cancel_ids_prefix(p, ids, k - 1);
        assert(be64_at(p, 2 + 8 * (k - 1)) == cancel_slot(ids, 0, k - 1));
    }
}

/// A CANCEL frame of up to five non-zero ids passes the checks of unpacking, and its
/// payload decodes to the same product id and ids.
pub proof fn lemma_cancel_round_trip(product_id: u16, ids: Seq<u64>)
    requires
        ids.len() <= MAX_IDS_PER_CHUNK,
        forall|i: int| 0 <= i < ids.len() ==> ids[i] != 0,
    ensures
        unpacked(frame_of(cancel_body(product_id, ids, 0))) is Ok,
        unpacked(frame_of(cancel_body(product_id, ids, 0)))->Ok_0.0 == MSG_ORDER_CANCEL,
        be16_at(unpacked(frame_of(cancel_body(product_id, ids, 0)))->Ok_0.1, 0) == product_id,
        cancel_ids_of_payload(
            unpacked(frame_of(cancel_body(product_id, ids, 0)))->Ok_0.1,
            MAX_IDS_PER_CHUNK as int,
        ) == ids,
{
    let body = cancel_body(product_id, ids, 0);
    let f = frame_of(body);
    assert(f.subrange(1, 50) =~= body);
    let p = f.subrange(2, 50);
    assert(p.subrange(0, 2) =~= be16(product_id));
    lemma_be16_within(p, 0, product_id);
    assert forall|k: int| 0 <= k < 5 implies be64_at(p, 2 + 8 * k) == cancel_slot(ids, 0, k) by {
        assert(p.subrange(2 + 8 * k, 10 + 8 * k) =~= be64(cancel_slot(ids, 0, k)));
        lemma_be64_within(p, 2 + 8 * k, cancel_slot(ids, 0, k));
    }
    lemma_cancel_ids_prefix(p, ids, 5);
    assert(ids.subrange(0, ids.len() as int) =~= ids);
}

} // verus!
