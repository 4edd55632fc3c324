use matching_engine::codec::{
    calculate_checksum, deserialize_cancel_order, deserialize_order, serialize_cancel_order_chunk,
    serialize_match_result, serialize_order, serialize_stats_result, serialize_trade,
    unpack_message_payload, CodecError,
};
use matching_engine::engine::decode_incoming;
use matching_engine::types::{
    BroadcastStats, CancelOrder, IncomingMessage, MatchResult, Order, OrderExecution,
    MSG_ORDER_CANCEL, MSG_ORDER_SUBMIT, MSG_STATUS_BROADCAST, MSG_TRADE_BROADCAST,
};

fn sample_order() -> Order {
    Order {
        product_id: 0x0102,
        order_id: 0x0102_0304_0506_0708,
        price: 12_345,
        quantity: 77,
        order_type: 2,
        price_type: 1,
        submit_time: 987_654_321,
        expire_time: 0,
    }
}

fn sample_execution() -> OrderExecution {
    OrderExecution {
        instance_tag: *b"ABCDEFGHIJKLMNOP",
        product_id: 9,
        buy_order_id: 11,
        sell_order_id: 12,
        price: 100,
        quantity: 5,
        trade_time_network: 1_500,
        internal_match_time: 0,
        is_mocked_result: false,
    }
}

fn xor(bytes: &[u8]) -> u8 {
    bytes.iter().fold(0, |a, b| a ^ b)
}

#[test]
fn submit_round_trip() {
    let o = sample_order();
    let frame = serialize_order(&o);
    assert_eq!(frame[1], MSG_ORDER_SUBMIT);
    assert_eq!(frame[0], xor(&frame[1..]));
    assert_eq!(&frame[2..4], &[0x01, 0x02]);
    assert_eq!(&frame[4..12], &[1, 2, 3, 4, 5, 6, 7, 8]);
    assert!(frame[42..].iter().all(|b| *b == 0));
    let (t, payload) = unpack_message_payload(&frame).unwrap();
    assert_eq!(t, MSG_ORDER_SUBMIT);
    assert_eq!(payload.len(), 48);
    assert_eq!(deserialize_order(&payload).unwrap(), o);
    match decode_incoming(&frame).unwrap() {
        IncomingMessage::Order(d) => assert_eq!(d, o),
        IncomingMessage::Cancel(_) => panic!("decoded a cancel"),
    }
}

#[test]
fn cancel_round_trip() {
    let c = CancelOrder { product_id: 3, order_ids: vec![5, 6, 7] };
    let frame = serialize_cancel_order_chunk(&c, 0);
    assert_eq!(frame[1], MSG_ORDER_CANCEL);
    assert_eq!(frame[0], xor(&frame[1..]));
    let (t, payload) = unpack_message_payload(&frame).unwrap();
    assert_eq!(t, MSG_ORDER_CANCEL);
    let d = deserialize_cancel_order(&payload).unwrap();
    assert_eq!(d.product_id, 3);
    assert_eq!(d.order_ids, vec![5, 6, 7]);
    match decode_incoming(&frame).unwrap() {
        IncomingMessage::Cancel(d) => assert_eq!(d.order_ids, vec![5, 6, 7]),
        IncomingMessage::Order(_) => panic!("decoded an order"),
    }
}

#[test]
fn cancel_chunks_of_five() {
    let c = CancelOrder { product_id: 3, order_ids: (1..=7).collect() };
    let second = serialize_cancel_order_chunk(&c, 5);
    let (_, payload) = unpack_message_payload(&second).unwrap();
    assert_eq!(deserialize_cancel_order(&payload).unwrap().order_ids, vec![6, 7]);
    let first = serialize_cancel_order_chunk(&c, 0);
    let (_, payload) = unpack_message_payload(&first).unwrap();
    assert_eq!(deserialize_cancel_order(&payload).unwrap().order_ids, vec![1, 2, 3, 4, 5]);
}

#[test]
fn checksum_is_xor_of_the_rest() {
    assert_eq!(calculate_checksum(&[0xff, 0x01, 0x02, 0x04]), 0x07);
    assert_eq!(calculate_checksum(&[0x00]), 0);
}

#[test]
fn decode_errors() {
    let mut frame = serialize_order(&sample_order());
    assert_eq!(unpack_message_payload(&frame[..49]).unwrap_err(), CodecError::LengthError);
    frame[10] ^= 0x40;
    assert_eq!(unpack_message_payload(&frame).unwrap_err(), CodecError::ChecksumError);
    let mut unknown = [0u8; 50];
    unknown[1] = 7;
    unknown[0] = xor(&unknown[1..]);
    assert_eq!(unpack_message_payload(&unknown).unwrap_err(), CodecError::UnknownType);
    assert_eq!(deserialize_order(&[0u8; 39]).unwrap_err(), CodecError::PayloadTooShort);
    assert_eq!(deserialize_cancel_order(&[0u8; 41]).unwrap_err(), CodecError::PayloadTooShort);
}

#[test]
fn trade_frames_are_not_inbound() {
    let frame = serialize_trade(&sample_execution(), 0);
    assert_eq!(decode_incoming(&frame).unwrap_err(), CodecError::UnknownType);
}

#[test]
fn trade_frame_layout() {
    let frame = serialize_trade(&sample_execution(), 42);
    assert_eq!(frame[1], MSG_TRADE_BROADCAST);
    assert_eq!(&frame[2..10], b"ABCDEFGH");
    assert_eq!(&frame[10..12], &[0, 9]);
    assert_eq!(&frame[12..20], &11u64.to_be_bytes());
    assert_eq!(&frame[20..28], &12u64.to_be_bytes());
    assert_eq!(&frame[28..36], &100u64.to_be_bytes());
    assert_eq!(&frame[36..40], &5u32.to_be_bytes());
    assert_eq!(&frame[40..44], &1_500u32.to_be_bytes());
    assert_eq!(&frame[44..48], &42u32.to_be_bytes());
    assert_eq!(frame[0], xor(&frame[1..]));
}

#[test]
fn match_result_frames_share_time_per_trade() {
    let mut r = MatchResult::new(2);
    r.add_order_execution(sample_execution());
    r.add_order_execution(sample_execution());
    r.start_time = 1_000;
    r.end_time = 1_300;
    assert_eq!(r.total_count(), 2);
    assert_eq!(r.total_time(), 300);
    assert_eq!(r.time_per_trade(), 150);
    let frames = serialize_match_result(&r);
    assert_eq!(frames.len(), 2);
    for f in &frames {
        assert_eq!(&f[44..48], &150u32.to_be_bytes());
    }
    assert_eq!(MatchResult::new(0).time_per_trade(), 0);
}

#[test]
fn stats_frame_layout() {
    let s = BroadcastStats {
        instance_tag: *b"0123456789abcdef",
        product_id: 2,
        bids_size: 3,
        ask_size: 4,
        matched_orders: 5,
        total_received_orders: 6,
        start_time: 7,
    };
    let frame = serialize_stats_result(&s);
    assert_eq!(frame[1], MSG_STATUS_BROADCAST);
    assert_eq!(&frame[2..18], b"0123456789abcdef");
    assert_eq!(&frame[18..20], &[0, 2]);
    assert_eq!(&frame[20..24], &3u32.to_be_bytes());
    assert_eq!(&frame[24..28], &4u32.to_be_bytes());
    assert_eq!(&frame[28..32], &5u32.to_be_bytes());
    assert_eq!(&frame[32..36], &6u32.to_be_bytes());
    assert_eq!(&frame[36..44], &7u64.to_be_bytes());
    assert_eq!(frame[0], xor(&frame[1..]));
}
