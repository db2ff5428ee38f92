use raknet::ack::{decode_ack_records, AckRecord, AckTracker};
use raknet::compound::CompoundCollector;
use raknet::connection::{
    classify_payload, Connection, ConnectionConfig, PayloadAction, PayloadKind, Received,
};
use raknet::error::ErrorKind;
use raknet::frame::{decode_batch, decode_frame, encode_batch, encode_frame, Frame, Reliability};
use raknet::order::OrderChannel;
use raknet::resend::{is_listed, ResendQueue};

fn frame_bytes(
    tag: u8,
    compound: Option<(u32, u16, u32)>,
    reliable_index: u32,
    sequence_index: u32,
    order: (u32, u8),
    body: &[u8],
) -> Vec<u8> {
    let mut out = Vec::new();
    let flags = (tag << 5) | if compound.is_some() { 0x10 } else { 0 };
    out.push(flags);
    let bits = (body.len() * 8) as u16;
    out.extend_from_slice(&bits.to_be_bytes());
    if tag == 2 || tag == 3 || tag == 4 {
        out.extend_from_slice(&reliable_index.to_le_bytes()[..3]);
    }
    if tag == 1 || tag == 4 {
        out.extend_from_slice(&sequence_index.to_le_bytes()[..3]);
    }
    if tag == 1 || tag == 3 || tag == 4 {
        out.extend_from_slice(&order.0.to_le_bytes()[..3]);
        out.push(order.1);
    }
    if let Some((size, id, index)) = compound {
        out.extend_from_slice(&size.to_be_bytes());
        out.extend_from_slice(&id.to_be_bytes());
        out.extend_from_slice(&index.to_be_bytes());
    }
    out.extend_from_slice(body);
    out
}

fn batch_bytes(seq: u32, frames: &[Vec<u8>]) -> Vec<u8> {
    let mut out = vec![0x84];
    out.extend_from_slice(&seq.to_le_bytes()[..3]);
    for f in frames {
        out.extend_from_slice(f);
    }
    out
}

fn ordered(index: u32) -> Frame {
    let mut f = Frame::default();
    f.reliability = Reliability::ReliableOrdered;
    f.order_index = index;
    f.body = vec![index as u8];
    f
}

fn sequenced(index: u32) -> Frame {
    let mut f = Frame::default();
    f.reliability = Reliability::ReliableSequenced;
    f.order_index = index;
    f.sequence_index = index;
    f.body = vec![index as u8];
    f
}

fn fragment(id: u16, size: u32, index: u32, body: &[u8]) -> Frame {
    let mut f = Frame::default();
    f.reliability = Reliability::ReliableOrdered;
    f.is_compound = true;
    f.compound_id = id;
    f.compound_size = size;
    f.compound_index = index;
    f.body = body.to_vec();
    f
}

fn config() -> ConnectionConfig {
    ConnectionConfig { max_pending_compounds: 4, max_compound_size: 8 }
}

fn payloads(r: Received) -> Vec<Vec<u8>> {
    match r {
        Received::Payloads(p) => p,
        _ => panic!("expected payloads"),
    }
}

#[test]
fn order_channel() {
    let mut channel = OrderChannel::new();

    let mut test_frame = Frame::default();
    test_frame.order_index = 0;
    assert!(channel.insert(test_frame).unwrap().is_some());

    let mut test_frame = Frame::default();
    test_frame.order_index = 2;
    assert!(channel.insert(test_frame).unwrap().is_none());

    let mut test_frame = Frame::default();
    test_frame.order_index = 1;
    let output = channel.insert(test_frame).unwrap().unwrap();

    assert_eq!(output.len(), 2);
    assert_eq!(output[0].order_index, 1);
    assert_eq!(output[1].order_index, 2);
}

#[test]
fn order_channel_releases_consecutive_run() {
    let mut channel = OrderChannel::new();
    assert!(channel.insert(ordered(3)).unwrap().is_none());
    assert!(channel.insert(ordered(1)).unwrap().is_none());
    let first = channel.insert(ordered(0)).unwrap().unwrap();
    assert_eq!(first.iter().map(|f| f.order_index).collect::<Vec<_>>(), vec![0, 1]);
    let second = channel.insert(ordered(2)).unwrap().unwrap();
    assert_eq!(second.iter().map(|f| f.order_index).collect::<Vec<_>>(), vec![2, 3]);
    assert_eq!(channel.next_expected_index(), 4);
}

#[test]
fn sequenced_drop_rule() {
    let mut channel = OrderChannel::new();
    let five = channel.insert(sequenced(5)).unwrap().unwrap();
    assert_eq!(five.len(), 1);
    assert_eq!(five[0].order_index, 5);
    assert!(channel.insert(sequenced(3)).unwrap().is_none());
    let seven = channel.insert(sequenced(7)).unwrap().unwrap();
    assert_eq!(seven.len(), 1);
    assert_eq!(seven[0].order_index, 7);
}

#[test]
fn duplicate_ordered_frame_released_once() {
    let mut channel = OrderChannel::new();
    assert_eq!(channel.insert(ordered(0)).unwrap().unwrap().len(), 1);
    assert!(channel.insert(ordered(0)).unwrap().is_none());
    assert!(channel.insert(ordered(2)).unwrap().is_none());
    assert!(channel.insert(ordered(2)).unwrap().is_none());
    let run = channel.insert(ordered(1)).unwrap().unwrap();
    assert_eq!(run.len(), 2);
    assert!(channel.insert(ordered(2)).unwrap().is_none());
}

#[test]
fn order_gap_beyond_window_is_rejected() {
    let mut channel = OrderChannel::new();
    let err = channel.insert(ordered(257)).unwrap_err();
    assert_eq!(err.kind(), ErrorKind::ResourceExceeded);
    assert!(channel.insert(ordered(256)).unwrap().is_none());
}

fn reassemble(order: &[u32]) -> Vec<u8> {
    let parts: [&[u8]; 3] = [b"ab", b"cd", b"e"];
    let mut collector = CompoundCollector::new(4, 8);
    let mut result = None;
    for (n, &i) in order.iter().enumerate() {
        let out = collector.insert(fragment(9, 3, i, parts[i as usize]), 0).unwrap();
        if n + 1 < order.len() {
            assert!(out.is_none());
        } else {
            result = out;
        }
    }
    assert_eq!(collector.pending_count(), 0);
    let f = result.unwrap();
    assert!(!f.is_compound);
    f.body
}

#[test]
fn compound_reassembles_in_index_order() {
    assert_eq!(reassemble(&[0, 1, 2]), b"abcde".to_vec());
    assert_eq!(reassemble(&[1, 0, 2]), b"abcde".to_vec());
    assert_eq!(reassemble(&[2, 1, 0]), b"abcde".to_vec());
}

#[test]
fn compound_duplicate_fragment_does_not_trigger() {
    let mut collector = CompoundCollector::new(4, 8);
    assert!(collector.insert(fragment(1, 3, 0, b"x"), 0).unwrap().is_none());
    assert!(collector.insert(fragment(1, 3, 0, b"x"), 0).unwrap().is_none());
    assert!(collector.insert(fragment(1, 3, 1, b"y"), 0).unwrap().is_none());
    assert!(collector.insert(fragment(1, 3, 1, b"y"), 0).unwrap().is_none());
    let done = collector.insert(fragment(1, 3, 2, b"z"), 0).unwrap().unwrap();
    assert_eq!(done.body, b"xyz".to_vec());
}

#[test]
fn compound_caps_are_enforced() {
    let mut collector = CompoundCollector::new(2, 8);
    let err = collector.insert(fragment(1, 9, 0, b"a"), 0).unwrap_err();
    assert_eq!(err.kind(), ErrorKind::ResourceExceeded);
    assert!(collector.insert(fragment(1, 2, 0, b"a"), 0).unwrap().is_none());
    assert!(collector.insert(fragment(2, 2, 0, b"a"), 0).unwrap().is_none());
    let err = collector.insert(fragment(3, 2, 0, b"a"), 0).unwrap_err();
    assert_eq!(err.kind(), ErrorKind::ResourceExceeded);
    assert_eq!(collector.pending_count(), 2);
}

#[test]
fn compound_malformed_fragments() {
    let mut collector = CompoundCollector::new(2, 8);
    let err = collector.insert(fragment(1, 2, 2, b"a"), 0).unwrap_err();
    assert_eq!(err.kind(), ErrorKind::Malformed);
    assert!(collector.insert(fragment(1, 2, 0, b"a"), 0).unwrap().is_none());
    let err = collector.insert(fragment(1, 3, 1, b"a"), 0).unwrap_err();
    assert_eq!(err.kind(), ErrorKind::Malformed);
}

#[test]
fn single_fragment_compound_completes_at_once() {
    let mut collector = CompoundCollector::new(0, 8);
    let f = collector.insert(fragment(5, 1, 0, b"solo"), 0).unwrap().unwrap();
    assert_eq!(f.body, b"solo".to_vec());
}

#[test]
fn stale_compounds_are_evicted() {
    let mut collector = CompoundCollector::new(4, 8);
    assert!(collector.insert(fragment(1, 2, 0, b"a"), 10).unwrap().is_none());
    assert!(collector.insert(fragment(2, 2, 0, b"b"), 20).unwrap().is_none());
    collector.evict_started_before(15);
    assert_eq!(collector.pending_count(), 1);
    // The evicted compound starts over: its second fragment alone does not complete it.
    assert!(collector.insert(fragment(1, 2, 1, b"c"), 30).unwrap().is_none());
    let done = collector.insert(fragment(2, 2, 1, b"d"), 30).unwrap().unwrap();
    assert_eq!(done.body, b"bd".to_vec());

    let mut conn = Connection::new(config());
    let frames = [frame_bytes(3, Some((2, 4, 0)), 0, 0, (0, 0), b"x")];
    assert!(payloads(conn.handle_datagram(&batch_bytes(1, &frames), 5).unwrap()).is_empty());
    conn.evict_stale_compounds(6);
    let frames = [frame_bytes(3, Some((2, 4, 1)), 0, 0, (0, 0), b"y")];
    assert!(payloads(conn.handle_datagram(&batch_bytes(2, &frames), 7).unwrap()).is_empty());
}

#[test]
fn high_water_mark_never_decreases() {
    let mut acks = AckTracker::new();
    acks.record_received(10);
    assert_eq!(acks.highest_seen(), 10);
    acks.record_received(4);
    assert_eq!(acks.highest_seen(), 10);
    acks.record_received(4);
    assert_eq!(acks.take_pending_acks(), vec![10, 4]);
    assert!(acks.take_pending_acks().is_empty());
    assert_eq!(acks.highest_seen(), 10);
}

#[test]
fn decode_frame_fields() {
    let bytes = frame_bytes(3, Some((2, 0x0102, 1)), 0x030201, 0, (0x0a0b0c, 5), b"hi");
    let (f, end) = decode_frame(&bytes, 0).unwrap();
    assert_eq!(end, bytes.len());
    assert_eq!(f.reliability, Reliability::ReliableOrdered);
    assert!(f.is_compound);
    assert_eq!(f.reliable_index, 0x030201);
    assert_eq!(f.order_index, 0x0a0b0c);
    assert_eq!(f.order_channel, 5);
    assert_eq!(f.compound_size, 2);
    assert_eq!(f.compound_id, 0x0102);
    assert_eq!(f.compound_index, 1);
    assert_eq!(f.body, b"hi".to_vec());
}

#[test]
fn decode_rejects_malformed_input() {
    assert_eq!(decode_frame(&[], 0).unwrap_err().kind(), ErrorKind::Malformed);
    assert_eq!(decode_frame(&[0xe0, 0, 8, 1], 0).unwrap_err().kind(), ErrorKind::Malformed);
    let zero = frame_bytes(2, Some((0, 1, 0)), 0, 0, (0, 0), b"a");
    assert_eq!(decode_frame(&zero, 0).unwrap_err().kind(), ErrorKind::Malformed);
    let mut truncated = frame_bytes(0, None, 0, 0, (0, 0), b"abc");
    truncated.pop();
    assert_eq!(decode_frame(&truncated, 0).unwrap_err().kind(), ErrorKind::Malformed);
    let good = frame_bytes(0, None, 0, 0, (0, 0), b"abc");
    assert_eq!(decode_batch(&batch_bytes(1, &[good, truncated])).unwrap_err().kind(), ErrorKind::Malformed);
    assert_eq!(decode_batch(&[0x84, 0, 0]).unwrap_err().kind(), ErrorKind::Malformed);
}

#[test]
fn decode_batch_keeps_wire_order() {
    let a = frame_bytes(0, None, 0, 0, (0, 0), b"a");
    let b = frame_bytes(1, None, 0, 9, (4, 1), b"bb");
    let batch = decode_batch(&batch_bytes(0x010203, &[a, b])).unwrap();
    assert_eq!(batch.sequence_number, 0x010203);
    assert_eq!(batch.frames.len(), 2);
    assert_eq!(batch.frames[0].body, b"a".to_vec());
    assert_eq!(batch.frames[1].sequence_index, 9);
    assert_eq!(batch.frames[1].order_index, 4);
    assert_eq!(batch.frames[1].order_channel, 1);
}

#[test]
fn end_to_end_ordered_batch() {
    let mut conn = Connection::new(config());
    let frames = [
        frame_bytes(3, None, 2, 0, (2, 0), b"c"),
        frame_bytes(3, None, 0, 0, (0, 0), b"a"),
        frame_bytes(3, None, 1, 0, (1, 0), b"b"),
    ];
    let datagram = batch_bytes(7, &frames);
    let batch = decode_batch(&datagram).unwrap();
    let mut emissions = Vec::new();
    for f in batch.frames {
        let out = conn.handle_frame(f, batch.sequence_number, 0).unwrap();
        if !out.is_empty() {
            emissions.push(out);
        }
    }
    assert_eq!(emissions, vec![vec![b"a".to_vec()], vec![b"b".to_vec(), b"c".to_vec()]]);
    assert_eq!(conn.take_pending_acks(), vec![7]);

    let mut conn = Connection::new(config());
    let out = payloads(conn.handle_datagram(&datagram, 0).unwrap());
    assert_eq!(out, vec![b"a".to_vec(), b"b".to_vec(), b"c".to_vec()]);
    assert_eq!(conn.highest_seen(), 7);
    assert_eq!(conn.take_pending_acks(), vec![7]);
}

#[test]
fn connection_reassembles_fragments_then_orders() {
    let mut conn = Connection::new(config());
    let frames = [
        frame_bytes(3, Some((2, 4, 1)), 0, 0, (0, 0), b"lo"),
        frame_bytes(3, Some((2, 4, 0)), 1, 0, (0, 0), b"hel"),
        frame_bytes(0, None, 0, 0, (0, 0), b"raw"),
    ];
    let out = payloads(conn.handle_datagram(&batch_bytes(1, &frames), 0).unwrap());
    assert_eq!(out, vec![b"hello".to_vec(), b"raw".to_vec()]);
}

#[test]
fn connection_drops_stale_sequenced_frames() {
    let mut conn = Connection::new(config());
    let frames = [frame_bytes(1, None, 0, 3, (0, 0), b"old")];
    let out = payloads(conn.handle_datagram(&batch_bytes(5, &frames), 0).unwrap());
    assert!(out.is_empty());
    let frames = [frame_bytes(1, None, 0, 6, (0, 0), b"new")];
    let out = payloads(conn.handle_datagram(&batch_bytes(6, &frames), 0).unwrap());
    assert_eq!(out, vec![b"new".to_vec()]);
}

#[test]
fn connection_closes_on_errors() {
    let mut conn = Connection::new(config());
    assert_eq!(conn.handle_datagram(&[], 0).unwrap_err().kind(), ErrorKind::Malformed);
    assert!(!conn.is_open());
    let frames = [frame_bytes(0, None, 0, 0, (0, 0), b"x")];
    assert!(payloads(conn.handle_datagram(&batch_bytes(1, &frames), 0).unwrap()).is_empty());

    let mut conn = Connection::new(config());
    let frames = [frame_bytes(3, None, 0, 0, (0, 40), b"x")];
    let err = conn.handle_datagram(&batch_bytes(1, &frames), 0).unwrap_err();
    assert_eq!(err.kind(), ErrorKind::Malformed);
    assert!(!conn.is_open());

    let mut conn = Connection::new(config());
    let frames = [frame_bytes(3, Some((20, 1, 0)), 0, 0, (0, 0), b"x")];
    let err = conn.handle_datagram(&batch_bytes(1, &frames), 0).unwrap_err();
    assert_eq!(err.kind(), ErrorKind::ResourceExceeded);
    assert!(!conn.is_open());
}

#[test]
fn connection_hands_back_acknowledgments() {
    let mut conn = Connection::new(config());
    match conn.handle_datagram(&[0xc0, 0, 2, 1, 5, 0, 0, 0, 7, 0, 0, 9, 0, 0], 0).unwrap() {
        Received::Ack(b) => assert_eq!(
            b,
            vec![AckRecord { first: 5, last: 5 }, AckRecord { first: 7, last: 9 }]
        ),
        _ => panic!("expected ack"),
    }
    match conn.handle_datagram(&[0xa0, 0, 1, 1, 3, 0, 0], 0).unwrap() {
        Received::Nak(b) => assert_eq!(b, vec![AckRecord { first: 3, last: 3 }]),
        _ => panic!("expected nak"),
    }
    assert!(conn.is_open());
    let err = conn.handle_datagram(&[0xc0, 0, 1, 0, 9, 0, 0, 7, 0, 0], 0).unwrap_err();
    assert_eq!(err.kind(), ErrorKind::Malformed);
    assert!(!conn.is_open());

    let mut conn = Connection::new(config());
    conn.disconnect();
    assert!(!conn.is_open());
}

#[test]
fn ack_record_decoding() {
    assert_eq!(decode_ack_records(&[0xc0, 0, 0]).unwrap(), vec![]);
    assert_eq!(
        decode_ack_records(&[0xc0, 0, 1, 0, 1, 1, 0, 2, 1, 0]).unwrap(),
        vec![AckRecord { first: 0x101, last: 0x102 }]
    );
    assert_eq!(decode_ack_records(&[0xc0, 0, 2, 1, 5, 0, 0]).unwrap_err().kind(), ErrorKind::Malformed);
    assert_eq!(decode_ack_records(&[0xc0, 0]).unwrap_err().kind(), ErrorKind::Malformed);
}

#[test]
fn payload_classification() {
    assert_eq!(classify_payload(&[0xfe, 1]).unwrap(), PayloadKind::Game);
    assert_eq!(classify_payload(&[0x15]).unwrap(), PayloadKind::Disconnect);
    assert_eq!(classify_payload(&[0x09]).unwrap(), PayloadKind::ConnectionRequest);
    assert_eq!(classify_payload(&[0x13]).unwrap(), PayloadKind::NewIncomingConnection);
    assert_eq!(classify_payload(&[0x00]).unwrap(), PayloadKind::ConnectedPing);
    assert_eq!(classify_payload(&[0x42]).unwrap_err().kind(), ErrorKind::Malformed);
    assert_eq!(classify_payload(&[]).unwrap_err().kind(), ErrorKind::Malformed);
}

#[test]
fn encode_frame_round_trip() {
    let mut f = fragment(7, 3, 2, b"payload");
    f.reliability = Reliability::ReliableSequenced;
    f.reliable_index = 11;
    f.sequence_index = 12;
    f.order_index = 13;
    f.order_channel = 4;
    let mut buf = vec![0xaa];
    encode_frame(&f, &mut buf);
    assert_eq!(buf[0], 0xaa);
    let (g, end) = decode_frame(&buf, 1).unwrap();
    assert_eq!(end, buf.len());
    assert_eq!(g.reliability, Reliability::ReliableSequenced);
    assert_eq!((g.reliable_index, g.sequence_index, g.order_index, g.order_channel), (11, 12, 13, 4));
    assert_eq!((g.compound_size, g.compound_id, g.compound_index), (3, 7, 2));
    assert_eq!(g.body, b"payload".to_vec());

    let mut plain = Frame::default();
    plain.order_index = 99;
    plain.body = vec![1, 2];
    let mut buf = Vec::new();
    encode_frame(&plain, &mut buf);
    assert_eq!(buf, vec![0x00, 0x00, 0x10, 1, 2]);
    let (g, _) = decode_frame(&buf, 0).unwrap();
    assert_eq!(g.order_index, 0);
}

#[test]
fn encode_batch_round_trip() {
    let frames = vec![ordered(2), sequenced(5), fragment(3, 2, 1, b"zz")];
    let bytes = encode_batch(0x0a0b0c, &frames);
    assert_eq!(&bytes[..4], &[0x84, 0x0c, 0x0b, 0x0a]);
    let batch = decode_batch(&bytes).unwrap();
    assert_eq!(batch.sequence_number, 0x0a0b0c);
    assert_eq!(batch.frames.len(), 3);
    assert_eq!(batch.frames[0].order_index, 2);
    assert_eq!(batch.frames[0].body, vec![2]);
    assert_eq!(batch.frames[1].sequence_index, 5);
    assert_eq!(batch.frames[1].reliability, Reliability::ReliableSequenced);
    assert!(batch.frames[2].is_compound);
    assert_eq!(batch.frames[2].compound_index, 1);
    assert_eq!(batch.frames[2].body, b"zz".to_vec());

    let empty = encode_batch(1, &Vec::new());
    assert_eq!(empty, vec![0x84, 1, 0, 0]);
    assert!(decode_batch(&empty).unwrap().frames.is_empty());
}

#[test]
fn connection_lifecycle() {
    let mut conn = Connection::new(config());
    assert_eq!(conn.on_payload(PayloadKind::Game), PayloadAction::Reject);
    assert_eq!(conn.on_payload(PayloadKind::ConnectionRequest), PayloadAction::Respond);
    assert_eq!(conn.on_payload(PayloadKind::NewIncomingConnection), PayloadAction::Accept);
    assert_eq!(conn.on_payload(PayloadKind::Game), PayloadAction::Forward);
    assert_eq!(conn.on_payload(PayloadKind::ConnectedPing), PayloadAction::Respond);
    assert_eq!(conn.on_payload(PayloadKind::Disconnect), PayloadAction::Close);
    assert!(!conn.is_open());
    assert_eq!(conn.on_payload(PayloadKind::Game), PayloadAction::Ignore);
    let frames = [frame_bytes(0, None, 0, 0, (0, 0), b"late")];
    assert!(payloads(conn.handle_datagram(&batch_bytes(3, &frames), 0).unwrap()).is_empty());
}

#[test]
fn resend_queue_follows_acknowledgments() {
    let mut q = ResendQueue::new();
    q.record_sent(1, vec![1]);
    q.record_sent(2, vec![2, 2]);
    q.record_sent(3, vec![3]);
    q.record_sent(7, vec![7]);
    let nak = vec![AckRecord { first: 2, last: 3 }];
    assert_eq!(q.to_resend(&nak), vec![vec![2, 2], vec![3]]);
    assert_eq!(q.len(), 4);
    let ack = vec![AckRecord { first: 1, last: 2 }, AckRecord { first: 7, last: 7 }];
    q.acknowledge(&ack);
    assert_eq!(q.len(), 1);
    assert_eq!(q.to_resend(&nak), vec![vec![3]]);
    assert!(is_listed(&ack, 7));
    assert!(!is_listed(&ack, 5));
}
