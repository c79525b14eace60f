use miniserve::bridge::{ReceiveOutcome, StreamBridge};
use miniserve::entry::ArchiveError;
use miniserve::producer::{FlushOutcome, Producer, ProducerPhase};

fn drain(bridge: &mut StreamBridge) -> Vec<(u64, Vec<u8>)> {
    let mut out = Vec::new();
    while let ReceiveOutcome::Chunk(c) = bridge.try_receive() {
        out.push((c.sequence, c.data));
    }
    out
}

#[test]
fn a_producer_needs_room_for_a_byte() {
    assert!(Producer::new(0).is_none());
    let producer = Producer::new(1).unwrap();
    assert_eq!(producer.phase(), ProducerPhase::Running);
    assert_eq!(producer.waiting(), 0);
}

#[test]
fn bytes_are_cut_numbered_and_sent_in_order() {
    let mut producer = Producer::new(4).unwrap();
    let mut bridge = StreamBridge::new(100);
    assert!(producer.enqueue(b"abcdefghij"));
    assert!(producer.enqueue(b"kl"));
    assert_eq!(producer.waiting(), 4);
    assert_eq!(producer.flush(&mut bridge), FlushOutcome::Drained);
    assert_eq!(producer.waiting(), 0);
    assert_eq!(
        drain(&mut bridge),
        vec![
            (0, b"abcd".to_vec()),
            (1, b"efgh".to_vec()),
            (2, b"ij".to_vec()),
            (3, b"kl".to_vec()),
        ]
    );
}

#[test]
fn a_full_bridge_blocks_the_flush_until_the_consumer_has_read() {
    let mut producer = Producer::new(4).unwrap();
    let mut bridge = StreamBridge::new(6);
    producer.enqueue(b"abcdefghij");
    assert_eq!(producer.flush(&mut bridge), FlushOutcome::Blocked);
    assert_eq!(producer.waiting(), 2);
    assert_eq!(bridge.buffered_bytes(), 4);
    assert_eq!(producer.flush(&mut bridge), FlushOutcome::Blocked);
    assert_eq!(drain(&mut bridge), vec![(0, b"abcd".to_vec())]);
    assert_eq!(producer.flush(&mut bridge), FlushOutcome::Drained);
    assert_eq!(producer.waiting(), 0);
    assert_eq!(bridge.buffered_bytes(), 6);
    assert_eq!(drain(&mut bridge), vec![(1, b"efgh".to_vec()), (2, b"ij".to_vec())]);
}

#[test]
fn cancellation_stops_the_producer_without_an_error() {
    let mut producer = Producer::new(4).unwrap();
    let mut bridge = StreamBridge::new(6);
    producer.enqueue(b"abcdefghij");
    producer.flush(&mut bridge);
    bridge.cancel();
    assert_eq!(producer.flush(&mut bridge), FlushOutcome::Stopped);
    assert_eq!(producer.phase(), ProducerPhase::Cancelled);
    assert_eq!(producer.waiting(), 0);
    assert!(!producer.enqueue(b"more"));
    assert_eq!(producer.waiting(), 0);
    assert_eq!(producer.flush(&mut bridge), FlushOutcome::Stopped);
    assert!(!producer.finish(&mut bridge));
    assert_eq!(bridge.buffered_bytes(), 0);
    assert_eq!(bridge.terminal_error(), None);
}

#[test]
fn cancellation_is_seen_even_with_an_empty_outbox() {
    let mut producer = Producer::new(4).unwrap();
    let mut bridge = StreamBridge::new(6);
    bridge.cancel();
    assert_eq!(producer.flush(&mut bridge), FlushOutcome::Stopped);
    assert_eq!(producer.phase(), ProducerPhase::Cancelled);
}

#[test]
fn a_failure_is_passed_to_the_consumer() {
    let mut producer = Producer::new(4).unwrap();
    let mut bridge = StreamBridge::new(100);
    producer.enqueue(b"abcdef");
    producer.flush(&mut bridge);
    producer.enqueue(b"gh");
    producer.fail(&mut bridge, ArchiveError::SizeMismatch);
    assert_eq!(producer.phase(), ProducerPhase::Failed(ArchiveError::SizeMismatch));
    assert_eq!(producer.waiting(), 0);
    assert!(matches!(bridge.try_receive(), ReceiveOutcome::Failed(ArchiveError::SizeMismatch)));
    producer.fail(&mut bridge, ArchiveError::TransportWrite);
    assert_eq!(producer.phase(), ProducerPhase::Failed(ArchiveError::SizeMismatch));
    assert_eq!(bridge.terminal_error(), Some(ArchiveError::SizeMismatch));
}

#[test]
fn finishing_closes_the_bridge_once_the_outbox_is_empty() {
    let mut producer = Producer::new(4).unwrap();
    let mut bridge = StreamBridge::new(4);
    producer.enqueue(b"abcdef");
    producer.flush(&mut bridge);
    assert!(!producer.finish(&mut bridge));
    assert!(!bridge.is_closed());
    drain(&mut bridge);
    assert_eq!(producer.flush(&mut bridge), FlushOutcome::Drained);
    assert!(producer.finish(&mut bridge));
    assert_eq!(producer.phase(), ProducerPhase::Finished);
    assert!(bridge.is_closed());
    assert_eq!(drain(&mut bridge), vec![(1, b"ef".to_vec())]);
    assert!(matches!(bridge.try_receive(), ReceiveOutcome::End));
    assert!(!producer.finish(&mut bridge));
}

#[test]
fn a_bridge_closed_under_the_producer_shuts_it() {
    let mut producer = Producer::new(4).unwrap();
    let mut bridge = StreamBridge::new(10);
    bridge.close();
    producer.enqueue(b"ab");
    assert_eq!(producer.flush(&mut bridge), FlushOutcome::Stopped);
    assert_eq!(producer.phase(), ProducerPhase::Shut);
}

#[test]
fn chunks_larger_than_the_bridge_fail_the_stream() {
    let mut producer = Producer::new(8).unwrap();
    let mut bridge = StreamBridge::new(4);
    producer.enqueue(b"abcdefgh");
    assert_eq!(producer.flush(&mut bridge), FlushOutcome::Stopped);
    assert_eq!(producer.phase(), ProducerPhase::Failed(ArchiveError::SequenceViolation));
    assert_eq!(bridge.terminal_error(), Some(ArchiveError::SequenceViolation));
}
