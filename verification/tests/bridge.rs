use miniserve::bridge::{ChunkSequencer, EncodedChunk, ReceiveOutcome, SendVerdict, StreamBridge};
use miniserve::entry::ArchiveError;

fn chunk(sequence: u64, len: usize) -> EncodedChunk {
    EncodedChunk { sequence, data: vec![sequence as u8; len] }
}

fn take(bridge: &mut StreamBridge) -> (u64, Vec<u8>) {
    match bridge.try_receive() {
        ReceiveOutcome::Chunk(c) => (c.sequence, c.data),
        _ => panic!("no chunk"),
    }
}

#[test]
fn chunks_come_out_in_the_order_they_went_in() {
    let mut bridge = StreamBridge::new(100);
    for i in 0..5 {
        assert_eq!(bridge.try_send(chunk(i, 10)).0, SendVerdict::Accepted);
    }
    assert_eq!(bridge.buffered_bytes(), 50);
    for i in 0..5 {
        assert_eq!(take(&mut bridge), (i, vec![i as u8; 10]));
    }
    assert_eq!(bridge.buffered_bytes(), 0);
    assert!(matches!(bridge.try_receive(), ReceiveOutcome::Pending));
}

#[test]
fn a_full_bridge_hands_the_chunk_back() {
    let mut bridge = StreamBridge::new(10);
    assert_eq!(bridge.try_send(chunk(0, 6)).0, SendVerdict::Accepted);
    let (verdict, back) = bridge.try_send(chunk(1, 5));
    assert_eq!(verdict, SendVerdict::Full);
    let back = back.unwrap();
    assert_eq!((back.sequence, back.data.len()), (1, 5));
    assert_eq!(bridge.buffered_bytes(), 6);
    assert_eq!(take(&mut bridge).0, 0);
    let (verdict, back) = bridge.try_send(back);
    assert_eq!(verdict, SendVerdict::Accepted);
    assert!(back.is_none());
    assert_eq!(bridge.buffered_bytes(), 5);
}

#[test]
fn the_buffer_fills_to_capacity_and_not_beyond() {
    let mut bridge = StreamBridge::new(10);
    assert_eq!(bridge.capacity_bytes(), 10);
    assert_eq!(bridge.try_send(chunk(0, 10)).0, SendVerdict::Accepted);
    assert_eq!(bridge.try_send(chunk(1, 1)).0, SendVerdict::Full);
    assert_eq!(bridge.try_send(chunk(1, 0)).0, SendVerdict::Accepted);
    assert_eq!(bridge.buffered_bytes(), 10);
}

#[test]
fn a_chunk_larger_than_the_buffer_never_fits() {
    let mut bridge = StreamBridge::new(10);
    let (verdict, back) = bridge.try_send(chunk(0, 11));
    assert_eq!(verdict, SendVerdict::Oversized);
    assert_eq!(back.unwrap().data.len(), 11);
    let mut none = StreamBridge::new(0);
    assert_eq!(none.try_send(chunk(0, 1)).0, SendVerdict::Oversized);
    assert_eq!(none.try_send(chunk(0, 0)).0, SendVerdict::Accepted);
}

#[test]
fn closing_delivers_what_is_buffered_and_then_ends() {
    let mut bridge = StreamBridge::new(10);
    bridge.try_send(chunk(0, 3));
    bridge.try_send(chunk(1, 3));
    bridge.close();
    bridge.close();
    assert!(bridge.is_closed());
    assert_eq!(bridge.try_send(chunk(2, 1)).0, SendVerdict::Closed);
    assert_eq!(take(&mut bridge).0, 0);
    assert_eq!(take(&mut bridge).0, 1);
    assert!(matches!(bridge.try_receive(), ReceiveOutcome::End));
    assert!(matches!(bridge.try_receive(), ReceiveOutcome::End));
}

#[test]
fn a_failure_reaches_the_consumer_before_buffered_data() {
    let mut bridge = StreamBridge::new(10);
    bridge.try_send(chunk(0, 3));
    bridge.fail(ArchiveError::SizeMismatch);
    bridge.fail(ArchiveError::TransportWrite);
    assert_eq!(bridge.terminal_error(), Some(ArchiveError::SizeMismatch));
    assert!(bridge.is_closed());
    assert!(matches!(bridge.try_receive(), ReceiveOutcome::Failed(ArchiveError::SizeMismatch)));
    assert!(matches!(bridge.try_receive(), ReceiveOutcome::Failed(ArchiveError::SizeMismatch)));
    assert_eq!(bridge.try_send(chunk(1, 1)).0, SendVerdict::Closed);
}

#[test]
fn cancelling_turns_the_producer_away_and_frees_the_buffer() {
    let mut bridge = StreamBridge::new(10);
    bridge.try_send(chunk(0, 8));
    bridge.cancel();
    assert!(bridge.is_cancelled());
    assert_eq!(bridge.buffered_bytes(), 0);
    let (verdict, back) = bridge.try_send(chunk(1, 1));
    assert_eq!(verdict, SendVerdict::Cancelled);
    assert!(back.is_some());
    assert!(matches!(bridge.try_receive(), ReceiveOutcome::End));
    assert_eq!(bridge.terminal_error(), None);
    bridge.cancel();
    assert_eq!(bridge.try_send(chunk(1, 1)).0, SendVerdict::Cancelled);
}

#[test]
fn a_gap_in_the_sequence_is_fatal() {
    let mut bridge = StreamBridge::new(10);
    bridge.try_send(chunk(0, 1));
    bridge.try_send(chunk(2, 1));
    bridge.try_send(chunk(3, 1));
    assert_eq!(take(&mut bridge).0, 0);
    assert!(matches!(bridge.try_receive(), ReceiveOutcome::Failed(ArchiveError::SequenceViolation)));
    assert_eq!(bridge.terminal_error(), Some(ArchiveError::SequenceViolation));
    assert!(bridge.is_closed());
    assert_eq!(bridge.buffered_bytes(), 0);
    assert!(matches!(bridge.try_receive(), ReceiveOutcome::Failed(ArchiveError::SequenceViolation)));
}

#[test]
fn a_repeated_chunk_is_fatal() {
    let mut bridge = StreamBridge::new(10);
    bridge.try_send(chunk(0, 1));
    bridge.try_send(chunk(0, 1));
    assert_eq!(take(&mut bridge).0, 0);
    assert!(matches!(bridge.try_receive(), ReceiveOutcome::Failed(ArchiveError::SequenceViolation)));
}

#[test]
fn the_sequencer_cuts_into_numbered_pieces() {
    let mut sequencer = ChunkSequencer::new(4).unwrap();
    let data: Vec<u8> = (0..10).collect();
    let chunks = sequencer.cut(&data).unwrap();
    assert_eq!(chunks.len(), 3);
    assert_eq!((chunks[0].sequence, chunks[0].data.clone()), (0, vec![0, 1, 2, 3]));
    assert_eq!((chunks[1].sequence, chunks[1].data.clone()), (1, vec![4, 5, 6, 7]));
    assert_eq!((chunks[2].sequence, chunks[2].data.clone()), (2, vec![8, 9]));
    let more = sequencer.cut(&[7, 7, 7, 7]).unwrap();
    assert_eq!(more.len(), 1);
    assert_eq!((more[0].sequence, more[0].data.clone()), (3, vec![7, 7, 7, 7]));
    assert!(sequencer.cut(&[]).unwrap().is_empty());
    assert_eq!(sequencer.cut(&[1]).unwrap()[0].sequence, 4);
}

#[test]
fn a_sequencer_needs_room_for_a_byte() {
    assert!(ChunkSequencer::new(0).is_none());
    assert!(ChunkSequencer::new(1).is_some());
}
