use miniserve::bridge::{EncodedChunk, ReceiveOutcome, StreamBridge};
use miniserve::entry::{ArchiveError, ArchiveFormat};
use miniserve::response::{
    content_disposition, content_type, directory_basename, generate_archive, response_head,
    status_for, suggested_filename, Delivery, ResponseStreamer, StreamPhase,
};

#[test]
fn content_types() {
    assert_eq!(content_type(ArchiveFormat::Tar), "application/x-tar");
    assert_eq!(content_type(ArchiveFormat::Zip), "application/zip");
}

#[test]
fn the_basename_is_the_last_segment() {
    assert_eq!(directory_basename(b"/srv/docs"), b"docs".to_vec());
    assert_eq!(directory_basename(b"/srv/docs/"), b"docs".to_vec());
    assert_eq!(directory_basename(b"/srv/docs///"), b"docs".to_vec());
    assert_eq!(directory_basename(b"docs"), b"docs".to_vec());
    assert_eq!(directory_basename(b"a/b.c"), b"b.c".to_vec());
    assert_eq!(directory_basename(b"/"), Vec::<u8>::new());
    assert_eq!(directory_basename(b"///"), Vec::<u8>::new());
    assert_eq!(directory_basename(b""), Vec::<u8>::new());
}

#[test]
fn the_filename_is_the_directory_name_with_the_extension() {
    assert_eq!(suggested_filename(b"/srv/docs", ArchiveFormat::Tar), b"docs.tar".to_vec());
    assert_eq!(suggested_filename(b"/srv/docs/", ArchiveFormat::Zip), b"docs.zip".to_vec());
}

#[test]
fn the_root_gets_the_default_filename() {
    assert_eq!(suggested_filename(b"/", ArchiveFormat::Tar), b"archive.tar".to_vec());
    assert_eq!(suggested_filename(b"", ArchiveFormat::Zip), b"archive.zip".to_vec());
}

#[test]
fn the_disposition_quotes_the_filename() {
    assert_eq!(content_disposition(b"docs.tar"), b"attachment; filename=\"docs.tar\"".to_vec());
    assert_eq!(
        content_disposition(b"a\"b\\c\r\nd\x7f.zip"),
        b"attachment; filename=\"a\\\"b\\\\c__d_.zip\"".to_vec()
    );
    assert_eq!(content_disposition(b""), b"attachment; filename=\"\"".to_vec());
}

#[test]
fn the_head_announces_a_chunked_download() {
    let head = response_head(b"/srv/my docs", ArchiveFormat::Zip);
    assert_eq!(head.status, 200);
    assert_eq!(head.content_type, "application/zip");
    assert_eq!(head.filename, b"my docs.zip".to_vec());
    assert_eq!(head.content_disposition, b"attachment; filename=\"my docs.zip\"".to_vec());
    assert_eq!(head.content_length, None);
    assert!(head.chunked);
}

#[test]
fn early_errors_become_a_status() {
    assert_eq!(status_for(ArchiveError::RootUnreadable), 404);
    assert_eq!(status_for(ArchiveError::WalkTooDeep), 400);
    assert_eq!(status_for(ArchiveError::UnsupportedFormat), 400);
    assert_eq!(status_for(ArchiveError::SizeMismatch), 500);
    assert_eq!(status_for(ArchiveError::TransportWrite), 500);
    assert_eq!(status_for(ArchiveError::SequenceViolation), 500);
    assert_eq!(status_for(ArchiveError::LimitExceeded), 500);
}

fn chunk(sequence: u64, data: &[u8]) -> ReceiveOutcome {
    ReceiveOutcome::Chunk(EncodedChunk { sequence, data: data.to_vec() })
}

#[test]
fn chunks_are_forwarded_until_the_end() {
    let mut streamer = ResponseStreamer::new();
    assert_eq!(streamer.current_phase(), StreamPhase::Unsent);
    assert!(matches!(streamer.on_received(ReceiveOutcome::Pending), Delivery::Wait));
    assert_eq!(streamer.current_phase(), StreamPhase::Unsent);
    assert!(matches!(streamer.on_received(chunk(0, b"ab")), Delivery::Forward(d) if d == b"ab".to_vec()));
    assert_eq!(streamer.current_phase(), StreamPhase::Streaming);
    assert!(matches!(streamer.on_received(ReceiveOutcome::Pending), Delivery::Wait));
    assert!(matches!(streamer.on_received(chunk(1, b"c")), Delivery::Forward(d) if d == b"c".to_vec()));
    assert!(matches!(streamer.on_received(ReceiveOutcome::End), Delivery::Finish));
    assert_eq!(streamer.current_phase(), StreamPhase::Finished);
    assert!(matches!(streamer.on_received(chunk(2, b"late")), Delivery::Stop));
    assert_eq!(streamer.current_phase(), StreamPhase::Finished);
}

#[test]
fn an_error_before_the_first_byte_is_answered_with_a_status() {
    let mut streamer = ResponseStreamer::new();
    let delivery = streamer.on_received(ReceiveOutcome::Failed(ArchiveError::RootUnreadable));
    assert!(matches!(delivery, Delivery::Reject(404)));
    assert_eq!(streamer.current_phase(), StreamPhase::Aborted);
    let mut streamer = ResponseStreamer::new();
    let delivery = streamer.on_received(ReceiveOutcome::Failed(ArchiveError::WalkTooDeep));
    assert!(matches!(delivery, Delivery::Reject(400)));
}

#[test]
fn an_error_after_the_first_byte_cuts_the_stream() {
    let mut streamer = ResponseStreamer::new();
    streamer.on_received(chunk(0, b"x"));
    let delivery = streamer.on_received(ReceiveOutcome::Failed(ArchiveError::SizeMismatch));
    assert!(matches!(delivery, Delivery::Truncate));
    assert_eq!(streamer.current_phase(), StreamPhase::Aborted);
    assert!(matches!(streamer.on_received(ReceiveOutcome::End), Delivery::Stop));
}

#[test]
fn pulling_takes_from_the_bridge() {
    let mut bridge = StreamBridge::new(16);
    let mut streamer = ResponseStreamer::new();
    assert!(matches!(streamer.pull(&mut bridge), Delivery::Wait));
    bridge.try_send(EncodedChunk { sequence: 0, data: b"abc".to_vec() });
    bridge.close();
    assert!(matches!(streamer.pull(&mut bridge), Delivery::Forward(d) if d == b"abc".to_vec()));
    assert_eq!(bridge.buffered_bytes(), 0);
    assert!(matches!(streamer.pull(&mut bridge), Delivery::Finish));
    assert!(matches!(streamer.pull(&mut bridge), Delivery::Stop));
}

#[test]
fn a_disconnect_cancels_the_bridge() {
    let mut bridge = StreamBridge::new(16);
    let mut streamer = ResponseStreamer::new();
    bridge.try_send(EncodedChunk { sequence: 0, data: b"abc".to_vec() });
    bridge.try_send(EncodedChunk { sequence: 1, data: b"def".to_vec() });
    streamer.pull(&mut bridge);
    streamer.on_disconnect(&mut bridge);
    assert_eq!(streamer.current_phase(), StreamPhase::Aborted);
    assert!(bridge.is_cancelled());
    assert_eq!(bridge.buffered_bytes(), 0);
    assert!(matches!(streamer.pull(&mut bridge), Delivery::Stop));
}

#[test]
fn a_disconnect_after_the_end_changes_nothing() {
    let mut bridge = StreamBridge::new(16);
    let mut streamer = ResponseStreamer::new();
    bridge.close();
    assert!(matches!(streamer.pull(&mut bridge), Delivery::Finish));
    streamer.on_disconnect(&mut bridge);
    assert_eq!(streamer.current_phase(), StreamPhase::Finished);
    assert!(!bridge.is_cancelled());
}

#[test]
fn a_request_for_an_archive_is_taken_up_with_its_head() {
    let job = generate_archive(b"/srv/docs/", b"zip", true).unwrap();
    assert_eq!(job.request.root, b"/srv/docs/".to_vec());
    assert_eq!(job.request.relative_root, b"docs".to_vec());
    assert_eq!(job.request.format, ArchiveFormat::Zip);
    assert!(job.request.follow_symlinks);
    assert_eq!(job.head.status, 200);
    assert_eq!(job.head.content_type, "application/zip");
    assert_eq!(job.head.filename, b"docs.zip".to_vec());
    assert_eq!(job.head.content_disposition, b"attachment; filename=\"docs.zip\"".to_vec());
    let job = generate_archive(b"/", b"tar", false).unwrap();
    assert_eq!(job.request.format, ArchiveFormat::Tar);
    assert_eq!(job.head.filename, b"archive.tar".to_vec());
    assert!(job.request.relative_root.is_empty());
    assert!(!job.request.follow_symlinks);
}

#[test]
fn a_request_for_an_unknown_format_is_refused() {
    assert!(matches!(generate_archive(b"/srv", b"7z", false), Err(ArchiveError::UnsupportedFormat)));
    assert!(matches!(generate_archive(b"/srv", b"", false), Err(ArchiveError::UnsupportedFormat)));
}
