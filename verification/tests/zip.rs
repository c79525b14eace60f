use miniserve::archive::{encode_archive, encode_zip, ArchiveItem};
use miniserve::crc32::checksum;
use miniserve::entry::{ArchiveError, ArchiveFormat, EntryKind, FileEntry};
use miniserve::zip::ZipEncoder;
use std::io::Read;

fn entry_at(path: &str, kind: EntryKind, size: u64, modified: u64) -> FileEntry {
    FileEntry::new(
        format!("/srv/{}", path).into_bytes(),
        path.as_bytes().to_vec(),
        kind,
        size,
        modified,
        None,
    )
    .unwrap()
}

fn entry(path: &str, kind: EntryKind, size: u64) -> FileEntry {
    entry_at(path, kind, size, 1_577_836_800)
}

fn file(path: &str, content: &[u8]) -> ArchiveItem {
    ArchiveItem { entry: entry(path, EntryKind::File, content.len() as u64), content: content.to_vec() }
}

fn directory(path: &str) -> ArchiveItem {
    ArchiveItem { entry: entry(path, EntryKind::Directory, 0), content: Vec::new() }
}

fn extract(bytes: &[u8]) -> Vec<(String, bool, u32, Vec<u8>)> {
    let mut archive = zip::ZipArchive::new(std::io::Cursor::new(bytes.to_vec())).unwrap();
    let mut found = Vec::new();
    for i in 0..archive.len() {
        let mut entry = archive.by_index(i).unwrap();
        let mut content = Vec::new();
        entry.read_to_end(&mut content).unwrap();
        assert_eq!(entry.size(), content.len() as u64);
        found.push((entry.name().to_string(), entry.is_dir(), entry.crc32(), content));
    }
    found
}

fn le16(bytes: &[u8], at: usize) -> u16 {
    u16::from_le_bytes([bytes[at], bytes[at + 1]])
}

fn le32(bytes: &[u8], at: usize) -> u32 {
    u32::from_le_bytes([bytes[at], bytes[at + 1], bytes[at + 2], bytes[at + 3]])
}

#[test]
fn empty_zip_is_the_end_record_alone() {
    let bytes = encode_zip(&Vec::new()).unwrap();
    assert_eq!(bytes, vec![0x50, 0x4b, 0x05, 0x06, 0, 0, 0, 0, 0, 0, 0, 0, 0, 0, 0, 0, 0, 0, 0, 0, 0, 0]);
    assert!(extract(&bytes).is_empty());
}

#[test]
fn zip_of_docs_lists_two_files_and_the_directory_with_their_checksums() {
    let logo: Vec<u8> = (0..120u32).map(|i| b'a' + (i % 26) as u8).collect();
    let items = vec![file("a.txt", b"hi\n"), directory("img"), file("img/logo.svg", &logo)];
    let bytes = encode_archive(ArchiveFormat::Zip, &items).unwrap();
    let found = extract(&bytes);
    assert_eq!(found.len(), 3);
    let files: Vec<&(String, bool, u32, Vec<u8>)> = found.iter().filter(|e| !e.1).collect();
    assert_eq!(files.len(), 2);
    assert_eq!(files[0].0, "a.txt");
    assert_eq!(files[0].2, crc32fast::hash(b"hi\n"));
    assert_eq!(files[0].3, b"hi\n".to_vec());
    assert_eq!(files[1].0, "img/logo.svg");
    assert_eq!(files[1].2, crc32fast::hash(&logo));
    assert_eq!(files[1].3, logo);
    assert_eq!(found[1], ("img/".to_string(), true, 0, Vec::new()));
    let end = bytes.len() - 22;
    assert_eq!(le32(&bytes, end), 0x06054b50);
    assert_eq!(le16(&bytes, end + 8), 3);
    assert_eq!(le16(&bytes, end + 10), 3);
}

#[test]
fn zip_records_are_exact() {
    let bytes = encode_zip(&vec![file("a.txt", b"hi\n")]).unwrap();
    let crc = checksum(b"hi\n");
    let mut want: Vec<u8> = Vec::new();
    want.extend(0x04034b50u32.to_le_bytes());
    want.extend(20u16.to_le_bytes());
    want.extend(0x0808u16.to_le_bytes());
    want.extend(0u16.to_le_bytes());
    want.extend(0u16.to_le_bytes());
    want.extend(20513u16.to_le_bytes());
    want.extend(0u32.to_le_bytes());
    want.extend(0u32.to_le_bytes());
    want.extend(0u32.to_le_bytes());
    want.extend(5u16.to_le_bytes());
    want.extend(0u16.to_le_bytes());
    want.extend(b"a.txt");
    want.extend(b"hi\n");
    want.extend(0x08074b50u32.to_le_bytes());
    want.extend(crc.to_le_bytes());
    want.extend(3u32.to_le_bytes());
    want.extend(3u32.to_le_bytes());
    let central_offset = want.len() as u32;
    assert_eq!(central_offset, 30 + 5 + 3 + 16);
    want.extend(0x02014b50u32.to_le_bytes());
    want.extend(0x0314u16.to_le_bytes());
    want.extend(20u16.to_le_bytes());
    want.extend(0x0808u16.to_le_bytes());
    want.extend(0u16.to_le_bytes());
    want.extend(0u16.to_le_bytes());
    want.extend(20513u16.to_le_bytes());
    want.extend(crc.to_le_bytes());
    want.extend(3u32.to_le_bytes());
    want.extend(3u32.to_le_bytes());
    want.extend(5u16.to_le_bytes());
    want.extend(0u16.to_le_bytes());
    want.extend(0u16.to_le_bytes());
    want.extend(0u16.to_le_bytes());
    want.extend(0u16.to_le_bytes());
    want.extend(((0o100644u32) << 16).to_le_bytes());
    want.extend(0u32.to_le_bytes());
    want.extend(b"a.txt");
    let central_size = want.len() as u32 - central_offset;
    assert_eq!(central_size, 46 + 5);
    want.extend(0x06054b50u32.to_le_bytes());
    want.extend(0u16.to_le_bytes());
    want.extend(0u16.to_le_bytes());
    want.extend(1u16.to_le_bytes());
    want.extend(1u16.to_le_bytes());
    want.extend(central_size.to_le_bytes());
    want.extend(central_offset.to_le_bytes());
    want.extend(0u16.to_le_bytes());
    assert_eq!(bytes, want);
}

#[test]
fn zip_central_directory_points_at_each_local_header() {
    let items = vec![file("one", b"1"), directory("d"), file("d/two", b"22"), file("three", b"")];
    let bytes = encode_zip(&items).unwrap();
    let end = bytes.len() - 22;
    let count = le16(&bytes, end + 10) as usize;
    let central_size = le32(&bytes, end + 12) as usize;
    let mut at = le32(&bytes, end + 16) as usize;
    assert_eq!(at + central_size, end);
    assert_eq!(count, 4);
    let names = ["one", "d/", "d/two", "three"];
    for name in names {
        assert_eq!(le32(&bytes, at), 0x02014b50);
        let name_len = le16(&bytes, at + 28) as usize;
        assert_eq!(&bytes[at + 46..at + 46 + name_len], name.as_bytes());
        let offset = le32(&bytes, at + 42) as usize;
        assert_eq!(le32(&bytes, offset), 0x04034b50);
        assert_eq!(le16(&bytes, offset + 6) & 0x0008, 0x0008);
        assert_eq!(&bytes[offset + 30..offset + 30 + name_len], name.as_bytes());
        at += 46 + name_len;
    }
    assert_eq!(at, end);
    let directory_attributes = le32(&bytes, le32(&bytes, end + 16) as usize + 46 + 3 + 38);
    assert_eq!(directory_attributes, (0o040755u32 << 16) | 0x10);
}

#[test]
fn zip_round_trip_with_sizes_zero_one_and_many() {
    let big: Vec<u8> = (0..70_000u32).map(|i| (i * 31 % 251) as u8).collect();
    let items = vec![directory("t"), file("t/empty", b""), file("t/one", b"x"), file("t/big", &big)];
    let bytes = encode_zip(&items).unwrap();
    let found = extract(&bytes);
    assert_eq!(found.len(), 4);
    assert_eq!(found[0], ("t/".to_string(), true, 0, Vec::new()));
    assert_eq!(found[1], ("t/empty".to_string(), false, 0, Vec::new()));
    assert_eq!(found[2], ("t/one".to_string(), false, crc32fast::hash(b"x"), b"x".to_vec()));
    assert_eq!(found[3], ("t/big".to_string(), false, crc32fast::hash(&big), big));
}

#[test]
fn zip_streaming_pieces_add_up_to_the_archive() {
    let content: Vec<u8> = (0..3000u32).map(|i| (i % 256) as u8).collect();
    let mut enc = ZipEncoder::new();
    let mut out = Vec::new();
    out.extend(enc.begin_entry(&entry("f", EntryKind::File, 3000)).unwrap().unwrap());
    for piece in content.chunks(700) {
        out.extend(enc.write_data(piece.to_vec()).unwrap());
    }
    let descriptor = enc.end_entry().unwrap();
    assert_eq!(descriptor.len(), 16);
    assert_eq!(le32(&descriptor, 4), crc32fast::hash(&content));
    out.extend(descriptor);
    out.extend(enc.finish().unwrap());
    assert_eq!(out, encode_zip(&vec![file("f", &content)]).unwrap());
}

#[test]
fn zip_size_mismatches_are_reported() {
    let mut long = file("a", b"abc");
    long.content = b"abcd".to_vec();
    assert_eq!(encode_zip(&vec![long]), Err(ArchiveError::SizeMismatch));
    let mut short = file("a", b"abc");
    short.content = b"a".to_vec();
    assert_eq!(encode_zip(&vec![file("ok", b"1"), short]), Err(ArchiveError::SizeMismatch));
}

#[test]
fn zip_refuses_a_file_too_large_for_its_fields() {
    let mut enc = ZipEncoder::new();
    let too_large = entry("huge", EntryKind::File, 0x1_0000_0000);
    assert_eq!(enc.begin_entry(&too_large), Err(ArchiveError::LimitExceeded));
    assert_eq!(enc.finish(), Err(ArchiveError::SequenceViolation));
    let mut enc = ZipEncoder::new();
    assert!(enc.begin_entry(&entry("most", EntryKind::File, 0xFFFF_FFFF)).is_ok());
}

#[test]
fn zip_refuses_more_entries_than_the_end_record_counts() {
    let mut enc = ZipEncoder::new();
    for i in 0..65535u32 {
        let e = entry(&format!("f{}", i), EntryKind::File, 0);
        assert!(enc.begin_entry(&e).unwrap().is_some());
        enc.end_entry().unwrap();
    }
    let one_more = entry("last", EntryKind::File, 0);
    assert_eq!(enc.begin_entry(&one_more), Err(ArchiveError::LimitExceeded));
}

#[test]
fn zip_with_the_most_entries_can_be_read() {
    let mut enc = ZipEncoder::new();
    let mut out = Vec::new();
    for i in 0..65535u32 {
        let e = entry(&format!("{}", i), EntryKind::File, 0);
        out.extend(enc.begin_entry(&e).unwrap().unwrap());
        out.extend(enc.end_entry().unwrap());
    }
    out.extend(enc.finish().unwrap());
    let archive = zip::ZipArchive::new(std::io::Cursor::new(out)).unwrap();
    assert_eq!(archive.len(), 65535);
}

#[test]
fn zip_symlink_entries_are_passed_over() {
    let link = ArchiveItem { entry: entry("link", EntryKind::Symlink, 4), content: b"skip".to_vec() };
    let bytes = encode_zip(&vec![link, file("a", b"1")]).unwrap();
    let found = extract(&bytes);
    assert_eq!(found.len(), 1);
    assert_eq!(found[0].0, "a");
}

#[test]
fn zip_encoder_out_of_turn_is_a_sequence_violation() {
    let mut enc = ZipEncoder::new();
    assert_eq!(enc.write_data(vec![1]), Err(ArchiveError::SequenceViolation));
    let mut enc = ZipEncoder::new();
    assert_eq!(enc.end_entry(), Err(ArchiveError::SequenceViolation));
    let mut enc = ZipEncoder::new();
    enc.begin_entry(&entry("a", EntryKind::File, 0)).unwrap();
    assert_eq!(enc.finish(), Err(ArchiveError::SequenceViolation));
    let mut enc = ZipEncoder::new();
    enc.finish().unwrap();
    assert_eq!(enc.begin_entry(&entry("a", EntryKind::File, 0)), Err(ArchiveError::SequenceViolation));
}

#[test]
fn zip_time_stamp_is_read_back() {
    let e = entry_at("t", EntryKind::File, 0, 951_827_696);
    let bytes = encode_zip(&vec![ArchiveItem { entry: e, content: Vec::new() }]).unwrap();
    let mut archive = zip::ZipArchive::new(std::io::Cursor::new(bytes)).unwrap();
    let file = archive.by_index(0).unwrap();
    let stamp = file.last_modified();
    assert_eq!(
        (stamp.year(), stamp.month(), stamp.day(), stamp.hour(), stamp.minute(), stamp.second()),
        (2000, 2, 29, 12, 34, 56)
    );
}
