//! Reading a zip archive back, as a specification: what an extraction finds
//! by way of the end record and the central directory, and the proof that
//! it finds in an archive what was written to it.

use crate::archive::{lemma_failure_stays, zip_entry_failure, zip_failure};
use crate::crc32::crc32;
use crate::encoding::{
    le16, le16_value, le32, le32_value, lemma_le16_round_trip, lemma_le32_round_trip,
    lemma_le_lengths,
};
use crate::entry::{valid_archive_path, EntryKind, EntryView, Member};
use crate::zip::{
    central_header, data_descriptor, end_record, lemma_local_len, local_header, zip_archive,
    zip_central, zip_count, zip_local, zip_locals, zip_name, zip_size, MAX_ENTRIES, MAX_FIELD,
};
use vstd::prelude::*;

verus! {

/// What an extraction finds of one entry.
pub struct Unzipped {
    pub name: Seq<u8>,
    pub crc: u32,
    pub content: Seq<u8>,
}

/// What an extraction finds by following `count` records of the central
/// directory from `at`: of each the name, and the content that lies behind
/// the local header the record points to, if its checksum is the one the
/// record states. `None` where a record or what it points to is not there.
#[verifier::opaque]
pub open spec fn central_entries(bytes: Seq<u8>, at: nat, count: nat) -> Option<Seq<Unzipped>>
    decreases count,
{
    if count == 0 {
        Some(Seq::empty())
    } else if at + 46 > bytes.len() {
        None
    } else {
        let record = bytes.subrange(at as int, at as int + 46);
        let crc = le32_value(record.subrange(16, 20));
        let size = le32_value(record.subrange(24, 28));
        let name_len = le16_value(record.subrange(28, 30));
        let extra_len = le16_value(record.subrange(30, 32));
        let comment_len = le16_value(record.subrange(32, 34));
        let offset = le32_value(record.subrange(42, 46));
        if le32_value(record.subrange(0, 4)) != 0x02014b50 || at + 46 + name_len > bytes.len()
            || offset + 30 > bytes.len() {
            None
        } else {
            let local = bytes.subrange(offset as int, offset as int + 30);
            let start = offset + 30 + le16_value(local.subrange(26, 28)) + le16_value(
                local.subrange(28, 30),
            );
            if le32_value(local.subrange(0, 4)) != 0x04034b50 || start + size > bytes.len() {
                None
            } else {
                let content = bytes.subrange(start as int, start as int + size as int);
                if crc32(content) != crc {
                    None
                } else {
                    match central_entries(
                        bytes,
                        at + 46 + name_len + extra_len + comment_len,
                        (count - 1) as nat,
                    ) {
                        None => None,
                        Some(others) => Some(
                            seq![
                                Unzipped {
                                    name: bytes.subrange(at as int + 46, at as int + 46 + name_len as int),
                                    crc: crc as u32,
                                    content,
                                },
                            ] + others,
                        ),
                    }
                }
            }
        }
    }
}

/// What an extraction finds in `bytes`: the end record closes them and says
/// where the central directory lies and how many entries it lists.
pub open spec fn zip_extract(bytes: Seq<u8>) -> Option<Seq<Unzipped>> {
    if bytes.len() < 22 {
        None
    } else {
        let end = bytes.skip(bytes.len() - 22);
        let count = le16_value(end.subrange(10, 12));
        let central_size = le32_value(end.subrange(12, 16));
        let central_offset = le32_value(end.subrange(16, 20));
        if le32_value(end.subrange(0, 4)) != 0x06054b50 || central_offset + central_size + 22
            != bytes.len() {
            None
        } else {
            central_entries(bytes, central_offset, count)
        }
    }
}

/// What the end record holds, field by field.
pub proof fn lemma_end_record_fields(count: u16, central_size: u32, central_offset: u32)
    ensures
        ({
            let end = end_record(count, central_size, central_offset);
            &&& end.len() == 22
            &&& le32_value(end.subrange(0, 4)) == 0x06054b50
            &&& le16_value(end.subrange(10, 12)) == count
            &&& le32_value(end.subrange(12, 16)) == central_size
            &&& le32_value(end.subrange(16, 20)) == central_offset
        }),
{
    reveal(end_record);
    lemma_le_lengths();
    let end = end_record(count, central_size, central_offset);
    assert(end.subrange(0, 4) =~= le32(0x06054b50));
    assert(end.subrange(10, 12) =~= le16(count));
    assert(end.subrange(12, 16) =~= le32(central_size));
    assert(end.subrange(16, 20) =~= le32(central_offset));
    lemma_le32_round_trip(0x06054b50);
    lemma_le16_round_trip(count);
    lemma_le32_round_trip(central_size);
    lemma_le32_round_trip(central_offset);
}

/// What a record of the central directory holds, field by field.
pub proof fn lemma_central_fields(e: EntryView, crc: u32, size: u32, offset: u32)
    requires
        zip_name(e).len() <= 65535,
    ensures
        ({
            let record = central_header(e, crc, size, offset);
            &&& record.len() == 46 + zip_name(e).len()
            &&& le32_value(record.subrange(0, 4)) == 0x02014b50
            &&& le32_value(record.subrange(16, 20)) == crc
            &&& le32_value(record.subrange(24, 28)) == size
            &&& le16_value(record.subrange(28, 30)) == zip_name(e).len()
            &&& le16_value(record.subrange(30, 32)) == 0
            &&& le16_value(record.subrange(32, 34)) == 0
            &&& le32_value(record.subrange(42, 46)) == offset
            &&& record.subrange(46, 46 + zip_name(e).len() as int) == zip_name(e)
        }),
{
    reveal(central_header);
    lemma_le_lengths();
    let record = central_header(e, crc, size, offset);
    let n = zip_name(e).len() as u16;
    assert(record.len() == 46 + zip_name(e).len());
    assert(record.subrange(0, 4) =~= le32(0x02014b50));
    assert(record.subrange(16, 20) =~= le32(crc));
    assert(record.subrange(24, 28) =~= le32(size));
    assert(record.subrange(28, 30) =~= le16(n));
    assert(record.subrange(30, 32) =~= le16(0));
    assert(record.subrange(32, 34) =~= le16(0));
    assert(record.subrange(42, 46) =~= le32(offset));
    assert(record.subrange(46, 46 + zip_name(e).len() as int) =~= zip_name(e));
    lemma_le32_round_trip(0x02014b50);
    lemma_le32_round_trip(crc);
    lemma_le32_round_trip(size);
    lemma_le16_round_trip(n);
    lemma_le16_round_trip(0);
    lemma_le32_round_trip(offset);
}

/// What a local header holds, field by field.
pub proof fn lemma_local_fields(e: EntryView)
    requires
        zip_name(e).len() <= 65535,
    ensures
        ({
            let local = local_header(e);
            &&& local.len() == 30 + zip_name(e).len()
            &&& le32_value(local.subrange(0, 4)) == 0x04034b50
            &&& le16_value(local.subrange(26, 28)) == zip_name(e).len()
            &&& le16_value(local.subrange(28, 30)) == 0
        }),
{
    reveal(local_header);
    lemma_le_lengths();
    let local = local_header(e);
    let n = zip_name(e).len() as u16;
    assert(local.len() == 30 + zip_name(e).len());
    assert(local.subrange(0, 4) =~= le32(0x04034b50));
    assert(local.subrange(26, 28) =~= le16(n));
    assert(local.subrange(28, 30) =~= le16(0));
    lemma_le32_round_trip(0x04034b50);
    lemma_le16_round_trip(n);
    lemma_le16_round_trip(0);
}

/// What the extraction of one member is to find.
pub open spec fn unzipped_member(m: Member) -> Unzipped {
    Unzipped { name: zip_name(m.entry), crc: crc32(m.content), content: m.content }
}

/// What the extraction is to find of the members from the `k`-th on: all but
/// the symlinks, in their order.
pub open spec fn unzipped_from(ms: Seq<Member>, k: int) -> Seq<Unzipped>
    decreases ms.len() - k,
{
    if k < 0 || k >= ms.len() {
        Seq::empty()
    } else if ms[k].entry.kind == EntryKind::Symlink {
        unzipped_from(ms, k + 1)
    } else {
        seq![unzipped_member(ms[k])] + unzipped_from(ms, k + 1)
    }
}

/// The streamed entries from the `k`-th on.
pub open spec fn locals_from(ms: Seq<Member>, k: int) -> Seq<u8>
    decreases ms.len() - k,
{
    if k < 0 || k >= ms.len() {
        Seq::empty()
    } else {
        zip_local(ms[k]) + locals_from(ms, k + 1)
    }
}

/// The record of the `k`-th member in the central directory.
pub open spec fn central_record(ms: Seq<Member>, k: int) -> Seq<u8> {
    if ms[k].entry.kind == EntryKind::Symlink {
        Seq::empty()
    } else {
        central_header(
            ms[k].entry,
            crc32(ms[k].content),
            ms[k].content.len() as u32,
            zip_locals(ms.take(k)).len() as u32,
        )
    }
}

/// The central directory from the record of the `k`-th member on.
pub open spec fn central_from(ms: Seq<Member>, k: int) -> Seq<u8>
    decreases ms.len() - k,
{
    if k < 0 || k >= ms.len() {
        Seq::empty()
    } else {
        central_record(ms, k) + central_from(ms, k + 1)
    }
}

/// How many of the members from the `k`-th on the archive holds.
pub open spec fn count_from(ms: Seq<Member>, k: int) -> nat
    decreases ms.len() - k,
{
    if k < 0 || k >= ms.len() {
        0
    } else if ms[k].entry.kind == EntryKind::Symlink {
        count_from(ms, k + 1)
    } else {
        1 + count_from(ms, k + 1)
    }
}

/// Entries, central directory and count, parted at the `k`-th member.
pub proof fn lemma_parted(ms: Seq<Member>, k: int)
    requires
        0 <= k <= ms.len(),
    ensures
        zip_locals(ms) == zip_locals(ms.take(k)) + locals_from(ms, k),
        zip_central(ms) == zip_central(ms.take(k)) + central_from(ms, k),
        zip_count(ms) == zip_count(ms.take(k)) + count_from(ms, k),
    decreases ms.len() - k,
{
    if k == ms.len() {
        assert(ms.take(k) =~= ms);
        assert(zip_locals(ms) =~= zip_locals(ms.take(k)) + locals_from(ms, k));
        assert(zip_central(ms) =~= zip_central(ms.take(k)) + central_from(ms, k));
    } else {
        lemma_parted(ms, k + 1);
        let longer = ms.take(k + 1);
        assert(longer.drop_last() =~= ms.take(k));
        assert(longer.last() == ms[k]);
        assert(zip_locals(longer) == zip_locals(ms.take(k)) + zip_local(ms[k]));
        assert(zip_central(longer) == zip_central(ms.take(k)) + central_record(ms, k));
        assert(zip_locals(ms) =~= zip_locals(ms.take(k)) + locals_from(ms, k));
        assert(zip_central(ms) =~= zip_central(ms.take(k)) + central_from(ms, k));
    }
}

/// In a run of members that can all be written, each has room where it
/// begins and is as long as it declares.
pub proof fn lemma_member_fits(ms: Seq<Member>, k: int)
    requires
        zip_entry_failure(ms).is_none(),
        0 <= k < ms.len(),
        ms[k].entry.kind != EntryKind::Symlink,
    ensures
        zip_count(ms.take(k)) < MAX_ENTRIES,
        zip_locals(ms.take(k)).len() <= MAX_FIELD,
        ms[k].content.len() == zip_size(ms[k].entry),
        ms[k].content.len() <= MAX_FIELD,
{
    let longer = ms.take(k + 1);
    assert(longer.drop_last() =~= ms.take(k));
    assert(longer.last() == ms[k]);
    if zip_entry_failure(longer).is_some() {
        lemma_failure_stays(ms, k + 1);
    }
}

/// The extraction of one record of the central directory: where the record
/// lies at `at` and the entry it points to lies at `offset`, the record
/// becomes an entry with the name and the content that were written.
pub proof fn lemma_extract_central_record(
    bytes: Seq<u8>,
    at: nat,
    count: nat,
    e: EntryView,
    content: Seq<u8>,
    offset: nat,
)
    requires
        count > 0,
        zip_name(e).len() <= 65535,
        content.len() <= MAX_FIELD,
        offset <= MAX_FIELD,
        at + 46 + zip_name(e).len() <= bytes.len(),
        offset + 30 + zip_name(e).len() + content.len() <= bytes.len(),
        bytes.subrange(at as int, (at + 46 + zip_name(e).len()) as int) == central_header(
            e,
            crc32(content),
            content.len() as u32,
            offset as u32,
        ),
        bytes.subrange(offset as int, (offset + 30 + zip_name(e).len() + content.len()) as int)
            == local_header(e) + content,
    ensures
        central_entries(bytes, at, count) == match central_entries(
            bytes,
            at + 46 + zip_name(e).len(),
            (count - 1) as nat,
        ) {
            None => None,
            Some(others) => Some(
                seq![Unzipped { name: zip_name(e), crc: crc32(content), content }] + others,
            ),
        },
{
    reveal(central_entries);
    let n = zip_name(e).len() as int;
    let a = at as int;
    let o = offset as int;
    let len = content.len() as int;
    let whole = central_header(e, crc32(content), content.len() as u32, offset as u32);
    lemma_central_fields(e, crc32(content), content.len() as u32, offset as u32);
    lemma_local_fields(e);
    let record = bytes.subrange(a, a + 46);
    assert(record =~= whole.take(46));
    assert(record.subrange(0, 4) =~= whole.subrange(0, 4));
    assert(record.subrange(16, 20) =~= whole.subrange(16, 20));
    assert(record.subrange(24, 28) =~= whole.subrange(24, 28));
    assert(record.subrange(28, 30) =~= whole.subrange(28, 30));
    assert(record.subrange(30, 32) =~= whole.subrange(30, 32));
    assert(record.subrange(32, 34) =~= whole.subrange(32, 34));
    assert(record.subrange(42, 46) =~= whole.subrange(42, 46));
    assert(bytes.subrange(a + 46, a + 46 + n) =~= whole.subrange(46, 46 + n));
    let entry = local_header(e) + content;
    let local = bytes.subrange(o, o + 30);
    assert(local =~= entry.take(30));
    assert(local.subrange(0, 4) =~= local_header(e).subrange(0, 4));
    assert(local.subrange(26, 28) =~= local_header(e).subrange(26, 28));
    assert(local.subrange(28, 30) =~= local_header(e).subrange(28, 30));
    let start = o + 30 + n;
    assert(bytes.subrange(start, start + len) =~= entry.subrange(30 + n, 30 + n + len));
    assert(entry.subrange(30 + n, 30 + n + len) =~= content);
}

/// The paths of all members are valid.
pub open spec fn paths_valid(ms: Seq<Member>) -> bool {
    forall|i: int| 0 <= i < ms.len() ==> valid_archive_path((#[trigger] ms[i]).entry.archive_path)
}

/// The middle of three runs of bytes lies where the first ends.
proof fn lemma_middle(a: Seq<u8>, b: Seq<u8>, c: Seq<u8>)
    ensures
        (a + b + c).subrange(a.len() as int, (a.len() + b.len()) as int) == b,
{
    assert((a + b + c).subrange(a.len() as int, (a.len() + b.len()) as int) =~= b);
}

/// Where the record of the `k`-th member lies in the archive, and where the
/// entry that it points to.
proof fn lemma_places(ms: Seq<Member>, k: int, tail: Seq<u8>)
    requires
        0 <= k < ms.len(),
        ms[k].entry.kind != EntryKind::Symlink,
    ensures
        ({
            let bytes = zip_locals(ms) + zip_central(ms) + tail;
            let at = zip_locals(ms).len() + zip_central(ms.take(k)).len();
            let off = zip_locals(ms.take(k)).len();
            let entry = local_header(ms[k].entry) + ms[k].content;
            &&& at + central_record(ms, k).len() <= bytes.len()
            &&& off + entry.len() <= bytes.len()
            &&& bytes.subrange(at as int, (at + central_record(ms, k).len()) as int) == central_record(
                ms,
                k,
            )
            &&& bytes.subrange(off as int, (off + entry.len()) as int) == entry
            &&& zip_central(ms.take(k + 1)) == zip_central(ms.take(k)) + central_record(ms, k)
        }),
{
    let bytes = zip_locals(ms) + zip_central(ms) + tail;
    let record = central_record(ms, k);
    let entry = local_header(ms[k].entry) + ms[k].content;
    let descriptor = data_descriptor(crc32(ms[k].content), ms[k].content.len() as u32);
    lemma_parted(ms, k);
    let longer = ms.take(k + 1);
    assert(longer.drop_last() =~= ms.take(k));
    assert(longer.last() == ms[k]);
    assert(central_from(ms, k) == record + central_from(ms, k + 1));
    assert(locals_from(ms, k) == zip_local(ms[k]) + locals_from(ms, k + 1));
    let a1 = zip_locals(ms) + zip_central(ms.take(k));
    let a3 = central_from(ms, k + 1) + tail;
    assert(bytes =~= a1 + record + a3);
    lemma_middle(a1, record, a3);
    let b1 = zip_locals(ms.take(k));
    let b3 = descriptor + locals_from(ms, k + 1) + zip_central(ms) + tail;
    assert(zip_local(ms[k]) == entry + descriptor);
    assert(bytes =~= b1 + entry + b3);
    lemma_middle(b1, entry, b3);
}

/// Following the central directory from the record of the `k`-th member on
/// finds the members from the `k`-th on.
pub proof fn lemma_entries_from(ms: Seq<Member>, k: int, tail: Seq<u8>)
    requires
        zip_entry_failure(ms).is_none(),
        paths_valid(ms),
        0 <= k <= ms.len(),
    ensures
        central_entries(
            zip_locals(ms) + zip_central(ms) + tail,
            zip_locals(ms).len() + zip_central(ms.take(k)).len(),
            count_from(ms, k),
        ) == Some(unzipped_from(ms, k)),
    decreases ms.len() - k,
{
    let bytes = zip_locals(ms) + zip_central(ms) + tail;
    let at = zip_locals(ms).len() + zip_central(ms.take(k)).len();
    if k == ms.len() {
        reveal(central_entries);
    } else {
        lemma_entries_from(ms, k + 1, tail);
        let m = ms[k];
        if m.entry.kind != EntryKind::Symlink {
            let e = m.entry;
            let off = zip_locals(ms.take(k)).len();
            lemma_member_fits(ms, k);
            assert(valid_archive_path(ms[k].entry.archive_path));
            lemma_central_fields(e, crc32(m.content), m.content.len() as u32, off as u32);
            lemma_local_len(m);
            lemma_places(ms, k, tail);
            lemma_extract_central_record(bytes, at, count_from(ms, k), e, m.content, off);
        } else {
            let longer = ms.take(k + 1);
            assert(longer.drop_last() =~= ms.take(k));
            assert(longer.last() == ms[k]);
        }
    }
}

/// Members that can all be written are no more than the end record can
/// count.
pub proof fn lemma_count_is_bounded(ms: Seq<Member>)
    requires
        zip_entry_failure(ms).is_none(),
    ensures
        zip_count(ms) <= MAX_ENTRIES,
    decreases ms.len(),
{
    if ms.len() > 0 {
        lemma_count_is_bounded(ms.drop_last());
    }
}

/// Round trip: extracting the archive of members that can be written finds
/// every member that is no symlink, in order, with the name it was stored
/// under and its content byte for byte, and the checksum that the central
/// directory states of it is the CRC-32 of that content.
pub proof fn lemma_zip_round_trip(ms: Seq<Member>)
    requires
        zip_failure(ms).is_none(),
        paths_valid(ms),
    ensures
        zip_extract(zip_archive(ms)) == Some(unzipped_from(ms, 0)),
{
    let locals = zip_locals(ms);
    let central = zip_central(ms);
    lemma_count_is_bounded(ms);
    let end = end_record(zip_count(ms) as u16, central.len() as u32, locals.len() as u32);
    let bytes = zip_archive(ms);
    lemma_end_record_fields(zip_count(ms) as u16, central.len() as u32, locals.len() as u32);
    assert(bytes.skip(bytes.len() - 22) =~= end);
    lemma_parted(ms, 0);
    assert(ms.take(0) =~= Seq::<Member>::empty());
    lemma_entries_from(ms, 0, end);
}

/// An archive of nothing is the end record alone, with no entries and an
/// empty central directory; an extraction finds no entry in it.
pub proof fn lemma_empty_zip()
    ensures
        zip_archive(Seq::empty()) == end_record(0, 0, 0),
        zip_archive(Seq::empty()).len() == 22,
        zip_extract(zip_archive(Seq::empty())) == Some(Seq::<Unzipped>::empty()),
{
    let none = Seq::<Member>::empty();
    assert(zip_archive(none) =~= end_record(0, 0, 0));
    lemma_end_record_fields(0, 0, 0);
    lemma_zip_round_trip(none);
}

} // verus!
