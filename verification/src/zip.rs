//! The zip container, written forward only: sizes and checksum follow each
//! entry's data in a data descriptor, and the central directory, gathered
//! while the entries pass, closes the archive.

use crate::crc32::{crc32, Crc32};
use crate::dostime::{dos_date, dos_date_time, dos_time};
use crate::encoding::{le16, le32, push_bytes, push_le16, push_le32};
use crate::entry::{
    ArchiveError, EncoderPhase, EntryKind, EntryView, FileEntry, Member, SLASH,
};
use vstd::prelude::*;

verus! {

/// Flags of every record: sizes follow the data, names are UTF-8.
pub const FLAGS: u16 = 0x0808;

/// The version needed to read an entry: 2.0.
pub const VERSION_NEEDED: u16 = 20;

/// The version that made the archive: 2.0, on Unix.
pub const VERSION_MADE_BY: u16 = 0x0314;

/// The most entries that the end record can count.
pub const MAX_ENTRIES: u64 = 65535;

/// The largest size or offset that a record can hold.
pub const MAX_FIELD: u64 = 0xFFFF_FFFF;

/// The name under which an entry is stored: directories end in a slash.
pub open spec fn zip_name(e: EntryView) -> Seq<u8> {
    if e.kind == EntryKind::Directory {
        e.archive_path.push(SLASH)
    } else {
        e.archive_path
    }
}

/// The size that the entry's metadata promises: only files have content.
pub open spec fn zip_size(e: EntryView) -> u64 {
    if e.kind == EntryKind::File {
        e.size
    } else {
        0
    }
}

/// The Unix file type and permission bits in the upper half, and the DOS
/// directory bit in the lower.
pub open spec fn external_attributes(e: EntryView) -> u32 {
    let mode: u32 = match e.unix_mode {
        Some(m) => m % 4096,
        None => if e.kind == EntryKind::Directory {
            493
        } else {
            420
        },
    };
    if e.kind == EntryKind::Directory {
        ((0x4000 + mode) * 65536 + 0x10) as u32
    } else {
        ((0x8000 + mode) * 65536) as u32
    }
}

/// The record before an entry's data. Checksum and sizes are zero here: the
/// descriptor after the data carries them.
#[verifier::opaque]
pub open spec fn local_header(e: EntryView) -> Seq<u8> {
    le32(0x04034b50) + le16(VERSION_NEEDED) + le16(FLAGS) + le16(0) + le16(dos_time(e.modified))
        + le16(dos_date(e.modified)) + le32(0) + le32(0) + le32(0) + le16(zip_name(e).len() as u16)
        + le16(0) + zip_name(e)
}

/// The record after an entry's data: checksum, stored size, real size.
#[verifier::opaque]
pub open spec fn data_descriptor(crc: u32, size: u32) -> Seq<u8> {
    le32(0x08074b50) + le32(crc) + le32(size) + le32(size)
}

/// An entry's record in the central directory.
#[verifier::opaque]
pub open spec fn central_header(e: EntryView, crc: u32, size: u32, offset: u32) -> Seq<u8> {
    le32(0x02014b50) + le16(VERSION_MADE_BY) + le16(VERSION_NEEDED) + le16(FLAGS) + le16(0) + le16(
        dos_time(e.modified),
    ) + le16(dos_date(e.modified)) + le32(crc) + le32(size) + le32(size) + le16(
        zip_name(e).len() as u16,
    ) + le16(0) + le16(0) + le16(0) + le16(0) + le32(external_attributes(e)) + le32(offset)
        + zip_name(e)
}

/// The record that ends the archive.
#[verifier::opaque]
pub open spec fn end_record(count: u16, central_size: u32, central_offset: u32) -> Seq<u8> {
    le32(0x06054b50) + le16(0) + le16(0) + le16(count) + le16(count) + le32(central_size) + le32(
        central_offset,
    ) + le16(0)
}

/// One entry as it is streamed: header, data as it is, descriptor. A
/// symlink has no place in the archive.
pub open spec fn zip_local(m: Member) -> Seq<u8> {
    if m.entry.kind == EntryKind::Symlink {
        Seq::empty()
    } else {
        local_header(m.entry) + m.content + data_descriptor(
            crc32(m.content),
            m.content.len() as u32,
        )
    }
}

/// All entries as they are streamed.
pub open spec fn zip_locals(ms: Seq<Member>) -> Seq<u8>
    decreases ms.len(),
{
    if ms.len() == 0 {
        Seq::empty()
    } else {
        zip_locals(ms.drop_last()) + zip_local(ms.last())
    }
}

/// The central directory: one record per entry, each with the offset at
/// which the entry's local header was streamed.
pub open spec fn zip_central(ms: Seq<Member>) -> Seq<u8>
    decreases ms.len(),
{
    if ms.len() == 0 {
        Seq::empty()
    } else if ms.last().entry.kind == EntryKind::Symlink {
        zip_central(ms.drop_last())
    } else {
        zip_central(ms.drop_last()) + central_header(
            ms.last().entry,
            crc32(ms.last().content),
            ms.last().content.len() as u32,
            zip_locals(ms.drop_last()).len() as u32,
        )
    }
}

/// How many entries the archive holds.
pub open spec fn zip_count(ms: Seq<Member>) -> nat
    decreases ms.len(),
{
    if ms.len() == 0 {
        0
    } else if ms.last().entry.kind == EntryKind::Symlink {
        zip_count(ms.drop_last())
    } else {
        zip_count(ms.drop_last()) + 1
    }
}

/// The whole archive: entries, central directory, end record.
pub open spec fn zip_archive(ms: Seq<Member>) -> Seq<u8> {
    zip_locals(ms) + zip_central(ms) + end_record(
        zip_count(ms) as u16,
        zip_central(ms).len() as u32,
        zip_locals(ms).len() as u32,
    )
}

/// Every entry can begin: there is room in the count, and its offset and
/// declared size fit their fields.
pub open spec fn zip_entries_fit(ms: Seq<Member>) -> bool
    decreases ms.len(),
{
    if ms.len() == 0 {
        true
    } else if ms.last().entry.kind == EntryKind::Symlink {
        zip_entries_fit(ms.drop_last())
    } else {
        &&& zip_entries_fit(ms.drop_last())
        &&& zip_count(ms.drop_last()) < MAX_ENTRIES
        &&& zip_locals(ms.drop_last()).len() <= MAX_FIELD
        &&& zip_size(ms.last().entry) <= MAX_FIELD
    }
}

/// The archive can be closed: where the central directory lies, and how long
/// it is, fit their fields.
pub open spec fn zip_end_fits(ms: Seq<Member>) -> bool {
    zip_locals(ms).len() <= MAX_FIELD && zip_central(ms).len() <= MAX_FIELD
}

/// A streamed entry is as long as its header, name, data and descriptor.
pub proof fn lemma_local_len(m: Member)
    requires
        m.entry.kind != EntryKind::Symlink,
    ensures
        local_header(m.entry).len() == 30 + zip_name(m.entry).len(),
        zip_local(m).len() == 30 + zip_name(m.entry).len() + m.content.len() + 16,
{
    reveal(local_header);
    reveal(data_descriptor);
    crate::encoding::lemma_le_lengths();
}

/// What one more entry adds to the streamed entries, to the central
/// directory and to the count.
pub proof fn lemma_push_member(ms: Seq<Member>, m: Member)
    requires
        m.entry.kind != EntryKind::Symlink,
    ensures
        zip_locals(ms.push(m)) == zip_locals(ms) + zip_local(m),
        zip_central(ms.push(m)) == zip_central(ms) + central_header(
            m.entry,
            crc32(m.content),
            m.content.len() as u32,
            zip_locals(ms).len() as u32,
        ),
        zip_count(ms.push(m)) == zip_count(ms) + 1,
        zip_entries_fit(ms.push(m)) == (zip_entries_fit(ms) && zip_count(ms) < MAX_ENTRIES
            && zip_locals(ms).len() <= MAX_FIELD && zip_size(m.entry) <= MAX_FIELD),
{
    assert(ms.push(m).drop_last() =~= ms);
}

/// Whether an entry may begin does not depend on its content.
pub proof fn lemma_fit_ignores_content(ms: Seq<Member>, a: Member, b: Member)
    requires
        a.entry == b.entry,
    ensures
        zip_entries_fit(ms.push(a)) == zip_entries_fit(ms.push(b)),
{
    assert(ms.push(a).drop_last() =~= ms);
    assert(ms.push(b).drop_last() =~= ms);
}

fn push_local_header(out: &mut Vec<u8>, entry: &FileEntry, name: &Vec<u8>, stamp: (u16, u16))
    requires
        name@ == zip_name(entry@),
        name@.len() <= 65535,
        stamp.0 == dos_date(entry@.modified),
        stamp.1 == dos_time(entry@.modified),
    ensures
        final(out)@ == old(out)@ + local_header(entry@),
{
    reveal(local_header);
    push_le32(out, 0x04034b50);
    push_le16(out, VERSION_NEEDED);
    push_le16(out, FLAGS);
    push_le16(out, 0);
    push_le16(out, stamp.1);
    push_le16(out, stamp.0);
    push_le32(out, 0);
    push_le32(out, 0);
    push_le32(out, 0);
    push_le16(out, name.len() as u16);
    push_le16(out, 0);
    push_bytes(out, name.as_slice());
    assert(out@ =~= old(out)@ + local_header(entry@));
}

fn push_data_descriptor(out: &mut Vec<u8>, crc: u32, size: u32)
    ensures
        final(out)@ == old(out)@ + data_descriptor(crc, size),
{
    reveal(data_descriptor);
    push_le32(out, 0x08074b50);
    push_le32(out, crc);
    push_le32(out, size);
    push_le32(out, size);
    assert(out@ =~= old(out)@ + data_descriptor(crc, size));
}

fn push_central_header(
    out: &mut Vec<u8>,
    entry: Ghost<EntryView>,
    name: &Vec<u8>,
    stamp: (u16, u16),
    attributes: u32,
    crc: u32,
    size: u32,
    offset: u32,
)
    requires
        name@ == zip_name(entry@),
        name@.len() <= 65535,
        stamp.0 == dos_date(entry@.modified),
        stamp.1 == dos_time(entry@.modified),
        attributes == external_attributes(entry@),
    ensures
        final(out)@ == old(out)@ + central_header(entry@, crc, size, offset),
{
    reveal(central_header);
    push_le32(out, 0x02014b50);
    push_le16(out, VERSION_MADE_BY);
    push_le16(out, VERSION_NEEDED);
    push_le16(out, FLAGS);
    push_le16(out, 0);
    push_le16(out, stamp.1);
    push_le16(out, stamp.0);
    push_le32(out, crc);
    push_le32(out, size);
    push_le32(out, size);
    push_le16(out, name.len() as u16);
    push_le16(out, 0);
    push_le16(out, 0);
    push_le16(out, 0);
    push_le16(out, 0);
    push_le32(out, attributes);
    push_le32(out, offset);
    push_bytes(out, name.as_slice());
    assert(out@ =~= old(out)@ + central_header(entry@, crc, size, offset));
}

fn push_end_record(out: &mut Vec<u8>, count: u16, central_size: u32, central_offset: u32)
    ensures
        final(out)@ == old(out)@ + end_record(count, central_size, central_offset),
{
    reveal(end_record);
    push_le32(out, 0x06054b50);
    push_le16(out, 0);
    push_le16(out, 0);
    push_le16(out, count);
    push_le16(out, count);
    push_le32(out, central_size);
    push_le32(out, central_offset);
    push_le16(out, 0);
    assert(out@ =~= old(out)@ + end_record(count, central_size, central_offset));
}

fn attributes_of(entry: &FileEntry) -> (attributes: u32)
    ensures
        attributes == external_attributes(entry@),
{
    let directory: bool = entry.kind() == EntryKind::Directory;
    let mode: u32 = match entry.unix_mode() {
        Some(m) => m % 4096,
        None => if directory {
            493
        } else {
            420
        },
    };
    if directory {
        (0x4000 + mode) * 65536 + 0x10
    } else {
        (0x8000 + mode) * 65536
    }
}

/// Writes a zip archive entry by entry. Each call hands back the bytes to
/// emit next; strung together they are the archive of the entries written.
/// Of each entry only its central directory record is kept until the end.
pub struct ZipEncoder {
    phase: EncoderPhase,
    offset: u64,
    count: u64,
    central: Vec<u8>,
    crc: Crc32,
    declared: u64,
    written: u64,
    name: Vec<u8>,
    stamp: (u16, u16),
    attributes: u32,
    emitted: Ghost<Seq<u8>>,
    members: Ghost<Seq<Member>>,
    current: Ghost<Member>,
}

impl ZipEncoder {
    pub closed spec fn phase(&self) -> EncoderPhase {
        self.phase
    }

    /// All bytes handed back so far.
    pub closed spec fn emitted(&self) -> Seq<u8> {
        self.emitted@
    }

    /// The entries completed so far, with the symlinks that were passed over.
    pub closed spec fn members(&self) -> Seq<Member> {
        self.members@
    }

    /// The entry being written, with the content it has received.
    pub closed spec fn pending(&self) -> Member {
        self.current@
    }

    pub closed spec fn counters_agree(&self) -> bool {
        &&& self.crc.wf()
        &&& self.phase == EncoderPhase::Idle || self.phase == EncoderPhase::InEntry ==> {
            &&& self.central@ == zip_central(self.members@)
            &&& self.count == zip_count(self.members@)
            &&& self.count <= MAX_ENTRIES
            &&& self.offset == zip_locals(self.members@).len()
        }
        &&& self.phase == EncoderPhase::InEntry ==> {
            &&& self.name@ == zip_name(self.current@.entry)
            &&& self.name@.len() <= 65535
            &&& self.stamp.0 == dos_date(self.current@.entry.modified)
            &&& self.stamp.1 == dos_time(self.current@.entry.modified)
            &&& self.attributes == external_attributes(self.current@.entry)
            &&& self.declared == zip_size(self.current@.entry)
            &&& self.written == self.current@.content.len()
            &&& self.crc.digested() == self.current@.content
        }
    }

    /// What was emitted is, at every point, the encoding of what was written,
    /// and every entry begun so far fits the format.
    pub open spec fn wf(&self) -> bool {
        &&& self.counters_agree()
        &&& match self.phase() {
            EncoderPhase::Idle => {
                &&& zip_entries_fit(self.members())
                &&& self.emitted() == zip_locals(self.members())
            },
            EncoderPhase::InEntry => {
                &&& self.pending().entry.kind != EntryKind::Symlink
                &&& self.pending().content.len() <= zip_size(self.pending().entry)
                &&& zip_entries_fit(self.members().push(self.pending()))
                &&& self.emitted() == zip_locals(self.members()) + local_header(
                    self.pending().entry,
                ) + self.pending().content
            },
            EncoderPhase::Finished => {
                &&& zip_entries_fit(self.members())
                &&& zip_end_fits(self.members())
                &&& self.emitted() == zip_archive(self.members())
            },
            EncoderPhase::Failed => true,
        }
    }

    /// An encoder that has written nothing.
    pub fn new() -> (enc: Self)
        ensures
            enc.wf(),
            enc.phase() == EncoderPhase::Idle,
            enc.members() == Seq::<Member>::empty(),
            enc.emitted() == Seq::<u8>::empty(),
    {
        ZipEncoder {
            phase: EncoderPhase::Idle,
            offset: 0,
            count: 0,
            central: Vec::new(),
            crc: Crc32::new(),
            declared: 0,
            written: 0,
            name: Vec::new(),
            stamp: (0, 0),
            attributes: 0,
            emitted: Ghost(Seq::empty()),
            members: Ghost(Seq::empty()),
            current: Ghost(Member { entry: arbitrary(), content: Seq::empty() }),
        }
    }

    /// Starts `entry` and hands back its local header. A symlink is passed
    /// over: nothing is handed back and no entry is started. An entry for
    /// which the format has no room fails the encoder, and so does a call
    /// out of turn.
    pub fn begin_entry(&mut self, entry: &FileEntry) -> (out: Result<Option<Vec<u8>>, ArchiveError>)
        requires
            old(self).wf(),
        ensures
            final(self).wf(),
            match out {
                Ok(None) => {
                    &&& old(self).phase() == EncoderPhase::Idle
                    &&& entry@.kind == EntryKind::Symlink
                    &&& final(self).phase() == EncoderPhase::Idle
                    &&& final(self).members() == old(self).members().push(
                        Member { entry: entry@, content: Seq::empty() },
                    )
                    &&& final(self).emitted() == old(self).emitted()
                },
                Ok(Some(bytes)) => {
                    &&& old(self).phase() == EncoderPhase::Idle
                    &&& entry@.kind != EntryKind::Symlink
                    &&& zip_count(old(self).members()) < MAX_ENTRIES
                    &&& zip_locals(old(self).members()).len() <= MAX_FIELD
                    &&& zip_size(entry@) <= MAX_FIELD
                    &&& bytes@ == local_header(entry@)
                    &&& final(self).phase() == EncoderPhase::InEntry
                    &&& final(self).pending() == (Member { entry: entry@, content: Seq::empty() })
                    &&& final(self).members() == old(self).members()
                    &&& final(self).emitted() == old(self).emitted() + bytes@
                },
                Err(e) => {
                    &&& final(self).phase() == EncoderPhase::Failed
                    &&& if old(self).phase() != EncoderPhase::Idle {
                        e == ArchiveError::SequenceViolation
                    } else {
                        &&& e == ArchiveError::LimitExceeded
                        &&& entry@.kind != EntryKind::Symlink
                        &&& !(zip_count(old(self).members()) < MAX_ENTRIES && zip_locals(
                            old(self).members(),
                        ).len() <= MAX_FIELD && zip_size(entry@) <= MAX_FIELD)
                    }
                },
            },
    {
        match self.phase {
            EncoderPhase::Idle => {},
            _ => {
                self.phase = EncoderPhase::Failed;
                return Err(ArchiveError::SequenceViolation);
            },
        }
        if entry.kind() == EntryKind::Symlink {
            proof {
                let passed = Member { entry: entry@, content: Seq::empty() };
                assert(self.members@.push(passed).drop_last() =~= self.members@);
                self.members@ = self.members@.push(passed);
            }
            return Ok(None);
        }
        let declared: u64 = if entry.kind() == EntryKind::File {
            entry.size()
        } else {
            0
        };
        if self.count >= MAX_ENTRIES || self.offset > MAX_FIELD || declared > MAX_FIELD {
            self.phase = EncoderPhase::Failed;
            return Err(ArchiveError::LimitExceeded);
        }
        let mut name: Vec<u8> = Vec::new();
        push_bytes(&mut name, entry.archive_path().as_slice());
        if entry.kind() == EntryKind::Directory {
            name.push(SLASH);
        }
        assert(name@ =~= zip_name(entry@));
        let stamp = dos_date_time(entry.modified());
        let mut bytes: Vec<u8> = Vec::new();
        push_local_header(&mut bytes, entry, &name, stamp);
        assert(bytes@ =~= local_header(entry@));
        self.phase = EncoderPhase::InEntry;
        self.declared = declared;
        self.written = 0;
        self.name = name;
        self.stamp = stamp;
        self.attributes = attributes_of(entry);
        self.crc.reset();
        proof {
            let started = Member { entry: entry@, content: Seq::empty() };
            lemma_push_member(self.members@, started);
            self.current@ = started;
            self.emitted@ = self.emitted@ + bytes@;
            assert(self.emitted@ =~= zip_locals(self.members@) + local_header(entry@) + Seq::<
                u8,
            >::empty());
        }
        Ok(Some(bytes))
    }

    /// Takes the next piece of the entry's content, adds it to the running
    /// checksum and hands it back for emission. More than the entry declared
    /// is a size mismatch.
    pub fn write_data(&mut self, data: Vec<u8>) -> (out: Result<Vec<u8>, ArchiveError>)
        requires
            old(self).wf(),
        ensures
            final(self).wf(),
            out.is_ok() <==> old(self).phase() == EncoderPhase::InEntry && old(self).pending().content.len() + data@.len() <= zip_size(old(self).pending().entry),
            match out {
                Ok(bytes) => {
                    &&& bytes@ == data@
                    &&& final(self).phase() == EncoderPhase::InEntry
                    &&& final(self).pending() == (Member {
                        entry: old(self).pending().entry,
                        content: old(self).pending().content + data@,
                    })
                    &&& final(self).members() == old(self).members()
                    &&& final(self).emitted() == old(self).emitted() + data@
                },
                Err(e) => {
                    &&& final(self).phase() == EncoderPhase::Failed
                    &&& e == if old(self).phase() == EncoderPhase::InEntry {
                        ArchiveError::SizeMismatch
                    } else {
                        ArchiveError::SequenceViolation
                    }
                },
            },
    {
        match self.phase {
            EncoderPhase::InEntry => {},
            _ => {
                self.phase = EncoderPhase::Failed;
                return Err(ArchiveError::SequenceViolation);
            },
        }
        if data.len() as u64 > self.declared - self.written {
            self.phase = EncoderPhase::Failed;
            return Err(ArchiveError::SizeMismatch);
        }
        self.written = self.written + data.len() as u64;
        self.crc.update(data.as_slice());
        proof {
            let grown = Member {
                entry: self.current@.entry,
                content: self.current@.content + data@,
            };
            lemma_fit_ignores_content(self.members@, grown, self.current@);
            let before = zip_locals(self.members@) + local_header(grown.entry);
            assert(self.emitted@ + data@ =~= before + grown.content);
            self.current@ = grown;
            self.emitted@ = self.emitted@ + data@;
        }
        Ok(data)
    }

    /// Ends the entry, hands back its data descriptor, and notes its record
    /// for the central directory. Less content than the entry declared is a
    /// size mismatch.
    pub fn end_entry(&mut self) -> (out: Result<Vec<u8>, ArchiveError>)
        requires
            old(self).wf(),
        ensures
            final(self).wf(),
            out.is_ok() <==> old(self).phase() == EncoderPhase::InEntry && old(self).pending().content.len() == zip_size(old(self).pending().entry),
            match out {
                Ok(bytes) => {
                    &&& bytes@ == data_descriptor(
                        crc32(old(self).pending().content),
                        old(self).pending().content.len() as u32,
                    )
                    &&& final(self).phase() == EncoderPhase::Idle
                    &&& final(self).members() == old(self).members().push(old(self).pending())
                    &&& final(self).emitted() == old(self).emitted() + bytes@
                },
                Err(e) => {
                    &&& final(self).phase() == EncoderPhase::Failed
                    &&& e == if old(self).phase() == EncoderPhase::InEntry {
                        ArchiveError::SizeMismatch
                    } else {
                        ArchiveError::SequenceViolation
                    }
                },
            },
    {
        match self.phase {
            EncoderPhase::InEntry => {},
            _ => {
                self.phase = EncoderPhase::Failed;
                return Err(ArchiveError::SequenceViolation);
            },
        }
        if self.written != self.declared {
            self.phase = EncoderPhase::Failed;
            return Err(ArchiveError::SizeMismatch);
        }
        let ghost done = self.members@.push(self.current@);
        proof {
            lemma_push_member(self.members@, self.current@);
            lemma_local_len(self.current@);
        }
        let sum: u32 = self.crc.value();
        let size: u32 = self.written as u32;
        let mut bytes: Vec<u8> = Vec::new();
        push_data_descriptor(&mut bytes, sum, size);
        assert(bytes@ =~= data_descriptor(sum, size));
        push_central_header(
            &mut self.central,
            Ghost(self.current@.entry),
            &self.name,
            self.stamp,
            self.attributes,
            sum,
            size,
            self.offset as u32,
        );
        assert(self.central@ == zip_central(done));
        self.offset = self.offset + 30 + self.name.len() as u64 + self.written + 16;
        self.count = self.count + 1;
        self.phase = EncoderPhase::Idle;
        proof {
            assert(self.emitted@ + bytes@ =~= zip_locals(self.members@) + zip_local(self.current@));
            self.members@ = done;
            self.emitted@ = self.emitted@ + bytes@;
        }
        Ok(bytes)
    }

    /// Ends the archive and hands back the central directory and the end
    /// record. An archive too long for the offsets of the format fails here.
    pub fn finish(&mut self) -> (out: Result<Vec<u8>, ArchiveError>)
        requires
            old(self).wf(),
        ensures
            final(self).wf(),
            out.is_ok() <==> old(self).phase() == EncoderPhase::Idle && zip_end_fits(
                old(self).members(),
            ),
            match out {
                Ok(bytes) => {
                    &&& bytes@ == zip_central(old(self).members()) + end_record(
                        zip_count(old(self).members()) as u16,
                        zip_central(old(self).members()).len() as u32,
                        zip_locals(old(self).members()).len() as u32,
                    )
                    &&& final(self).phase() == EncoderPhase::Finished
                    &&& final(self).members() == old(self).members()
                    &&& final(self).emitted() == zip_archive(final(self).members())
                    &&& final(self).emitted() == old(self).emitted() + bytes@
                },
                Err(e) => {
                    &&& final(self).phase() == EncoderPhase::Failed
                    &&& e == if old(self).phase() == EncoderPhase::Idle {
                        ArchiveError::LimitExceeded
                    } else {
                        ArchiveError::SequenceViolation
                    }
                },
            },
    {
        match self.phase {
            EncoderPhase::Idle => {},
            _ => {
                self.phase = EncoderPhase::Failed;
                return Err(ArchiveError::SequenceViolation);
            },
        }
        if self.offset > MAX_FIELD || self.central.len() as u64 > MAX_FIELD {
            self.phase = EncoderPhase::Failed;
            return Err(ArchiveError::LimitExceeded);
        }
        let mut bytes: Vec<u8> = Vec::new();
        push_bytes(&mut bytes, self.central.as_slice());
        push_end_record(
            &mut bytes,
            self.count as u16,
            self.central.len() as u32,
            self.offset as u32,
        );
        self.phase = EncoderPhase::Finished;
        proof {
            self.emitted@ = self.emitted@ + bytes@;
            assert(self.emitted@ =~= zip_archive(self.members@));
        }
        Ok(bytes)
    }
}

} // verus!
