//! The tar container, written in the GNU flavour so that names of any length
//! and sizes of any magnitude have a place.

use crate::encoding::{be64, octal_digits, push_be64, push_bytes, push_octal, push_zeros, zeros};
use crate::entry::{
    ArchiveError, EncoderPhase, EntryKind, EntryView, FileEntry, Member, SLASH,
};
use vstd::prelude::*;

verus! {

/// The sum of all bytes of `s`.
pub open spec fn byte_sum(s: Seq<u8>) -> nat
    decreases s.len(),
{
    if s.len() == 0 {
        0
    } else {
        byte_sum(s.drop_last()) + s.last() as nat
    }
}

/// A twelve-byte number field: eleven octal digits and a NUL, or, for what
/// eleven digits cannot hold, the marker `0x80` and the number in binary.
pub open spec fn numeric12(v: u64) -> Seq<u8> {
    if v < 0x2_0000_0000 {
        octal_digits(v as nat, 11).push(0u8)
    } else {
        seq![0x80u8, 0u8, 0u8, 0u8] + be64(v)
    }
}

/// `ustar`, two spaces and a NUL: magic and version of the GNU flavour.
pub open spec fn gnu_magic() -> Seq<u8> {
    seq![117u8, 115u8, 116u8, 97u8, 114u8, 32u8, 32u8, 0u8]
}

/// The header up to the checksum: name, mode, owner, group, size and time.
pub open spec fn header_front(name_field: Seq<u8>, mode: u32, size: u64, mtime: u64) -> Seq<u8> {
    name_field + zeros((100 - name_field.len()) as nat) + octal_digits(mode as nat, 7).push(0u8)
        + octal_digits(0, 7).push(0u8) + octal_digits(0, 7).push(0u8) + numeric12(size) + numeric12(
        mtime,
    )
}

/// The header after the checksum: type flag, an empty link name, the magic,
/// and zeros up to the end of the block.
pub open spec fn header_back(typeflag: u8) -> Seq<u8> {
    seq![typeflag] + zeros(100) + gnu_magic() + zeros(247)
}

/// The checksum field: six octal digits, a NUL and a space, of the sum of
/// all header bytes with eight spaces where the checksum stands.
pub open spec fn checksum_field(front: Seq<u8>, back: Seq<u8>) -> Seq<u8> {
    octal_digits(byte_sum(front) + 256 + byte_sum(back), 6) + seq![0u8, 32u8]
}

/// One 512-byte header block.
#[verifier::opaque]
pub open spec fn header(name_field: Seq<u8>, mode: u32, size: u64, mtime: u64, typeflag: u8) -> Seq<
    u8,
> {
    let front = header_front(name_field, mode, size, mtime);
    let back = header_back(typeflag);
    front + checksum_field(front, back) + back
}

/// How many zero bytes fill `n` bytes up to a whole block.
pub open spec fn pad_len(n: nat) -> nat {
    ((512 - n % 512) % 512) as nat
}

/// The name under which an entry is stored: directories end in a slash.
pub open spec fn tar_name(e: EntryView) -> Seq<u8> {
    if e.kind == EntryKind::Directory {
        e.archive_path.push(SLASH)
    } else {
        e.archive_path
    }
}

/// The size that the header declares: only files have content.
pub open spec fn tar_size(e: EntryView) -> u64 {
    if e.kind == EntryKind::File {
        e.size
    } else {
        0
    }
}

/// The permission bits: those of the entry, or `755` for a directory and
/// `644` for a file where none are known.
pub open spec fn tar_mode(e: EntryView) -> u32 {
    match e.unix_mode {
        Some(m) => m % 4096,
        None => if e.kind == EntryKind::Directory {
            493
        } else {
            420
        },
    }
}

/// `5` for a directory, `0` for a file.
pub open spec fn type_flag(e: EntryView) -> u8 {
    if e.kind == EntryKind::Directory {
        53
    } else {
        48
    }
}

/// `././@LongLink`, the name of the record that carries a long name.
pub open spec fn long_link_name() -> Seq<u8> {
    seq![46u8, 47u8, 46u8, 47u8, 64u8, 76u8, 111u8, 110u8, 103u8, 76u8, 105u8, 110u8, 107u8]
}

/// What precedes an entry's content. A name of up to 100 bytes stands in the
/// header itself. A longer one is spelled out in a record of type `L` before
/// the header, which then holds its first 100 bytes. A symlink has no place
/// in the archive.
pub open spec fn tar_head(e: EntryView) -> Seq<u8> {
    let name = tar_name(e);
    if e.kind == EntryKind::Symlink {
        Seq::empty()
    } else if name.len() <= 100 {
        header(name, tar_mode(e), tar_size(e), e.modified, type_flag(e))
    } else {
        header(long_link_name(), 420, (name.len() + 1) as u64, 0, 76) + name + seq![0u8] + zeros(
            pad_len(name.len() + 1),
        ) + header(name.take(100), tar_mode(e), tar_size(e), e.modified, type_flag(e))
    }
}

/// One entry: head, content, and zeros up to the next block.
pub open spec fn tar_member(m: Member) -> Seq<u8> {
    if m.entry.kind == EntryKind::Symlink {
        Seq::empty()
    } else {
        tar_head(m.entry) + m.content + zeros(pad_len(m.content.len()))
    }
}

/// All entries, one after the other.
pub open spec fn tar_members(ms: Seq<Member>) -> Seq<u8>
    decreases ms.len(),
{
    if ms.len() == 0 {
        Seq::empty()
    } else {
        tar_members(ms.drop_last()) + tar_member(ms.last())
    }
}

/// The whole archive: the entries and two blocks of zeros.
pub open spec fn tar_archive(ms: Seq<Member>) -> Seq<u8> {
    tar_members(ms) + zeros(1024)
}

fn sum_bytes(bytes: &Vec<u8>) -> (sum: u64)
    requires
        bytes@.len() <= 512,
    ensures
        sum == byte_sum(bytes@),
        sum <= 255 * bytes@.len(),
{
    let mut sum: u64 = 0;
    let mut i: usize = 0;
    while i < bytes.len()
        invariant
            i <= bytes.len(),
            bytes@.len() <= 512,
            sum == byte_sum(bytes@.take(i as int)),
            sum <= 255 * i,
        decreases bytes.len() - i,
    {
        assert(bytes@.take(i + 1).drop_last() =~= bytes@.take(i as int));
        sum = sum + bytes[i] as u64;
        i += 1;
    }
    assert(bytes@.take(bytes.len() as int) =~= bytes@);
    sum
}

fn push_numeric12(out: &mut Vec<u8>, v: u64)
    ensures
        final(out)@ == old(out)@ + numeric12(v),
{
    if v < 0x2_0000_0000 {
        push_octal(out, v, 11);
        out.push(0u8);
    } else {
        out.push(0x80u8);
        out.push(0u8);
        out.push(0u8);
        out.push(0u8);
        push_be64(out, v);
    }
    assert(out@ =~= old(out)@ + numeric12(v));
}

fn push_octal_field(out: &mut Vec<u8>, v: u64)
    ensures
        final(out)@ == old(out)@ + octal_digits(v as nat, 7).push(0u8),
{
    push_octal(out, v, 7);
    out.push(0u8);
    assert(out@ =~= old(out)@ + octal_digits(v as nat, 7).push(0u8));
}

/// Appends one header block.
fn push_header(out: &mut Vec<u8>, name_field: &[u8], mode: u32, size: u64, mtime: u64, typeflag: u8)
    requires
        name_field@.len() <= 100,
    ensures
        final(out)@ == old(out)@ + header(name_field@, mode, size, mtime, typeflag),
{
    reveal(header);
    let mut front: Vec<u8> = Vec::new();
    push_bytes(&mut front, name_field);
    push_zeros(&mut front, 100 - name_field.len());
    push_octal_field(&mut front, mode as u64);
    push_octal_field(&mut front, 0);
    push_octal_field(&mut front, 0);
    push_numeric12(&mut front, size);
    push_numeric12(&mut front, mtime);
    assert(front@ =~= header_front(name_field@, mode, size, mtime));
    proof {
        crate::encoding::lemma_octal_digits_len(mode as nat, 7);
        crate::encoding::lemma_octal_digits_len(0, 7);
        crate::encoding::lemma_octal_digits_len(size as nat, 11);
        crate::encoding::lemma_octal_digits_len(mtime as nat, 11);
    }
    assert(front@.len() == 148);
    let mut back: Vec<u8> = Vec::new();
    back.push(typeflag);
    push_zeros(&mut back, 100);
    back.push(117u8);
    back.push(115u8);
    back.push(116u8);
    back.push(97u8);
    back.push(114u8);
    back.push(32u8);
    back.push(32u8);
    back.push(0u8);
    push_zeros(&mut back, 247);
    assert(back@ =~= header_back(typeflag));
    let sum: u64 = sum_bytes(&front) + 256 + sum_bytes(&back);
    push_bytes(out, front.as_slice());
    push_octal(out, sum, 6);
    out.push(0u8);
    out.push(32u8);
    push_bytes(out, back.as_slice());
    assert(out@ =~= old(out)@ + header(name_field@, mode, size, mtime, typeflag));
}

fn pad_for(n: u64) -> (pad: usize)
    ensures
        pad == pad_len(n as nat),
{
    ((512 - n % 512) % 512) as usize
}

/// Appends what precedes the content of `entry`.
fn push_head(out: &mut Vec<u8>, entry: &FileEntry)
    requires
        entry@.kind != EntryKind::Symlink,
    ensures
        final(out)@ == old(out)@ + tar_head(entry@),
{
    let directory: bool = entry.kind() == EntryKind::Directory;
    let mut name: Vec<u8> = Vec::new();
    push_bytes(&mut name, entry.archive_path().as_slice());
    if directory {
        name.push(SLASH);
    }
    assert(name@ =~= tar_name(entry@));
    let mode: u32 = match entry.unix_mode() {
        Some(m) => m % 4096,
        None => if directory {
            493
        } else {
            420
        },
    };
    let size: u64 = if entry.kind() == EntryKind::File {
        entry.size()
    } else {
        0
    };
    let flag: u8 = if directory {
        53
    } else {
        48
    };
    if name.len() <= 100 {
        push_header(out, name.as_slice(), mode, size, entry.modified(), flag);
    } else {
        let mut link: Vec<u8> = Vec::new();
        link.push(46u8);
        link.push(47u8);
        link.push(46u8);
        link.push(47u8);
        link.push(64u8);
        link.push(76u8);
        link.push(111u8);
        link.push(110u8);
        link.push(103u8);
        link.push(76u8);
        link.push(105u8);
        link.push(110u8);
        link.push(107u8);
        assert(link@ =~= long_link_name());
        let spelled: u64 = name.len() as u64 + 1;
        push_header(out, link.as_slice(), 420, spelled, 0, 76);
        push_bytes(out, name.as_slice());
        out.push(0u8);
        push_zeros(out, pad_for(spelled));
        let first: &[u8] = vstd::slice::slice_subrange(name.as_slice(), 0, 100);
        assert(first@ =~= name@.take(100));
        push_header(out, first, mode, size, entry.modified(), flag);
        assert(out@ =~= old(out)@ + tar_head(entry@));
    }
}

/// Writes a tar archive entry by entry. Each call hands back the bytes to
/// emit next; strung together they are the archive of the entries written.
pub struct TarEncoder {
    phase: EncoderPhase,
    declared: u64,
    written: u64,
    emitted: Ghost<Seq<u8>>,
    members: Ghost<Seq<Member>>,
    current: Ghost<Member>,
}

impl TarEncoder {
    pub closed spec fn phase(&self) -> EncoderPhase {
        self.phase
    }

    /// All bytes handed back so far.
    pub closed spec fn emitted(&self) -> Seq<u8> {
        self.emitted@
    }

    /// The entries completed so far, with the symlinks that were passed over.
    pub closed spec fn members(&self) -> Seq<Member> {
        self.members@
    }

    /// The entry being written, with the content it has received.
    pub closed spec fn pending(&self) -> Member {
        self.current@
    }

    pub closed spec fn counters_agree(&self) -> bool {
        self.phase == EncoderPhase::InEntry ==> self.declared == tar_size(self.current@.entry)
            && self.written == self.current@.content.len()
    }

    /// What was emitted is, at every point, the encoding of what was written.
    pub open spec fn wf(&self) -> bool {
        &&& self.counters_agree()
        &&& match self.phase() {
            EncoderPhase::Idle => self.emitted() == tar_members(self.members()),
            EncoderPhase::InEntry => {
                &&& self.pending().entry.kind != EntryKind::Symlink
                &&& self.pending().content.len() <= tar_size(self.pending().entry)
                &&& self.emitted() == tar_members(self.members()) + tar_head(self.pending().entry)
                    + self.pending().content
            },
            EncoderPhase::Finished => self.emitted() == tar_archive(self.members()),
            EncoderPhase::Failed => true,
        }
    }

    /// An encoder that has written nothing.
    pub fn new() -> (enc: Self)
        ensures
            enc.wf(),
            enc.phase() == EncoderPhase::Idle,
            enc.members() == Seq::<Member>::empty(),
            enc.emitted() == Seq::<u8>::empty(),
    {
        TarEncoder {
            phase: EncoderPhase::Idle,
            declared: 0,
            written: 0,
            emitted: Ghost(Seq::empty()),
            members: Ghost(Seq::empty()),
            current: Ghost(Member { entry: arbitrary(), content: Seq::empty() }),
        }
    }

    /// Starts `entry` and hands back its head. A symlink is passed over:
    /// nothing is handed back and no entry is started. Out of turn the call
    /// fails the encoder.
    pub fn begin_entry(&mut self, entry: &FileEntry) -> (out: Result<Option<Vec<u8>>, ArchiveError>)
        requires
            old(self).wf(),
        ensures
            final(self).wf(),
            match out {
                Ok(None) => {
                    &&& old(self).phase() == EncoderPhase::Idle
                    &&& entry@.kind == EntryKind::Symlink
                    &&& final(self).phase() == EncoderPhase::Idle
                    &&& final(self).members() == old(self).members().push(
                        Member { entry: entry@, content: Seq::empty() },
                    )
                    &&& final(self).emitted() == old(self).emitted()
                },
                Ok(Some(bytes)) => {
                    &&& old(self).phase() == EncoderPhase::Idle
                    &&& entry@.kind != EntryKind::Symlink
                    &&& bytes@ == tar_head(entry@)
                    &&& final(self).phase() == EncoderPhase::InEntry
                    &&& final(self).pending() == (Member { entry: entry@, content: Seq::empty() })
                    &&& final(self).members() == old(self).members()
                    &&& final(self).emitted() == old(self).emitted() + bytes@
                },
                Err(e) => {
                    &&& old(self).phase() != EncoderPhase::Idle
                    &&& e == ArchiveError::SequenceViolation
                    &&& final(self).phase() == EncoderPhase::Failed
                },
            },
    {
        match self.phase {
            EncoderPhase::Idle => {},
            _ => {
                self.phase = EncoderPhase::Failed;
                return Err(ArchiveError::SequenceViolation);
            },
        }
        if entry.kind() == EntryKind::Symlink {
            proof {
                let passed = Member { entry: entry@, content: Seq::empty() };
                assert(self.members@.push(passed).drop_last() =~= self.members@);
                self.members@ = self.members@.push(passed);
            }
            return Ok(None);
        }
        let mut bytes: Vec<u8> = Vec::new();
        push_head(&mut bytes, entry);
        assert(bytes@ =~= tar_head(entry@));
        self.phase = EncoderPhase::InEntry;
        self.declared = if entry.kind() == EntryKind::File {
            entry.size()
        } else {
            0
        };
        self.written = 0;
        proof {
            self.current@ = Member { entry: entry@, content: Seq::empty() };
            self.emitted@ = self.emitted@ + bytes@;
            assert(self.emitted@ =~= tar_members(self.members@) + tar_head(entry@) + Seq::<u8>::empty());
        }
        Ok(Some(bytes))
    }

    /// Takes the next piece of the entry's content and hands it back for
    /// emission. More than the entry declared is a size mismatch.
    pub fn write_data(&mut self, data: Vec<u8>) -> (out: Result<Vec<u8>, ArchiveError>)
        requires
            old(self).wf(),
        ensures
            final(self).wf(),
            out.is_ok() <==> old(self).phase() == EncoderPhase::InEntry && old(self).pending().content.len() + data@.len() <= tar_size(old(self).pending().entry),
            match out {
                Ok(bytes) => {
                    &&& bytes@ == data@
                    &&& final(self).phase() == EncoderPhase::InEntry
                    &&& final(self).pending() == (Member {
                        entry: old(self).pending().entry,
                        content: old(self).pending().content + data@,
                    })
                    &&& final(self).members() == old(self).members()
                    &&& final(self).emitted() == old(self).emitted() + data@
                },
                Err(e) => {
                    &&& final(self).phase() == EncoderPhase::Failed
                    &&& e == if old(self).phase() == EncoderPhase::InEntry {
                        ArchiveError::SizeMismatch
                    } else {
                        ArchiveError::SequenceViolation
                    }
                },
            },
    {
        match self.phase {
            EncoderPhase::InEntry => {},
            _ => {
                self.phase = EncoderPhase::Failed;
                return Err(ArchiveError::SequenceViolation);
            },
        }
        if data.len() as u64 > self.declared - self.written {
            self.phase = EncoderPhase::Failed;
            return Err(ArchiveError::SizeMismatch);
        }
        self.written = self.written + data.len() as u64;
        proof {
            let grown = Member {
                entry: self.current@.entry,
                content: self.current@.content + data@,
            };
            assert(self.emitted@ + data@ =~= tar_members(self.members@) + tar_head(grown.entry)
                + grown.content);
            self.current@ = grown;
            self.emitted@ = self.emitted@ + data@;
        }
        Ok(data)
    }

    /// Ends the entry and hands back the zeros that fill its last block.
    /// Less content than the entry declared is a size mismatch.
    pub fn end_entry(&mut self) -> (out: Result<Vec<u8>, ArchiveError>)
        requires
            old(self).wf(),
        ensures
            final(self).wf(),
            out.is_ok() <==> old(self).phase() == EncoderPhase::InEntry && old(self).pending().content.len() == tar_size(old(self).pending().entry),
            match out {
                Ok(bytes) => {
                    &&& bytes@ == zeros(pad_len(old(self).pending().content.len()))
                    &&& final(self).phase() == EncoderPhase::Idle
                    &&& final(self).members() == old(self).members().push(old(self).pending())
                    &&& final(self).emitted() == old(self).emitted() + bytes@
                },
                Err(e) => {
                    &&& final(self).phase() == EncoderPhase::Failed
                    &&& e == if old(self).phase() == EncoderPhase::InEntry {
                        ArchiveError::SizeMismatch
                    } else {
                        ArchiveError::SequenceViolation
                    }
                },
            },
    {
        match self.phase {
            EncoderPhase::InEntry => {},
            _ => {
                self.phase = EncoderPhase::Failed;
                return Err(ArchiveError::SequenceViolation);
            },
        }
        if self.written != self.declared {
            self.phase = EncoderPhase::Failed;
            return Err(ArchiveError::SizeMismatch);
        }
        let mut bytes: Vec<u8> = Vec::new();
        push_zeros(&mut bytes, pad_for(self.written));
        assert(bytes@ =~= zeros(pad_len(self.current@.content.len())));
        self.phase = EncoderPhase::Idle;
        proof {
            let done = self.members@.push(self.current@);
            assert(done.drop_last() =~= self.members@);
            assert(self.emitted@ + bytes@ =~= tar_members(done));
            self.members@ = done;
            self.emitted@ = self.emitted@ + bytes@;
        }
        Ok(bytes)
    }

    /// Ends the archive and hands back the two blocks of zeros that mark its
    /// end.
    pub fn finish(&mut self) -> (out: Result<Vec<u8>, ArchiveError>)
        requires
            old(self).wf(),
        ensures
            final(self).wf(),
            out.is_ok() <==> old(self).phase() == EncoderPhase::Idle,
            match out {
                Ok(bytes) => {
                    &&& bytes@ == zeros(1024)
                    &&& final(self).phase() == EncoderPhase::Finished
                    &&& final(self).members() == old(self).members()
                    &&& final(self).emitted() == tar_archive(final(self).members())
                    &&& final(self).emitted() == old(self).emitted() + bytes@
                },
                Err(e) => {
                    &&& final(self).phase() == EncoderPhase::Failed
                    &&& e == ArchiveError::SequenceViolation
                },
            },
    {
        match self.phase {
            EncoderPhase::Idle => {},
            _ => {
                self.phase = EncoderPhase::Failed;
                return Err(ArchiveError::SequenceViolation);
            },
        }
        let mut bytes: Vec<u8> = Vec::new();
        push_zeros(&mut bytes, 1024);
        assert(bytes@ =~= zeros(1024));
        self.phase = EncoderPhase::Finished;
        proof {
            self.emitted@ = self.emitted@ + bytes@;
        }
        Ok(bytes)
    }
}

} // verus!
