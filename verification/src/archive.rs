//! Whole archives of entries whose content is at hand, written with the
//! streaming encoders.

use crate::encoding::push_bytes;
use crate::entry::{ArchiveError, ArchiveFormat, EncoderPhase, EntryKind, FileEntry, Member};
use crate::tar::{tar_archive, tar_size, TarEncoder};
use crate::zip::{
    zip_archive, zip_count, zip_end_fits, zip_locals, zip_size, ZipEncoder,
    MAX_ENTRIES, MAX_FIELD,
};
use vstd::prelude::*;

verus! {

/// An entry with all of its content. A symlink has none: what stands in
/// `content` is of no account.
pub struct ArchiveItem {
    pub entry: FileEntry,
    pub content: Vec<u8>,
}

impl View for ArchiveItem {
    type V = Member;

    open spec fn view(&self) -> Member {
        Member {
            entry: self.entry@,
            content: if self.entry@.kind == EntryKind::Symlink {
                Seq::empty()
            } else {
                self.content@
            },
        }
    }
}

/// The items as plain values.
pub open spec fn members_of(items: Seq<ArchiveItem>) -> Seq<Member> {
    items.map_values(|i: ArchiveItem| i@)
}

/// The content is as long as the entry declares.
pub open spec fn size_agrees(m: Member) -> bool {
    m.entry.kind == EntryKind::Symlink || m.content.len() == tar_size(m.entry)
}

/// Every member's content is as long as declared.
pub open spec fn sizes_agree(ms: Seq<Member>) -> bool {
    forall|i: int| 0 <= i < ms.len() ==> size_agrees(#[trigger] ms[i])
}

/// The first failure met when the members are written to a zip archive one
/// after the other: an entry for which the format has no room, or one whose
/// content is not as long as declared.
pub open spec fn zip_entry_failure(ms: Seq<Member>) -> Option<ArchiveError>
    decreases ms.len(),
{
    if ms.len() == 0 {
        None
    } else if zip_entry_failure(ms.drop_last()).is_some() {
        zip_entry_failure(ms.drop_last())
    } else if ms.last().entry.kind == EntryKind::Symlink {
        None
    } else if !(zip_count(ms.drop_last()) < MAX_ENTRIES && zip_locals(ms.drop_last()).len()
        <= MAX_FIELD && zip_size(ms.last().entry) <= MAX_FIELD) {
        Some(ArchiveError::LimitExceeded)
    } else if ms.last().content.len() != zip_size(ms.last().entry) {
        Some(ArchiveError::SizeMismatch)
    } else {
        None
    }
}

/// Why the members cannot be written to a zip archive, if they cannot: the
/// first failure among the entries, or a central directory out of reach of
/// the end record.
pub open spec fn zip_failure(ms: Seq<Member>) -> Option<ArchiveError> {
    if zip_entry_failure(ms).is_some() {
        zip_entry_failure(ms)
    } else if !zip_end_fits(ms) {
        Some(ArchiveError::LimitExceeded)
    } else {
        None
    }
}

/// The tar archive of `items`, or a size mismatch where some content is not
/// as long as its entry declares.
pub fn encode_tar(items: &Vec<ArchiveItem>) -> (out: Result<Vec<u8>, ArchiveError>)
    ensures
        out.is_ok() <==> sizes_agree(members_of(items@)),
        match out {
            Ok(bytes) => bytes@ == tar_archive(members_of(items@)),
            Err(e) => e == ArchiveError::SizeMismatch,
        },
{
    let ghost ms = members_of(items@);
    let mut enc = TarEncoder::new();
    let mut bytes: Vec<u8> = Vec::new();
    let mut i: usize = 0;
    assert(ms.take(0) =~= Seq::<Member>::empty());
    while i < items.len()
        invariant
            i <= items@.len(),
            ms == members_of(items@),
            enc.wf(),
            enc.phase() == EncoderPhase::Idle,
            enc.members() == ms.take(i as int),
            bytes@ == enc.emitted(),
            forall|j: int| 0 <= j < i ==> size_agrees(#[trigger] ms[j]),
        decreases items@.len() - i,
    {
        let item = &items[i];
        assert(ms[i as int] == item@);
        assert(ms.take(i + 1) =~= ms.take(i as int).push(ms[i as int]));
        match enc.begin_entry(&item.entry) {
            Err(e) => {
                return Err(ArchiveError::SizeMismatch);
            },
            Ok(None) => {},
            Ok(Some(head)) => {
                push_bytes(&mut bytes, head.as_slice());
                let mut content: Vec<u8> = Vec::new();
                push_bytes(&mut content, item.content.as_slice());
                assert(content@ =~= item.content@);
                match enc.write_data(content) {
                    Err(e) => {
                        assert(!size_agrees(ms[i as int]));
                        return Err(e);
                    },
                    Ok(data) => {
                        push_bytes(&mut bytes, data.as_slice());
                    },
                }
                assert(enc.pending().content =~= item.content@);
                assert(enc.pending() == item@);
                match enc.end_entry() {
                    Err(e) => {
                        assert(!size_agrees(ms[i as int]));
                        return Err(e);
                    },
                    Ok(pad) => {
                        push_bytes(&mut bytes, pad.as_slice());
                    },
                }
            },
        }
        i += 1;
    }
    assert(ms.take(i as int) =~= ms);
    match enc.finish() {
        Err(e) => Err(ArchiveError::SizeMismatch),
        Ok(end) => {
            push_bytes(&mut bytes, end.as_slice());
            Ok(bytes)
        },
    }
}

/// The zip archive of `items`, or the first failure on the way to it.
pub fn encode_zip(items: &Vec<ArchiveItem>) -> (out: Result<Vec<u8>, ArchiveError>)
    ensures
        match out {
            Ok(bytes) => zip_failure(members_of(items@)).is_none() && bytes@ == zip_archive(
                members_of(items@),
            ),
            Err(e) => zip_failure(members_of(items@)) == Some(e),
        },
{
    let ghost ms = members_of(items@);
    let mut enc = ZipEncoder::new();
    let mut bytes: Vec<u8> = Vec::new();
    let mut i: usize = 0;
    assert(ms.take(0) =~= Seq::<Member>::empty());
    while i < items.len()
        invariant
            i <= items@.len(),
            ms == members_of(items@),
            enc.wf(),
            enc.phase() == EncoderPhase::Idle,
            enc.members() == ms.take(i as int),
            bytes@ == enc.emitted(),
            zip_entry_failure(ms.take(i as int)).is_none(),
        decreases items@.len() - i,
    {
        let item = &items[i];
        let ghost next = ms.take(i + 1);
        assert(ms[i as int] == item@);
        assert(next =~= ms.take(i as int).push(ms[i as int]));
        assert(next.drop_last() =~= ms.take(i as int));
        assert(next.last() == item@);
        match enc.begin_entry(&item.entry) {
            Err(e) => {
                proof {
                    lemma_failure_stays(ms, i + 1);
                }
                return Err(e);
            },
            Ok(None) => {},
            Ok(Some(head)) => {
                push_bytes(&mut bytes, head.as_slice());
                let mut content: Vec<u8> = Vec::new();
                push_bytes(&mut content, item.content.as_slice());
                assert(content@ =~= item.content@);
                match enc.write_data(content) {
                    Err(e) => {
                        proof {
                            lemma_failure_stays(ms, i + 1);
                        }
                        return Err(e);
                    },
                    Ok(data) => {
                        push_bytes(&mut bytes, data.as_slice());
                    },
                }
                assert(enc.pending().content =~= item.content@);
                assert(enc.pending() == item@);
                match enc.end_entry() {
                    Err(e) => {
                        proof {
                            lemma_failure_stays(ms, i + 1);
                        }
                        return Err(e);
                    },
                    Ok(descriptor) => {
                        push_bytes(&mut bytes, descriptor.as_slice());
                    },
                }
            },
        }
        i += 1;
    }
    assert(ms.take(i as int) =~= ms);
    match enc.finish() {
        Err(e) => Err(e),
        Ok(end) => {
            push_bytes(&mut bytes, end.as_slice());
            Ok(bytes)
        },
    }
}

/// A failure among the first `n` members is the failure of the whole.
pub proof fn lemma_failure_stays(ms: Seq<Member>, n: int)
    requires
        0 <= n <= ms.len(),
        zip_entry_failure(ms.take(n)).is_some(),
    ensures
        zip_entry_failure(ms) == zip_entry_failure(ms.take(n)),
    decreases ms.len() - n,
{
    if n == ms.len() {
        assert(ms.take(n) =~= ms);
    } else {
        assert(ms.take(n + 1).drop_last() =~= ms.take(n));
        lemma_failure_stays(ms, n + 1);
    }
}

/// The archive of `items` in the given format.
pub fn encode_archive(format: ArchiveFormat, items: &Vec<ArchiveItem>) -> (out: Result<
    Vec<u8>,
    ArchiveError,
>)
    ensures
        match format {
            ArchiveFormat::Tar => {
                &&& out.is_ok() <==> sizes_agree(members_of(items@))
                &&& match out {
                    Ok(bytes) => bytes@ == tar_archive(members_of(items@)),
                    Err(e) => e == ArchiveError::SizeMismatch,
                }
            },
            ArchiveFormat::Zip => match out {
                Ok(bytes) => zip_failure(members_of(items@)).is_none() && bytes@ == zip_archive(
                    members_of(items@),
                ),
                Err(e) => zip_failure(members_of(items@)) == Some(e),
            },
        },
{
    match format {
        ArchiveFormat::Tar => encode_tar(items),
        ArchiveFormat::Zip => encode_zip(items),
    }
}

} // verus!
