//! Reading a tar archive back, as a specification: what an extraction finds
//! in a run of bytes, and the proof that it finds in an archive what was
//! written to it.

use crate::encoding::{
    be64, be64_value, lemma_be64_round_trip, lemma_octal_digits_len, lemma_octal_round_trip,
    octal_digits, octal_value, pow8, zeros,
};
use crate::entry::{valid_archive_path, EntryKind, EntryView, Member};
use crate::tar::{
    byte_sum, checksum_field, gnu_magic, header, header_back, header_front, long_link_name,
    numeric12, pad_len, tar_archive, tar_head, tar_member, tar_members, tar_mode, tar_name,
    tar_size, type_flag,
};
use vstd::prelude::*;

verus! {

/// What an extraction finds of one entry.
pub struct Extracted {
    pub name: Seq<u8>,
    pub directory: bool,
    pub mode: nat,
    pub modified: nat,
    pub content: Seq<u8>,
}

/// The bytes of a field up to its first NUL, or all of them where it has
/// none.
pub open spec fn field_text(field: Seq<u8>) -> Seq<u8>
    decreases field.len(),
{
    if field.len() == 0 || field[0] == 0 {
        Seq::empty()
    } else {
        seq![field[0]] + field_text(field.drop_first())
    }
}

/// The number in a twelve-byte field: binary behind the marker `0x80`, octal
/// otherwise.
pub open spec fn numeric12_value(field: Seq<u8>) -> nat {
    if field[0] == 0x80 {
        be64_value(field.subrange(4, 12))
    } else {
        octal_value(field.subrange(0, 11))
    }
}

/// The checksum that a header block states is the sum of its bytes, the
/// checksum field itself counted as eight spaces.
pub open spec fn checksum_holds(block: Seq<u8>) -> bool {
    octal_value(block.subrange(148, 154)) == byte_sum(block.subrange(0, 148)) + 256 + byte_sum(
        block.subrange(156, 512),
    )
}

/// What an extraction finds in `bytes`, entry by entry up to the first block
/// of zeros; `None` where the bytes end early or a checksum is wrong.
/// `long_name` is the name that a preceding record of type `L` spelled out.
#[verifier::opaque]
pub open spec fn tar_extract(bytes: Seq<u8>, long_name: Option<Seq<u8>>) -> Option<Seq<Extracted>>
    decreases bytes.len(),
{
    if bytes.len() < 512 {
        None
    } else if bytes.take(512) == zeros(512) {
        Some(Seq::empty())
    } else {
        let block = bytes.take(512);
        let size = numeric12_value(block.subrange(124, 136));
        let stored = 512 + size + pad_len(size);
        if !checksum_holds(block) || bytes.len() < stored {
            None
        } else {
            let data = bytes.subrange(512, 512 + size as int);
            let rest = bytes.skip(stored as int);
            if block[156] == 76 {
                tar_extract(rest, Some(field_text(data)))
            } else {
                match tar_extract(rest, None) {
                    None => None,
                    Some(others) => Some(
                        seq![
                            Extracted {
                                name: match long_name {
                                    Some(name) => name,
                                    None => field_text(block.subrange(0, 100)),
                                },
                                directory: block[156] == 53,
                                mode: octal_value(block.subrange(100, 107)),
                                modified: numeric12_value(block.subrange(136, 148)),
                                content: data,
                            },
                        ] + others,
                    ),
                }
            }
        }
    }
}

/// What the extraction of one member is to find.
pub open spec fn extracted_member(m: Member) -> Extracted {
    Extracted {
        name: tar_name(m.entry),
        directory: m.entry.kind == EntryKind::Directory,
        mode: tar_mode(m.entry) as nat,
        modified: m.entry.modified as nat,
        content: m.content,
    }
}

/// What the extraction of the members is to find: all but the symlinks, in
/// their order.
pub open spec fn extracted_members(ms: Seq<Member>) -> Seq<Extracted>
    decreases ms.len(),
{
    if ms.len() == 0 {
        Seq::empty()
    } else if ms[0].entry.kind == EntryKind::Symlink {
        extracted_members(ms.drop_first())
    } else {
        seq![extracted_member(ms[0])] + extracted_members(ms.drop_first())
    }
}

/// Octal digits are the characters `0` to `7`.
pub proof fn lemma_octal_digits_are_digits(v: nat, n: nat)
    ensures
        forall|i: int| 0 <= i < n ==> 48 <= #[trigger] octal_digits(v, n)[i] < 56,
        octal_digits(v, n).len() == n,
    decreases n,
{
    if n > 0 {
        lemma_octal_digits_are_digits(v / 8, (n - 1) as nat);
    }
}

/// A number field reads back as the number written.
pub proof fn lemma_numeric12_round_trip(v: u64)
    ensures
        numeric12(v).len() == 12,
        numeric12_value(numeric12(v)) == v,
{
    if v < 0x2_0000_0000 {
        lemma_octal_digits_are_digits(v as nat, 11);
        let digits = octal_digits(v as nat, 11);
        assert(numeric12(v)[0] == digits[0]);
        assert(numeric12(v).subrange(0, 11) =~= digits);
        reveal_with_fuel(pow8, 12);
        lemma_octal_round_trip(v as nat, 11);
    } else {
        assert(numeric12(v).subrange(4, 12) =~= be64(v));
        lemma_be64_round_trip(v);
    }
}

/// A name without NUL bytes reads back from its field, however much of the
/// field it fills.
pub proof fn lemma_field_text_round_trip(name: Seq<u8>, fill: nat)
    requires
        forall|i: int| 0 <= i < name.len() ==> #[trigger] name[i] != 0,
    ensures
        field_text(name + zeros(fill)) == name,
    decreases name.len(),
{
    let field = name + zeros(fill);
    if name.len() == 0 {
        assert(field =~= zeros(fill));
        assert(field_text(field) =~= name);
    } else {
        assert(field[0] == name[0]);
        assert(field.drop_first() =~= name.drop_first() + zeros(fill));
        assert forall|i: int| 0 <= i < name.drop_first().len() implies #[trigger] name.drop_first()[i]
            != 0 by {
            assert(name.drop_first()[i] == name[i + 1]);
        }
        lemma_field_text_round_trip(name.drop_first(), fill);
        assert(seq![name[0]] + name.drop_first() =~= name);
    }
}

/// The sum of the bytes of a block is at most 255 for each of them.
pub proof fn lemma_byte_sum_bound(s: Seq<u8>)
    ensures
        byte_sum(s) <= 255 * s.len(),
    decreases s.len(),
{
    if s.len() > 0 {
        lemma_byte_sum_bound(s.drop_last());
    }
}

/// What a header block holds, field by field.
pub proof fn lemma_header_fields(name_field: Seq<u8>, mode: u32, size: u64, mtime: u64, typeflag: u8)
    requires
        name_field.len() <= 100,
        mode < 4096,
        forall|i: int| 0 <= i < name_field.len() ==> #[trigger] name_field[i] != 0,
    ensures
        ({
            let block = header(name_field, mode, size, mtime, typeflag);
            &&& block.len() == 512
            &&& block != zeros(512)
            &&& field_text(block.subrange(0, 100)) == name_field
            &&& octal_value(block.subrange(100, 107)) == mode
            &&& numeric12_value(block.subrange(124, 136)) == size
            &&& numeric12_value(block.subrange(136, 148)) == mtime
            &&& checksum_holds(block)
            &&& block[156] == typeflag
        }),
{
    reveal(header);
    let front = header_front(name_field, mode, size, mtime);
    let back = header_back(typeflag);
    let sum = checksum_field(front, back);
    let block = header(name_field, mode, size, mtime, typeflag);
    lemma_octal_digits_len(mode as nat, 7);
    lemma_octal_digits_len(0, 7);
    lemma_numeric12_round_trip(size);
    lemma_numeric12_round_trip(mtime);
    assert(front.len() == 148);
    assert(back.len() == 356);
    lemma_byte_sum_bound(front);
    lemma_byte_sum_bound(back);
    let total = byte_sum(front) + 256 + byte_sum(back);
    lemma_octal_digits_len(total, 6);
    assert(sum.len() == 8);
    assert(block.len() == 512);
    assert(block[257] == 117u8) by {
        assert(block[257] == back[101]);
        assert(back[101] == gnu_magic()[0]);
    }
    assert(zeros(512)[257] == 0u8);
    assert(block.subrange(0, 100) =~= name_field + zeros((100 - name_field.len()) as nat));
    lemma_field_text_round_trip(name_field, (100 - name_field.len()) as nat);
    assert(block.subrange(100, 107) =~= octal_digits(mode as nat, 7));
    reveal_with_fuel(pow8, 8);
    lemma_octal_round_trip(mode as nat, 7);
    assert(block.subrange(124, 136) =~= numeric12(size));
    assert(block.subrange(136, 148) =~= numeric12(mtime));
    assert(block.subrange(0, 148) =~= front);
    assert(block.subrange(156, 512) =~= back);
    assert(block.subrange(148, 154) =~= octal_digits(total, 6));
    assert(total < pow8(6)) by {
        reveal_with_fuel(pow8, 7);
    }
    lemma_octal_round_trip(total, 6);
    assert(block[156] == back[0]);
}

/// What the extraction of one record is to find, given what it finds
/// behind it.
pub open spec fn record_then(
    name: Seq<u8>,
    mode: u32,
    mtime: u64,
    typeflag: u8,
    content: Seq<u8>,
    others: Option<Seq<Extracted>>,
) -> Option<Seq<Extracted>> {
    match others {
        None => None,
        Some(others) => Some(
            seq![
                Extracted {
                    name,
                    directory: typeflag == 53,
                    mode: mode as nat,
                    modified: mtime as nat,
                    content,
                },
            ] + others,
        ),
    }
}

/// The extraction of one record, written as a header, its content and the
/// fill of its last block: a record of type `L` hands its content on as the
/// name of the next, any other becomes an entry.
pub proof fn lemma_extract_record(
    name_field: Seq<u8>,
    mode: u32,
    mtime: u64,
    typeflag: u8,
    content: Seq<u8>,
    after: Seq<u8>,
    long_name: Option<Seq<u8>>,
)
    requires
        name_field.len() <= 100,
        mode < 4096,
        content.len() <= u64::MAX,
        forall|i: int| 0 <= i < name_field.len() ==> #[trigger] name_field[i] != 0,
    ensures
        ({
            let bytes = header(name_field, mode, content.len() as u64, mtime, typeflag) + content
                + zeros(pad_len(content.len())) + after;
            &&& typeflag == 76 ==> tar_extract(bytes, long_name) == tar_extract(
                after,
                Some(field_text(content)),
            )
            &&& typeflag != 76 ==> tar_extract(bytes, long_name) == record_then(
                match long_name {
                    Some(name) => name,
                    None => name_field,
                },
                mode,
                mtime,
                typeflag,
                content,
                tar_extract(after, None),
            )
        }),
{
    reveal(tar_extract);
    let size = content.len() as u64;
    let block = header(name_field, mode, size, mtime, typeflag);
    let bytes = block + content + zeros(pad_len(content.len())) + after;
    lemma_header_fields(name_field, mode, size, mtime, typeflag);
    assert(bytes.take(512) =~= block);
    let stored = 512 + content.len() + pad_len(content.len());
    assert(bytes.len() == stored + after.len());
    assert(bytes.subrange(512, 512 + content.len() as int) =~= content);
    assert(bytes.skip(stored as int) =~= after);
}

/// The name under which an entry is stored has no NUL byte.
pub proof fn lemma_tar_name_has_no_nul(e: EntryView)
    requires
        valid_archive_path(e.archive_path),
    ensures
        forall|i: int| 0 <= i < tar_name(e).len() ==> #[trigger] tar_name(e)[i] != 0,
        tar_name(e).len() <= 65535,
{
    assert forall|i: int| 0 <= i < tar_name(e).len() implies #[trigger] tar_name(e)[i] != 0 by {
        if i < e.archive_path.len() {
            assert(tar_name(e)[i] == e.archive_path[i]);
        }
    }
}

/// A member that can be written and read back: its path is valid and its
/// content as long as declared.
pub open spec fn sound_member(m: Member) -> bool {
    &&& valid_archive_path(m.entry.archive_path)
    &&& m.entry.kind != EntryKind::Symlink ==> m.content.len() == tar_size(m.entry)
}

/// The extraction of a member whose name fits its header.
proof fn lemma_extract_short(m: Member, after: Seq<u8>)
    requires
        sound_member(m),
        m.entry.kind != EntryKind::Symlink,
        tar_name(m.entry).len() <= 100,
    ensures
        tar_extract(tar_member(m) + after, None) == record_then(
            tar_name(m.entry),
            tar_mode(m.entry),
            m.entry.modified,
            type_flag(m.entry),
            m.content,
            tar_extract(after, None),
        ),
{
    let e = m.entry;
    lemma_tar_name_has_no_nul(e);
    lemma_extract_record(tar_name(e), tar_mode(e), e.modified, type_flag(e), m.content, after, None);
    assert(tar_member(m) + after =~= header(
        tar_name(e),
        tar_mode(e),
        m.content.len() as u64,
        e.modified,
        type_flag(e),
    ) + m.content + zeros(pad_len(m.content.len())) + after);
}

/// The extraction of a member whose name is spelled out before its header.
proof fn lemma_extract_long(m: Member, after: Seq<u8>)
    requires
        sound_member(m),
        m.entry.kind != EntryKind::Symlink,
        tar_name(m.entry).len() > 100,
    ensures
        tar_extract(tar_member(m) + after, None) == record_then(
            tar_name(m.entry),
            tar_mode(m.entry),
            m.entry.modified,
            type_flag(m.entry),
            m.content,
            tar_extract(after, None),
        ),
{
    let e = m.entry;
    let name = tar_name(e);
    lemma_tar_name_has_no_nul(e);
    let first = name.take(100);
    let spelled = name + seq![0u8];
    let second = header(first, tar_mode(e), m.content.len() as u64, e.modified, type_flag(e))
        + m.content + zeros(pad_len(m.content.len())) + after;
    let link = header(long_link_name(), 420, spelled.len() as u64, 0, 76);
    assert(tar_head(e) == link + name + seq![0u8] + zeros(pad_len(name.len() + 1)) + header(
        first,
        tar_mode(e),
        tar_size(e),
        e.modified,
        type_flag(e),
    ));
    assert(tar_member(m) + after =~= link + spelled + zeros(pad_len(spelled.len())) + second);
    lemma_extract_record(long_link_name(), 420, 0, 76, spelled, second, None);
    assert(spelled =~= name + zeros(1));
    lemma_field_text_round_trip(name, 1);
    assert(tar_extract(tar_member(m) + after, None) == tar_extract(second, Some(name)));
    lemma_extract_record(first, tar_mode(e), e.modified, type_flag(e), m.content, after, Some(name));
}

/// The extraction of one member and of what follows it.
pub proof fn lemma_extract_member(m: Member, after: Seq<u8>)
    requires
        sound_member(m),
        m.entry.kind != EntryKind::Symlink,
    ensures
        tar_extract(tar_member(m) + after, None) == match tar_extract(after, None) {
            None => None,
            Some(others) => Some(seq![extracted_member(m)] + others),
        },
{
    if tar_name(m.entry).len() <= 100 {
        lemma_extract_short(m, after);
    } else {
        lemma_extract_long(m, after);
    }
}

/// The members from the first on.
pub proof fn lemma_members_from_the_left(ms: Seq<Member>)
    requires
        ms.len() > 0,
    ensures
        tar_members(ms) == tar_member(ms[0]) + tar_members(ms.drop_first()),
    decreases ms.len(),
{
    if ms.len() == 1 {
        assert(ms.drop_last() =~= Seq::<Member>::empty());
        assert(ms.drop_first() =~= Seq::<Member>::empty());
        assert(tar_members(ms) =~= tar_member(ms[0]) + tar_members(ms.drop_first()));
    } else {
        lemma_members_from_the_left(ms.drop_last());
        assert(ms.drop_last().drop_first() =~= ms.drop_first().drop_last());
        assert(tar_members(ms) =~= tar_member(ms[0]) + tar_members(ms.drop_first()));
    }
}

/// The extraction of members and of what follows them.
pub proof fn lemma_extract_members(ms: Seq<Member>, after: Seq<u8>, others: Seq<Extracted>)
    requires
        forall|i: int| 0 <= i < ms.len() ==> sound_member(#[trigger] ms[i]),
        tar_extract(after, None) == Some(others),
    ensures
        tar_extract(tar_members(ms) + after, None) == Some(extracted_members(ms) + others),
    decreases ms.len(),
{
    if ms.len() == 0 {
        assert(tar_members(ms) + after =~= after);
        assert(extracted_members(ms) + others =~= others);
    } else {
        let rest = ms.drop_first();
        assert forall|i: int| 0 <= i < rest.len() implies sound_member(#[trigger] rest[i]) by {
            assert(rest[i] == ms[i + 1]);
        }
        lemma_extract_members(rest, after, others);
        lemma_members_from_the_left(ms);
        assert(tar_members(ms) + after =~= tar_member(ms[0]) + (tar_members(rest) + after));
        if ms[0].entry.kind == EntryKind::Symlink {
            assert(tar_member(ms[0]) + (tar_members(rest) + after) =~= tar_members(rest) + after);
        } else {
            lemma_extract_member(ms[0], tar_members(rest) + after);
            assert(seq![extracted_member(ms[0])] + (extracted_members(rest) + others)
                =~= extracted_members(ms) + others);
        }
    }
}

/// Round trip: extracting the archive of sound members finds every member
/// that is no symlink, in order, with the name it was stored under, its
/// kind, permissions and time, and its content byte for byte.
pub proof fn lemma_tar_round_trip(ms: Seq<Member>)
    requires
        forall|i: int| 0 <= i < ms.len() ==> sound_member(#[trigger] ms[i]),
    ensures
        tar_extract(tar_archive(ms), None) == Some(extracted_members(ms)),
{
    let end = zeros(1024);
    assert(tar_extract(end, None) == Some(Seq::<Extracted>::empty())) by {
        reveal(tar_extract);
        assert(end.take(512) =~= zeros(512));
    }
    lemma_extract_members(ms, end, Seq::empty());
    assert(extracted_members(ms) + Seq::<Extracted>::empty() =~= extracted_members(ms));
}

/// An archive of nothing is the end marker alone: two blocks of zeros, in
/// which an extraction finds no entry.
pub proof fn lemma_empty_tar()
    ensures
        tar_archive(Seq::empty()) == zeros(1024),
        tar_extract(tar_archive(Seq::empty()), None) == Some(Seq::<Extracted>::empty()),
{
    reveal(tar_extract);
    assert(tar_archive(Seq::empty()) =~= zeros(1024));
    assert(zeros(1024).take(512) =~= zeros(512));
}

} // verus!
