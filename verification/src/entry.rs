//! The values that travel through the pipeline: requests, entries, errors.

use vstd::prelude::*;

verus! {

/// The container format of an archive.
#[derive(Clone, Copy, Debug, PartialEq, Eq, Structural)]
pub enum ArchiveFormat {
    Tar,
    Zip,
}

/// What a directory entry is.
#[derive(Clone, Copy, Debug, PartialEq, Eq, Structural)]
pub enum EntryKind {
    File,
    Directory,
    Symlink,
}

/// Why an archive could not be produced, or stopped half way.
#[derive(Clone, Copy, Debug, PartialEq, Eq, Structural)]
pub enum ArchiveError {
    /// The root directory could not be listed.
    RootUnreadable,
    /// The tree nests deeper than the walk allows.
    WalkTooDeep,
    /// A file delivered more or fewer bytes than its metadata declared.
    SizeMismatch,
    /// The requested format is neither tar nor zip.
    UnsupportedFormat,
    /// The transport refused a write.
    TransportWrite,
    /// Chunks arrived out of sequence, or an encoder was driven out of turn.
    SequenceViolation,
    /// A size, offset or count does not fit the fields of the format.
    LimitExceeded,
}

/// Where an encoder stands between its calls.
#[derive(Clone, Copy, Debug, PartialEq, Eq, Structural)]
pub enum EncoderPhase {
    /// Between entries: an entry may begin, or the archive may be finished.
    Idle,
    /// Inside an entry: its data may be written, or the entry ended.
    InEntry,
    /// The archive is complete.
    Finished,
    /// An error ended the archive early.
    Failed,
}

/// What is archived and how: made once per request and never changed.
pub struct ArchiveRequest {
    pub root: Vec<u8>,
    pub relative_root: Vec<u8>,
    pub format: ArchiveFormat,
    pub follow_symlinks: bool,
}

pub const SLASH: u8 = 47;

pub const DOT: u8 = 46;

/// A segment ends at `j`: the path ends there or a slash stands there.
pub open spec fn segment_ends(p: Seq<u8>, j: int) -> bool {
    j == p.len() || (0 <= j < p.len() && p[j] == SLASH)
}

/// A segment starts at `i`: the path starts there or a slash stands before.
pub open spec fn segment_starts(p: Seq<u8>, i: int) -> bool {
    i == 0 || (0 < i <= p.len() && p[i - 1] == SLASH)
}

/// The segment that starts at `i` is empty, `.` or `..`.
pub open spec fn bad_segment_at(p: Seq<u8>, i: int) -> bool {
    ||| segment_ends(p, i)
    ||| (i < p.len() && p[i] == DOT && segment_ends(p, i + 1))
    ||| (i + 1 < p.len() && p[i] == DOT && p[i + 1] == DOT && segment_ends(p, i + 2))
}

/// A path that may stand in an archive: relative, without empty, `.` or
/// `..` segments, and without NUL bytes. In particular it does not begin with
/// a slash and cannot climb out of the directory it is unpacked into.
pub open spec fn safe_archive_path(p: Seq<u8>) -> bool {
    &&& p.len() > 0
    &&& forall|i: int| 0 <= i < p.len() ==> #[trigger] p[i] != 0
    &&& forall|i: int| 0 <= i <= p.len() && #[trigger] segment_starts(p, i) ==> !bad_segment_at(p, i)
}

/// A single path segment that may stand in an archive.
pub open spec fn safe_name(n: Seq<u8>) -> bool {
    &&& safe_archive_path(n)
    &&& forall|i: int| 0 <= i < n.len() ==> #[trigger] n[i] != SLASH
}

/// `name` below the directory `parent`; the root is the empty path.
pub open spec fn join_path(parent: Seq<u8>, name: Seq<u8>) -> Seq<u8> {
    if parent.len() == 0 {
        name
    } else {
        parent + seq![SLASH] + name
    }
}

/// A safe name below a safe directory is a safe path.
pub proof fn lemma_join_safe(parent: Seq<u8>, name: Seq<u8>)
    requires
        parent.len() == 0 || safe_archive_path(parent),
        safe_name(name),
    ensures
        safe_archive_path(join_path(parent, name)),
{
    if parent.len() > 0 {
        let q = join_path(parent, name);
        let k = parent.len() as int;
        assert(segment_starts(parent, 0));
        assert(segment_starts(name, 0));
        assert forall|i: int| 0 <= i < q.len() implies #[trigger] q[i] != 0 by {
            if i < k {
                assert(parent[i] != 0);
            } else if i > k {
                assert(name[i - k - 1] != 0);
            }
        }
        assert forall|i: int| 0 <= i <= q.len() && #[trigger] segment_starts(q, i) implies !bad_segment_at(
            q,
            i,
        ) by {
            if i < k {
                assert(segment_starts(parent, i));
                assert(!bad_segment_at(parent, i));
            } else if i == k {
                assert(segment_starts(parent, k));
                assert(bad_segment_at(parent, k));
            } else if i == k + 1 {
                assert(!bad_segment_at(name, 0));
            } else {
                assert(name[i - k - 2] == SLASH);
            }
        }
    }
}

/// A safe path does not begin with a slash and has no `..` segment.
pub proof fn lemma_safe_path_stays_inside(p: Seq<u8>)
    requires
        safe_archive_path(p),
    ensures
        p[0] != SLASH,
        forall|i: int|
            0 <= i && i + 2 <= p.len() && segment_starts(p, i) && segment_ends(p, i + 2) ==> !(p[i]
                == DOT && p[i + 1] == DOT),
{
    assert(segment_starts(p, 0));
    assert(!bad_segment_at(p, 0));
}

/// Whether `p` may stand in an archive.
pub fn is_safe_archive_path(p: &[u8]) -> (ok: bool)
    ensures
        ok == safe_archive_path(p@),
{
    let n: usize = p.len();
    if n == 0 {
        return false;
    }
    let mut i: usize = 0;
    while i < n
        invariant
            n == p.len(),
            n > 0,
            i <= n,
            forall|k: int| 0 <= k < i ==> #[trigger] p@[k] != 0,
            forall|k: int| 0 <= k < i && #[trigger] segment_starts(p@, k) ==> !bad_segment_at(p@, k),
        decreases n - i,
    {
        if p[i] == 0 {
            return false;
        }
        if i == 0 || p[i - 1] == SLASH {
            let empty: bool = p[i] == SLASH;
            let one_dot: bool = p[i] == DOT && (n - i == 1 || p[i + 1] == SLASH);
            let two_dots: bool = n - i >= 2 && p[i] == DOT && p[i + 1] == DOT && (n - i == 2 || p[i
                + 2] == SLASH);
            if empty || one_dot || two_dots {
                assert(segment_starts(p@, i as int));
                assert(bad_segment_at(p@, i as int));
                return false;
            }
        }
        i += 1;
    }
    if p[n - 1] == SLASH {
        assert(segment_starts(p@, n as int));
        assert(bad_segment_at(p@, n as int));
        return false;
    }
    true
}

/// Whether `name` may stand in an archive as one segment.
pub fn is_safe_name(name: &[u8]) -> (ok: bool)
    ensures
        ok == safe_name(name@),
{
    if !is_safe_archive_path(name) {
        return false;
    }
    let mut i: usize = 0;
    while i < name.len()
        invariant
            i <= name.len(),
            forall|k: int| 0 <= k < i ==> #[trigger] name@[k] != SLASH,
        decreases name.len() - i,
    {
        if name[i] == SLASH {
            return false;
        }
        i += 1;
    }
    true
}

/// The format that a request names: `tar` or `zip`, anything else is
/// unsupported.
pub fn parse_format(name: &[u8]) -> (format: Result<ArchiveFormat, ArchiveError>)
    ensures
        name@ == seq![116u8, 97u8, 114u8] ==> format == Ok::<ArchiveFormat, ArchiveError>(
            ArchiveFormat::Tar,
        ),
        name@ == seq![122u8, 105u8, 112u8] ==> format == Ok::<ArchiveFormat, ArchiveError>(
            ArchiveFormat::Zip,
        ),
        name@ != seq![116u8, 97u8, 114u8] && name@ != seq![122u8, 105u8, 112u8] ==> format == Err::<
            ArchiveFormat,
            ArchiveError,
        >(ArchiveError::UnsupportedFormat),
{
    if name.len() == 3 && name[0] == 116 && name[1] == 97 && name[2] == 114 {
        assert(name@ =~= seq![116u8, 97u8, 114u8]);
        Ok(ArchiveFormat::Tar)
    } else if name.len() == 3 && name[0] == 122 && name[1] == 105 && name[2] == 112 {
        assert(name@ =~= seq![122u8, 105u8, 112u8]);
        Ok(ArchiveFormat::Zip)
    } else {
        Err(ArchiveError::UnsupportedFormat)
    }
}


/// The longest path an entry may carry: with the slash that marks a
/// directory it still fits the two-byte name length of a zip record.
pub const MAX_ARCHIVE_PATH: usize = 65534;

/// A path that an entry may carry.
pub open spec fn valid_archive_path(p: Seq<u8>) -> bool {
    safe_archive_path(p) && p.len() <= MAX_ARCHIVE_PATH
}

/// What an entry is, as a plain value.
pub struct EntryView {
    pub absolute_path: Seq<u8>,
    pub archive_path: Seq<u8>,
    pub kind: EntryKind,
    pub size: u64,
    pub modified: u64,
    pub unix_mode: Option<u32>,
}

/// One archived entry together with its bytes.
pub struct Member {
    pub entry: EntryView,
    pub content: Seq<u8>,
}

/// One file, directory or link found under the root. Its archive path is
/// relative to the root, separated by slashes, and always valid.
pub struct FileEntry {
    absolute_path: Vec<u8>,
    archive_path: Vec<u8>,
    kind: EntryKind,
    size: u64,
    modified: u64,
    unix_mode: Option<u32>,
}

impl View for FileEntry {
    type V = EntryView;

    closed spec fn view(&self) -> EntryView {
        EntryView {
            absolute_path: self.absolute_path@,
            archive_path: self.archive_path@,
            kind: self.kind,
            size: self.size,
            modified: self.modified,
            unix_mode: self.unix_mode,
        }
    }
}

impl FileEntry {
    #[verifier::type_invariant]
    spec fn path_is_valid(self) -> bool {
        valid_archive_path(self.archive_path@)
    }

    /// An entry with the given fields, unless `archive_path` is not valid.
    pub fn new(
        absolute_path: Vec<u8>,
        archive_path: Vec<u8>,
        kind: EntryKind,
        size: u64,
        modified: u64,
        unix_mode: Option<u32>,
    ) -> (entry: Option<FileEntry>)
        ensures
            entry.is_some() == valid_archive_path(archive_path@),
            entry.is_some() ==> entry.unwrap()@ == (EntryView {
                absolute_path: absolute_path@,
                archive_path: archive_path@,
                kind,
                size,
                modified,
                unix_mode,
            }),
    {
        if archive_path.len() <= MAX_ARCHIVE_PATH && is_safe_archive_path(archive_path.as_slice()) {
            Some(FileEntry { absolute_path, archive_path, kind, size, modified, unix_mode })
        } else {
            None
        }
    }

    /// Where the entry lies on disk.
    pub fn absolute_path(&self) -> (p: &Vec<u8>)
        ensures
            p@ == self@.absolute_path,
    {
        &self.absolute_path
    }

    /// Where the entry lies in the archive.
    pub fn archive_path(&self) -> (p: &Vec<u8>)
        ensures
            p@ == self@.archive_path,
            valid_archive_path(p@),
    {
        proof {
            use_type_invariant(self);
        }
        &self.archive_path
    }

    pub fn kind(&self) -> (k: EntryKind)
        ensures
            k == self@.kind,
    {
        self.kind
    }

    /// The size in bytes that the metadata declares.
    pub fn size(&self) -> (n: u64)
        ensures
            n == self@.size,
    {
        self.size
    }

    /// The modification time in seconds since 1970.
    pub fn modified(&self) -> (t: u64)
        ensures
            t == self@.modified,
    {
        self.modified
    }

    pub fn unix_mode(&self) -> (m: Option<u32>)
        ensures
            m == self@.unix_mode,
    {
        self.unix_mode
    }

    /// A copy with the same fields.
    pub fn duplicate(&self) -> (copy: FileEntry)
        ensures
            copy@ == self@,
    {
        proof {
            use_type_invariant(self);
        }
        let absolute_path = self.absolute_path.clone();
        let archive_path = self.archive_path.clone();
        assert(absolute_path@ =~= self.absolute_path@);
        assert(archive_path@ =~= self.archive_path@);
        FileEntry {
            absolute_path,
            archive_path,
            kind: self.kind,
            size: self.size,
            modified: self.modified,
            unix_mode: self.unix_mode,
        }
    }
}

} // verus!
