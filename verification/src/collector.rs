//! The walk over a directory tree: lazy, in a fixed order, and under the
//! policy of the request. The collector decides; listing a directory is the
//! caller's part.

use crate::encoding::push_bytes;
use crate::entry::{
    is_safe_name, join_path, safe_name, valid_archive_path, ArchiveError,
    ArchiveRequest, EntryKind, EntryView, FileEntry, SLASH,
};
use crate::lexical::{lemma_lex_transitive, lex_less, standing, Standing};
use vstd::prelude::*;

verus! {

/// How deep a tree may nest unless the caller says otherwise.
pub const MAX_WALK_DEPTH: usize = 64;

/// What the file system says of one entry.
#[derive(Clone, Copy, Debug, PartialEq, Eq, Structural)]
pub struct EntryMeta {
    pub kind: EntryKind,
    pub size: u64,
    pub modified: u64,
    pub unix_mode: Option<u32>,
}

/// One line of a directory listing. For a symlink, `meta` is what the link
/// points to; it is `None` where the metadata could not be read.
pub struct RawEntry {
    pub name: Vec<u8>,
    pub is_symlink: bool,
    pub meta: Option<EntryMeta>,
}

/// A line of a listing as a plain value.
pub struct RawView {
    pub name: Seq<u8>,
    pub is_symlink: bool,
    pub meta: Option<EntryMeta>,
}

impl View for RawEntry {
    type V = RawView;

    open spec fn view(&self) -> RawView {
        RawView { name: self.name@, is_symlink: self.is_symlink, meta: self.meta }
    }
}

/// A directory whose listing is wanted. The root has the empty archive path
/// and depth zero.
pub struct DirView {
    pub absolute_path: Seq<u8>,
    pub archive_path: Seq<u8>,
    pub depth: nat,
}

/// Whether a line of the listing of `dir` becomes an entry: its name is one
/// safe segment, its path is valid, its metadata is known and says file or
/// directory, and it is no symlink unless symlinks are followed.
pub open spec fn admitted(raw: RawView, dir: DirView, follow: bool) -> bool {
    &&& safe_name(raw.name)
    &&& valid_archive_path(join_path(dir.archive_path, raw.name))
    &&& raw.meta.is_some()
    &&& raw.meta.unwrap().kind != EntryKind::Symlink
    &&& follow || !raw.is_symlink
}

/// The entry that an admitted line becomes.
pub open spec fn child_of(raw: RawView, dir: DirView) -> EntryView {
    EntryView {
        absolute_path: dir.absolute_path + seq![SLASH] + raw.name,
        archive_path: join_path(dir.archive_path, raw.name),
        kind: raw.meta.unwrap().kind,
        size: raw.meta.unwrap().size,
        modified: raw.meta.unwrap().modified,
        unix_mode: raw.meta.unwrap().unix_mode,
    }
}

/// The views of a vector of entries.
pub open spec fn entry_views(entries: Seq<FileEntry>) -> Seq<EntryView> {
    entries.map_values(|e: FileEntry| e@)
}

/// Each entry's path comes strictly before the next one's.
pub open spec fn strictly_sorted(kids: Seq<EntryView>) -> bool {
    forall|i: int, j: int|
        0 <= i < j < kids.len() ==> lex_less(
            (#[trigger] kids[i]).archive_path,
            (#[trigger] kids[j]).archive_path,
        )
}

/// `kid` is the entry of some admitted line of the listing.
pub open spec fn comes_from(kid: EntryView, listing: Seq<RawView>, dir: DirView, follow: bool) -> bool {
    exists|i: int|
        0 <= i < listing.len() && admitted(#[trigger] listing[i], dir, follow) && kid == child_of(
            listing[i],
            dir,
        )
}

/// Some entry of `kids` has the archive path `path`.
pub open spec fn holds_path(kids: Seq<EntryView>, path: Seq<u8>) -> bool {
    exists|k: int| 0 <= k < kids.len() && (#[trigger] kids[k]).archive_path == path
}

/// `kids` are the entries of the listing of `dir`: sorted by path without
/// repetition, each the entry of an admitted line, and every admitted line's
/// path among them.
pub open spec fn is_children_of(
    kids: Seq<EntryView>,
    listing: Seq<RawView>,
    dir: DirView,
    follow: bool,
) -> bool {
    &&& strictly_sorted(kids)
    &&& forall|k: int| 0 <= k < kids.len() ==> comes_from(#[trigger] kids[k], listing, dir, follow)
    &&& forall|i: int|
        0 <= i < listing.len() && admitted(#[trigger] listing[i], dir, follow) ==> holds_path(
            kids,
            join_path(dir.archive_path, listing[i].name),
        )
}

/// The entry of `raw` in the directory with the given paths, if the line is
/// admitted.
fn child_entry(
    raw: &RawEntry,
    dir_absolute: &Vec<u8>,
    dir_archive: &Vec<u8>,
    follow: bool,
    Ghost(dir): Ghost<DirView>,
) -> (child: Option<FileEntry>)
    requires
        dir.absolute_path == dir_absolute@,
        dir.archive_path == dir_archive@,
    ensures
        child.is_some() == admitted(raw@, dir, follow),
        child.is_some() ==> child.unwrap()@ == child_of(raw@, dir),
{
    if !is_safe_name(raw.name.as_slice()) {
        return None;
    }
    if raw.is_symlink && !follow {
        return None;
    }
    let meta: EntryMeta = match raw.meta {
        None => {
            return None;
        },
        Some(m) => m,
    };
    if meta.kind == EntryKind::Symlink {
        return None;
    }
    let mut archive: Vec<u8> = Vec::new();
    if dir_archive.len() > 0 {
        push_bytes(&mut archive, dir_archive.as_slice());
        archive.push(SLASH);
    }
    push_bytes(&mut archive, raw.name.as_slice());
    assert(archive@ =~= join_path(dir.archive_path, raw@.name));
    let mut absolute: Vec<u8> = Vec::new();
    push_bytes(&mut absolute, dir_absolute.as_slice());
    absolute.push(SLASH);
    push_bytes(&mut absolute, raw.name.as_slice());
    assert(absolute@ =~= dir.absolute_path + seq![SLASH] + raw@.name);
    FileEntry::new(absolute, archive, meta.kind, meta.size, meta.modified, meta.unix_mode)
}

/// Puts `child` in its place among `sorted`, unless an entry with its path
/// is there already. Hands back the place.
fn insert_sorted(sorted: &mut Vec<FileEntry>, child: FileEntry) -> (place: Option<usize>)
    requires
        strictly_sorted(entry_views(old(sorted)@)),
    ensures
        strictly_sorted(entry_views(final(sorted)@)),
        match place {
            Some(at) => at <= old(sorted)@.len() && entry_views(final(sorted)@) == entry_views(
                old(sorted)@,
            ).insert(at as int, child@),
            None => entry_views(final(sorted)@) == entry_views(old(sorted)@) && holds_path(
                entry_views(old(sorted)@),
                child@.archive_path,
            ),
        },
{
    let ghost before = entry_views(sorted@);
    let mut at: usize = 0;
    while at < sorted.len()
        invariant
            at <= sorted@.len(),
            sorted@ == old(sorted)@,
            before == entry_views(sorted@),
            strictly_sorted(before),
            forall|k: int|
                0 <= k < at ==> lex_less((#[trigger] before[k]).archive_path, child@.archive_path),
        ensures
            at == sorted@.len() || lex_less(child@.archive_path, before[at as int].archive_path),
        decreases sorted@.len() - at,
    {
        match standing(sorted[at].archive_path().as_slice(), child.archive_path().as_slice()) {
            Standing::Before => {
                at += 1;
            },
            Standing::Same => {
                assert(before[at as int].archive_path == child@.archive_path);
                return None;
            },
            Standing::After => {
                break ;
            },
        }
    }
    proof {
        assert forall|i: int, j: int| 0 <= i < j < before.insert(at as int, child@).len() implies lex_less(
            (#[trigger] before.insert(at as int, child@)[i]).archive_path,
            (#[trigger] before.insert(at as int, child@)[j]).archive_path,
        ) by {
            let grown = before.insert(at as int, child@);
            if j < at {
                assert(grown[i] == before[i] && grown[j] == before[j]);
            } else if j == at {
                assert(grown[i] == before[i]);
            } else if i == at {
                assert(grown[j] == before[j - 1]);
                if j - 1 > at {
                    assert(lex_less(before[at as int].archive_path, before[j - 1].archive_path));
                    lemma_lex_transitive(
                        child@.archive_path,
                        before[at as int].archive_path,
                        before[j - 1].archive_path,
                    );
                }
            } else if i > at {
                assert(grown[i] == before[i - 1] && grown[j] == before[j - 1]);
            } else {
                assert(grown[i] == before[i] && grown[j] == before[j - 1]);
                if i < j - 1 {
                } else {
                    assert(false);
                }
            }
        }
    }
    sorted.insert(at, child);
    assert(entry_views(sorted@) =~= before.insert(at as int, child@));
    Some(at)
}

/// The views of a listing.
pub open spec fn raw_views(listing: Seq<RawEntry>) -> Seq<RawView> {
    listing.map_values(|r: RawEntry| r@)
}

/// The entries of a listing, sorted, together with the number of lines that
/// were passed over.
fn sort_listing(
    listing: &Vec<RawEntry>,
    dir_absolute: &Vec<u8>,
    dir_archive: &Vec<u8>,
    follow: bool,
    Ghost(dir): Ghost<DirView>,
) -> (out: (Vec<FileEntry>, usize))
    requires
        dir.absolute_path == dir_absolute@,
        dir.archive_path == dir_archive@,
    ensures
        is_children_of(entry_views(out.0@), raw_views(listing@), dir, follow),
        out.0@.len() + out.1 == listing@.len(),
{
    let mut sorted: Vec<FileEntry> = Vec::new();
    let mut skipped: usize = 0;
    let mut i: usize = 0;
    let ghost lines = raw_views(listing@);
    while i < listing.len()
        invariant
            i <= listing@.len(),
            lines == raw_views(listing@),
            dir.absolute_path == dir_absolute@,
            dir.archive_path == dir_archive@,
            sorted@.len() + skipped == i,
            strictly_sorted(entry_views(sorted@)),
            forall|k: int|
                0 <= k < sorted@.len() ==> comes_from(
                    #[trigger] entry_views(sorted@)[k],
                    lines,
                    dir,
                    follow,
                ),
            forall|j: int|
                0 <= j < i && admitted(#[trigger] lines[j], dir, follow) ==> holds_path(
                    entry_views(sorted@),
                    join_path(dir.archive_path, lines[j].name),
                ),
        decreases listing@.len() - i,
    {
        let ghost before = entry_views(sorted@);
        assert(lines[i as int] == listing@[i as int]@);
        match child_entry(&listing[i], dir_absolute, dir_archive, follow, Ghost(dir)) {
            None => {
                skipped += 1;
            },
            Some(child) => {
                let ghost kid = child@;
                match insert_sorted(&mut sorted, child) {
                    None => {
                        skipped += 1;
                    },
                    Some(at) => {
                        proof {
                            let after = entry_views(sorted@);
                            assert(after == before.insert(at as int, kid));
                            assert forall|k: int| 0 <= k < after.len() implies comes_from(
                                #[trigger] after[k],
                                lines,
                                dir,
                                follow,
                            ) by {
                                if k < at {
                                    assert(after[k] == before[k]);
                                } else if k == at {
                                    assert(admitted(lines[i as int], dir, follow));
                                } else {
                                    assert(after[k] == before[k - 1]);
                                }
                            }
                            assert forall|j: int|
                                0 <= j < i + 1 && admitted(
                                    #[trigger] lines[j],
                                    dir,
                                    follow,
                                ) implies holds_path(
                                after,
                                join_path(dir.archive_path, lines[j].name),
                            ) by {
                                if j < i {
                                    let path = join_path(dir.archive_path, lines[j].name);
                                    let k = choose|k: int|
                                        0 <= k < before.len() && (#[trigger] before[k]).archive_path
                                            == path;
                                    if k < at {
                                        assert(after[k].archive_path == path);
                                    } else {
                                        assert(after[k + 1].archive_path == path);
                                    }
                                } else {
                                    assert(after[at as int] == kid);
                                }
                            }
                        }
                    },
                }
            },
        }
        i += 1;
    }
    (sorted, skipped)
}

/// Where the walk stands.
#[derive(Clone, Copy, Debug, PartialEq, Eq, Structural)]
pub enum WalkPhase {
    /// A directory's listing is wanted before the walk can go on.
    Awaiting,
    /// Entries are at hand.
    Walking,
    /// Every entry has been handed out.
    Done,
    /// The walk has failed.
    Failed(ArchiveError),
}

/// An entry that waits to be handed out, and how deep it lies below the
/// root.
pub struct PendingView {
    pub entry: EntryView,
    pub depth: nat,
}

struct Pending {
    entry: FileEntry,
    depth: usize,
}

impl View for Pending {
    type V = PendingView;

    closed spec fn view(&self) -> PendingView {
        PendingView { entry: self.entry@, depth: self.depth as nat }
    }
}

/// The walk as a plain value. The entry on top of the stack, its last, is
/// the next to be handed out.
pub struct WalkView {
    pub follow: bool,
    pub max_depth: nat,
    pub phase: WalkPhase,
    pub waiting: DirView,
    pub stack: Seq<PendingView>,
    pub warnings: nat,
}

/// What one step of the walk hands out, as a plain value.
pub enum Stepped {
    /// The listing of the directory with this absolute path is wanted.
    NeedListing(Seq<u8>),
    /// The next entry.
    Entry(EntryView),
    /// The walk is complete.
    Done,
    /// The walk has failed.
    Failed(ArchiveError),
}

impl WalkView {
    /// Entries below the root lie at depth one or more, and the directory
    /// waited for is the root or lies above the depth limit.
    pub open spec fn wf(self) -> bool {
        &&& self.phase == WalkPhase::Awaiting ==> self.waiting.depth == 0 || self.waiting.depth
            < self.max_depth
        &&& forall|k: int| 0 <= k < self.stack.len() ==> (#[trigger] self.stack[k]).depth >= 1
    }

    /// The entries above the first `base` of the stack, topmost first.
    pub open spec fn on_top(self, base: nat) -> Seq<EntryView> {
        Seq::new(
            (self.stack.len() - base) as nat,
            |k: int| self.stack[self.stack.len() - 1 - k].entry,
        )
    }

    /// What the next step hands out.
    pub open spec fn yields(self) -> Stepped {
        match self.phase {
            WalkPhase::Awaiting => Stepped::NeedListing(self.waiting.absolute_path),
            WalkPhase::Done => Stepped::Done,
            WalkPhase::Failed(e) => Stepped::Failed(e),
            WalkPhase::Walking => if self.stack.len() == 0 {
                Stepped::Done
            } else if self.stack.last().entry.kind == EntryKind::Directory && self.stack.last().depth
                >= self.max_depth {
                Stepped::Failed(ArchiveError::WalkTooDeep)
            } else {
                Stepped::Entry(self.stack.last().entry)
            },
        }
    }

    /// The walk after the next step: a directory is handed out before its
    /// content, and its listing is wanted next.
    pub open spec fn after_step(self) -> WalkView {
        match self.phase {
            WalkPhase::Walking => if self.stack.len() == 0 {
                WalkView { phase: WalkPhase::Done, ..self }
            } else if self.stack.last().entry.kind == EntryKind::Directory {
                if self.stack.last().depth >= self.max_depth {
                    WalkView {
                        phase: WalkPhase::Failed(ArchiveError::WalkTooDeep),
                        stack: self.stack.drop_last(),
                        ..self
                    }
                } else {
                    WalkView {
                        phase: WalkPhase::Awaiting,
                        waiting: DirView {
                            absolute_path: self.stack.last().entry.absolute_path,
                            archive_path: self.stack.last().entry.archive_path,
                            depth: self.stack.last().depth,
                        },
                        stack: self.stack.drop_last(),
                        ..self
                    }
                }
            } else {
                WalkView { stack: self.stack.drop_last(), ..self }
            },
            _ => self,
        }
    }

    /// The warnings after `more` further ones: the count stops at the
    /// largest number it can hold.
    pub open spec fn warned(self, more: nat) -> nat {
        if self.warnings + more > u64::MAX {
            u64::MAX as nat
        } else {
            self.warnings + more
        }
    }
}

/// What one step of the walk hands out.
pub enum WalkStep {
    /// The listing of the directory with this absolute path is wanted.
    NeedListing(Vec<u8>),
    /// The next entry.
    Entry(FileEntry),
    /// The walk is complete.
    Done,
    /// The walk has failed.
    Failed(ArchiveError),
}

impl View for WalkStep {
    type V = Stepped;

    open spec fn view(&self) -> Stepped {
        match self {
            WalkStep::NeedListing(p) => Stepped::NeedListing(p@),
            WalkStep::Entry(e) => Stepped::Entry(e@),
            WalkStep::Done => Stepped::Done,
            WalkStep::Failed(e) => Stepped::Failed(*e),
        }
    }
}

/// Walks a directory tree and hands out its entries one at a time, each
/// directory before its content and the entries of one directory in the
/// order of their names. It keeps the entries of the directories it is in,
/// never the whole tree.
pub struct PathCollector {
    follow: bool,
    max_depth: usize,
    phase: WalkPhase,
    waiting_absolute: Vec<u8>,
    waiting_archive: Vec<u8>,
    waiting_depth: usize,
    stack: Vec<Pending>,
    warnings: u64,
}

impl View for PathCollector {
    type V = WalkView;

    closed spec fn view(&self) -> WalkView {
        WalkView {
            follow: self.follow,
            max_depth: self.max_depth as nat,
            phase: self.phase,
            waiting: DirView {
                absolute_path: self.waiting_absolute@,
                archive_path: self.waiting_archive@,
                depth: self.waiting_depth as nat,
            },
            stack: self.stack@.map_values(|p: Pending| p@),
            warnings: self.warnings as nat,
        }
    }
}

impl PathCollector {
    /// A walk over the root of `request` that wants the root's listing
    /// first and fails on directories nested deeper than `max_depth`.
    pub fn new(request: &ArchiveRequest, max_depth: usize) -> (walk: Self)
        ensures
            walk@.wf(),
            walk@ == (WalkView {
                follow: request.follow_symlinks,
                max_depth: max_depth as nat,
                phase: WalkPhase::Awaiting,
                waiting: DirView {
                    absolute_path: request.root@,
                    archive_path: Seq::empty(),
                    depth: 0,
                },
                stack: Seq::empty(),
                warnings: 0,
            }),
    {
        let mut root: Vec<u8> = Vec::new();
        push_bytes(&mut root, request.root.as_slice());
        let walk = PathCollector {
            follow: request.follow_symlinks,
            max_depth,
            phase: WalkPhase::Awaiting,
            waiting_absolute: root,
            waiting_archive: Vec::new(),
            waiting_depth: 0,
            stack: Vec::new(),
            warnings: 0,
        };
        assert(walk@.stack =~= Seq::<PendingView>::empty());
        assert(walk@.waiting.absolute_path =~= request.root@);
        assert(walk@.waiting.archive_path =~= Seq::<u8>::empty());
        walk
    }

    /// The next step of the walk.
    pub fn next(&mut self) -> (step: WalkStep)
        requires
            old(self)@.wf(),
        ensures
            final(self)@.wf(),
            step@ == old(self)@.yields(),
            final(self)@ == old(self)@.after_step(),
    {
        match self.phase {
            WalkPhase::Awaiting => {
                let mut path: Vec<u8> = Vec::new();
                push_bytes(&mut path, self.waiting_absolute.as_slice());
                assert(path@ =~= self.waiting_absolute@);
                WalkStep::NeedListing(path)
            },
            WalkPhase::Done => WalkStep::Done,
            WalkPhase::Failed(e) => WalkStep::Failed(e),
            WalkPhase::Walking => {
                let ghost before = self@.stack;
                match self.stack.pop() {
                    None => {
                        self.phase = WalkPhase::Done;
                        assert(self@.stack =~= before);
                        WalkStep::Done
                    },
                    Some(top) => {
                        assert(self@.stack =~= before.drop_last());
                        assert(top@ == before.last());
                        if top.entry.kind() == EntryKind::Directory {
                            if top.depth >= self.max_depth {
                                self.phase = WalkPhase::Failed(ArchiveError::WalkTooDeep);
                                WalkStep::Failed(ArchiveError::WalkTooDeep)
                            } else {
                                let mut absolute: Vec<u8> = Vec::new();
                                push_bytes(&mut absolute, top.entry.absolute_path().as_slice());
                                let mut archive: Vec<u8> = Vec::new();
                                push_bytes(&mut archive, top.entry.archive_path().as_slice());
                                self.waiting_absolute = absolute;
                                self.waiting_archive = archive;
                                self.waiting_depth = top.depth;
                                self.phase = WalkPhase::Awaiting;
                                assert(self@.waiting.absolute_path =~= top@.entry.absolute_path);
                                assert(self@.waiting.archive_path =~= top@.entry.archive_path);
                                WalkStep::Entry(top.entry)
                            }
                        } else {
                            WalkStep::Entry(top.entry)
                        }
                    },
                }
            },
        }
    }

    /// Answers the wish for a listing. `None` says that the directory could
    /// not be read: for the root that fails the walk, elsewhere it is noted
    /// as a warning and the directory stays empty. Of a listing the admitted
    /// lines become entries, next in line before all that waited, and each
    /// line passed over is noted as a warning. Out of turn the call changes
    /// nothing and hands back `false`.
    pub fn supply_listing(&mut self, listing: Option<Vec<RawEntry>>) -> (taken: bool)
        requires
            old(self)@.wf(),
        ensures
            final(self)@.wf(),
            taken == (old(self)@.phase == WalkPhase::Awaiting),
            !taken ==> final(self)@ == old(self)@,
            taken && listing.is_none() ==> final(self)@ == if old(self)@.waiting.depth == 0 {
                WalkView { phase: WalkPhase::Failed(ArchiveError::RootUnreadable), ..old(self)@ }
            } else {
                WalkView {
                    phase: WalkPhase::Walking,
                    warnings: old(self)@.warned(1),
                    ..old(self)@
                }
            },
            taken && listing.is_some() ==> {
                let base = old(self)@.stack.len();
                let kids = final(self)@.on_top(base);
                &&& final(self)@.stack.len() >= base
                &&& final(self)@.stack.take(base as int) == old(self)@.stack
                &&& is_children_of(
                    kids,
                    raw_views(listing.unwrap()@),
                    old(self)@.waiting,
                    old(self)@.follow,
                )
                &&& forall|k: int|
                    base <= k < final(self)@.stack.len() ==> (#[trigger] final(self)@.stack[k]).depth
                        == old(self)@.waiting.depth + 1
                &&& final(self)@ == (WalkView {
                    phase: WalkPhase::Walking,
                    stack: final(self)@.stack,
                    warnings: old(self)@.warned(
                        (listing.unwrap()@.len() - kids.len()) as nat,
                    ),
                    ..old(self)@
                })
            },
    {
        match self.phase {
            WalkPhase::Awaiting => {},
            _ => {
                return false;
            },
        }
        let lines: Vec<RawEntry> = match listing {
            None => {
                if self.waiting_depth == 0 {
                    self.phase = WalkPhase::Failed(ArchiveError::RootUnreadable);
                } else {
                    self.phase = WalkPhase::Walking;
                    if self.warnings < u64::MAX {
                        self.warnings = self.warnings + 1;
                    }
                }
                return true;
            },
            Some(lines) => lines,
        };
        let ghost dir = self@.waiting;
        let ghost base = self@.stack;
        let (mut kids, skipped) = sort_listing(
            &lines,
            &self.waiting_absolute,
            &self.waiting_archive,
            self.follow,
            Ghost(dir),
        );
        let ghost all = entry_views(kids@);
        let depth: usize = self.waiting_depth + 1;
        while kids.len() > 0
            invariant
                self@.stack.len() == base.len() + (all.len() - kids@.len()),
                self@.stack.take(base.len() as int) == base,
                kids@.len() <= all.len(),
                entry_views(kids@) == all.take(kids@.len() as int),
                forall|k: int|
                    base.len() <= k < self@.stack.len() ==> {
                        &&& (#[trigger] self@.stack[k]).depth == depth
                        &&& self@.stack[k].entry == all[all.len() - 1 - (k - base.len())]
                    },
                self@ == (WalkView { stack: self@.stack, ..old(self)@ }),
                depth >= 1,
                self@.wf(),
            decreases kids@.len(),
        {
            let ghost stack_before = self@.stack;
            let ghost kids_before = entry_views(kids@);
            let kid = kids.pop().unwrap();
            assert(kid@ == kids_before.last());
            assert(entry_views(kids@) =~= kids_before.drop_last());
            self.stack.push(Pending { entry: kid, depth });
            assert(self@.stack =~= stack_before.push(PendingView { entry: kid@, depth: depth as nat }));
            assert(self@.stack.take(base.len() as int) =~= stack_before.take(base.len() as int));
        }
        assert(self@.on_top(base.len()) =~= all);
        self.phase = WalkPhase::Walking;
        let skipped: u64 = skipped as u64;
        self.warnings = if skipped > u64::MAX - self.warnings {
            u64::MAX
        } else {
            self.warnings + skipped
        };
        true
    }

    /// How many entries and directories were passed over so far.
    pub fn warnings(&self) -> (n: u64)
        ensures
            n == self@.warnings,
    {
        self.warnings
    }
}

} // verus!
