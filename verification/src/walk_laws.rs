//! What holds of the entries that a directory listing becomes.

use crate::collector::{
    admitted, child_of, comes_from, holds_path, is_children_of, strictly_sorted, DirView, RawView,
    Stepped, WalkPhase, WalkView,
};
use crate::entry::{join_path, safe_name, EntryKind, EntryView, SLASH};
use crate::lexical::{lemma_lex_asymmetric, lemma_lex_irreflexive, lex_less};
use vstd::prelude::*;

verus! {

/// No two lines of the listing share a name.
pub open spec fn distinct_names(listing: Seq<RawView>) -> bool {
    forall|i: int, j: int|
        0 <= i < listing.len() && 0 <= j < listing.len() && i != j ==> (#[trigger] listing[i]).name
            != (#[trigger] listing[j]).name
}

/// Every line of `a` is a line of `b`.
pub open spec fn lines_within(a: Seq<RawView>, b: Seq<RawView>) -> bool {
    forall|i: int| 0 <= i < a.len() ==> b.contains(#[trigger] a[i])
}

/// Different names in one directory have different paths.
pub proof fn lemma_join_is_injective(parent: Seq<u8>, a: Seq<u8>, b: Seq<u8>)
    requires
        join_path(parent, a) == join_path(parent, b),
    ensures
        a == b,
{
    if parent.len() > 0 {
        let k = parent.len() + 1;
        assert((parent + seq![SLASH] + a).skip(k as int) =~= a);
        assert((parent + seq![SLASH] + b).skip(k as int) =~= b);
    }
}

/// Two sorted runs of entries without repetition that hold the same entries
/// are the same run.
pub proof fn lemma_sorted_entries_are_unique(a: Seq<EntryView>, b: Seq<EntryView>)
    requires
        strictly_sorted(a),
        strictly_sorted(b),
        forall|i: int| 0 <= i < a.len() ==> b.contains(#[trigger] a[i]),
        forall|j: int| 0 <= j < b.len() ==> a.contains(#[trigger] b[j]),
    ensures
        a == b,
    decreases a.len(),
{
    if a.len() == 0 {
        if b.len() > 0 {
            assert(a.contains(b[0]));
        }
        assert(a =~= b);
    } else {
        assert(b.contains(a[0]));
        let j = choose|j: int| 0 <= j < b.len() && b[j] == a[0];
        assert(a.contains(b[0]));
        let i = choose|i: int| 0 <= i < a.len() && a[i] == b[0];
        lemma_lex_irreflexive(a[0].archive_path);
        if j > 0 {
            assert(lex_less(b[0].archive_path, b[j].archive_path));
            if i > 0 {
                assert(lex_less(a[0].archive_path, a[i].archive_path));
                lemma_lex_asymmetric(a[0].archive_path, a[i].archive_path);
            }
            assert(false);
        }
        let ta = a.skip(1);
        let tb = b.skip(1);
        assert forall|x: int| 0 <= x < ta.len() implies tb.contains(#[trigger] ta[x]) by {
            assert(ta[x] == a[x + 1]);
            assert(b.contains(a[x + 1]));
            let y = choose|y: int| 0 <= y < b.len() && b[y] == a[x + 1];
            assert(lex_less(a[0].archive_path, a[x + 1].archive_path));
            assert(y > 0);
            assert(tb[y - 1] == b[y]);
        }
        assert forall|y: int| 0 <= y < tb.len() implies ta.contains(#[trigger] tb[y]) by {
            assert(tb[y] == b[y + 1]);
            assert(a.contains(b[y + 1]));
            let x = choose|x: int| 0 <= x < a.len() && a[x] == b[y + 1];
            assert(lex_less(b[0].archive_path, b[y + 1].archive_path));
            assert(x > 0);
            assert(ta[x - 1] == a[x]);
        }
        assert(strictly_sorted(ta)) by {
            assert forall|x: int, y: int| 0 <= x < y < ta.len() implies lex_less(
                (#[trigger] ta[x]).archive_path,
                (#[trigger] ta[y]).archive_path,
            ) by {
                assert(ta[x] == a[x + 1] && ta[y] == a[y + 1]);
            }
        }
        assert(strictly_sorted(tb)) by {
            assert forall|x: int, y: int| 0 <= x < y < tb.len() implies lex_less(
                (#[trigger] tb[x]).archive_path,
                (#[trigger] tb[y]).archive_path,
            ) by {
                assert(tb[x] == b[x + 1] && tb[y] == b[y + 1]);
            }
        }
        lemma_sorted_entries_are_unique(ta, tb);
        assert(a =~= seq![a[0]] + ta);
        assert(b =~= seq![b[0]] + tb);
    }
}

/// Among listings without repeated names, every entry is the entry of the
/// one line that has its path.
pub proof fn lemma_entry_of_line(
    kids: Seq<EntryView>,
    listing: Seq<RawView>,
    dir: DirView,
    follow: bool,
    i: int,
)
    requires
        is_children_of(kids, listing, dir, follow),
        distinct_names(listing),
        0 <= i < listing.len(),
    ensures
        admitted(listing[i], dir, follow) ==> kids.contains(child_of(listing[i], dir)),
        !admitted(listing[i], dir, follow) ==> !holds_path(
            kids,
            join_path(dir.archive_path, listing[i].name),
        ),
{
    let path = join_path(dir.archive_path, listing[i].name);
    if holds_path(kids, path) {
        let k = choose|k: int| 0 <= k < kids.len() && (#[trigger] kids[k]).archive_path == path;
        assert(comes_from(kids[k], listing, dir, follow));
        let j = choose|j: int|
            0 <= j < listing.len() && admitted(#[trigger] listing[j], dir, follow) && kids[k]
                == child_of(listing[j], dir);
        lemma_join_is_injective(dir.archive_path, listing[i].name, listing[j].name);
        assert(i == j);
    }
}

/// The symlink policy. Where symlinks are not followed, a symlink in a
/// listing is absent from the entries. Where they are followed, a symlink
/// whose name is admissible and whose target is a known file or directory is
/// present, with the target's kind, size and times.
pub proof fn lemma_symlink_policy(
    kids: Seq<EntryView>,
    listing: Seq<RawView>,
    dir: DirView,
    follow: bool,
    i: int,
)
    requires
        is_children_of(kids, listing, dir, follow),
        distinct_names(listing),
        0 <= i < listing.len(),
        listing[i].is_symlink,
    ensures
        !follow ==> !holds_path(kids, join_path(dir.archive_path, listing[i].name)),
        follow && admitted(listing[i], dir, true) ==> kids.contains(child_of(listing[i], dir)),
        forall|k: int| 0 <= k < kids.len() ==> (#[trigger] kids[k]).kind != EntryKind::Symlink,
{
    lemma_entry_of_line(kids, listing, dir, follow, i);
    assert forall|k: int| 0 <= k < kids.len() implies (#[trigger] kids[k]).kind
        != EntryKind::Symlink by {
        assert(comes_from(kids[k], listing, dir, follow));
    }
}

/// The order in which a directory was listed does not matter: two listings
/// with the same lines, in whatever order, become the same entries in the
/// same order.
pub proof fn lemma_listing_order_is_irrelevant(
    kids_a: Seq<EntryView>,
    kids_b: Seq<EntryView>,
    listing_a: Seq<RawView>,
    listing_b: Seq<RawView>,
    dir: DirView,
    follow: bool,
)
    requires
        is_children_of(kids_a, listing_a, dir, follow),
        is_children_of(kids_b, listing_b, dir, follow),
        distinct_names(listing_a),
        distinct_names(listing_b),
        lines_within(listing_a, listing_b),
        lines_within(listing_b, listing_a),
    ensures
        kids_a == kids_b,
{
    assert forall|k: int| 0 <= k < kids_a.len() implies kids_b.contains(#[trigger] kids_a[k]) by {
        lemma_carried_over(kids_a, kids_b, listing_a, listing_b, dir, follow, k);
    }
    assert forall|k: int| 0 <= k < kids_b.len() implies kids_a.contains(#[trigger] kids_b[k]) by {
        lemma_carried_over(kids_b, kids_a, listing_b, listing_a, dir, follow, k);
    }
    lemma_sorted_entries_are_unique(kids_a, kids_b);
}

proof fn lemma_carried_over(
    kids_a: Seq<EntryView>,
    kids_b: Seq<EntryView>,
    listing_a: Seq<RawView>,
    listing_b: Seq<RawView>,
    dir: DirView,
    follow: bool,
    k: int,
)
    requires
        is_children_of(kids_a, listing_a, dir, follow),
        is_children_of(kids_b, listing_b, dir, follow),
        distinct_names(listing_b),
        lines_within(listing_a, listing_b),
        0 <= k < kids_a.len(),
    ensures
        kids_b.contains(kids_a[k]),
{
    assert(comes_from(kids_a[k], listing_a, dir, follow));
    let i = choose|i: int|
        0 <= i < listing_a.len() && admitted(#[trigger] listing_a[i], dir, follow) && kids_a[k]
            == child_of(listing_a[i], dir);
    assert(listing_b.contains(listing_a[i]));
    let j = choose|j: int| 0 <= j < listing_b.len() && listing_b[j] == listing_a[i];
    lemma_entry_of_line(kids_b, listing_b, dir, follow, j);
}

/// An empty directory has no entries.
pub proof fn lemma_empty_listing(kids: Seq<EntryView>, dir: DirView, follow: bool)
    requires
        is_children_of(kids, Seq::empty(), dir, follow),
    ensures
        kids == Seq::<EntryView>::empty(),
{
    if kids.len() > 0 {
        assert(comes_from(kids[0], Seq::empty(), dir, follow));
    }
    assert(kids =~= Seq::<EntryView>::empty());
}

/// `q` lies somewhere below the directory `p`. Everything lies below the
/// root, the empty path.
pub open spec fn below(p: Seq<u8>, q: Seq<u8>) -> bool {
    p.len() == 0 || (q.len() > p.len() && q.take(p.len() as int) == p && q[p.len() as int] == SLASH)
}

/// The archive path of the `i`-th entry that waits.
pub open spec fn waiting_path(s: WalkView, i: int) -> Seq<u8> {
    s.stack[i].entry.archive_path
}

/// What keeps the walk from handing out a path twice, given the paths
/// `seen` that it has handed out: the entries that wait have paths of their
/// own, different from each other and from all that were seen; nothing that
/// waits or was seen lies below an entry that waits, nor below the directory
/// whose listing is wanted; and that directory, unless it is the root, was
/// itself handed out.
pub open spec fn fresh(s: WalkView, seen: Seq<Seq<u8>>) -> bool {
    &&& seen.no_duplicates()
    &&& forall|i: int| 0 <= i < s.stack.len() ==> (#[trigger] s.stack[i]).entry.archive_path.len() > 0
    &&& forall|i: int, j: int|
        0 <= i < j < s.stack.len() ==> (#[trigger] s.stack[i]).entry.archive_path != (
        #[trigger] s.stack[j]).entry.archive_path
    &&& forall|i: int, k: int|
        0 <= i < s.stack.len() && 0 <= k < seen.len() ==> (#[trigger] s.stack[i]).entry.archive_path
            != #[trigger] seen[k]
    &&& forall|i: int, j: int|
        0 <= i < s.stack.len() && 0 <= j < s.stack.len() ==> !below(
            (#[trigger] s.stack[i]).entry.archive_path,
            (#[trigger] s.stack[j]).entry.archive_path,
        )
    &&& forall|i: int, k: int|
        0 <= i < s.stack.len() && 0 <= k < seen.len() ==> !below(
            (#[trigger] s.stack[i]).entry.archive_path,
            #[trigger] seen[k],
        )
    &&& s.phase == WalkPhase::Awaiting ==> {
        &&& forall|j: int|
            0 <= j < s.stack.len() ==> !below(
                s.waiting.archive_path,
                (#[trigger] s.stack[j]).entry.archive_path,
            )
        &&& forall|k: int| 0 <= k < seen.len() ==> !below(s.waiting.archive_path, #[trigger] seen[k])
        &&& s.waiting.archive_path.len() > 0 ==> seen.contains(s.waiting.archive_path)
    }
}

/// The paths seen after a step: one more where the step hands out an entry.
pub open spec fn seen_after(s: WalkView, seen: Seq<Seq<u8>>) -> Seq<Seq<u8>> {
    match s.yields() {
        Stepped::Entry(e) => seen.push(e.archive_path),
        _ => seen,
    }
}

/// A walk that has handed out nothing has nothing to repeat.
pub proof fn lemma_fresh_at_start(s: WalkView)
    requires
        s.stack.len() == 0,
        s.waiting.archive_path.len() == 0,
    ensures
        fresh(s, Seq::empty()),
{
}

/// No entry is handed out twice: the path of the entry that a step hands
/// out was not seen before, and the walk stays as it must be for that to
/// hold of every later step.
pub proof fn lemma_step_hands_out_new_path(s: WalkView, seen: Seq<Seq<u8>>)
    requires
        fresh(s, seen),
    ensures
        match s.yields() {
            Stepped::Entry(e) => !seen.contains(e.archive_path),
            _ => true,
        },
        fresh(s.after_step(), seen_after(s, seen)),
{
    let t = s.after_step();
    let now = seen_after(s, seen);
    if s.phase == WalkPhase::Walking && s.stack.len() > 0 {
        let top = s.stack.last();
        let n = s.stack.len() - 1;
        assert(top == s.stack[n]);
        assert forall|i: int| 0 <= i < t.stack.len() implies (#[trigger] t.stack[i]) == s.stack[i] by {}
        if s.yields() is Entry {
            assert(now == seen.push(top.entry.archive_path));
            assert(!seen.contains(top.entry.archive_path)) by {
                if seen.contains(top.entry.archive_path) {
                    let k = choose|k: int| 0 <= k < seen.len() && seen[k] == top.entry.archive_path;
                    assert(s.stack[n].entry.archive_path != seen[k]);
                }
            }
            assert(now.no_duplicates()) by {
                assert forall|a: int, b: int| 0 <= a < now.len() && 0 <= b < now.len() && a
                    != b implies now[a] != now[b] by {
                    if a == seen.len() {
                        assert(s.stack[n].entry.archive_path != seen[b]);
                    } else if b == seen.len() {
                        assert(s.stack[n].entry.archive_path != seen[a]);
                    }
                }
            }
            assert forall|i: int, k: int| 0 <= i < t.stack.len() && 0 <= k < now.len() implies (
            #[trigger] t.stack[i]).entry.archive_path != #[trigger] now[k] && !below(
                t.stack[i].entry.archive_path,
                now[k],
            ) by {
                assert(t.stack[i] == s.stack[i]);
                if k == seen.len() {
                    assert(now[k] == s.stack[n].entry.archive_path);
                    assert(!below(s.stack[i].entry.archive_path, s.stack[n].entry.archive_path));
                } else {
                    assert(now[k] == seen[k]);
                }
            }
            if t.phase == WalkPhase::Awaiting {
                assert(t.waiting.archive_path == top.entry.archive_path);
                assert forall|k: int| 0 <= k < now.len() implies !below(
                    t.waiting.archive_path,
                    #[trigger] now[k],
                ) by {
                    if k < seen.len() {
                        assert(now[k] == seen[k]);
                        assert(!below(s.stack[n].entry.archive_path, seen[k]));
                    }
                }
                assert forall|j: int| 0 <= j < t.stack.len() implies !below(
                    t.waiting.archive_path,
                    (#[trigger] t.stack[j]).entry.archive_path,
                ) by {
                    assert(t.stack[j] == s.stack[j]);
                    assert(!below(s.stack[n].entry.archive_path, s.stack[j].entry.archive_path));
                }
                assert(now[seen.len() as int] == t.waiting.archive_path);
            }
        }
    }
}

/// A name below a directory lies below it.
proof fn lemma_child_is_below(dir: Seq<u8>, name: Seq<u8>)
    requires
        name.len() > 0,
    ensures
        below(dir, join_path(dir, name)),
        join_path(dir, name).len() > 0,
{
    if dir.len() > 0 {
        assert(join_path(dir, name).take(dir.len() as int) =~= dir);
    }
}

/// What lies below a child of a directory lies below the directory.
proof fn lemma_below_child_is_below_parent(dir: Seq<u8>, name: Seq<u8>, q: Seq<u8>)
    requires
        name.len() > 0,
        below(join_path(dir, name), q),
    ensures
        below(dir, q),
{
    if dir.len() > 0 {
        let kid = join_path(dir, name);
        assert(kid.len() > dir.len());
        assert(q.take(dir.len() as int) =~= kid.take(dir.len() as int));
        assert(kid.take(dir.len() as int) =~= dir);
        assert(q[dir.len() as int] == q.take(kid.len() as int)[dir.len() as int]);
    }
}

/// A child of a directory lies below another path only where the directory
/// is that path or lies below it.
proof fn lemma_above_child(dir: Seq<u8>, name: Seq<u8>, p: Seq<u8>)
    requires
        safe_name(name),
        p.len() > 0,
        below(p, join_path(dir, name)),
    ensures
        dir.len() > 0,
        dir == p || below(p, dir),
{
    let kid = join_path(dir, name);
    if dir.len() == 0 {
        assert(name[p.len() as int] != SLASH);
    } else {
        if p.len() > dir.len() {
            assert(kid[p.len() as int] == name[p.len() - dir.len() - 1]);
            assert(name[p.len() - dir.len() - 1] != SLASH);
        } else if p.len() == dir.len() {
            assert(kid.take(dir.len() as int) =~= dir);
        } else {
            assert(dir.take(p.len() as int) =~= kid.take(p.len() as int));
            assert(kid[p.len() as int] == dir[p.len() as int]);
        }
    }
}

/// Two children of one directory do not lie below each other.
proof fn lemma_siblings_apart(dir: Seq<u8>, a: Seq<u8>, b: Seq<u8>)
    requires
        safe_name(a),
        safe_name(b),
    ensures
        !below(join_path(dir, a), join_path(dir, b)),
{
    let ka = join_path(dir, a);
    let kb = join_path(dir, b);
    if below(ka, kb) {
        if dir.len() == 0 {
            assert(b[a.len() as int] != SLASH);
        } else {
            assert(kb[ka.len() as int] == b[ka.len() - dir.len() - 1]);
            assert(b[ka.len() - dir.len() - 1] != SLASH);
        }
    }
}

/// Taking a listing keeps the walk from repeating itself: the entries of the
/// listing are new, and they stand on the stack as the walk needs them. Each
/// lies below the directory that was listed, and that directory, unless it
/// is the root, was handed out before: a directory comes before its content.
pub proof fn lemma_listing_brings_new_paths(
    s: WalkView,
    t: WalkView,
    listing: Seq<RawView>,
    seen: Seq<Seq<u8>>,
)
    requires
        fresh(s, seen),
        s.phase == WalkPhase::Awaiting,
        t.phase == WalkPhase::Walking,
        t.stack.len() >= s.stack.len(),
        t.stack.take(s.stack.len() as int) == s.stack,
        is_children_of(t.on_top(s.stack.len()), listing, s.waiting, s.follow),
    ensures
        fresh(t, seen),
        forall|i: int| s.stack.len() <= i < t.stack.len() ==> !seen.contains(waiting_path(t, i)),
        forall|i: int|
            s.stack.len() <= i < t.stack.len() ==> below(
                s.waiting.archive_path,
                #[trigger] waiting_path(t, i),
            ),
        s.waiting.archive_path.len() > 0 ==> seen.contains(s.waiting.archive_path),
{
    let base = s.stack.len() as int;
    let dir = s.waiting.archive_path;
    let kids = t.on_top(s.stack.len());
    assert forall|i: int| 0 <= i < base implies (#[trigger] t.stack[i]) == s.stack[i] by {
        assert(t.stack.take(base)[i] == t.stack[i]);
    }
    // Each new entry is the child of some admitted line.
    assert forall|i: int| base <= i < t.stack.len() implies exists|x: int|
        0 <= x < listing.len() && safe_name(#[trigger] listing[x].name) && (
        #[trigger] t.stack[i]).entry.archive_path == join_path(dir, listing[x].name) by {
        let m = t.stack.len() - 1 - i;
        assert(kids[m] == t.stack[i].entry);
        assert(comes_from(kids[m], listing, s.waiting, s.follow));
        let x = choose|x: int|
            0 <= x < listing.len() && admitted(#[trigger] listing[x], s.waiting, s.follow)
                && kids[m] == child_of(listing[x], s.waiting);
        assert(safe_name(listing[x].name));
    }
    assert forall|i: int| 0 <= i < t.stack.len() implies (#[trigger] t.stack[i]).entry.archive_path.len()
        > 0 && (i >= base ==> below(dir, t.stack[i].entry.archive_path)) by {
        if i >= base {
            let x = choose|x: int|
                0 <= x < listing.len() && safe_name(#[trigger] listing[x].name)
                    && t.stack[i].entry.archive_path == join_path(dir, listing[x].name);
            lemma_child_is_below(dir, listing[x].name);
        } else {
            assert(t.stack[i] == s.stack[i]);
        }
    }
    assert forall|i: int, j: int| 0 <= i < j < t.stack.len() implies (
    #[trigger] t.stack[i]).entry.archive_path != (#[trigger] t.stack[j]).entry.archive_path by {
        if j < base {
            assert(t.stack[i] == s.stack[i] && t.stack[j] == s.stack[j]);
        } else if i < base {
            assert(t.stack[i] == s.stack[i]);
            assert(below(dir, t.stack[j].entry.archive_path));
            assert(!below(dir, s.stack[i].entry.archive_path));
        } else {
            let a = t.stack.len() - 1 - j;
            let b = t.stack.len() - 1 - i;
            assert(kids[a] == t.stack[j].entry && kids[b] == t.stack[i].entry);
            assert(lex_less(kids[a].archive_path, kids[b].archive_path));
            lemma_lex_irreflexive(kids[a].archive_path);
        }
    }
    assert forall|i: int, k: int| 0 <= i < t.stack.len() && 0 <= k < seen.len() implies (
    #[trigger] t.stack[i]).entry.archive_path != #[trigger] seen[k] && !below(
        t.stack[i].entry.archive_path,
        seen[k],
    ) by {
        if i < base {
            assert(t.stack[i] == s.stack[i]);
        } else {
            assert(below(dir, t.stack[i].entry.archive_path));
            assert(!below(dir, seen[k]));
            let x = choose|x: int|
                0 <= x < listing.len() && safe_name(#[trigger] listing[x].name)
                    && t.stack[i].entry.archive_path == join_path(dir, listing[x].name);
            if below(t.stack[i].entry.archive_path, seen[k]) {
                lemma_below_child_is_below_parent(dir, listing[x].name, seen[k]);
            }
        }
    }
    assert forall|i: int, j: int| 0 <= i < t.stack.len() && 0 <= j < t.stack.len() implies !below(
        (#[trigger] t.stack[i]).entry.archive_path,
        (#[trigger] t.stack[j]).entry.archive_path,
    ) by {
        let p = t.stack[i].entry.archive_path;
        let q = t.stack[j].entry.archive_path;
        if i < base && j < base {
            assert(t.stack[i] == s.stack[i] && t.stack[j] == s.stack[j]);
        } else if i < base {
            assert(t.stack[i] == s.stack[i]);
            let x = choose|x: int|
                0 <= x < listing.len() && safe_name(#[trigger] listing[x].name) && q == join_path(
                    dir,
                    listing[x].name,
                );
            if below(p, q) {
                lemma_above_child(dir, listing[x].name, p);
                assert(seen.contains(dir));
                let k = choose|k: int| 0 <= k < seen.len() && seen[k] == dir;
                assert(s.stack[i].entry.archive_path != seen[k]);
                assert(!below(s.stack[i].entry.archive_path, seen[k]));
            }
        } else {
            let x = choose|x: int|
                0 <= x < listing.len() && safe_name(#[trigger] listing[x].name) && p == join_path(
                    dir,
                    listing[x].name,
                );
            if below(p, q) {
                lemma_below_child_is_below_parent(dir, listing[x].name, q);
                if j < base {
                    assert(t.stack[j] == s.stack[j]);
                    assert(!below(dir, s.stack[j].entry.archive_path));
                } else {
                    let y = choose|y: int|
                        0 <= y < listing.len() && safe_name(#[trigger] listing[y].name) && q
                            == join_path(dir, listing[y].name);
                    lemma_siblings_apart(dir, listing[x].name, listing[y].name);
                }
            }
        }
    }
    assert forall|i: int| base <= i < t.stack.len() implies !seen.contains(waiting_path(t, i)) by {
        if seen.contains(waiting_path(t, i)) {
            let k = choose|k: int| 0 <= k < seen.len() && seen[k] == waiting_path(t, i);
            assert(t.stack[i].entry.archive_path != seen[k]);
        }
    }
}

} // verus!
