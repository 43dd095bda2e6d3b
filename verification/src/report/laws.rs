//! What a report says of each path, over the ids, the modes and the statistics themselves.

use crate::bytes::{lemma_lex_irreflexive, lex_less};
use crate::index::{has_path, is_sorted, IndexEntry};
use crate::object::mode::Mode;
use crate::object::oid::Oid;
use crate::os::{FileKind, StatNode};
use crate::path_map::{is_ascending, lemma_value_at, stands_for, value_at};
use crate::report::{refreshed, reported, Change, HeadIndexChange, WorkspaceIndexChange};
use vstd::prelude::*;

verus! {

/// A file of this kind is stored with this mode.
pub open spec fn has_mode(kind: FileKind, mode: Mode) -> bool {
    ||| kind == FileKind::Regular(false) && mode == Mode::Regular
    ||| kind == FileKind::Regular(true) && mode == Mode::Executable
    ||| kind == FileKind::Symlink && mode == Mode::Symlink
    ||| kind == FileKind::Directory && mode == Mode::Directory
}

/// The two have the size and the mode in common.
pub open spec fn looks_alike(e: IndexEntry<Seq<u8>>, node: StatNode) -> bool {
    e.stat.file_size == node.stat.file_size && has_mode(node.kind, e.mode)
}

/// The file was not touched since its statistics were taken.
pub open spec fn is_untouched(e: IndexEntry<Seq<u8>>, node: StatNode) -> bool {
    &&& e.stat.ctime == node.stat.ctime
    &&& e.stat.ctime_nsec == node.stat.ctime_nsec
    &&& e.stat.mtime == node.stat.mtime
    &&& e.stat.mtime_nsec == node.stat.mtime_nsec
}

proof fn lemma_has_value<V>(s: Seq<(Seq<u8>, V)>, path: Seq<u8>)
    requires
        is_ascending(s),
    ensures
        forall|j: int| 0 <= j < s.len() && (#[trigger] s[j]).0 == path ==> value_at(s, path) == Some(
            s[j].1,
        ),
        (forall|j: int| 0 <= j < s.len() ==> (#[trigger] s[j]).0 != path) ==> value_at(s, path)
            is None,
        value_at(s, path) matches Some(v) ==> exists|j: int|
            0 <= j < s.len() && #[trigger] s[j] == (path, v),
{
    assert forall|j: int| 0 <= j < s.len() && (#[trigger] s[j]).0 == path implies value_at(s, path)
        == Some(s[j].1) by {
        lemma_value_at(s, j);
    }
    if exists|j: int| stands_for(s, path, j) {
        let j = choose|j: int| stands_for(s, path, j);
        assert(s[j] == (path, s[j].1));
    }
}

proof fn lemma_only_place(entries: Seq<IndexEntry<Seq<u8>>>)
    requires
        is_sorted(entries),
    ensures
        forall|i: int, j: int|
            #![trigger entries[i], entries[j]]
            0 <= i < entries.len() && 0 <= j < entries.len() && entries[i].path == entries[j].path
                ==> i == j,
{
    assert forall|i: int, j: int|
        #![trigger entries[i], entries[j]]
        0 <= i < entries.len() && 0 <= j < entries.len() && entries[i].path
            == entries[j].path implies i == j by {
        lemma_lex_irreflexive(entries[i].path);
        if i < j {
            assert(lex_less(entries[i].path, entries[j].path));
        } else if j < i {
            assert(lex_less(entries[j].path, entries[i].path));
        }
    }
}

/// Nothing is staged of a path exactly if the index and `HEAD` have the same id and the same mode at
/// it, or neither has it. What differs is modified; what only the index has is added; what only
/// `HEAD` has is deleted.
pub proof fn staged_changes_are_exact(
    entries: Seq<IndexEntry<Seq<u8>>>,
    head: Seq<(Seq<u8>, (Oid, Mode))>,
    stats: Seq<(Seq<u8>, StatNode)>,
    ids: Seq<Option<Oid>>,
    path: Seq<u8>,
)
    requires
        is_sorted(entries),
        is_ascending(head),
    ensures
        ({
            let staged = match reported(entries, head, stats, ids, path) {
                Some(change) => change.head_index,
                None => None,
            };
            let in_index = exists|i: int|
                0 <= i < entries.len() && (#[trigger] entries[i]).path == path;
            let in_head = exists|j: int| 0 <= j < head.len() && (#[trigger] head[j]).0 == path;
            &&& forall|i: int, j: int|
                #![trigger entries[i], head[j]]
                0 <= i < entries.len() && 0 <= j < head.len() && entries[i].path == path
                    && head[j].0 == path ==> staged == (if entries[i].oid@ == (head[j].1).0@
                    && entries[i].mode == (head[j].1).1 {
                    None
                } else {
                    Some(HeadIndexChange::Modified)
                })
            &&& in_index && !in_head ==> staged == Some(HeadIndexChange::Added)
            &&& !in_index && in_head ==> staged == Some(HeadIndexChange::Deleted)
            &&& !in_index && !in_head ==> staged is None
        }),
{
    lemma_has_value(head, path);
    lemma_only_place(entries);
}

/// Nothing is left to stage of a path exactly if the index does not have it, or the workspace has a
/// file there with the size and the mode of the entry that was not touched or has the contents that
/// are staged. What is gone is deleted; all else is modified.
pub proof fn unstaged_changes_are_exact(
    entries: Seq<IndexEntry<Seq<u8>>>,
    head: Seq<(Seq<u8>, (Oid, Mode))>,
    stats: Seq<(Seq<u8>, StatNode)>,
    ids: Seq<Option<Oid>>,
    path: Seq<u8>,
)
    requires
        is_sorted(entries),
        is_ascending(stats),
    ensures
        ({
            let unstaged = match reported(entries, head, stats, ids, path) {
                Some(change) => change.workspace_index,
                None => None,
            };
            let in_index = exists|i: int|
                0 <= i < entries.len() && (#[trigger] entries[i]).path == path;
            let in_workspace = exists|k: int|
                0 <= k < stats.len() && (#[trigger] stats[k]).0 == path;
            &&& forall|i: int, k: int|
                #![trigger entries[i], stats[k]]
                0 <= i < entries.len() && 0 <= k < stats.len() && entries[i].path == path
                    && stats[k].0 == path ==> unstaged == (if looks_alike(entries[i], stats[k].1)
                    && (is_untouched(entries[i], stats[k].1) || (ids[i] matches Some(id) && id@
                    == entries[i].oid@)) {
                    None
                } else {
                    Some(WorkspaceIndexChange::Modified)
                })
            &&& in_index && !in_workspace ==> unstaged == Some(WorkspaceIndexChange::Deleted)
            &&& !in_index ==> unstaged is None
        }),
{
    lemma_has_value(stats, path);
    lemma_only_place(entries);
}

/// Something is reported of a path only if it tells a change.
pub proof fn reports_tell_changes(
    entries: Seq<IndexEntry<Seq<u8>>>,
    head: Seq<(Seq<u8>, (Oid, Mode))>,
    stats: Seq<(Seq<u8>, StatNode)>,
    ids: Seq<Option<Oid>>,
    path: Seq<u8>,
)
    ensures
        reported(entries, head, stats, ids, path) != Some(
            Change { head_index: None, workspace_index: None },
        ),
{
}

/// `HEAD` has the file of an entry, with its id and its mode.
pub open spec fn head_has(head: Seq<(Seq<u8>, (Oid, Mode))>, e: IndexEntry<Seq<u8>>) -> bool {
    exists|j: int|
        0 <= j < head.len() && (#[trigger] head[j]).0 == e.path && (head[j].1).0@ == e.oid@ && (
        head[j].1).1 == e.mode
}

/// The workspace has a file of the right size and mode for an entry.
pub open spec fn workspace_has(stats: Seq<(Seq<u8>, StatNode)>, e: IndexEntry<Seq<u8>>) -> bool {
    exists|k: int|
        0 <= k < stats.len() && (#[trigger] stats[k]).0 == e.path && looks_alike(e, stats[k].1)
}

/// If nothing is reported, the index holds the files of `HEAD`, each with its id and its mode, and
/// no others; and the workspace has a file of the right size and mode for each.
pub proof fn a_clean_report_shows_no_difference(
    entries: Seq<IndexEntry<Seq<u8>>>,
    head: Seq<(Seq<u8>, (Oid, Mode))>,
    stats: Seq<(Seq<u8>, StatNode)>,
    ids: Seq<Option<Oid>>,
)
    requires
        is_sorted(entries),
        is_ascending(head),
        is_ascending(stats),
        forall|path: Seq<u8>| #[trigger] reported(entries, head, stats, ids, path) is None,
    ensures
        forall|i: int| 0 <= i < entries.len() ==> head_has(head, #[trigger] entries[i]),
        forall|j: int| 0 <= j < head.len() ==> has_path(entries, (#[trigger] head[j]).0),
        forall|i: int| 0 <= i < entries.len() ==> workspace_has(stats, #[trigger] entries[i]),
{
    assert forall|i: int| 0 <= i < entries.len() implies head_has(head, #[trigger] entries[i])
        && workspace_has(stats, entries[i]) by {
        lemma_clean_entry(entries, head, stats, ids, i);
    }
    assert forall|j: int| 0 <= j < head.len() implies has_path(entries, (#[trigger] head[j]).0) by {
        assert(reported(entries, head, stats, ids, head[j].0) is None);
        lemma_value_at(head, j);
    }
}

proof fn lemma_clean_entry(
    entries: Seq<IndexEntry<Seq<u8>>>,
    head: Seq<(Seq<u8>, (Oid, Mode))>,
    stats: Seq<(Seq<u8>, StatNode)>,
    ids: Seq<Option<Oid>>,
    i: int,
)
    requires
        is_sorted(entries),
        is_ascending(head),
        is_ascending(stats),
        0 <= i < entries.len(),
        reported(entries, head, stats, ids, entries[i].path) is None,
    ensures
        head_has(head, entries[i]),
        workspace_has(stats, entries[i]),
{
    let path = entries[i].path;
    staged_changes_are_exact(entries, head, stats, ids, path);
    unstaged_changes_are_exact(entries, head, stats, ids, path);
    let j = choose|j: int| 0 <= j < head.len() && (#[trigger] head[j]).0 == path;
    assert(head[j].0 == path);
    let k = choose|k: int| 0 <= k < stats.len() && (#[trigger] stats[k]).0 == path;
    assert(stats[k].0 == path);
}

/// The entries whose statistics can be brought up to date are those of files that were touched but
/// have the size, the mode and the contents that are staged. Each is noted once, with what the
/// workspace has, in the order of the index.
pub proof fn refreshes_are_exact(
    entries: Seq<IndexEntry<Seq<u8>>>,
    stats: Seq<(Seq<u8>, StatNode)>,
    ids: Seq<Option<Oid>>,
    n: int,
)
    requires
        is_ascending(stats),
        0 <= n <= entries.len() <= usize::MAX,
    ensures
        ({
            let r = refreshed(entries, stats, ids, n);
            &&& forall|a: int, b: int|
                0 <= a < b < r.len() ==> (#[trigger] r[a]).0 < (#[trigger] r[b]).0
            &&& forall|a: int|
                0 <= a < r.len() ==> (#[trigger] r[a]).0 < n && stats.contains(
                    (entries[r[a].0 as int].path, r[a].1),
                ) && looks_alike(entries[r[a].0 as int], r[a].1) && !is_untouched(
                    entries[r[a].0 as int],
                    r[a].1,
                ) && (ids[r[a].0 as int] matches Some(id) && id@ == entries[r[a].0 as int].oid@)
            &&& forall|i: int, k: int|
                #![trigger entries[i], stats[k]]
                0 <= i < n && 0 <= k < stats.len() && stats[k].0 == entries[i].path && looks_alike(
                    entries[i],
                    stats[k].1,
                ) && !is_untouched(entries[i], stats[k].1) && (ids[i] matches Some(id) && id@
                    == entries[i].oid@) ==> r.contains((i as usize, stats[k].1))
        }),
    decreases n,
{
    if n > 0 {
        refreshes_are_exact(entries, stats, ids, n - 1);
        let e = entries[n - 1];
        let before = refreshed(entries, stats, ids, n - 1);
        let r = refreshed(entries, stats, ids, n);
        lemma_has_value(stats, e.path);
        assert forall|i: int, k: int|
            #![trigger entries[i], stats[k]]
            0 <= i < n && 0 <= k < stats.len() && stats[k].0 == entries[i].path && looks_alike(
                entries[i],
                stats[k].1,
            ) && !is_untouched(entries[i], stats[k].1) && (ids[i] matches Some(id) && id@
                == entries[i].oid@) implies r.contains((i as usize, stats[k].1)) by {
            if i < n - 1 {
                assert(before.contains((i as usize, stats[k].1)));
                let a = choose|a: int| 0 <= a < before.len() && before[a] == (i as usize, stats[k].1);
                assert(r[a] == before[a]);
            } else {
                assert(value_at(stats, e.path) == Some(stats[k].1));
                assert(r.last() == (i as usize, stats[k].1));
            }
        }
    }
}

} // verus!
