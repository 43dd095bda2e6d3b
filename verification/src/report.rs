//! `status`: how `HEAD`, the index and the workspace differ.

use crate::bytes::{lemma_lex_irreflexive, lex_less};
use crate::index::{has_path, is_sorted, Index, IndexEntry};
use crate::object::mode::{Mode, UnsupportedFileType};
use crate::object::oid::Oid;
use crate::os::{FileKind, FileStat, StatNode};
use crate::path_map::{stands_for, value_at, PathMap};
use crate::repo_path::RepoPath;
use crate::report::laws::{is_untouched, looks_alike};
use vstd::prelude::*;

pub mod head;
pub mod laws;
pub mod scan;
pub mod tree_files;
pub mod walk;

verus! {

/// What is staged.
#[derive(Debug, Clone, Copy, PartialEq, Eq, Structural)]
pub enum HeadIndexChange {
    /// In the index, but not in `HEAD`.
    Added,
    /// In both, with differences.
    Modified,
    /// In `HEAD`, but not in the index.
    Deleted,
}

/// What is not staged.
#[derive(Debug, Clone, Copy, PartialEq, Eq, Structural)]
pub enum WorkspaceIndexChange {
    /// In both, with differences.
    Modified,
    /// In the index, but not in the workspace.
    Deleted,
}

/// The changes of one file. It can take part in both comparisons: it is staged in one version, and
/// the workspace holds another.
#[derive(Debug, Clone, Copy, PartialEq, Eq, Structural)]
pub struct Change {
    pub head_index: Option<HeadIndexChange>,
    pub workspace_index: Option<WorkspaceIndexChange>,
}

/// What the statistics tell of an entry and the file at its path.
#[derive(Debug, Clone, Copy, PartialEq, Eq, Structural)]
pub enum Comparison {
    /// The sizes or the modes differ.
    Modified,
    /// Only the times differ: the contents have to be looked at.
    Unknown,
    Same,
}

pub open spec fn times_are_same(a: FileStat, b: FileStat) -> bool {
    a.ctime == b.ctime && a.ctime_nsec == b.ctime_nsec && a.mtime == b.mtime && a.mtime_nsec
        == b.mtime_nsec
}

/// A file of a kind that cannot be tracked has no mode, so it differs from every entry.
pub open spec fn compared(e: IndexEntry<Seq<u8>>, node: StatNode) -> Comparison {
    if e.stat.file_size != node.stat.file_size || Mode::of_kind(node.kind) != Ok::<
        Mode,
        UnsupportedFileType,
    >(e.mode) {
        Comparison::Modified
    } else if times_are_same(e.stat, node.stat) {
        Comparison::Same
    } else {
        Comparison::Unknown
    }
}

/// The blob with this id is the one that is staged.
pub open spec fn is_staged_blob(e: IndexEntry<Seq<u8>>, id: Option<Oid>) -> bool {
    id matches Some(oid) && oid@ == e.oid@
}

/// The change between an entry and the workspace. `id` is the id of the file's contents, where they
/// had to be looked at.
pub open spec fn workspace_change(
    e: IndexEntry<Seq<u8>>,
    node: Option<StatNode>,
    id: Option<Oid>,
) -> Option<WorkspaceIndexChange> {
    match node {
        None => Some(WorkspaceIndexChange::Deleted),
        Some(node) => match compared(e, node) {
            Comparison::Same => None,
            Comparison::Modified => Some(WorkspaceIndexChange::Modified),
            Comparison::Unknown => if is_staged_blob(e, id) {
                None
            } else {
                Some(WorkspaceIndexChange::Modified)
            },
        },
    }
}

/// The change between an entry and what `HEAD` has at its path.
pub open spec fn head_change(e: IndexEntry<Seq<u8>>, head: Option<(Oid, Mode)>) -> Option<
    HeadIndexChange,
> {
    match head {
        None => Some(HeadIndexChange::Added),
        Some((oid, mode)) => if e.mode != mode || e.oid@ != oid@ {
            Some(HeadIndexChange::Modified)
        } else {
            None
        },
    }
}

pub open spec fn no_change() -> Change {
    Change { head_index: None, workspace_index: None }
}

/// The change of a path, with what is now known of the workspace.
pub open spec fn with_workspace(
    before: Option<Change>,
    change: Option<WorkspaceIndexChange>,
) -> Option<Change> {
    match change {
        None => before,
        Some(_) => Some(
            Change {
                workspace_index: change,
                head_index: match before {
                    Some(c) => c.head_index,
                    None => None,
                },
            },
        ),
    }
}

/// The change of a path, with what is now known of `HEAD`.
pub open spec fn with_head(before: Option<Change>, change: Option<HeadIndexChange>) -> Option<
    Change,
> {
    match change {
        None => before,
        Some(_) => Some(
            Change {
                head_index: change,
                workspace_index: match before {
                    Some(c) => c.workspace_index,
                    None => None,
                },
            },
        ),
    }
}

/// The change of an entry's path after both comparisons.
pub open spec fn checked(
    before: Option<Change>,
    e: IndexEntry<Seq<u8>>,
    node: Option<StatNode>,
    id: Option<Oid>,
    head: Option<(Oid, Mode)>,
) -> Option<Change> {
    with_head(with_workspace(before, workspace_change(e, node, id)), head_change(e, head))
}

/// The contents of the file have to be looked at.
pub open spec fn is_content_wanted(e: IndexEntry<Seq<u8>>, node: Option<StatNode>) -> bool {
    node matches Some(n) && compared(e, n) == Comparison::Unknown
}

/// The entries, among the first `n`, of files that were touched but not changed.
pub open spec fn refreshed(
    entries: Seq<IndexEntry<Seq<u8>>>,
    stats: Seq<(Seq<u8>, StatNode)>,
    ids: Seq<Option<Oid>>,
    n: int,
) -> Seq<(usize, StatNode)>
    decreases n,
{
    if n <= 0 {
        Seq::empty()
    } else {
        let before = refreshed(entries, stats, ids, n - 1);
        let e = entries[n - 1];
        let node = value_at(stats, e.path);
        if is_content_wanted(e, node) && is_staged_blob(e, ids[n - 1]) {
            before.push(((n - 1) as usize, node->0))
        } else {
            before
        }
    }
}

/// What the statistics tell of an entry and the file at its path.
pub fn compare_stat(entry: &IndexEntry, node: &StatNode) -> (r: Comparison)
    ensures
        r == compared(entry@, *node),
        r == Comparison::Modified <==> !looks_alike(entry@, *node),
        r == Comparison::Same <==> looks_alike(entry@, *node) && is_untouched(entry@, *node),
{
    let mode_changed = match Mode::try_from_kind(node.kind) {
        Ok(mode) => entry.mode != mode,
        Err(_) => true,
    };
    if entry.stat.file_size != node.stat.file_size || mode_changed {
        Comparison::Modified
    } else if entry.times_match(&node.stat) {
        Comparison::Same
    } else {
        Comparison::Unknown
    }
}

/// How `HEAD`, the index and the workspace differ.
#[derive(Debug)]
pub struct Report {
    /// The files of the commit that `HEAD` names.
    pub head_entries: PathMap<(Oid, Mode)>,
    /// The tracked files in the workspace.
    pub stats: PathMap<StatNode>,
    /// The files and directories that are not tracked. A directory stands for all that is in it.
    pub untracked: Vec<(RepoPath, FileKind)>,
    pub changes: PathMap<Change>,
    /// The entries whose statistics can be brought up to date, by their places in the index.
    pub refreshes: Vec<(usize, StatNode)>,
}

impl Report {
    pub open spec fn wf(&self) -> bool {
        self.head_entries.wf() && self.stats.wf() && self.changes.wf()
    }

    pub fn new() -> (r: Self)
        ensures
            r.wf(),
            r.head_entries@.len() == 0,
            r.stats@.len() == 0,
            r.untracked@.len() == 0,
            r.changes@.len() == 0,
            r.refreshes@.len() == 0,
    {
        Report {
            head_entries: PathMap::new(),
            stats: PathMap::new(),
            untracked: Vec::new(),
            changes: PathMap::new(),
            refreshes: Vec::new(),
        }
    }

    /// Do the contents of an entry's file have to be looked at? The times of a file can change
    /// while its contents stay the same.
    pub fn content_wanted(&self, entry: &IndexEntry) -> (r: bool)
        requires
            self.wf(),
        ensures
            r == is_content_wanted(entry@, value_at(self.stats@, entry.path@)),
            r <==> (value_at(self.stats@, entry.path@) matches Some(node) && looks_alike(
                entry@,
                node,
            ) && !is_untouched(entry@, node)),
    {
        match self.stats.get(&entry.path) {
            None => false,
            Some(node) => compare_stat(entry, &node) == Comparison::Unknown,
        }
    }

    /// The change that is known of a path so far.
    fn change_of(&self, path: &RepoPath) -> (r: Change)
        requires
            self.wf(),
        ensures
            r == (match value_at(self.changes@, path@) {
                Some(change) => change,
                None => no_change(),
            }),
    {
        match self.changes.get(path) {
            Some(change) => change,
            None => Change { head_index: None, workspace_index: None },
        }
    }

    fn set_workspace_change(&mut self, path: &RepoPath, change: WorkspaceIndexChange)
        requires
            old(self).wf(),
        ensures
            final(self).wf(),
            forall|other: Seq<u8>| #[trigger]
                value_at(final(self).changes@, other) == (if other == path@ {
                    with_workspace(value_at(old(self).changes@, other), Some(change))
                } else {
                    value_at(old(self).changes@, other)
                }),
            final(self).head_entries == old(self).head_entries,
            final(self).stats == old(self).stats,
            final(self).untracked == old(self).untracked,
            final(self).refreshes == old(self).refreshes,
    {
        let before = self.change_of(path);
        self.changes.insert(
            path,
            Change { head_index: before.head_index, workspace_index: Some(change) },
        );
    }

    fn set_head_change(&mut self, path: &RepoPath, change: HeadIndexChange)
        requires
            old(self).wf(),
        ensures
            final(self).wf(),
            forall|other: Seq<u8>| #[trigger]
                value_at(final(self).changes@, other) == (if other == path@ {
                    with_head(value_at(old(self).changes@, other), Some(change))
                } else {
                    value_at(old(self).changes@, other)
                }),
            final(self).head_entries == old(self).head_entries,
            final(self).stats == old(self).stats,
            final(self).untracked == old(self).untracked,
            final(self).refreshes == old(self).refreshes,
    {
        let before = self.change_of(path);
        self.changes.insert(
            path,
            Change { head_index: Some(change), workspace_index: before.workspace_index },
        );
    }

    /// Compares the entry at `pos` with the workspace. `id` is the id of the file's contents, if
    /// they had to be looked at. A file that was touched but not changed is noted, so that its
    /// statistics can be brought up to date.
    pub fn check_against_workspace(&mut self, pos: usize, entry: &IndexEntry, id: Option<Oid>)
        requires
            old(self).wf(),
        ensures
            final(self).wf(),
            forall|other: Seq<u8>| #[trigger]
                value_at(final(self).changes@, other) == (if other == entry.path@ {
                    with_workspace(
                        value_at(old(self).changes@, other),
                        workspace_change(entry@, value_at(old(self).stats@, entry.path@), id),
                    )
                } else {
                    value_at(old(self).changes@, other)
                }),
            match value_at(old(self).stats@, entry.path@) {
                None => value_at(final(self).changes@, entry.path@) matches Some(c)
                    && c.workspace_index == Some(WorkspaceIndexChange::Deleted),
                Some(node) => if looks_alike(entry@, node) && (is_untouched(entry@, node) || (
                id matches Some(oid) && oid@ == entry.oid@)) {
                    value_at(final(self).changes@, entry.path@) == value_at(
                        old(self).changes@,
                        entry.path@,
                    )
                } else {
                    value_at(final(self).changes@, entry.path@) matches Some(c)
                        && c.workspace_index == Some(WorkspaceIndexChange::Modified)
                },
            },
            final(self).refreshes@ == ({
                let node = value_at(old(self).stats@, entry.path@);
                if is_content_wanted(entry@, node) && is_staged_blob(entry@, id) {
                    old(self).refreshes@.push((pos, node->0))
                } else {
                    old(self).refreshes@
                }
            }),
            final(self).head_entries == old(self).head_entries,
            final(self).stats == old(self).stats,
            final(self).untracked == old(self).untracked,
    {
        match self.stats.get(&entry.path) {
            None => {
                self.set_workspace_change(&entry.path, WorkspaceIndexChange::Deleted);
            },
            Some(node) => match compare_stat(entry, &node) {
                Comparison::Same => {},
                Comparison::Modified => {
                    self.set_workspace_change(&entry.path, WorkspaceIndexChange::Modified);
                },
                Comparison::Unknown => {
                    let unchanged = match id {
                        Some(oid) => oid.same_as(&entry.oid),
                        None => false,
                    };
                    if unchanged {
                        self.refreshes.push((pos, node));
                    } else {
                        self.set_workspace_change(&entry.path, WorkspaceIndexChange::Modified);
                    }
                },
            },
        }
    }

    /// Compares an entry with `HEAD`.
    pub fn check_against_head(&mut self, entry: &IndexEntry)
        requires
            old(self).wf(),
        ensures
            final(self).wf(),
            forall|other: Seq<u8>| #[trigger]
                value_at(final(self).changes@, other) == (if other == entry.path@ {
                    with_head(
                        value_at(old(self).changes@, other),
                        head_change(entry@, value_at(old(self).head_entries@, entry.path@)),
                    )
                } else {
                    value_at(old(self).changes@, other)
                }),
            match value_at(old(self).head_entries@, entry.path@) {
                None => value_at(final(self).changes@, entry.path@) matches Some(c) && c.head_index
                    == Some(HeadIndexChange::Added),
                Some((oid, mode)) => if oid@ == entry.oid@ && mode == entry.mode {
                    value_at(final(self).changes@, entry.path@) == value_at(
                        old(self).changes@,
                        entry.path@,
                    )
                } else {
                    value_at(final(self).changes@, entry.path@) matches Some(c) && c.head_index
                        == Some(HeadIndexChange::Modified)
                },
            },
            final(self).head_entries == old(self).head_entries,
            final(self).stats == old(self).stats,
            final(self).untracked == old(self).untracked,
            final(self).refreshes == old(self).refreshes,
    {
        match self.head_entries.get(&entry.path) {
            Some((oid, mode)) => {
                if entry.mode != mode || !entry.oid.same_as(&oid) {
                    self.set_head_change(&entry.path, HeadIndexChange::Modified);
                }
            },
            None => {
                self.set_head_change(&entry.path, HeadIndexChange::Added);
            },
        }
    }

    /// Compares every entry of the index with the workspace and with `HEAD`. `ids` holds, for each
    /// entry whose contents have to be looked at, the id of the blob that they make.
    pub fn check_index_against(&mut self, index: &Index, ids: &Vec<Option<Oid>>)
        requires
            old(self).wf(),
            index.wf(),
            ids@.len() == index@.len(),
        ensures
            final(self).wf(),
            forall|i: int|
                0 <= i < index@.len() ==> value_at(
                    final(self).changes@,
                    (#[trigger] index@[i]).path,
                ) == checked(
                    value_at(old(self).changes@, index@[i].path),
                    index@[i],
                    value_at(old(self).stats@, index@[i].path),
                    ids@[i],
                    value_at(old(self).head_entries@, index@[i].path),
                ),
            forall|path: Seq<u8>|
                !has_path(index@, path) ==> #[trigger] value_at(final(self).changes@, path)
                    == value_at(old(self).changes@, path),
            final(self).refreshes@ == old(self).refreshes@ + refreshed(
                index@,
                old(self).stats@,
                ids@,
                index@.len() as int,
            ),
            final(self).head_entries == old(self).head_entries,
            final(self).stats == old(self).stats,
            final(self).untracked == old(self).untracked,
    {
        let mut i: usize = 0;
        assert(self.refreshes@ =~= old(self).refreshes@ + refreshed(
            index@,
            old(self).stats@,
            ids@,
            0,
        ));
        while i < index.entries.len()
            invariant
                i <= index@.len(),
                self.wf(),
                index.wf(),
                ids@.len() == index@.len(),
                self.head_entries == old(self).head_entries,
                self.stats == old(self).stats,
                self.untracked == old(self).untracked,
                forall|j: int|
                    0 <= j < i ==> value_at(self.changes@, (#[trigger] index@[j]).path) == checked(
                        value_at(old(self).changes@, index@[j].path),
                        index@[j],
                        value_at(old(self).stats@, index@[j].path),
                        ids@[j],
                        value_at(old(self).head_entries@, index@[j].path),
                    ),
                forall|path: Seq<u8>|
                    (forall|j: int| 0 <= j < i ==> (#[trigger] index@[j]).path != path)
                        ==> #[trigger] value_at(self.changes@, path) == value_at(
                        old(self).changes@,
                        path,
                    ),
                self.refreshes@ == old(self).refreshes@ + refreshed(
                    index@,
                    old(self).stats@,
                    ids@,
                    i as int,
                ),
            decreases index@.len() - i,
        {
            let entry = &index.entries[i];
            let ghost e = index@[i as int];
            let ghost before = self.changes@;
            proof {
                assert(e == entry@);
                lemma_lex_irreflexive(e.path);
                assert forall|j: int| 0 <= j < index@.len() && j != i implies (
                #[trigger] index@[j]).path != e.path by {
                    if j < i {
                        assert(lex_less(index@[j].path, index@[i as int].path));
                    } else {
                        assert(lex_less(index@[i as int].path, index@[j].path));
                    }
                }
            }
            let id: Option<Oid> = ids[i];
            self.check_against_workspace(i, entry, id);
            self.check_against_head(entry);
            proof {
                assert(value_at(self.changes@, e.path) == checked(
                    value_at(before, e.path),
                    e,
                    value_at(self.stats@, e.path),
                    ids@[i as int],
                    value_at(self.head_entries@, e.path),
                ));
                assert forall|path: Seq<u8>|
                    (forall|j: int|
                        0 <= j < i + 1 ==> (#[trigger] index@[j]).path != path) implies #[trigger] value_at(
                self.changes@,
                path,
                ) == value_at(old(self).changes@, path) by {
                    assert(index@[i as int].path != path);
                }
                assert(self.refreshes@ =~= old(self).refreshes@ + refreshed(
                    index@,
                    old(self).stats@,
                    ids@,
                    i + 1,
                ));
            }
            i = i + 1;
        }
        assert forall|path: Seq<u8>| !has_path(index@, path) implies #[trigger] value_at(
            self.changes@,
            path,
        ) == value_at(old(self).changes@, path) by {
            assert forall|j: int| 0 <= j < i implies (#[trigger] index@[j]).path != path by {}
        }
    }

    /// Notes the files of `HEAD` that are no longer in the index.
    pub fn check_staged_deletions(&mut self, index: &Index)
        requires
            old(self).wf(),
            index.wf(),
        ensures
            final(self).wf(),
            forall|path: Seq<u8>| #[trigger]
                value_at(final(self).changes@, path) == (if value_at(
                    old(self).head_entries@,
                    path,
                ) is Some && !has_path(index@, path) {
                    with_head(value_at(old(self).changes@, path), Some(HeadIndexChange::Deleted))
                } else {
                    value_at(old(self).changes@, path)
                }),
            final(self).head_entries == old(self).head_entries,
            final(self).stats == old(self).stats,
            final(self).untracked == old(self).untracked,
            final(self).refreshes == old(self).refreshes,
    {
        let ghost head = self.head_entries@;
        let mut i: usize = 0;
        while i < self.head_entries.len()
            invariant
                i <= head.len(),
                self.wf(),
                index.wf(),
                head == self.head_entries@,
                self.head_entries == old(self).head_entries,
                self.stats == old(self).stats,
                self.untracked == old(self).untracked,
                self.refreshes == old(self).refreshes,
                forall|path: Seq<u8>| #[trigger]
                    value_at(self.changes@, path) == (if (exists|j: int|
                        j < i && stands_for(head, path, j)) && !has_path(index@, path) {
                        with_head(
                            value_at(old(self).changes@, path),
                            Some(HeadIndexChange::Deleted),
                        )
                    } else {
                        value_at(old(self).changes@, path)
                    }),
            decreases head.len() - i,
        {
            let path = self.head_entries.path(i).copied();
            let ghost before = self.changes@;
            if !index.contains(&path) {
                self.set_head_change(&path, HeadIndexChange::Deleted);
            }
            proof {
                assert(stands_for(head, path@, i as int));
                assert forall|other: Seq<u8>| #[trigger] value_at(self.changes@, other) == (if (
                exists|j: int| j < i + 1 && stands_for(head, other, j)) && !has_path(index@, other) {
                    with_head(value_at(old(self).changes@, other), Some(HeadIndexChange::Deleted))
                } else {
                    value_at(old(self).changes@, other)
                }) by {
                    assert(value_at(before, other) == value_at(before, other));
                    if other != path@ {
                        if exists|j: int| j < i + 1 && stands_for(head, other, j) {
                            let j = choose|j: int| j < i + 1 && stands_for(head, other, j);
                            assert(j != i);
                            assert(j < i && stands_for(head, other, j));
                        }
                        if exists|j: int| j < i && stands_for(head, other, j) {
                            let j = choose|j: int| j < i && stands_for(head, other, j);
                            assert(j < i + 1 && stands_for(head, other, j));
                        }
                    } else {
                        assert(i < i + 1 && stands_for(head, other, i as int));
                    }
                }
            }
            i = i + 1;
        }
        assert forall|path: Seq<u8>| #[trigger] value_at(self.changes@, path) == (if value_at(
            head,
            path,
        ) is Some && !has_path(index@, path) {
            with_head(value_at(old(self).changes@, path), Some(HeadIndexChange::Deleted))
        } else {
            value_at(old(self).changes@, path)
        }) by {
            if exists|j: int| stands_for(head, path, j) {
                let j = choose|j: int| stands_for(head, path, j);
                assert(j < i && stands_for(head, path, j));
            }
        }
    }

    /// Compares everything with everything: the entries with the workspace and with `HEAD`, and
    /// `HEAD` with the index.
    pub fn generate(&mut self, index: &Index, ids: &Vec<Option<Oid>>)
        requires
            old(self).wf(),
            old(self).changes@.len() == 0,
            index.wf(),
            ids@.len() == index@.len(),
        ensures
            final(self).wf(),
            forall|path: Seq<u8>| #[trigger]
                value_at(final(self).changes@, path) == reported(
                    index@,
                    old(self).head_entries@,
                    old(self).stats@,
                    ids@,
                    path,
                ),
            final(self).refreshes@ == old(self).refreshes@ + refreshed(
                index@,
                old(self).stats@,
                ids@,
                index@.len() as int,
            ),
            final(self).head_entries == old(self).head_entries,
            final(self).stats == old(self).stats,
            final(self).untracked == old(self).untracked,
    {
        proof {
            assert forall|path: Seq<u8>| #[trigger] value_at(self.changes@, path) is None by {
                assert forall|i: int| !stands_for(self.changes@, path, i) by {}
            }
        }
        self.check_index_against(index, ids);
        let ghost middle = self.changes@;
        self.check_staged_deletions(index);
        proof {
            assert forall|path: Seq<u8>| #[trigger] value_at(self.changes@, path) == reported(
                index@,
                old(self).head_entries@,
                old(self).stats@,
                ids@,
                path,
            ) by {
                if has_path(index@, path) {
                    let i = choose|i: int| 0 <= i < index@.len() && (#[trigger] index@[i]).path == path;
                    assert(value_at(middle, index@[i].path) == value_at(middle, path));
                } else {
                    assert(value_at(middle, path) is None);
                }
            }
        }
    }
}

/// The changes that are reported of a path.
pub open spec fn reported(
    entries: Seq<IndexEntry<Seq<u8>>>,
    head: Seq<(Seq<u8>, (Oid, Mode))>,
    stats: Seq<(Seq<u8>, StatNode)>,
    ids: Seq<Option<Oid>>,
    path: Seq<u8>,
) -> Option<Change> {
    if has_path(entries, path) {
        let i = choose|i: int| 0 <= i < entries.len() && (#[trigger] entries[i]).path == path;
        let change = Change {
            head_index: head_change(entries[i], value_at(head, path)),
            workspace_index: workspace_change(entries[i], value_at(stats, path), ids[i]),
        };
        if change == no_change() {
            None
        } else {
            Some(change)
        }
    } else if value_at(head, path) is Some {
        Some(Change { head_index: Some(HeadIndexChange::Deleted), workspace_index: None })
    } else {
        None
    }
}

/// Nothing is reported if the workspace holds the files of the index, untouched, and the index
/// holds those of `HEAD`; and something is, if one of them does not.
pub proof fn clean_means_no_changes(
    entries: Seq<IndexEntry<Seq<u8>>>,
    head: Seq<(Seq<u8>, (Oid, Mode))>,
    stats: Seq<(Seq<u8>, StatNode)>,
    ids: Seq<Option<Oid>>,
)
    requires
        is_sorted(entries),
    ensures
        (forall|path: Seq<u8>| #[trigger] reported(entries, head, stats, ids, path) is None) <==> ((
        forall|i: int|
            0 <= i < entries.len() ==> workspace_change(
                #[trigger] entries[i],
                value_at(stats, entries[i].path),
                ids[i],
            ) is None && head_change(entries[i], value_at(head, entries[i].path)) is None) && (forall|
            path: Seq<u8>,
        | #[trigger]
            value_at(head, path) is Some ==> has_path(entries, path))),
{
    let nothing = forall|path: Seq<u8>| #[trigger]
        reported(entries, head, stats, ids, path) is None;
    if nothing {
        assert forall|i: int| 0 <= i < entries.len() implies workspace_change(
            #[trigger] entries[i],
            value_at(stats, entries[i].path),
            ids[i],
        ) is None && head_change(entries[i], value_at(head, entries[i].path)) is None by {
            let path = entries[i].path;
            assert(reported(entries, head, stats, ids, path) is None);
            assert(has_path(entries, path));
            let j = choose|j: int| 0 <= j < entries.len() && (#[trigger] entries[j]).path == path;
            lemma_lex_irreflexive(path);
            if i < j {
                assert(lex_less(entries[i].path, entries[j].path));
            } else if j < i {
                assert(lex_less(entries[j].path, entries[i].path));
            }
        }
        assert forall|path: Seq<u8>| #[trigger] value_at(head, path) is Some implies has_path(
            entries,
            path,
        ) by {
            assert(reported(entries, head, stats, ids, path) is None);
        }
    }
}

} // verus!
