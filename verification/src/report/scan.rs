//! A scan of the workspace for files that are in the index and for those that could be.

use crate::index::{spec_is_tracked, Index, IndexEntry};
use crate::os::{FileKind, StatNode};
use crate::path_map::value_at;
use crate::repo_path::RepoPath;
use crate::report::Report;
use crate::workspace::{kinds_of, nodes_view, search_from, SearchStep, TrackableSearch, Workspace};
use vstd::prelude::*;

verus! {

/// What a scan asks for.
#[derive(Debug)]
pub enum ScanStep<P = RepoPath> {
    /// List this directory and hand over its entries.
    List(P),
    Done,
}

impl View for ScanStep {
    type V = ScanStep<Seq<u8>>;

    open spec fn view(&self) -> ScanStep<Seq<u8>> {
        match *self {
            ScanStep::List(path) => ScanStep::List(path@),
            ScanStep::Done => ScanStep::Done,
        }
    }
}

/// A walk through the workspace.
#[derive(Debug)]
pub struct Scan {
    /// What to look at next, from the last to the first.
    pending: Vec<(RepoPath, StatNode)>,
    /// Something untracked, of which it is not yet known whether it holds anything to track.
    candidate: Option<(RepoPath, FileKind)>,
    below: TrackableSearch,
}

/// The state of a scan; what is pending comes in order.
pub struct ScanView {
    pub pending: Seq<(Seq<u8>, StatNode)>,
    pub candidate: Option<(Seq<u8>, FileKind)>,
    pub below: Seq<(Seq<u8>, FileKind)>,
}

impl View for Scan {
    type V = ScanView;

    closed spec fn view(&self) -> ScanView {
        ScanView {
            pending: Seq::new(
                self.pending@.len(),
                |i: int|
                    (
                        self.pending@[self.pending@.len() - 1 - i].0@,
                        self.pending@[self.pending@.len() - 1 - i].1,
                    ),
            ),
            candidate: match self.candidate {
                Some((path, kind)) => Some((path@, kind)),
                None => None,
            },
            below: self.below@,
        }
    }
}

/// What a scan gets to before it has to list a directory: the next step, the state then, the
/// tracked files and the untracked paths that it came upon.
pub struct Scanned {
    pub step: ScanStep<Seq<u8>>,
    pub state: ScanView,
    pub known: Seq<(Seq<u8>, StatNode)>,
    pub untracked: Seq<(Seq<u8>, FileKind)>,
}

/// A tracked directory is gone through; a tracked file is noted. An untracked path is noted if it is
/// a file, or a directory with a file at some depth.
pub open spec fn scanned_from(index: Seq<IndexEntry<Seq<u8>>>, state: ScanView) -> Scanned
    decreases
            2 * state.pending.len() + (if state.candidate is Some {
                1int
            } else {
                0int
            }),
{
    match state.candidate {
        Some(candidate) => match search_from(state.below) {
            (SearchStep::List(path), rest) => Scanned {
                step: ScanStep::List(path),
                state: ScanView { below: rest, ..state },
                known: Seq::empty(),
                untracked: Seq::empty(),
            },
            (SearchStep::Found, rest) => {
                let after = scanned_from(index, ScanView { candidate: None, below: rest, ..state });
                Scanned { untracked: seq![candidate] + after.untracked, ..after }
            },
            (SearchStep::NotFound, rest) => scanned_from(
                index,
                ScanView { candidate: None, below: rest, ..state },
            ),
        },
        None => if state.pending.len() == 0 {
            Scanned { step: ScanStep::Done, state, known: Seq::empty(), untracked: Seq::empty() }
        } else {
            let (path, node) = state.pending[0];
            let rest = ScanView { pending: state.pending.drop_first(), ..state };
            if !spec_is_tracked(index, path) {
                scanned_from(
                    index,
                    ScanView {
                        candidate: Some((path, node.kind)),
                        below: seq![(path, node.kind)],
                        ..rest
                    },
                )
            } else if node.kind == FileKind::Directory {
                Scanned {
                    step: ScanStep::List(path),
                    state: rest,
                    known: Seq::empty(),
                    untracked: Seq::empty(),
                }
            } else {
                let after = scanned_from(index, rest);
                Scanned { known: seq![(path, node)] + after.known, ..after }
            }
        },
    }
}

/// A path's value after a number of updates.
pub open spec fn updated<V>(
    before: Option<V>,
    updates: Seq<(Seq<u8>, V)>,
    path: Seq<u8>,
) -> Option<V>
    decreases updates.len(),
{
    if updates.len() == 0 {
        before
    } else if updates.last().0 == path {
        Some(updates.last().1)
    } else {
        updated(before, updates.drop_last(), path)
    }
}

pub open spec fn untracked_view(v: Seq<(RepoPath, FileKind)>) -> Seq<(Seq<u8>, FileKind)> {
    Seq::new(v.len(), |i: int| (v[i].0@, v[i].1))
}

impl Scan {
    /// A scan of a directory with these entries.
    pub fn new(entries: &Vec<(RepoPath, StatNode)>) -> (r: Self)
        ensures
            r@.pending == nodes_view(entries@),
            r@.candidate is None,
    {
        let mut r = Scan {
            pending: Vec::new(),
            candidate: None,
            below: Workspace::contains_trackable_file(&RepoPath::new(), FileKind::Other),
        };
        r.listed(entries);
        assert(r@.pending =~= nodes_view(entries@));
        r
    }

    /// Takes the entries of the directory that was asked for: they come before all else.
    pub fn listed(&mut self, entries: &Vec<(RepoPath, StatNode)>)
        ensures
            final(self)@ == (if old(self)@.candidate is Some {
                ScanView { below: kinds_of(nodes_view(entries@)) + old(self)@.below, ..old(self)@ }
            } else {
                ScanView { pending: nodes_view(entries@) + old(self)@.pending, ..old(self)@ }
            }),
    {
        if self.candidate.is_some() {
            self.below.listed(entries);
            assert(self@.pending =~= old(self)@.pending);
            return;
        }
        let ghost before = self@.pending;
        let ghost nodes = nodes_view(entries@);
        let mut i: usize = entries.len();
        assert(self@.pending =~= nodes.skip(i as int) + before);
        while i > 0
            invariant
                i <= entries@.len(),
                nodes == nodes_view(entries@),
                self.candidate == old(self).candidate,
                self.below == old(self).below,
                self@.pending == nodes.skip(i as int) + before,
            decreases i,
        {
            i = i - 1;
            let ghost so_far = self@.pending;
            self.pending.push((entries[i].0.copied(), entries[i].1));
            assert(self@.pending =~= seq![nodes[i as int]] + so_far);
            assert(nodes.skip(i as int) =~= seq![nodes[i as int]] + nodes.skip(i + 1));
            assert(self@.pending =~= nodes.skip(i as int) + before);
        }
        assert(nodes.skip(0) =~= nodes);
    }
}

impl Report {
    /// Goes on with a scan until a directory has to be listed or nothing is left.
    pub fn scan_workspace(&mut self, scan: &mut Scan, index: &Index) -> (step: ScanStep)
        requires
            old(self).wf(),
            index.wf(),
        ensures
            final(self).wf(),
            step@ == scanned_from(index@, old(scan)@).step,
            final(scan)@ == scanned_from(index@, old(scan)@).state,
            forall|path: Seq<u8>| #[trigger]
                value_at(final(self).stats@, path) == updated(
                    value_at(old(self).stats@, path),
                    scanned_from(index@, old(scan)@).known,
                    path,
                ),
            untracked_view(final(self).untracked@) == untracked_view(old(self).untracked@)
                + scanned_from(index@, old(scan)@).untracked,
            final(self).head_entries == old(self).head_entries,
            final(self).changes == old(self).changes,
            final(self).refreshes == old(self).refreshes,
    {
        let ghost whole = scanned_from(index@, scan@);
        let ghost mut known: Seq<(Seq<u8>, StatNode)> = Seq::empty();
        let ghost mut untracked: Seq<(Seq<u8>, FileKind)> = Seq::empty();
        assert(untracked_view(self.untracked@) =~= untracked_view(old(self).untracked@)
            + untracked);
        assert(known + whole.known =~= whole.known);
        assert(untracked + whole.untracked =~= whole.untracked);
        loop
            invariant
                self.wf(),
                index.wf(),
                whole == scanned_from(index@, old(scan)@),
                whole.step == scanned_from(index@, scan@).step,
                whole.state == scanned_from(index@, scan@).state,
                whole.known == known + scanned_from(index@, scan@).known,
                whole.untracked == untracked + scanned_from(index@, scan@).untracked,
                forall|path: Seq<u8>| #[trigger]
                    value_at(self.stats@, path) == updated(
                        value_at(old(self).stats@, path),
                        known,
                        path,
                    ),
                untracked_view(self.untracked@) == untracked_view(old(self).untracked@) + untracked,
                self.head_entries == old(self).head_entries,
                self.changes == old(self).changes,
                self.refreshes == old(self).refreshes,
            decreases
                    2 * scan.pending@.len() + (if scan.candidate is Some {
                        1int
                    } else {
                        0int
                    }),
        {
            let ghost state = scan@;
            let ghost rest = scanned_from(index@, state);
            let mut candidate: Option<(RepoPath, FileKind)> = None;
            core::mem::swap(&mut candidate, &mut scan.candidate);
            match candidate {
                Some((path, kind)) => {
                    let found = scan.below.next();
                    assert(scan@.pending =~= state.pending);
                    match found {
                        SearchStep::List(dir) => {
                            scan.candidate = Some((path, kind));
                            proof {
                                assert(scan@.pending =~= state.pending);
                                assert(known + rest.known =~= known);
                                assert(untracked + rest.untracked =~= untracked);
                            }
                            return ScanStep::List(dir);
                        },
                        SearchStep::Found => {
                            let ghost before = self.untracked@;
                            let ghost noted = (path@, kind);
                            self.untracked.push((path, kind));
                            proof {
                                let after = scanned_from(index@, scan@);
                                assert(untracked_view(self.untracked@) =~= untracked_view(
                                    before,
                                ).push(noted));
                                assert(untracked + (seq![noted] + after.untracked)
                                    =~= untracked.push(noted) + after.untracked);
                                untracked = untracked.push(noted);
                                assert(untracked_view(self.untracked@) =~= untracked_view(
                                    old(self).untracked@,
                                ) + untracked);
                            }
                        },
                        SearchStep::NotFound => {},
                    }
                },
                None => match scan.pending.pop() {
                    None => {
                        proof {
                            assert(scan@.pending =~= state.pending);
                            assert(known + rest.known =~= known);
                            assert(untracked + rest.untracked =~= untracked);
                        }
                        return ScanStep::Done;
                    },
                    Some((path, node)) => {
                        assert(state.pending[0] == (path@, node));
                        assert(scan@.pending =~= state.pending.drop_first());
                        if !index.is_tracked(&path) {
                            scan.below = Workspace::contains_trackable_file(&path, node.kind);
                            scan.candidate = Some((path, node.kind));
                            assert(scan@.pending =~= state.pending.drop_first());
                        } else if node.kind == FileKind::Directory {
                            proof {
                                assert(known + rest.known =~= known);
                                assert(untracked + rest.untracked =~= untracked);
                            }
                            return ScanStep::List(path);
                        } else {
                            self.stats.insert(&path, node);
                            proof {
                                let noted = (path@, node);
                                let after = scanned_from(index@, scan@);
                                assert(known + (seq![noted] + after.known) =~= known.push(
                                    noted,
                                ) + after.known);
                                assert(known.push(noted).drop_last() =~= known);
                                known = known.push(noted);
                            }
                        }
                    },
                },
            }
        }
    }
}

/// What a scan notes is sorted by whether it is in the index: the files that are noted as known are
/// in the index and are no directories, and nothing that is noted as untracked has anything to do
/// with it.
pub proof fn scanning_sorts_paths(index: Seq<IndexEntry<Seq<u8>>>, state: ScanView)
    requires
        state.candidate matches Some((path, _)) ==> !spec_is_tracked(index, path),
    ensures
        ({
            let done = scanned_from(index, state);
            &&& done.state.candidate matches Some((path, _)) ==> !spec_is_tracked(index, path)
            &&& forall|i: int|
                0 <= i < done.known.len() ==> spec_is_tracked(index, (#[trigger] done.known[i]).0)
                    && done.known[i].1.kind != FileKind::Directory
            &&& forall|i: int|
                0 <= i < done.untracked.len() ==> !spec_is_tracked(
                    index,
                    (#[trigger] done.untracked[i]).0,
                )
        }),
    decreases
            2 * state.pending.len() + (if state.candidate is Some {
                1int
            } else {
                0int
            }),
{
    match state.candidate {
        Some(candidate) => match search_from(state.below) {
            (SearchStep::List(path), rest) => {},
            (SearchStep::Found, rest) => {
                let next = ScanView { candidate: None, below: rest, ..state };
                scanning_sorts_paths(index, next);
                let after = scanned_from(index, next);
                let done = scanned_from(index, state);
                assert forall|i: int| 0 <= i < done.untracked.len() implies !spec_is_tracked(
                    index,
                    (#[trigger] done.untracked[i]).0,
                ) by {
                    if i > 0 {
                        assert(done.untracked[i] == after.untracked[i - 1]);
                    }
                }
            },
            (SearchStep::NotFound, rest) => {
                scanning_sorts_paths(index, ScanView { candidate: None, below: rest, ..state });
            },
        },
        None => if state.pending.len() > 0 {
            let (path, node) = state.pending[0];
            let rest = ScanView { pending: state.pending.drop_first(), ..state };
            if !spec_is_tracked(index, path) {
                scanning_sorts_paths(
                    index,
                    ScanView {
                        candidate: Some((path, node.kind)),
                        below: seq![(path, node.kind)],
                        ..rest
                    },
                );
            } else if node.kind != FileKind::Directory {
                scanning_sorts_paths(index, rest);
                let after = scanned_from(index, rest);
                let done = scanned_from(index, state);
                assert forall|i: int| 0 <= i < done.known.len() implies spec_is_tracked(
                    index,
                    (#[trigger] done.known[i]).0,
                ) && done.known[i].1.kind != FileKind::Directory by {
                    if i > 0 {
                        assert(done.known[i] == after.known[i - 1]);
                    }
                }
            }
        },
    }
}

/// `file` is this node, or a file at most `depth` directories below it, and all on the way to it
/// is tracked. `files` tells what a directory holds.
pub open spec fn leads_to_file(
    files: spec_fn(Seq<u8>) -> Seq<(Seq<u8>, StatNode)>,
    index: Seq<IndexEntry<Seq<u8>>>,
    node: (Seq<u8>, StatNode),
    file: (Seq<u8>, StatNode),
    depth: nat,
) -> bool
    decreases depth,
{
    spec_is_tracked(index, node.0) && if node.1.kind == FileKind::Directory {
        depth > 0 && exists|i: int|
            0 <= i < files(node.0).len() && leads_to_file(
                files,
                index,
                #[trigger] files(node.0)[i],
                file,
                (depth - 1) as nat,
            )
    } else {
        node == file
    }
}

pub open spec fn is_found_from(
    files: spec_fn(Seq<u8>) -> Seq<(Seq<u8>, StatNode)>,
    index: Seq<IndexEntry<Seq<u8>>>,
    node: (Seq<u8>, StatNode),
    file: (Seq<u8>, StatNode),
) -> bool {
    exists|depth: nat| leads_to_file(files, index, node, file, depth)
}

/// The tracked file is still to come.
pub open spec fn is_to_come(
    files: spec_fn(Seq<u8>) -> Seq<(Seq<u8>, StatNode)>,
    index: Seq<IndexEntry<Seq<u8>>>,
    pending: Seq<(Seq<u8>, StatNode)>,
    file: (Seq<u8>, StatNode),
) -> bool {
    exists|i: int| 0 <= i < pending.len() && is_found_from(files, index, #[trigger] pending[i], file)
}

proof fn lemma_in_directory(
    files: spec_fn(Seq<u8>) -> Seq<(Seq<u8>, StatNode)>,
    index: Seq<IndexEntry<Seq<u8>>>,
    node: (Seq<u8>, StatNode),
    file: (Seq<u8>, StatNode),
)
    requires
        node.1.kind == FileKind::Directory,
        spec_is_tracked(index, node.0),
    ensures
        is_found_from(files, index, node, file) == is_to_come(files, index, files(node.0), file),
{
    let inside = files(node.0);
    if is_found_from(files, index, node, file) {
        let depth = choose|depth: nat| leads_to_file(files, index, node, file, depth);
        let i = choose|i: int|
            0 <= i < inside.len() && leads_to_file(
                files,
                index,
                #[trigger] inside[i],
                file,
                (depth - 1) as nat,
            );
        assert(is_found_from(files, index, inside[i], file));
        assert(is_to_come(files, index, inside, file));
    }
    if is_to_come(files, index, inside, file) {
        let i = choose|i: int|
            0 <= i < inside.len() && is_found_from(files, index, #[trigger] inside[i], file);
        let depth = choose|depth: nat| leads_to_file(files, index, inside[i], file, depth);
        assert(leads_to_file(files, index, node, file, depth + 1));
        assert(is_found_from(files, index, node, file));
    }
}

proof fn lemma_to_come(
    files: spec_fn(Seq<u8>) -> Seq<(Seq<u8>, StatNode)>,
    index: Seq<IndexEntry<Seq<u8>>>,
    a: Seq<(Seq<u8>, StatNode)>,
    b: Seq<(Seq<u8>, StatNode)>,
    file: (Seq<u8>, StatNode),
)
    ensures
        is_to_come(files, index, a + b, file) == (is_to_come(files, index, a, file) || is_to_come(
            files,
            index,
            b,
            file,
        )),
{
    let both = a + b;
    if is_to_come(files, index, both, file) {
        let i = choose|i: int|
            0 <= i < both.len() && is_found_from(files, index, #[trigger] both[i], file);
        if i < a.len() {
            assert(both[i] == a[i]);
        } else {
            assert(both[i] == b[i - a.len()]);
        }
    }
    if is_to_come(files, index, a, file) {
        let i = choose|i: int| 0 <= i < a.len() && is_found_from(files, index, #[trigger] a[i], file);
        assert(both[i] == a[i]);
    }
    if is_to_come(files, index, b, file) {
        let i = choose|i: int| 0 <= i < b.len() && is_found_from(files, index, #[trigger] b[i], file);
        assert(both[i + a.len()] == b[i]);
    }
}

/// No tracked file is missed: whatever was to come is noted or is still to come, among the entries
/// of the directory that is asked for and the rest. While something untracked is looked into,
/// nothing of it is mixed in.
pub proof fn scanning_misses_nothing(
    files: spec_fn(Seq<u8>) -> Seq<(Seq<u8>, StatNode)>,
    index: Seq<IndexEntry<Seq<u8>>>,
    state: ScanView,
    file: (Seq<u8>, StatNode),
)
    ensures
        ({
            let done = scanned_from(index, state);
            let left = match done.step {
                ScanStep::List(path) => if done.state.candidate is None {
                    files(path) + done.state.pending
                } else {
                    done.state.pending
                },
                ScanStep::Done => Seq::empty(),
            };
            is_to_come(files, index, state.pending, file) == (done.known.contains(file)
                || is_to_come(files, index, left, file))
        }),
    decreases
            2 * state.pending.len() + (if state.candidate is Some {
                1int
            } else {
                0int
            }),
{
    match state.candidate {
        Some(candidate) => match search_from(state.below) {
            (SearchStep::List(path), rest) => {},
            (SearchStep::Found, rest) => {
                scanning_misses_nothing(
                    files,
                    index,
                    ScanView { candidate: None, below: rest, ..state },
                    file,
                );
            },
            (SearchStep::NotFound, rest) => {
                scanning_misses_nothing(
                    files,
                    index,
                    ScanView { candidate: None, below: rest, ..state },
                    file,
                );
            },
        },
        None => if state.pending.len() > 0 {
            let node = state.pending[0];
            let first = seq![node];
            let pending = state.pending.drop_first();
            let rest = ScanView { pending, ..state };
            assert(state.pending =~= first + pending);
            lemma_to_come(files, index, first, pending, file);
            assert(is_to_come(files, index, first, file) == is_found_from(files, index, node, file))
                by {
                assert(first[0] == node);
            }
            if !spec_is_tracked(index, node.0) {
                scanning_misses_nothing(
                    files,
                    index,
                    ScanView {
                        candidate: Some((node.0, node.1.kind)),
                        below: seq![(node.0, node.1.kind)],
                        ..rest
                    },
                    file,
                );
            } else if node.1.kind == FileKind::Directory {
                lemma_in_directory(files, index, node, file);
                lemma_to_come(files, index, files(node.0), pending, file);
            } else {
                scanning_misses_nothing(files, index, rest, file);
                assert(leads_to_file(files, index, node, file, 0) == (node == file));
                let after = scanned_from(index, rest);
                let done = scanned_from(index, state);
                assert(done.known =~= first + after.known);
                if after.known.contains(file) {
                    let i = choose|i: int| 0 <= i < after.known.len() && after.known[i] == file;
                    assert(done.known[i + 1] == file);
                }
                if node == file {
                    assert(done.known[0] == file);
                }
                if done.known.contains(file) {
                    let i = choose|i: int| 0 <= i < done.known.len() && done.known[i] == file;
                    if i > 0 {
                        assert(after.known[i - 1] == file);
                    }
                }
            }
        },
    }
}

/// Of several updates of a path the last one counts; a path that is not updated has what it had.
pub proof fn the_last_update_counts<V>(
    before: Option<V>,
    updates: Seq<(Seq<u8>, V)>,
    path: Seq<u8>,
)
    ensures
        forall|i: int|
            0 <= i < updates.len() && (#[trigger] updates[i]).0 == path && (forall|j: int|
                i < j < updates.len() ==> (#[trigger] updates[j]).0 != path) ==> updated(
                before,
                updates,
                path,
            ) == Some(updates[i].1),
        (forall|i: int| 0 <= i < updates.len() ==> (#[trigger] updates[i]).0 != path) ==> updated(
            before,
            updates,
            path,
        ) == before,
    decreases updates.len(),
{
    if updates.len() > 0 {
        let fewer = updates.drop_last();
        let last = updates.len() - 1;
        the_last_update_counts(before, fewer, path);
        assert(updates[last] == updates.last());
        assert forall|i: int|
            0 <= i < updates.len() && (#[trigger] updates[i]).0 == path && (forall|j: int|
                i < j < updates.len() ==> (#[trigger] updates[j]).0 != path) implies updated(
            before,
            updates,
            path,
        ) == Some(updates[i].1) by {
            if i < last {
                assert(updates[last].0 != path);
                assert(fewer[i] == updates[i]);
                assert forall|j: int| i < j < fewer.len() implies (#[trigger] fewer[j]).0
                    != path by {
                    assert(fewer[j] == updates[j]);
                }
            }
        }
        if forall|i: int| 0 <= i < updates.len() ==> (#[trigger] updates[i]).0 != path {
            assert(updates[last].0 != path);
            assert forall|i: int| 0 <= i < fewer.len() implies (#[trigger] fewer[i]).0 != path by {
                assert(fewer[i] == updates[i]);
            }
        }
    }
}

} // verus!
