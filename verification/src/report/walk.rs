//! What a scan of the workspace finds, over the trees that file systems hold.

use crate::index::{has_path, spec_is_tracked, IndexEntry};
use crate::os::{FileKind, StatNode};
use crate::repo_path::spec_is_parent_path;
use crate::report::scan::{
    is_found_from, is_to_come, leads_to_file, scanned_from, scanning_misses_nothing, ScanStep,
    ScanView,
};
use crate::walk::{all_are_looked_at, lemma_listed, listed, path_along, stands_along};
use crate::workspace::{
    any_trackable, below, is_trackable, kinds_of, search_from, search_is_truthful, SearchStep,
};
use vstd::prelude::*;

verus! {

proof fn lemma_along_starts(dir: Seq<u8>, names: Seq<Seq<u8>>)
    requires
        dir.len() > 0,
        names.len() > 0,
    ensures
        spec_is_parent_path(dir, path_along(dir, names)),
    decreases names.len(),
{
    let next = dir + seq![0x2fu8] + names[0];
    let rest = names.drop_first();
    assert(below(dir, names[0]) == next);
    assert(next.take(dir.len() as int) =~= dir);
    if rest.len() > 0 {
        lemma_along_starts(next, rest);
        let path = path_along(next, rest);
        assert(path.take(dir.len() as int) =~= path.take(next.len() as int).take(dir.len() as int));
        assert(path.take(next.len() as int)[dir.len() as int] == 0x2f);
    }
}

proof fn lemma_leads_along(
    disk: spec_fn(Seq<u8>) -> Seq<(Seq<u8>, StatNode)>,
    index: Seq<IndexEntry<Seq<u8>>>,
    dir: Seq<u8>,
    names: Seq<Seq<u8>>,
    node: StatNode,
)
    requires
        node.kind != FileKind::Directory,
        stands_along(disk, dir, names, node),
        all_are_looked_at(names),
        forall|i: int| 0 <= i < names.len() ==> (#[trigger] names[i]).len() > 0,
        has_path(index, path_along(dir, names)),
    ensures
        is_to_come(listed(disk), index, listed(disk)(dir), (path_along(dir, names), node)),
    decreases names.len(),
{
    let files = listed(disk);
    let file = (path_along(dir, names), node);
    let name = names[0];
    let rest = names.drop_first();
    let path = below(dir, name);
    assert(seq![name][0] == name);
    if names.len() == 1 {
        lemma_listed(disk, dir, name, node);
        let i = choose|i: int| 0 <= i < files(dir).len() && #[trigger] files(dir)[i] == (path, node);
        assert(path_along(path, rest) == path);
        assert(leads_to_file(files, index, (path, node), file, 0));
        assert(is_found_from(files, index, files(dir)[i], file));
    } else {
        let inner = choose|inner: StatNode|
            inner.kind == FileKind::Directory && #[trigger] disk(dir).contains((name, inner));
        lemma_listed(disk, dir, name, inner);
        assert forall|i: int| 0 <= i < rest.len() implies #[trigger] rest[i] == names[i + 1] by {}
        lemma_leads_along(disk, index, path, rest, node);
        lemma_along_starts(path, rest);
        assert(spec_is_tracked(index, path));
        let i = choose|i: int| 0 <= i < files(dir).len() && #[trigger] files(dir)[i] == (path, inner);
        let j = choose|j: int|
            0 <= j < files(path).len() && is_found_from(files, index, #[trigger] files(path)[j], file);
        let child = files(path)[j];
        let depth = choose|depth: nat| leads_to_file(files, index, child, file, depth);
        assert(leads_to_file(files, index, files(path)[j], file, (depth + 1 - 1) as nat));
        assert(leads_to_file(files, index, (path, inner), file, depth + 1));
        assert(is_found_from(files, index, files(dir)[i], file));
    }
}

/// A scan of the workspace comes upon every file that is in the index, at any depth, unless one of
/// the names on the way to it is `.lit`, `.git` or `target`.
pub proof fn every_file_of_the_index_is_to_come(
    disk: spec_fn(Seq<u8>) -> Seq<(Seq<u8>, StatNode)>,
    index: Seq<IndexEntry<Seq<u8>>>,
    names: Seq<Seq<u8>>,
    node: StatNode,
    k: int,
)
    requires
        node.kind != FileKind::Directory,
        stands_along(disk, Seq::empty(), names, node),
        all_are_looked_at(names),
        forall|i: int| 0 <= i < names.len() ==> (#[trigger] names[i]).len() > 0,
        0 <= k < index.len(),
        index[k].path == path_along(Seq::empty(), names),
    ensures
        is_to_come(
            listed(disk),
            index,
            listed(disk)(Seq::empty()),
            (path_along(Seq::empty(), names), node),
        ),
{
    lemma_leads_along(disk, index, Seq::empty(), names, node);
}

/// What a scan notes before it is done, if it is done after at most `steps` steps: the tracked
/// files, and the untracked paths. `files` tells what it is given for each directory.
pub open spec fn noted(
    files: spec_fn(Seq<u8>) -> Seq<(Seq<u8>, StatNode)>,
    index: Seq<IndexEntry<Seq<u8>>>,
    state: ScanView,
    steps: nat,
) -> Option<(Seq<(Seq<u8>, StatNode)>, Seq<(Seq<u8>, FileKind)>)>
    decreases steps,
{
    if steps == 0 {
        None
    } else {
        let done = scanned_from(index, state);
        match done.step {
            ScanStep::Done => Some((done.known, done.untracked)),
            ScanStep::List(path) => {
                match noted(files, index, after_listing(files, done.state, path), (steps - 1) as nat) {
                    Some((known, untracked)) => Some(
                        (done.known + known, done.untracked + untracked),
                    ),
                    None => None,
                }
            },
        }
    }
}

/// The state of a scan that was given the entries of a directory.
pub open spec fn after_listing(
    files: spec_fn(Seq<u8>) -> Seq<(Seq<u8>, StatNode)>,
    state: ScanView,
    path: Seq<u8>,
) -> ScanView {
    if state.candidate is Some {
        ScanView { below: kinds_of(files(path)) + state.below, ..state }
    } else {
        ScanView { pending: files(path) + state.pending, ..state }
    }
}

proof fn lemma_either<T>(a: Seq<T>, b: Seq<T>, x: T)
    ensures
        (a + b).contains(x) <==> a.contains(x) || b.contains(x),
{
    let both = a + b;
    if both.contains(x) {
        let i = choose|i: int| 0 <= i < both.len() && both[i] == x;
        if i < a.len() {
            assert(a[i] == x);
        } else {
            assert(b[i - a.len()] == x);
        }
    }
    if a.contains(x) {
        let i = choose|i: int| 0 <= i < a.len() && a[i] == x;
        assert(both[i] == x);
    }
    if b.contains(x) {
        let i = choose|i: int| 0 <= i < b.len() && b[i] == x;
        assert(both[i + a.len()] == x);
    }
}

/// A scan that is done has noted the tracked files that were to come, and no others.
pub proof fn scanning_is_complete(
    files: spec_fn(Seq<u8>) -> Seq<(Seq<u8>, StatNode)>,
    index: Seq<IndexEntry<Seq<u8>>>,
    state: ScanView,
    steps: nat,
    file: (Seq<u8>, StatNode),
)
    ensures
        noted(files, index, state, steps) matches Some((known, _)) ==> (known.contains(file)
            <==> is_to_come(files, index, state.pending, file)),
    decreases steps,
{
    if steps > 0 {
        scanning_misses_nothing(files, index, state, file);
        let done = scanned_from(index, state);
        match done.step {
            ScanStep::Done => {},
            ScanStep::List(path) => {
                let next = after_listing(files, done.state, path);
                scanning_is_complete(files, index, next, (steps - 1) as nat, file);
                if let Some((known, _)) = noted(files, index, next, (steps - 1) as nat) {
                    lemma_either(done.known, known, file);
                }
            },
        }
    }
}

/// From this node, through at most `depth` directories that are all tracked, a path is reached that
/// is not tracked and at which, or below which, there is something that can be.
pub open spec fn leads_to_untracked(
    files: spec_fn(Seq<u8>) -> Seq<(Seq<u8>, StatNode)>,
    index: Seq<IndexEntry<Seq<u8>>>,
    node: (Seq<u8>, StatNode),
    found: (Seq<u8>, FileKind),
    depth: nat,
) -> bool
    decreases depth,
{
    if spec_is_tracked(index, node.0) {
        node.1.kind == FileKind::Directory && depth > 0 && exists|i: int|
            0 <= i < files(node.0).len() && leads_to_untracked(
                files,
                index,
                #[trigger] files(node.0)[i],
                found,
                (depth - 1) as nat,
            )
    } else {
        found == (node.0, node.1.kind) && is_trackable(files, found)
    }
}

pub open spec fn is_untracked_from(
    files: spec_fn(Seq<u8>) -> Seq<(Seq<u8>, StatNode)>,
    index: Seq<IndexEntry<Seq<u8>>>,
    node: (Seq<u8>, StatNode),
    found: (Seq<u8>, FileKind),
) -> bool {
    exists|depth: nat| leads_to_untracked(files, index, node, found, depth)
}

pub open spec fn is_untracked_among(
    files: spec_fn(Seq<u8>) -> Seq<(Seq<u8>, StatNode)>,
    index: Seq<IndexEntry<Seq<u8>>>,
    pending: Seq<(Seq<u8>, StatNode)>,
    found: (Seq<u8>, FileKind),
) -> bool {
    exists|i: int|
        0 <= i < pending.len() && is_untracked_from(files, index, #[trigger] pending[i], found)
}

/// The untracked path is still to be noted.
pub open spec fn is_yet_to_note(
    files: spec_fn(Seq<u8>) -> Seq<(Seq<u8>, StatNode)>,
    index: Seq<IndexEntry<Seq<u8>>>,
    state: ScanView,
    found: (Seq<u8>, FileKind),
) -> bool {
    ||| state.candidate == Some(found) && any_trackable(files, state.below)
    ||| is_untracked_among(files, index, state.pending, found)
}

proof fn lemma_untracked_in_directory(
    files: spec_fn(Seq<u8>) -> Seq<(Seq<u8>, StatNode)>,
    index: Seq<IndexEntry<Seq<u8>>>,
    node: (Seq<u8>, StatNode),
    found: (Seq<u8>, FileKind),
)
    requires
        spec_is_tracked(index, node.0),
        node.1.kind == FileKind::Directory,
    ensures
        is_untracked_from(files, index, node, found) == is_untracked_among(
            files,
            index,
            files(node.0),
            found,
        ),
{
    let inside = files(node.0);
    if is_untracked_from(files, index, node, found) {
        let depth = choose|depth: nat| leads_to_untracked(files, index, node, found, depth);
        let i = choose|i: int|
            0 <= i < inside.len() && leads_to_untracked(
                files,
                index,
                #[trigger] inside[i],
                found,
                (depth - 1) as nat,
            );
        assert(is_untracked_from(files, index, inside[i], found));
    }
    if is_untracked_among(files, index, inside, found) {
        let i = choose|i: int|
            0 <= i < inside.len() && is_untracked_from(files, index, #[trigger] inside[i], found);
        let depth = choose|depth: nat| leads_to_untracked(files, index, inside[i], found, depth);
        assert(leads_to_untracked(files, index, inside[i], found, (depth + 1 - 1) as nat));
        assert(leads_to_untracked(files, index, node, found, depth + 1));
    }
}

proof fn lemma_untracked_among(
    files: spec_fn(Seq<u8>) -> Seq<(Seq<u8>, StatNode)>,
    index: Seq<IndexEntry<Seq<u8>>>,
    a: Seq<(Seq<u8>, StatNode)>,
    b: Seq<(Seq<u8>, StatNode)>,
    found: (Seq<u8>, FileKind),
)
    ensures
        is_untracked_among(files, index, a + b, found) == (is_untracked_among(files, index, a, found)
            || is_untracked_among(files, index, b, found)),
{
    let both = a + b;
    if is_untracked_among(files, index, both, found) {
        let i = choose|i: int|
            0 <= i < both.len() && is_untracked_from(files, index, #[trigger] both[i], found);
        if i < a.len() {
            assert(both[i] == a[i]);
        } else {
            assert(both[i] == b[i - a.len()]);
        }
    }
    if is_untracked_among(files, index, a, found) {
        let i = choose|i: int|
            0 <= i < a.len() && is_untracked_from(files, index, #[trigger] a[i], found);
        assert(both[i] == a[i]);
    }
    if is_untracked_among(files, index, b, found) {
        let i = choose|i: int|
            0 <= i < b.len() && is_untracked_from(files, index, #[trigger] b[i], found);
        assert(both[i + a.len()] == b[i]);
    }
}

/// Going on with a scan loses no untracked path and makes none up: what was to be noted is noted,
/// or is still to be noted once the directory that is asked for is listed.
pub proof fn scanning_notes_what_is_untracked(
    files: spec_fn(Seq<u8>) -> Seq<(Seq<u8>, StatNode)>,
    index: Seq<IndexEntry<Seq<u8>>>,
    state: ScanView,
    found: (Seq<u8>, FileKind),
)
    ensures
        ({
            let done = scanned_from(index, state);
            is_yet_to_note(files, index, state, found) == (done.untracked.contains(found) || (
            match done.step {
                ScanStep::Done => false,
                ScanStep::List(path) => is_yet_to_note(
                    files,
                    index,
                    after_listing(files, done.state, path),
                    found,
                ),
            }))
        }),
    decreases
            2 * state.pending.len() + (if state.candidate is Some {
                1int
            } else {
                0int
            }),
{
    match state.candidate {
        Some(candidate) => {
            search_is_truthful(files, state.below);
            match search_from(state.below) {
                (SearchStep::List(path), rest) => {},
                (SearchStep::Found, rest) => {
                    let next = ScanView { candidate: None, below: rest, ..state };
                    scanning_notes_what_is_untracked(files, index, next, found);
                    let after = scanned_from(index, next);
                    lemma_either(seq![candidate], after.untracked, found);
                    assert(seq![candidate].contains(found) <==> candidate == found) by {
                        assert(seq![candidate][0] == candidate);
                    }
                },
                (SearchStep::NotFound, rest) => {
                    scanning_notes_what_is_untracked(
                        files,
                        index,
                        ScanView { candidate: None, below: rest, ..state },
                        found,
                    );
                },
            }
        },
        None => if state.pending.len() > 0 {
            let node = state.pending[0];
            let first = seq![node];
            let pending = state.pending.drop_first();
            let rest = ScanView { pending, ..state };
            assert(state.pending =~= first + pending);
            lemma_untracked_among(files, index, first, pending, found);
            assert(is_untracked_among(files, index, first, found) == is_untracked_from(
                files,
                index,
                node,
                found,
            )) by {
                assert(first[0] == node);
            }
            if !spec_is_tracked(index, node.0) {
                let kind = (node.0, node.1.kind);
                scanning_notes_what_is_untracked(
                    files,
                    index,
                    ScanView { candidate: Some(kind), below: seq![kind], ..rest },
                    found,
                );
                assert(leads_to_untracked(files, index, node, found, 0) == (found == kind
                    && is_trackable(files, found)));
                assert(any_trackable(files, seq![kind]) == is_trackable(files, kind)) by {
                    assert(seq![kind][0] == kind);
                }
            } else if node.1.kind == FileKind::Directory {
                lemma_untracked_in_directory(files, index, node, found);
                lemma_untracked_among(files, index, files(node.0), pending, found);
            } else {
                scanning_notes_what_is_untracked(files, index, rest, found);
                assert forall|depth: nat| !leads_to_untracked(files, index, node, found, depth) by {}
            }
        },
    }
}

/// A scan that is done has noted as untracked exactly the paths that are reached through tracked
/// directories, are not tracked themselves, and are or hold something that can be.
pub proof fn untracked_paths_are_exact(
    files: spec_fn(Seq<u8>) -> Seq<(Seq<u8>, StatNode)>,
    index: Seq<IndexEntry<Seq<u8>>>,
    state: ScanView,
    steps: nat,
    found: (Seq<u8>, FileKind),
)
    ensures
        noted(files, index, state, steps) matches Some((_, untracked)) ==> (untracked.contains(
            found,
        ) <==> is_yet_to_note(files, index, state, found)),
    decreases steps,
{
    if steps > 0 {
        scanning_notes_what_is_untracked(files, index, state, found);
        let done = scanned_from(index, state);
        match done.step {
            ScanStep::Done => {},
            ScanStep::List(path) => {
                let next = after_listing(files, done.state, path);
                untracked_paths_are_exact(files, index, next, (steps - 1) as nat, found);
                if let Some((_, untracked)) = noted(files, index, next, (steps - 1) as nat) {
                    lemma_either(done.untracked, untracked, found);
                }
            },
        }
    }
}

} // verus!
