//! `add`: what is staged for the paths that a user names.

use crate::bytes::{copy_of, decimal, text};
use crate::digest::{hash, sha1_of};
use crate::index::{
    added, entries_view, entry_of, has_path, lower_bound_of, spec_is_tracked, Index, IndexEntry,
};
use crate::messages::{around, pathspec_message, text_around};
use crate::object::mode::{Mode, UnsupportedFileType};
use crate::object::oid::Oid;
use crate::object::round_trip::frames_start_with_the_type;
use crate::object::{framed, ObjectType};
use crate::os::{FileKind, StatNode};
use crate::path::{is_absolute_bytes, spec_is_absolute, stripped, OsPath};
use crate::pathspec::{pathspec_of, Pathspec, PathspecError};
use crate::repo_path::RepoPath;
use crate::report::laws::has_mode;
use crate::workspace::{nodes_view, Workspace};
use vstd::prelude::*;
use vstd::string::*;

verus! {

#[derive(Debug)]
pub enum AddError<B = Vec<u8>> {
    /// A tracked file was replaced by something that cannot be tracked.
    UnsupportedFileType { path: B },
    /// What the user wrote names nothing.
    FoundNoMatch { path: B },
    /// The command was run outside the repository.
    OutsideRepository { path: B },
    Pathspec(PathspecError<B>),
}

impl View for AddError {
    type V = AddError<Seq<u8>>;

    open spec fn view(&self) -> AddError<Seq<u8>> {
        match *self {
            AddError::UnsupportedFileType { path } => AddError::UnsupportedFileType { path: path@ },
            AddError::FoundNoMatch { path } => AddError::FoundNoMatch { path: path@ },
            AddError::OutsideRepository { path } => AddError::OutsideRepository { path: path@ },
            AddError::Pathspec(err) => AddError::Pathspec(err@),
        }
    }
}

impl AddError {
    /// The message shown to the user. For a directory outside the repository there is none.
    pub fn message(&self) -> (r: Option<String>)
        ensures
            match self@ {
                AddError::UnsupportedFileType { path } => r matches Some(s) && s@ == around(
                    "unsupported file type at '"@,
                    path,
                    "'"@,
                ),
                AddError::FoundNoMatch { path } => r matches Some(s) && s@ == around(
                    "path '"@,
                    path,
                    "' did not match any files"@,
                ),
                AddError::Pathspec(err) => r matches Some(s) && s@ == pathspec_message(err),
                AddError::OutsideRepository { .. } => r is None,
            },
    {
        match self {
            AddError::UnsupportedFileType { path } => Some(
                text_around("unsupported file type at '", path.as_slice(), "'"),
            ),
            AddError::FoundNoMatch { path } => Some(
                text_around("path '", path.as_slice(), "' did not match any files"),
            ),
            AddError::Pathspec(err) => Some(err.message()),
            AddError::OutsideRepository { .. } => None,
        }
    }
}

/// What a collector asks for.
#[derive(Debug)]
pub enum CollectStep<P = RepoPath> {
    /// Read this file, store it as a blob and hand over its contents.
    ReadFile(P),
    /// Read the target of this link, store it as a blob and hand it over.
    ReadLink(P),
    /// List this directory and hand over its entries.
    List(P),
    Done,
}

impl View for CollectStep {
    type V = CollectStep<Seq<u8>>;

    open spec fn view(&self) -> CollectStep<Seq<u8>> {
        match *self {
            CollectStep::ReadFile(path) => CollectStep::ReadFile(path@),
            CollectStep::ReadLink(path) => CollectStep::ReadLink(path@),
            CollectStep::List(path) => CollectStep::List(path@),
            CollectStep::Done => CollectStep::Done,
        }
    }
}

/// Goes through a path and all below it, and makes an entry of each file.
#[derive(Debug)]
pub struct EntryCollector {
    /// What to look at next, from the last to the first.
    pending: Vec<(RepoPath, StatNode)>,
    /// The file whose contents were asked for.
    reading: Option<(RepoPath, StatNode)>,
    entries: Vec<IndexEntry>,
}

/// The state of a collector; what is pending comes in order.
pub struct CollectorView {
    pub pending: Seq<(Seq<u8>, StatNode)>,
    pub reading: Option<(Seq<u8>, StatNode)>,
    pub entries: Seq<IndexEntry<Seq<u8>>>,
}

impl View for EntryCollector {
    type V = CollectorView;

    closed spec fn view(&self) -> CollectorView {
        CollectorView {
            pending: Seq::new(
                self.pending@.len(),
                |i: int|
                    (
                        self.pending@[self.pending@.len() - 1 - i].0@,
                        self.pending@[self.pending@.len() - 1 - i].1,
                    ),
            ),
            reading: match self.reading {
                Some((path, node)) => Some((path@, node)),
                None => None,
            },
            entries: entries_view(self.entries@),
        }
    }
}

/// The next thing to ask for, what is pending then, and the file that is being read. Of what
/// cannot be tracked only a tracked path is an error; the rest is passed over.
pub open spec fn collected_from(
    index: Seq<IndexEntry<Seq<u8>>>,
    pending: Seq<(Seq<u8>, StatNode)>,
) -> (
    Result<CollectStep<Seq<u8>>, AddError<Seq<u8>>>,
    Seq<(Seq<u8>, StatNode)>,
    Option<(Seq<u8>, StatNode)>,
)
    decreases pending.len(),
{
    if pending.len() == 0 {
        (Ok(CollectStep::Done), pending, None)
    } else {
        let (path, node) = pending[0];
        let rest = pending.drop_first();
        match node.kind {
            FileKind::Regular(_) => (Ok(CollectStep::ReadFile(path)), rest, Some(pending[0])),
            FileKind::Symlink => (Ok(CollectStep::ReadLink(path)), rest, Some(pending[0])),
            FileKind::Directory => (Ok(CollectStep::List(path)), rest, None),
            FileKind::Other => if has_path(index, path) {
                (Err(AddError::UnsupportedFileType { path }), rest, None)
            } else {
                collected_from(index, rest)
            },
        }
    }
}

/// The entry of a file with these contents.
pub open spec fn is_entry_of(
    e: IndexEntry<Seq<u8>>,
    path: Seq<u8>,
    node: StatNode,
    content: Seq<u8>,
) -> bool {
    &&& e.oid@ == sha1_of(framed(ObjectType::Blob, content))
    &&& Mode::of_kind(node.kind) == Ok::<Mode, UnsupportedFileType>(e.mode)
    &&& e == entry_of(path, e.oid, e.mode, node.stat)
}

impl EntryCollector {
    /// Only a file or a link is ever read.
    pub closed spec fn wf(&self) -> bool {
        self.reading matches Some((_, node)) ==> node.kind is Regular || node.kind is Symlink
    }

    pub fn new(path: &RepoPath, node: StatNode) -> (r: Self)
        ensures
            r.wf(),
            r@.pending == seq![(path@, node)],
            r@.reading is None,
            r@.entries == Seq::<IndexEntry<Seq<u8>>>::empty(),
    {
        let mut pending: Vec<(RepoPath, StatNode)> = Vec::new();
        pending.push((path.copied(), node));
        let r = EntryCollector { pending, reading: None, entries: Vec::new() };
        assert(r@.pending =~= seq![(path@, node)]);
        assert(r@.entries =~= Seq::<IndexEntry<Seq<u8>>>::empty());
        r
    }

    /// Goes on until something has to be read, or nothing is left.
    pub fn collect(&mut self, index: &Index) -> (r: Result<CollectStep, AddError>)
        requires
            index.wf(),
        ensures
            final(self).wf(),
            final(self)@.entries == old(self)@.entries,
            ({
                let (step, pending, reading) = collected_from(index@, old(self)@.pending);
                &&& final(self)@.pending == pending
                &&& final(self)@.reading == reading
                &&& match r {
                    Ok(s) => step == Ok::<CollectStep<Seq<u8>>, AddError<Seq<u8>>>(s@),
                    Err(e) => step == Err::<CollectStep<Seq<u8>>, AddError<Seq<u8>>>(e@),
                }
            }),
    {
        let ghost start = self@.pending;
        self.reading = None;
        assert(self@.pending =~= start);
        loop
            invariant
                index.wf(),
                start == old(self)@.pending,
                self.reading is None,
                self.entries == old(self).entries,
                collected_from(index@, self@.pending) == collected_from(index@, start),
            ensures
                self.pending@.len() == 0,
                self.reading is None,
                self.entries == old(self).entries,
                collected_from(index@, self@.pending) == collected_from(index@, start),
            decreases self.pending@.len(),
        {
            let ghost before = self@.pending;
            match self.pending.pop() {
                None => {
                    break;
                },
                Some((path, node)) => {
                    assert(before[0] == (path@, node));
                    assert(self@.pending =~= before.drop_first());
                    match node.kind {
                        FileKind::Regular(_) => {
                            let step = CollectStep::ReadFile(path.copied());
                            let ghost rest = self@.pending;
                            self.reading = Some((path, node));
                            assert(self@.pending =~= rest);
                            return Ok(step);
                        },
                        FileKind::Symlink => {
                            let step = CollectStep::ReadLink(path.copied());
                            let ghost rest = self@.pending;
                            self.reading = Some((path, node));
                            assert(self@.pending =~= rest);
                            return Ok(step);
                        },
                        FileKind::Directory => {
                            return Ok(CollectStep::List(path));
                        },
                        FileKind::Other => {
                            if index.contains(&path) {
                                return Err(
                                    AddError::UnsupportedFileType {
                                        path: copy_of(path.as_bytes()),
                                    },
                                );
                            }
                        },
                    }
                },
            }
        }
        Ok(CollectStep::Done)
    }

    /// Takes the entries of the directory that was asked for: they come before all else.
    pub fn collect_entries(&mut self, entries: &Vec<(RepoPath, StatNode)>)
        requires
            old(self).wf(),
        ensures
            final(self).wf(),
            final(self)@.pending == nodes_view(entries@) + old(self)@.pending,
            final(self)@.reading == old(self)@.reading,
            final(self)@.entries == old(self)@.entries,
    {
        let ghost before = self@.pending;
        let ghost nodes = nodes_view(entries@);
        let mut i: usize = entries.len();
        assert(self@.pending =~= nodes.skip(i as int) + before);
        while i > 0
            invariant
                i <= entries@.len(),
                nodes == nodes_view(entries@),
                self.reading == old(self).reading,
                self.entries == old(self).entries,
                self@.pending == nodes.skip(i as int) + before,
            decreases i,
        {
            i = i - 1;
            let ghost so_far = self@.pending;
            self.pending.push((entries[i].0.copied(), entries[i].1));
            assert(self@.pending =~= seq![nodes[i as int]] + so_far);
            assert(nodes.skip(i as int) =~= seq![nodes[i as int]] + nodes.skip(i + 1));
            assert(self@.pending =~= nodes.skip(i as int) + before);
        }
        assert(nodes.skip(0) =~= nodes);
    }

    /// Takes the contents of the file, or the target of the link, that was asked for. Gives the id
    /// of its blob.
    pub fn take_content(&mut self, content: &[u8]) -> (oid: Oid)
        requires
            old(self).wf(),
            old(self)@.reading is Some,
        ensures
            final(self).wf(),
            oid@ == sha1_of(framed(ObjectType::Blob, content@)),
            final(self)@.pending == old(self)@.pending,
            final(self)@.reading is None,
            final(self)@.entries.len() == old(self)@.entries.len() + 1,
            final(self)@.entries.drop_last() == old(self)@.entries,
            old(self)@.reading matches Some((path, node)) ==> is_entry_of(
                final(self)@.entries.last(),
                path,
                node,
                content@,
            ),
            old(self)@.reading matches Some((path, node)) ==> ({
                let e = final(self)@.entries.last();
                &&& e.path == path
                &&& e.oid@ == sha1_of(
                    text("blob ") + decimal(content@.len()) + seq![0u8] + content@,
                )
                &&& has_mode(node.kind, e.mode)
                &&& e.stat == node.stat
            }),
    {
        let oid = hash(ObjectType::Blob, content);
        proof {
            frames_start_with_the_type(content@);
        }
        let mut reading: Option<(RepoPath, StatNode)> = None;
        core::mem::swap(&mut reading, &mut self.reading);
        if let Some((path, node)) = reading {
            let mode = match Mode::try_from_kind(node.kind) {
                Ok(mode) => mode,
                Err(_) => Mode::Regular,
            };
            self.entries.push(IndexEntry::new(path, oid, mode, node.stat));
        }
        assert(self@.pending =~= old(self)@.pending);
        assert(self@.entries.drop_last() =~= old(self)@.entries);
        oid
    }

    /// The entries that were collected.
    pub fn finish(self) -> (r: Vec<IndexEntry>)
        ensures
            entries_view(r@) == self@.entries,
    {
        self.entries
    }
}

/// The `add` command.
#[derive(Debug)]
pub struct Add;

/// What a user's path stands for. A relative path is taken from the directory that the command was
/// run in.
pub open spec fn resolved_path(path: Seq<u8>, root: Seq<u8>, cwd: Seq<u8>) -> Result<
    Seq<u8>,
    AddError<Seq<u8>>,
> {
    let prefix = if spec_is_absolute(path) {
        Some(Seq::empty())
    } else {
        stripped(cwd, root)
    };
    match prefix {
        None => Err(AddError::OutsideRepository { path: cwd }),
        Some(prefix) => match pathspec_of(path, prefix, root) {
            Ok(pattern) => Ok(pattern),
            Err(err) => Err(AddError::Pathspec(err)),
        },
    }
}

/// The entries after what was found at a path is staged. A path that is gone but tracked is
/// dropped: its deletion is staged.
pub open spec fn staged(
    entries: Seq<IndexEntry<Seq<u8>>>,
    pattern: Seq<u8>,
    found: Option<Seq<IndexEntry<Seq<u8>>>>,
) -> (Seq<IndexEntry<Seq<u8>>>, bool) {
    match found {
        Some(new) => added(entries, new),
        None => if has_path(entries, pattern) {
            (entries.remove(lower_bound_of(entries, pattern)), true)
        } else {
            (entries, false)
        },
    }
}

impl Add {
    /// The path inside the repository that a user's path stands for.
    pub fn resolve(path: &[u8], workspace: &Workspace, cwd: &OsPath) -> (r: Result<
        Pathspec,
        AddError,
    >)
        ensures
            match resolved_path(path@, workspace.root@, cwd@) {
                Ok(pattern) => r matches Ok(spec) && spec.pattern@ == pattern && spec.original@
                    == path@,
                Err(error) => r matches Err(e) && e@ == error,
            },
    {
        let prefix = if is_absolute_bytes(path) {
            Vec::new()
        } else {
            match workspace.prefix(cwd) {
                Ok(prefix) => prefix,
                Err(err) => {
                    return Err(
                        AddError::OutsideRepository {
                            path: copy_of(err.path.as_bytes()),
                        },
                    );
                },
            }
        };
        assert(spec_is_absolute(path@) ==> prefix@ =~= Seq::empty());
        match Pathspec::new(path, prefix.as_slice(), workspace.root.as_bytes()) {
            Ok(spec) => Ok(spec),
            Err(err) => Err(AddError::Pathspec(err)),
        }
    }

    /// Stages what was found at a path: its entries, or `None` if nothing is there.
    pub fn execute(index: &mut Index, spec: &Pathspec, found: Option<Vec<IndexEntry>>) -> (r: Result<
        (),
        AddError,
    >)
        requires
            old(index).wf(),
        ensures
            final(index).wf(),
            final(index).path == old(index).path,
            ({
                let some = match found {
                    Some(new) => Some(entries_view(new@)),
                    None => None,
                };
                if some is None && !spec_is_tracked(old(index)@, spec.pattern@) {
                    &&& r matches Err(e) && e@ == (AddError::FoundNoMatch { path: spec.original@ })
                    &&& final(index)@ == old(index)@
                    &&& final(index).modified == old(index).modified
                } else {
                    let (entries, changed) = staged(old(index)@, spec.pattern@, some);
                    &&& r is Ok
                    &&& final(index)@ == entries
                    &&& final(index).modified == (old(index).modified || changed)
                }
            }),
    {
        match found {
            Some(new) => {
                let _ = index.add_entries(new);
                Ok(())
            },
            None => if index.is_tracked(&spec.pattern) {
                let _ = index.remove(&spec.pattern);
                Ok(())
            } else {
                Err(
                    AddError::FoundNoMatch {
                        path: copy_of(spec.original.as_slice()),
                    },
                )
            },
        }
    }
}

/// `file` is this node, or a file or link at most `depth` directories below it. `files` tells what
/// a directory holds.
pub open spec fn lies_below(
    files: spec_fn(Seq<u8>) -> Seq<(Seq<u8>, StatNode)>,
    node: (Seq<u8>, StatNode),
    file: (Seq<u8>, StatNode),
    depth: nat,
) -> bool
    decreases depth,
{
    match node.1.kind {
        FileKind::Regular(_) => node == file,
        FileKind::Symlink => node == file,
        FileKind::Other => false,
        FileKind::Directory => depth > 0 && exists|i: int|
            0 <= i < files(node.0).len() && lies_below(
                files,
                #[trigger] files(node.0)[i],
                file,
                (depth - 1) as nat,
            ),
    }
}

pub open spec fn is_below(
    files: spec_fn(Seq<u8>) -> Seq<(Seq<u8>, StatNode)>,
    node: (Seq<u8>, StatNode),
    file: (Seq<u8>, StatNode),
) -> bool {
    exists|depth: nat| lies_below(files, node, file, depth)
}

/// `file` is still to come.
pub open spec fn is_to_come(
    files: spec_fn(Seq<u8>) -> Seq<(Seq<u8>, StatNode)>,
    pending: Seq<(Seq<u8>, StatNode)>,
    file: (Seq<u8>, StatNode),
) -> bool {
    exists|i: int| 0 <= i < pending.len() && is_below(files, #[trigger] pending[i], file)
}

proof fn lemma_below_directory(
    files: spec_fn(Seq<u8>) -> Seq<(Seq<u8>, StatNode)>,
    node: (Seq<u8>, StatNode),
    file: (Seq<u8>, StatNode),
)
    requires
        node.1.kind == FileKind::Directory,
    ensures
        is_below(files, node, file) == is_to_come(files, files(node.0), file),
{
    let inside = files(node.0);
    if is_below(files, node, file) {
        let depth = choose|depth: nat| lies_below(files, node, file, depth);
        let i = choose|i: int|
            0 <= i < inside.len() && lies_below(
                files,
                #[trigger] inside[i],
                file,
                (depth - 1) as nat,
            );
        assert(is_below(files, inside[i], file));
        assert(is_to_come(files, inside, file));
    }
    if is_to_come(files, inside, file) {
        let i = choose|i: int| 0 <= i < inside.len() && is_below(files, #[trigger] inside[i], file);
        let depth = choose|depth: nat| lies_below(files, inside[i], file, depth);
        assert(lies_below(files, node, file, depth + 1));
        assert(is_below(files, node, file));
    }
}

proof fn lemma_to_come(
    files: spec_fn(Seq<u8>) -> Seq<(Seq<u8>, StatNode)>,
    a: Seq<(Seq<u8>, StatNode)>,
    b: Seq<(Seq<u8>, StatNode)>,
    file: (Seq<u8>, StatNode),
)
    ensures
        is_to_come(files, a + b, file) == (is_to_come(files, a, file) || is_to_come(files, b, file)),
{
    let both = a + b;
    if is_to_come(files, both, file) {
        let i = choose|i: int| 0 <= i < both.len() && is_below(files, #[trigger] both[i], file);
        if i < a.len() {
            assert(both[i] == a[i]);
        } else {
            assert(both[i] == b[i - a.len()]);
        }
    }
    if is_to_come(files, a, file) {
        let i = choose|i: int| 0 <= i < a.len() && is_below(files, #[trigger] a[i], file);
        assert(both[i] == a[i]);
    }
    if is_to_come(files, b, file) {
        let i = choose|i: int| 0 <= i < b.len() && is_below(files, #[trigger] b[i], file);
        assert(both[i + a.len()] == b[i]);
    }
}

/// No file is missed: whatever was to come is being read or is still to come, among the entries of
/// the directory that is asked for and the rest; and at the end nothing is.
pub proof fn collecting_misses_nothing(
    files: spec_fn(Seq<u8>) -> Seq<(Seq<u8>, StatNode)>,
    index: Seq<IndexEntry<Seq<u8>>>,
    pending: Seq<(Seq<u8>, StatNode)>,
    file: (Seq<u8>, StatNode),
)
    ensures
        match collected_from(index, pending) {
            (Ok(CollectStep::List(path)), rest, _) => is_to_come(files, pending, file)
                == is_to_come(files, files(path) + rest, file),
            (Ok(CollectStep::Done), _, _) => !is_to_come(files, pending, file),
            (Ok(_), rest, reading) => is_to_come(files, pending, file) == (reading == Some(file)
                || is_to_come(files, rest, file)),
            (Err(_), rest, _) => is_to_come(files, pending, file) == is_to_come(files, rest, file),
        },
    decreases pending.len(),
{
    if pending.len() > 0 {
        let rest = pending.drop_first();
        let node = pending[0];
        let first = seq![node];
        assert(pending =~= first + rest);
        lemma_to_come(files, first, rest, file);
        assert(is_to_come(files, first, file) == is_below(files, node, file)) by {
            assert(first[0] == node);
        }
        match node.1.kind {
            FileKind::Regular(_) | FileKind::Symlink => {
                assert(lies_below(files, node, file, 0) == (node == file));
            },
            FileKind::Other => {
                if !has_path(index, node.0) {
                    collecting_misses_nothing(files, index, rest, file);
                }
            },
            FileKind::Directory => {
                lemma_below_directory(files, node, file);
                lemma_to_come(files, files(node.0), rest, file);
            },
        }
    }
}

} // verus!
