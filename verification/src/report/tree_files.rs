//! The files of a tree, with the trees below it. Each tree is asked for by its id.

use crate::object::mode::Mode;
use crate::object::oid::Oid;
use crate::object::{entries_view, Entry};
use crate::repo_path::{path_joined, RepoPath};
use crate::report::head::files_view;
use vstd::prelude::*;

verus! {

/// A walk through a tree: the trees that are still to be read, and the files that were found.
#[derive(Debug)]
pub struct TreeFiles {
    pending: Vec<(RepoPath, Oid)>,
    files: Vec<(RepoPath, (Oid, Mode))>,
}

pub struct TreeFilesView {
    pub pending: Seq<(Seq<u8>, Oid)>,
    pub files: Seq<(Seq<u8>, (Oid, Mode))>,
}

impl View for TreeFiles {
    type V = TreeFilesView;

    closed spec fn view(&self) -> TreeFilesView {
        TreeFilesView {
            pending: Seq::new(
                self.pending@.len(),
                |i: int| (self.pending@[i].0@, self.pending@[i].1),
            ),
            files: files_view(self.files@),
        }
    }
}

/// The files among the entries of the tree at a path.
pub open spec fn files_in(dir: Seq<u8>, entries: Seq<Entry<Seq<u8>>>) -> Seq<
    (Seq<u8>, (Oid, Mode)),
>
    decreases entries.len(),
{
    if entries.len() == 0 {
        Seq::empty()
    } else {
        let before = files_in(dir, entries.drop_last());
        let entry = entries.last();
        if entry.mode == Mode::Directory {
            before
        } else {
            before.push((path_joined(dir, entry.name), (entry.oid, entry.mode)))
        }
    }
}

/// The trees among the entries of the tree at a path.
pub open spec fn trees_in(dir: Seq<u8>, entries: Seq<Entry<Seq<u8>>>) -> Seq<(Seq<u8>, Oid)>
    decreases entries.len(),
{
    if entries.len() == 0 {
        Seq::empty()
    } else {
        let before = trees_in(dir, entries.drop_last());
        let entry = entries.last();
        if entry.mode == Mode::Directory {
            before.push((path_joined(dir, entry.name), entry.oid))
        } else {
            before
        }
    }
}

impl TreeFiles {
    /// The walk through the tree with this id.
    pub fn new(root: Oid) -> (r: Self)
        ensures
            r@.pending == seq![(Seq::<u8>::empty(), root)],
            r@.files.len() == 0,
    {
        let mut pending: Vec<(RepoPath, Oid)> = Vec::new();
        pending.push((RepoPath::new(), root));
        let r = TreeFiles { pending, files: Vec::new() };
        assert(r@.pending =~= seq![(Seq::<u8>::empty(), root)]);
        r
    }

    /// The next tree to read, and the path that its entries are below.
    pub fn next(&mut self) -> (r: Option<(RepoPath, Oid)>)
        ensures
            final(self)@.files == old(self)@.files,
            match r {
                Some((dir, oid)) => old(self)@.pending == final(self)@.pending.push((dir@, oid)),
                None => old(self)@.pending.len() == 0 && final(self)@.pending.len() == 0,
            },
    {
        let ghost before = self@.pending;
        match self.pending.pop() {
            Some((dir, oid)) => {
                assert(before =~= self@.pending.push((dir@, oid)));
                Some((dir, oid))
            },
            None => None,
        }
    }

    /// Takes the entries of a tree.
    pub fn loaded(&mut self, dir: &RepoPath, entries: &Vec<Entry>)
        ensures
            final(self)@.pending == old(self)@.pending + trees_in(dir@, entries_view(entries@)),
            final(self)@.files == old(self)@.files + files_in(dir@, entries_view(entries@)),
    {
        let ghost all = entries_view(entries@);
        let ghost start = self@;
        let mut i: usize = 0;
        assert(self@.pending =~= start.pending + trees_in(dir@, all.take(0)));
        assert(self@.files =~= start.files + files_in(dir@, all.take(0)));
        while i < entries.len()
            invariant
                i <= entries@.len(),
                all == entries_view(entries@),
                self@.pending == start.pending + trees_in(dir@, all.take(i as int)),
                self@.files == start.files + files_in(dir@, all.take(i as int)),
            decreases entries@.len() - i,
        {
            let ghost before = self@;
            proof {
                assert(all.take(i + 1).drop_last() =~= all.take(i as int));
                assert(all.take(i + 1).last() == entries@[i as int]@);
            }
            let entry = &entries[i];
            let path = dir.join_unchecked(entry.name.as_slice());
            if entry.mode.is_directory() {
                self.pending.push((path, entry.oid));
                assert(self@.pending =~= before.pending.push((path@, entry.oid)));
                assert(self@.pending =~= start.pending + trees_in(dir@, all.take(i + 1)));
            } else {
                self.files.push((path, (entry.oid, entry.mode)));
                assert(self@.files =~= before.files.push((path@, (entry.oid, entry.mode))));
                assert(self@.files =~= start.files + files_in(dir@, all.take(i + 1)));
            }
            i = i + 1;
        }
        assert(all.take(i as int) =~= all);
    }

    pub fn finish(self) -> (r: Vec<(RepoPath, (Oid, Mode))>)
        ensures
            files_view(r@) == self@.files,
    {
        self.files
    }
}

/// Is a file in a tree, at most `depth` trees down? `trees` tells what is stored under an id.
pub open spec fn tree_has(
    trees: spec_fn(Oid) -> Seq<Entry<Seq<u8>>>,
    dir: Seq<u8>,
    oid: Oid,
    file: (Seq<u8>, (Oid, Mode)),
    depth: nat,
) -> bool
    decreases depth,
{
    depth > 0 && {
        ||| files_in(dir, trees(oid)).contains(file)
        ||| exists|i: int|
            0 <= i < trees_in(dir, trees(oid)).len() && tree_has(
                trees,
                (#[trigger] trees_in(dir, trees(oid))[i]).0,
                trees_in(dir, trees(oid))[i].1,
                file,
                (depth - 1) as nat,
            )
    }
}

/// Was a file found, or is it still to be found?
pub open spec fn is_reached(
    trees: spec_fn(Oid) -> Seq<Entry<Seq<u8>>>,
    state: TreeFilesView,
    file: (Seq<u8>, (Oid, Mode)),
) -> bool {
    state.files.contains(file) || exists|i: int, depth: nat|
        0 <= i < state.pending.len() && #[trigger] tree_has(
            trees,
            state.pending[i].0,
            state.pending[i].1,
            file,
            depth,
        )
}

/// No file is lost on the way, and none is made up: what was found or is to be found stays the same
/// when a tree is read. When nothing is left to be read, the files that were found are all the files
/// of the tree that the walk was started with.
pub proof fn walking_misses_nothing(
    trees: spec_fn(Oid) -> Seq<Entry<Seq<u8>>>,
    before: TreeFilesView,
    dir: Seq<u8>,
    oid: Oid,
    after: TreeFilesView,
    file: (Seq<u8>, (Oid, Mode)),
)
    requires
        ({
            let rest = before.pending.drop_last();
            &&& before.pending.len() > 0
            &&& before.pending.last() == (dir, oid)
            &&& after.pending == rest + trees_in(dir, trees(oid))
            &&& after.files == before.files + files_in(dir, trees(oid))
        }),
    ensures
        is_reached(trees, before, file) == is_reached(trees, after, file),
        after.pending.len() == 0 ==> (is_reached(trees, before, file) == after.files.contains(
            file,
        )),
{
    let rest = before.pending.drop_last();
    let below = trees_in(dir, trees(oid));
    let here = files_in(dir, trees(oid));
    let last = before.pending.len() - 1;
    if is_reached(trees, before, file) {
        if before.files.contains(file) {
            let i = before.files.index_of(file);
            assert(after.files[i] == file);
        } else {
            let (i, depth) = choose|i: int, depth: nat|
                0 <= i < before.pending.len() && #[trigger] tree_has(
                    trees,
                    before.pending[i].0,
                    before.pending[i].1,
                    file,
                    depth,
                );
            if i < last {
                assert(after.pending[i] == before.pending[i]);
                assert(tree_has(trees, after.pending[i].0, after.pending[i].1, file, depth));
            } else if here.contains(file) {
                let k = here.index_of(file);
                assert(after.files[before.files.len() + k] == file);
            } else {
                let k = choose|k: int|
                    0 <= k < below.len() && tree_has(
                        trees,
                        (#[trigger] below[k]).0,
                        below[k].1,
                        file,
                        (depth - 1) as nat,
                    );
                let j = rest.len() + k;
                assert(after.pending[j] == below[k]);
                assert(
                    tree_has(
                        trees,
                        after.pending[j].0,
                        after.pending[j].1,
                        file,
                        (depth - 1) as nat,
                    )
                );
            }
        }
    }
    if is_reached(trees, after, file) {
        if after.files.contains(file) {
            let i = after.files.index_of(file);
            if i < before.files.len() {
                assert(before.files[i] == file);
            } else {
                assert(here[i - before.files.len()] == file);
                assert(tree_has(trees, before.pending[last].0, before.pending[last].1, file, 1));
            }
        } else {
            let (i, depth) = choose|i: int, depth: nat|
                0 <= i < after.pending.len() && #[trigger] tree_has(
                    trees,
                    after.pending[i].0,
                    after.pending[i].1,
                    file,
                    depth,
                );
            if i < rest.len() {
                assert(before.pending[i] == after.pending[i]);
                assert(tree_has(trees, before.pending[i].0, before.pending[i].1, file, depth));
            } else {
                let k = i - rest.len();
                assert(after.pending[i] == below[k]);
                assert(tree_has(trees, below[k].0, below[k].1, file, depth));
                assert(
                    tree_has(
                        trees,
                        before.pending[last].0,
                        before.pending[last].1,
                        file,
                        depth + 1,
                    )
                );
            }
        }
    }
}

/// Each entry of a tree that is no directory is a file, at its name below the path of the tree, with
/// its id and its mode; each that is one is a tree to be read. They come in order.
pub proof fn entries_are_files_or_trees(
    dir: Seq<u8>,
    entries: Seq<Entry<Seq<u8>>>,
    e: Entry<Seq<u8>>,
)
    ensures
        ({
            let path = if dir.len() == 0 {
                e.name
            } else {
                dir + seq![0x2fu8] + e.name
            };
            let all = entries.push(e);
            &&& files_in(dir, Seq::empty()).len() == 0 && trees_in(dir, Seq::empty()).len() == 0
            &&& e.mode == Mode::Directory ==> files_in(dir, all) == files_in(dir, entries)
                && trees_in(dir, all) == trees_in(dir, entries).push((path, e.oid))
            &&& e.mode != Mode::Directory ==> files_in(dir, all) == files_in(dir, entries).push(
                (path, (e.oid, e.mode)),
            ) && trees_in(dir, all) == trees_in(dir, entries)
        }),
{
    assert(entries.push(e).drop_last() =~= entries);
}

} // verus!
