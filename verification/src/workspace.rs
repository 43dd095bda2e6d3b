//! The working tree, seen from the root of the repository.

use crate::bytes::{is_text, text};
use crate::os::{FileKind, StatNode};
use crate::path::{joined, stripped, OsPath};
use crate::repo_path::{path_joined, RepoPath};
use vstd::prelude::*;
use vstd::string::*;

verus! {

/// Paths inside the repository are relative to its root; the file system wants absolute ones.
#[derive(Debug)]
pub struct Workspace {
    pub root: OsPath,
}

/// The directory that a command was run in is not in the repository.
#[derive(Debug)]
pub struct OutsideRepository<P = OsPath> {
    pub path: P,
}

/// The names that are never looked at: the metadata, those of Git, and build outputs.
pub open spec fn is_skipped(name: Seq<u8>) -> bool {
    name == text(".lit") || name == text(".git") || name == text("target")
}

pub open spec fn nodes_view(v: Seq<(RepoPath, StatNode)>) -> Seq<(Seq<u8>, StatNode)> {
    Seq::new(v.len(), |i: int| (v[i].0@, v[i].1))
}

pub open spec fn listing_view(v: Seq<(Vec<u8>, StatNode)>) -> Seq<(Seq<u8>, StatNode)> {
    Seq::new(v.len(), |i: int| (v[i].0@, v[i].1))
}

/// The entries of a directory that count, with their paths.
pub open spec fn entries_in(dir: Seq<u8>, listing: Seq<(Seq<u8>, StatNode)>) -> Seq<
    (Seq<u8>, StatNode),
>
    decreases listing.len(),
{
    if listing.len() == 0 {
        Seq::empty()
    } else {
        let before = entries_in(dir, listing.drop_last());
        let (name, node) = listing.last();
        if is_skipped(name) {
            before
        } else {
            before.push((path_joined(dir, name), node))
        }
    }
}

/// The path of a name in a directory; the root of the repository is the empty path.
pub open spec fn below(dir: Seq<u8>, name: Seq<u8>) -> Seq<u8> {
    if dir.len() == 0 {
        name
    } else {
        dir + seq![0x2fu8] + name
    }
}

pub proof fn lemma_entries_come_from(dir: Seq<u8>, listing: Seq<(Seq<u8>, StatNode)>)
    ensures
        forall|k: int|
            0 <= k < entries_in(dir, listing).len() ==> exists|i: int|
                0 <= i < listing.len() && !is_skipped((#[trigger] listing[i]).0)
                    && #[trigger] entries_in(dir, listing)[k] == (
                    below(dir, listing[i].0),
                    listing[i].1,
                ),
    decreases listing.len(),
{
    if listing.len() > 0 {
        let front = listing.drop_last();
        let before = entries_in(dir, front);
        let after = entries_in(dir, listing);
        lemma_entries_come_from(dir, front);
        assert forall|k: int| 0 <= k < after.len() implies exists|i: int|
            0 <= i < listing.len() && !is_skipped((#[trigger] listing[i]).0)
                && #[trigger] after[k] == (below(dir, listing[i].0), listing[i].1) by {
            if k < before.len() {
                assert(after[k] == before[k]);
                let i = choose|i: int|
                    0 <= i < front.len() && !is_skipped((#[trigger] front[i]).0) && before[k] == (
                        below(dir, front[i].0),
                        front[i].1,
                    );
                assert(listing[i] == front[i]);
            } else {
                assert(listing[listing.len() - 1] == listing.last());
            }
        }
    }
}

/// Of what a directory holds only three names are left out: `.lit`, `.git` and `target`. All else
/// is there, whatever it is, under its path and with its statistics, in the order of the listing
/// and as often as there; and nothing is there that is not in the directory.
pub proof fn listings_lose_three_names(
    dir: Seq<u8>,
    listing: Seq<(Seq<u8>, StatNode)>,
    entry: (Seq<u8>, StatNode),
)
    ensures
        entries_in(dir, listing) == listing.filter(
            |e: (Seq<u8>, StatNode)|
                e.0 != text(".lit") && e.0 != text(".git") && e.0 != text("target"),
        ).map_values(|e: (Seq<u8>, StatNode)| (below(dir, e.0), e.1)),
        entries_in(dir, listing).contains((below(dir, entry.0), entry.1)) <==> listing.contains(
            entry,
        ) && entry.0 != text(".lit") && entry.0 != text(".git") && entry.0 != text("target"),
{
    lemma_listing_is_filtered(dir, listing);
    lemma_entries_come_from(dir, listing);
    if !is_skipped(entry.0) {
        lemma_entry_is_kept(dir, listing, entry);
    }
    let path = below(dir, entry.0);
    let entries = entries_in(dir, listing);
    if entries.contains((path, entry.1)) {
        let k = choose|k: int| 0 <= k < entries.len() && entries[k] == (path, entry.1);
        let i = choose|i: int|
            0 <= i < listing.len() && !is_skipped((#[trigger] listing[i]).0) && entries[k] == (
                below(dir, listing[i].0),
                listing[i].1,
            );
        assert(listing[i].0 =~= entry.0) by {
            if dir.len() > 0 {
                let a = below(dir, listing[i].0);
                assert(a.skip(dir.len() as int + 1) =~= listing[i].0);
                assert(path.skip(dir.len() as int + 1) =~= entry.0);
            }
        }
        assert(listing[i] == entry);
    }
}

proof fn lemma_entry_is_kept(
    dir: Seq<u8>,
    listing: Seq<(Seq<u8>, StatNode)>,
    entry: (Seq<u8>, StatNode),
)
    requires
        !is_skipped(entry.0),
    ensures
        listing.contains(entry) ==> entries_in(dir, listing).contains(
            (below(dir, entry.0), entry.1),
        ),
    decreases listing.len(),
{
    if listing.contains(entry) {
        let i = choose|i: int| 0 <= i < listing.len() && listing[i] == entry;
        let front = listing.drop_last();
        let before = entries_in(dir, front);
        let after = entries_in(dir, listing);
        let kept = (below(dir, entry.0), entry.1);
        if i < front.len() {
            assert(front[i] == entry);
            lemma_entry_is_kept(dir, front, entry);
            let k = choose|k: int| 0 <= k < before.len() && before[k] == kept;
            assert(after[k] == kept);
        } else {
            assert(after.last() == kept);
        }
    }
}

proof fn lemma_listing_is_filtered(dir: Seq<u8>, listing: Seq<(Seq<u8>, StatNode)>)
    ensures
        entries_in(dir, listing) == listing.filter(
            |e: (Seq<u8>, StatNode)|
                e.0 != text(".lit") && e.0 != text(".git") && e.0 != text("target"),
        ).map_values(|e: (Seq<u8>, StatNode)| (below(dir, e.0), e.1)),
    decreases listing.len(),
{
    reveal(Seq::filter);
    let keep = |e: (Seq<u8>, StatNode)|
        e.0 != text(".lit") && e.0 != text(".git") && e.0 != text("target");
    let place = |e: (Seq<u8>, StatNode)| (below(dir, e.0), e.1);
    if listing.len() > 0 {
        let front = listing.drop_last();
        lemma_listing_is_filtered(dir, front);
        let e = listing.last();
        if keep(e) {
            assert(listing.filter(keep) == front.filter(keep).push(e));
            assert(entries_in(dir, listing) =~= listing.filter(keep).map_values(place));
        } else {
            assert(entries_in(dir, listing) =~= listing.filter(keep).map_values(place));
        }
    } else {
        assert(entries_in(dir, listing) =~= listing.filter(keep).map_values(place));
    }
}

/// Is this name never looked at?
pub fn skips(name: &[u8]) -> (r: bool)
    ensures
        r == is_skipped(name@),
{
    is_text(name, ".lit") || is_text(name, ".git") || is_text(name, "target")
}

impl Workspace {
    /// The way from the root to the directory that a command was run in; empty if that is the root.
    pub fn prefix(&self, cwd: &OsPath) -> (r: Result<Vec<u8>, OutsideRepository>)
        ensures
            match stripped(cwd@, self.root@) {
                Some(rest) => r matches Ok(v) && v@ == rest,
                None => r matches Err(e) && e.path@ == cwd@,
            },
    {
        match cwd.strip_prefix(self.root.as_bytes()) {
            Ok(rest) => Ok(rest),
            Err(_) => Err(OutsideRepository { path: cwd.copied() }),
        }
    }

    /// The absolute path of a path inside the repository.
    pub fn to_absolute(&self, path: &RepoPath) -> (r: OsPath)
        ensures
            r@ == joined(self.root@, path@),
    {
        self.root.join_unchecked(path.as_bytes())
    }

    /// The entries of a directory, by the names and the statistics that the file system lists. The
    /// list is flat: whether to go on in the directories among them is up to the caller.
    pub fn dir_entries(path: &RepoPath, listing: &Vec<(Vec<u8>, StatNode)>) -> (r: Vec<
        (RepoPath, StatNode),
    >)
        ensures
            nodes_view(r@) == entries_in(path@, listing_view(listing@)),
            forall|i: int|
                0 <= i < listing@.len() ==> nodes_view(r@).contains(
                    (below(path@, (#[trigger] listing@[i]).0@), listing@[i].1),
                ) || listing@[i].0@ == text(".lit") || listing@[i].0@ == text(".git")
                    || listing@[i].0@ == text("target"),
            forall|k: int|
                0 <= k < r@.len() ==> exists|i: int|
                    0 <= i < listing@.len() && (#[trigger] listing@[i]).0@ != text(".lit")
                        && listing@[i].0@ != text(".git") && listing@[i].0@ != text("target") && (
                    #[trigger] r@[k]).0@ == below(path@, listing@[i].0@) && r@[k].1
                        == listing@[i].1,
    {
        let mut entries: Vec<(RepoPath, StatNode)> = Vec::new();
        let ghost all = listing_view(listing@);
        let mut i: usize = 0;
        assert(nodes_view(entries@) =~= entries_in(path@, all.take(0)));
        while i < listing.len()
            invariant
                i <= listing@.len(),
                all == listing_view(listing@),
                nodes_view(entries@) == entries_in(path@, all.take(i as int)),
            decreases listing@.len() - i,
        {
            let name = listing[i].0.as_slice();
            let node = listing[i].1;
            proof {
                assert(all.take(i + 1).drop_last() =~= all.take(i as int));
                assert(all.take(i + 1).last() == (name@, node));
            }
            if !skips(name) {
                let child = path.join_unchecked(name);
                let ghost before = entries@;
                entries.push((child, node));
                assert(nodes_view(entries@) =~= nodes_view(before).push(
                    (path_joined(path@, name@), node),
                ));
            }
            i = i + 1;
        }
        assert(all.take(i as int) =~= all);
        proof {
            assert forall|i: int| 0 <= i < listing@.len() implies nodes_view(entries@).contains(
                (below(path@, (#[trigger] listing@[i]).0@), listing@[i].1),
            ) || listing@[i].0@ == text(".lit") || listing@[i].0@ == text(".git")
                || listing@[i].0@ == text("target") by {
                listings_lose_three_names(path@, all, all[i]);
                assert(all.contains(all[i]));
            }
            assert forall|k: int| 0 <= k < entries@.len() implies exists|i: int|
                0 <= i < listing@.len() && (#[trigger] listing@[i]).0@ != text(".lit")
                    && listing@[i].0@ != text(".git") && listing@[i].0@ != text("target") && (
                #[trigger] entries@[k]).0@ == below(path@, listing@[i].0@) && entries@[k].1
                    == listing@[i].1 by {
                lemma_entries_come_from(path@, all);
                let i = choose|i: int|
                    0 <= i < all.len() && !is_skipped((#[trigger] all[i]).0) && nodes_view(
                        entries@,
                    )[k] == (below(path@, all[i].0), all[i].1);
                assert(listing@[i].0@ == all[i].0);
            }
        }
        entries
    }

    /// A search for a file that can be tracked, at a path or below it. An empty directory holds
    /// none: there is nothing in it that could be added.
    pub fn contains_trackable_file(path: &RepoPath, kind: FileKind) -> (r: TrackableSearch)
        ensures
            r@ == seq![(path@, kind)],
    {
        let mut pending: Vec<(RepoPath, FileKind)> = Vec::new();
        pending.push((path.copied(), kind));
        let r = TrackableSearch { pending };
        assert(r@ =~= seq![(path@, kind)]);
        r
    }
}

/// What to look at next, from the last to the first.
#[derive(Debug)]
pub struct TrackableSearch {
    pending: Vec<(RepoPath, FileKind)>,
}

/// What a search asks for, or finds out.
#[derive(Debug)]
pub enum SearchStep<P = RepoPath> {
    /// List this directory, and hand over its entries.
    List(P),
    Found,
    NotFound,
}

impl View for SearchStep {
    type V = SearchStep<Seq<u8>>;

    open spec fn view(&self) -> SearchStep<Seq<u8>> {
        match *self {
            SearchStep::List(path) => SearchStep::List(path@),
            SearchStep::Found => SearchStep::Found,
            SearchStep::NotFound => SearchStep::NotFound,
        }
    }
}

impl View for TrackableSearch {
    type V = Seq<(Seq<u8>, FileKind)>;

    /// What to look at next, in order.
    closed spec fn view(&self) -> Seq<(Seq<u8>, FileKind)> {
        Seq::new(
            self.pending@.len(),
            |i: int|
                (
                    self.pending@[self.pending@.len() - 1 - i].0@,
                    self.pending@[self.pending@.len() - 1 - i].1,
                ),
        )
    }
}

/// Where the search gets to before it has to list a directory, and what it has left then.
pub open spec fn search_from(pending: Seq<(Seq<u8>, FileKind)>) -> (
    SearchStep<Seq<u8>>,
    Seq<(Seq<u8>, FileKind)>,
)
    decreases pending.len(),
{
    if pending.len() == 0 {
        (SearchStep::NotFound, pending)
    } else {
        let rest = pending.drop_first();
        match pending[0].1 {
            FileKind::Regular(_) => (SearchStep::Found, rest),
            FileKind::Symlink => (SearchStep::Found, rest),
            FileKind::Other => search_from(rest),
            FileKind::Directory => (SearchStep::List(pending[0].0), rest),
        }
    }
}

pub open spec fn kinds_of(entries: Seq<(Seq<u8>, StatNode)>) -> Seq<(Seq<u8>, FileKind)> {
    Seq::new(entries.len(), |i: int| (entries[i].0, entries[i].1.kind))
}

impl TrackableSearch {
    /// Goes on until a directory has to be listed or the outcome is known.
    pub fn next(&mut self) -> (step: SearchStep)
        ensures
            (step@, final(self)@) == search_from(old(self)@),
    {
        let ghost start = self@;
        loop
            invariant
                search_from(self@) == search_from(start),
                start == old(self)@,
            ensures
                self.pending@.len() == 0,
                search_from(self@) == search_from(start),
            decreases self.pending@.len(),
        {
            let ghost before = self@;
            match self.pending.pop() {
                None => {
                    break;
                },
                Some((path, kind)) => {
                    assert(before[0] == (path@, kind));
                    assert(self@ =~= before.drop_first());
                    match kind {
                        FileKind::Regular(_) | FileKind::Symlink => {
                            return SearchStep::Found;
                        },
                        FileKind::Directory => {
                            return SearchStep::List(path);
                        },
                        FileKind::Other => {},
                    }
                },
            }
        }
        SearchStep::NotFound
    }

    /// Takes the entries of the directory that was asked for: they come before all else.
    pub fn listed(&mut self, entries: &Vec<(RepoPath, StatNode)>)
        ensures
            final(self)@ == kinds_of(nodes_view(entries@)) + old(self)@,
    {
        let ghost before = self@;
        let ghost kinds = kinds_of(nodes_view(entries@));
        let mut i: usize = entries.len();
        assert(self@ =~= kinds.skip(i as int) + before);
        while i > 0
            invariant
                i <= entries@.len(),
                kinds == kinds_of(nodes_view(entries@)),
                self@ == kinds.skip(i as int) + before,
            decreases i,
        {
            i = i - 1;
            let ghost so_far = self@;
            self.pending.push((entries[i].0.copied(), entries[i].1.kind));
            assert(self@ =~= seq![kinds[i as int]] + so_far);
            assert(kinds.skip(i as int) =~= seq![kinds[i as int]] + kinds.skip(i + 1));
            assert(self@ =~= kinds.skip(i as int) + before);
        }
        assert(kinds.skip(0) =~= kinds);
    }
}

/// A file that can be tracked, at a path or at most `depth` directories below it. `files` tells
/// what a directory holds.
pub open spec fn holds_file(
    files: spec_fn(Seq<u8>) -> Seq<(Seq<u8>, StatNode)>,
    path: Seq<u8>,
    kind: FileKind,
    depth: nat,
) -> bool
    decreases depth,
{
    match kind {
        FileKind::Regular(_) => true,
        FileKind::Symlink => true,
        FileKind::Other => false,
        FileKind::Directory => depth > 0 && exists|i: int|
            0 <= i < files(path).len() && holds_file(
                files,
                (#[trigger] files(path)[i]).0,
                files(path)[i].1.kind,
                (depth - 1) as nat,
            ),
    }
}

pub open spec fn is_trackable(
    files: spec_fn(Seq<u8>) -> Seq<(Seq<u8>, StatNode)>,
    node: (Seq<u8>, FileKind),
) -> bool {
    exists|depth: nat| holds_file(files, node.0, node.1, depth)
}

pub open spec fn any_trackable(
    files: spec_fn(Seq<u8>) -> Seq<(Seq<u8>, StatNode)>,
    nodes: Seq<(Seq<u8>, FileKind)>,
) -> bool {
    exists|i: int| 0 <= i < nodes.len() && is_trackable(files, #[trigger] nodes[i])
}

proof fn lemma_directory_is_trackable(
    files: spec_fn(Seq<u8>) -> Seq<(Seq<u8>, StatNode)>,
    path: Seq<u8>,
)
    ensures
        is_trackable(files, (path, FileKind::Directory)) == any_trackable(
            files,
            kinds_of(files(path)),
        ),
{
    let kinds = kinds_of(files(path));
    let node = (path, FileKind::Directory);
    if is_trackable(files, node) {
        let depth = choose|depth: nat| holds_file(files, node.0, node.1, depth);
        let i = choose|i: int|
            0 <= i < files(path).len() && holds_file(
                files,
                (#[trigger] files(path)[i]).0,
                files(path)[i].1.kind,
                (depth - 1) as nat,
            );
        assert(holds_file(files, kinds[i].0, kinds[i].1, (depth - 1) as nat));
        assert(is_trackable(files, kinds[i]));
        assert(any_trackable(files, kinds));
    }
    if any_trackable(files, kinds) {
        let i = choose|i: int| 0 <= i < kinds.len() && is_trackable(files, #[trigger] kinds[i]);
        let depth = choose|depth: nat| holds_file(files, kinds[i].0, kinds[i].1, depth);
        assert(kinds[i].0 == files(path)[i].0);
        assert(holds_file(files, node.0, node.1, depth + 1));
        assert(is_trackable(files, node));
    }
}

proof fn lemma_any_trackable(
    files: spec_fn(Seq<u8>) -> Seq<(Seq<u8>, StatNode)>,
    a: Seq<(Seq<u8>, FileKind)>,
    b: Seq<(Seq<u8>, FileKind)>,
)
    ensures
        any_trackable(files, a + b) == (any_trackable(files, a) || any_trackable(files, b)),
{
    let both = a + b;
    if any_trackable(files, both) {
        let i = choose|i: int| 0 <= i < both.len() && is_trackable(files, #[trigger] both[i]);
        if i < a.len() {
            assert(both[i] == a[i]);
        } else {
            assert(both[i] == b[i - a.len()]);
        }
    }
    if any_trackable(files, a) {
        let i = choose|i: int| 0 <= i < a.len() && is_trackable(files, #[trigger] a[i]);
        assert(both[i] == a[i]);
    }
    if any_trackable(files, b) {
        let i = choose|i: int| 0 <= i < b.len() && is_trackable(files, #[trigger] b[i]);
        assert(both[i + a.len()] == b[i]);
    }
}

/// Whether something that can be tracked is left to be found does not change along the way: a
/// search that ends tells the truth about what it was started with, and one that asks for the
/// entries of a directory has them and the rest to go through.
pub proof fn search_is_truthful(
    files: spec_fn(Seq<u8>) -> Seq<(Seq<u8>, StatNode)>,
    pending: Seq<(Seq<u8>, FileKind)>,
)
    ensures
        match search_from(pending) {
            (SearchStep::Found, _) => any_trackable(files, pending),
            (SearchStep::NotFound, _) => !any_trackable(files, pending),
            (SearchStep::List(path), rest) => any_trackable(files, pending) == any_trackable(
                files,
                kinds_of(files(path)) + rest,
            ),
        },
    decreases pending.len(),
{
    if pending.len() > 0 {
        let rest = pending.drop_first();
        let first = seq![pending[0]];
        assert(pending =~= first + rest);
        lemma_any_trackable(files, first, rest);
        assert(any_trackable(files, first) == is_trackable(files, pending[0])) by {
            assert(first[0] == pending[0]);
        }
        match pending[0].1 {
            FileKind::Regular(_) | FileKind::Symlink => {
                assert(holds_file(files, pending[0].0, pending[0].1, 0));
            },
            FileKind::Other => {
                search_is_truthful(files, rest);
            },
            FileKind::Directory => {
                lemma_directory_is_trackable(files, pending[0].0);
                lemma_any_trackable(files, kinds_of(files(pending[0].0)), rest);
            },
        }
    }
}

} // verus!
