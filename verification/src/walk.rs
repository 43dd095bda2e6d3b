//! What the walks through the working tree come upon, over the trees that file systems hold.

use crate::add::{
    collected_from, collecting_misses_nothing, is_below, is_to_come, lies_below, AddError,
    CollectStep,
};
use crate::bytes::text;
use crate::index::{has_path, IndexEntry};
use crate::os::{FileKind, StatNode};
use crate::workspace::{
    below, entries_in, is_skipped, lemma_entries_come_from, listings_lose_three_names,
};
use vstd::prelude::*;
use vstd::string::*;

verus! {

/// The path of what stands at the end of some names, one in the other, in a directory.
pub open spec fn path_along(dir: Seq<u8>, names: Seq<Seq<u8>>) -> Seq<u8>
    decreases names.len(),
{
    if names.len() == 0 {
        dir
    } else {
        path_along(below(dir, names[0]), names.drop_first())
    }
}

/// `node` stands at the end of these names in a directory, and all before it are directories.
/// `disk` tells the names and the statistics that a directory holds.
pub open spec fn stands_along(
    disk: spec_fn(Seq<u8>) -> Seq<(Seq<u8>, StatNode)>,
    dir: Seq<u8>,
    names: Seq<Seq<u8>>,
    node: StatNode,
) -> bool
    decreases names.len(),
{
    if names.len() == 0 {
        false
    } else if names.len() == 1 {
        disk(dir).contains((names[0], node))
    } else {
        (exists|inner: StatNode|
            inner.kind == FileKind::Directory && #[trigger] disk(dir).contains((names[0], inner)))
            && stands_along(disk, below(dir, names[0]), names.drop_first(), node)
    }
}

/// None of the names is one of the three that are left out.
pub open spec fn all_are_looked_at(names: Seq<Seq<u8>>) -> bool {
    forall|i: int|
        0 <= i < names.len() ==> (#[trigger] names[i]) != text(".lit") && names[i] != text(".git")
            && names[i] != text("target")
}

/// What a walk is given for each directory.
pub open spec fn listed(disk: spec_fn(Seq<u8>) -> Seq<(Seq<u8>, StatNode)>) -> spec_fn(
    Seq<u8>,
) -> Seq<(Seq<u8>, StatNode)> {
    |dir: Seq<u8>| entries_in(dir, disk(dir))
}

pub proof fn lemma_listed(
    disk: spec_fn(Seq<u8>) -> Seq<(Seq<u8>, StatNode)>,
    dir: Seq<u8>,
    name: Seq<u8>,
    node: StatNode,
)
    requires
        disk(dir).contains((name, node)),
        all_are_looked_at(seq![name]),
    ensures
        exists|i: int|
            0 <= i < listed(disk)(dir).len() && #[trigger] listed(disk)(dir)[i] == (
                below(dir, name),
                node,
            ),
{
    assert(seq![name][0] == name);
    listings_lose_three_names(dir, disk(dir), (name, node));
    let entries = listed(disk)(dir);
    assert(entries == entries_in(dir, disk(dir)));
    let i = choose|i: int| 0 <= i < entries.len() && entries[i] == (below(dir, name), node);
    assert(entries[i] == (below(dir, name), node));
}

/// `add` collects every regular file and every link below a directory, at any depth, unless one of
/// the names on the way to it is `.lit`, `.git` or `target`.
pub proof fn every_file_is_to_come(
    disk: spec_fn(Seq<u8>) -> Seq<(Seq<u8>, StatNode)>,
    dir: Seq<u8>,
    top: StatNode,
    names: Seq<Seq<u8>>,
    node: StatNode,
)
    requires
        top.kind == FileKind::Directory,
        node.kind is Regular || node.kind is Symlink,
        stands_along(disk, dir, names, node),
        all_are_looked_at(names),
    ensures
        is_to_come(listed(disk), seq![(dir, top)], (path_along(dir, names), node)),
{
    let files = listed(disk);
    let file = (path_along(dir, names), node);
    lemma_lies_along(disk, dir, top, names, node);
    assert(is_below(files, (dir, top), file));
    assert(seq![(dir, top)][0] == (dir, top));
}

proof fn lemma_lies_along(
    disk: spec_fn(Seq<u8>) -> Seq<(Seq<u8>, StatNode)>,
    dir: Seq<u8>,
    top: StatNode,
    names: Seq<Seq<u8>>,
    node: StatNode,
)
    requires
        top.kind == FileKind::Directory,
        node.kind is Regular || node.kind is Symlink,
        stands_along(disk, dir, names, node),
        all_are_looked_at(names),
    ensures
        lies_below(listed(disk), (dir, top), (path_along(dir, names), node), names.len()),
    decreases names.len(),
{
    let files = listed(disk);
    let file = (path_along(dir, names), node);
    let name = names[0];
    let rest = names.drop_first();
    assert(seq![name][0] == name);
    if names.len() == 1 {
        lemma_listed(disk, dir, name, node);
        let i = choose|i: int|
            0 <= i < files(dir).len() && #[trigger] files(dir)[i] == (below(dir, name), node);
        assert(path_along(below(dir, name), rest) == below(dir, name));
        assert(lies_below(files, files(dir)[i], file, 0));
        lemma_inside(files, (dir, top), file, i, 0);
    } else {
        let inner = choose|inner: StatNode|
            inner.kind == FileKind::Directory && #[trigger] disk(dir).contains((name, inner));
        lemma_listed(disk, dir, name, inner);
        assert(all_are_looked_at(rest)) by {
            assert forall|i: int| 0 <= i < rest.len() implies (#[trigger] rest[i]) != text(".lit")
                && rest[i] != text(".git") && rest[i] != text("target") by {
                assert(rest[i] == names[i + 1]);
            }
        }
        lemma_lies_along(disk, below(dir, name), inner, rest, node);
        let i = choose|i: int|
            0 <= i < files(dir).len() && #[trigger] files(dir)[i] == (below(dir, name), inner);
        assert(path_along(below(dir, name), rest) == file.0);
        lemma_inside(files, (dir, top), file, i, (names.len() - 1) as nat);
    }
}

proof fn lemma_inside(
    files: spec_fn(Seq<u8>) -> Seq<(Seq<u8>, StatNode)>,
    node: (Seq<u8>, StatNode),
    file: (Seq<u8>, StatNode),
    i: int,
    depth: nat,
)
    requires
        node.1.kind == FileKind::Directory,
        0 <= i < files(node.0).len(),
        lies_below(files, files(node.0)[i], file, depth),
    ensures
        lies_below(files, node, file, depth + 1),
{
    assert(lies_below(files, files(node.0)[i], file, (depth + 1 - 1) as nat));
}

proof fn lemma_comes_from_disk(
    disk: spec_fn(Seq<u8>) -> Seq<(Seq<u8>, StatNode)>,
    dir: Seq<u8>,
    top: StatNode,
    file: (Seq<u8>, StatNode),
    depth: nat,
) -> (names: Seq<Seq<u8>>)
    requires
        top.kind == FileKind::Directory,
        lies_below(listed(disk), (dir, top), file, depth),
    ensures
        stands_along(disk, dir, names, file.1),
        all_are_looked_at(names),
        path_along(dir, names) == file.0,
        file.1.kind is Regular || file.1.kind is Symlink,
    decreases depth,
{
    let files = listed(disk);
    let i = choose|i: int|
        0 <= i < files(dir).len() && lies_below(
            files,
            #[trigger] files(dir)[i],
            file,
            (depth - 1) as nat,
        );
    let (path, node) = files(dir)[i];
    let name = lemma_listed_name(disk, dir, i);
    assert(disk(dir).contains((name, node)));
    if node.kind == FileKind::Directory {
        let rest = lemma_comes_from_disk(disk, path, node, file, (depth - 1) as nat);
        let names = seq![name] + rest;
        assert(names.drop_first() =~= rest);
        assert forall|k: int| 0 <= k < names.len() implies (#[trigger] names[k]) != text(".lit")
            && names[k] != text(".git") && names[k] != text("target") by {
            if k > 0 {
                assert(names[k] == rest[k - 1]);
            }
        }
        names
    } else {
        let names = seq![name];
        assert(names.drop_first() =~= Seq::<Seq<u8>>::empty());
        assert(path_along(below(dir, name), names.drop_first()) == below(dir, name));
        names
    }
}

/// The name behind an entry that is listed.
pub proof fn lemma_listed_name(
    disk: spec_fn(Seq<u8>) -> Seq<(Seq<u8>, StatNode)>,
    dir: Seq<u8>,
    i: int,
) -> (name: Seq<u8>)
    requires
        0 <= i < listed(disk)(dir).len(),
    ensures
        disk(dir).contains((name, listed(disk)(dir)[i].1)),
        listed(disk)(dir)[i].0 == below(dir, name),
        name != text(".lit") && name != text(".git") && name != text("target"),
{
    let listing = disk(dir);
    let entries = entries_in(dir, listing);
    assert(listed(disk)(dir) == entries);
    let (path, node) = entries[i];
    let name = if dir.len() == 0 {
        path
    } else {
        path.skip(dir.len() as int + 1)
    };
    listings_lose_three_names(dir, listing, (name, node));
    lemma_entries_come_from(dir, listing);
    let j = choose|j: int|
        0 <= j < listing.len() && !is_skipped((#[trigger] listing[j]).0)
            && entries[i] == (below(dir, listing[j].0), listing[j].1);
    assert(name =~= listing[j].0) by {
        if dir.len() > 0 {
            assert(below(dir, listing[j].0).skip(dir.len() as int + 1) =~= listing[j].0);
        }
    }
    assert(listing[j] == (name, node));
    name
}

/// `add` collects nothing but regular files and links that are below the directory, with none of
/// the three names on the way.
pub proof fn nothing_else_is_to_come(
    disk: spec_fn(Seq<u8>) -> Seq<(Seq<u8>, StatNode)>,
    dir: Seq<u8>,
    top: StatNode,
    file: (Seq<u8>, StatNode),
)
    requires
        top.kind == FileKind::Directory,
        is_to_come(listed(disk), seq![(dir, top)], file),
    ensures
        file.1.kind is Regular || file.1.kind is Symlink,
        exists|names: Seq<Seq<u8>>| #[trigger]
            stands_along(disk, dir, names, file.1) && all_are_looked_at(names) && path_along(
                dir,
                names,
            ) == file.0,
{
    let files = listed(disk);
    let start = seq![(dir, top)];
    let i = choose|i: int| 0 <= i < start.len() && is_below(files, #[trigger] start[i], file);
    assert(start[i] == (dir, top));
    let depth = choose|depth: nat| lies_below(files, (dir, top), file, depth);
    let names = lemma_comes_from_disk(disk, dir, top, file, depth);
    assert(stands_along(disk, dir, names, file.1));
}

/// The files that a collector asks for before it is done, in order, if it is done after at most
/// `steps` steps. `files` tells what it is given for each directory that it asks for.
pub open spec fn collected(
    files: spec_fn(Seq<u8>) -> Seq<(Seq<u8>, StatNode)>,
    index: Seq<IndexEntry<Seq<u8>>>,
    pending: Seq<(Seq<u8>, StatNode)>,
    steps: nat,
) -> Option<Seq<(Seq<u8>, StatNode)>>
    decreases steps,
{
    if steps == 0 {
        None
    } else {
        match collected_from(index, pending) {
            (Ok(CollectStep::Done), _, _) => Some(Seq::empty()),
            (Ok(CollectStep::List(path)), rest, _) => collected(
                files,
                index,
                files(path) + rest,
                (steps - 1) as nat,
            ),
            (Ok(_), rest, Some(file)) => match collected(files, index, rest, (steps - 1) as nat) {
                Some(more) => Some(seq![file] + more),
                None => None,
            },
            _ => None,
        }
    }
}

/// A collector that is done has asked for the files that were to come, and for no others.
pub proof fn collecting_is_complete(
    files: spec_fn(Seq<u8>) -> Seq<(Seq<u8>, StatNode)>,
    index: Seq<IndexEntry<Seq<u8>>>,
    pending: Seq<(Seq<u8>, StatNode)>,
    steps: nat,
    file: (Seq<u8>, StatNode),
)
    ensures
        collected(files, index, pending, steps) matches Some(found) ==> (found.contains(file)
            <==> is_to_come(files, pending, file)),
    decreases steps,
{
    if steps > 0 {
        collecting_misses_nothing(files, index, pending, file);
        match collected_from(index, pending) {
            (Ok(CollectStep::Done), _, _) => {},
            (Ok(CollectStep::List(path)), rest, _) => {
                collecting_is_complete(files, index, files(path) + rest, (steps - 1) as nat, file);
            },
            (Ok(_), rest, Some(read)) => {
                collecting_is_complete(files, index, rest, (steps - 1) as nat, file);
                if let Some(more) = collected(files, index, rest, (steps - 1) as nat) {
                    let found = seq![read] + more;
                    if found.contains(file) {
                        let i = choose|i: int| 0 <= i < found.len() && found[i] == file;
                        if i > 0 {
                            assert(more[i - 1] == file);
                        }
                    }
                    if more.contains(file) {
                        let i = choose|i: int| 0 <= i < more.len() && more[i] == file;
                        assert(found[i + 1] == file);
                    }
                    if read == file {
                        assert(found[0] == file);
                    }
                }
            },
            _ => {},
        }
    }
}

/// A collector that goes through a directory and is done has asked for a file or a link exactly if
/// it is in the directory, at any depth, with none of the three names on the way.
pub proof fn add_reads_every_file(
    disk: spec_fn(Seq<u8>) -> Seq<(Seq<u8>, StatNode)>,
    index: Seq<IndexEntry<Seq<u8>>>,
    dir: Seq<u8>,
    top: StatNode,
    steps: nat,
    file: (Seq<u8>, StatNode),
)
    requires
        top.kind == FileKind::Directory,
        file.1.kind is Regular || file.1.kind is Symlink,
    ensures
        collected(listed(disk), index, seq![(dir, top)], steps) matches Some(found) ==> (
        found.contains(file) <==> exists|names: Seq<Seq<u8>>| #[trigger]
            stands_along(disk, dir, names, file.1) && all_are_looked_at(names) && path_along(
                dir,
                names,
            ) == file.0),
{
    collecting_is_complete(listed(disk), index, seq![(dir, top)], steps, file);
    if is_to_come(listed(disk), seq![(dir, top)], file) {
        nothing_else_is_to_come(disk, dir, top, file);
    }
    if exists|names: Seq<Seq<u8>>| #[trigger]
        stands_along(disk, dir, names, file.1) && all_are_looked_at(names) && path_along(dir, names)
            == file.0 {
        let names = choose|names: Seq<Seq<u8>>| #[trigger]
            stands_along(disk, dir, names, file.1) && all_are_looked_at(names) && path_along(
                dir,
                names,
            ) == file.0;
        every_file_is_to_come(disk, dir, top, names, file.1);
    }
}

/// What is asked for of a file is what it is: the contents of a regular file, the target of a link.
/// Only something that is neither a file, a link nor a directory stops the collector, and only if
/// its path is in the index.
pub proof fn collectors_ask_for_what_is_there(
    index: Seq<IndexEntry<Seq<u8>>>,
    pending: Seq<(Seq<u8>, StatNode)>,
)
    ensures
        match collected_from(index, pending) {
            (Ok(CollectStep::ReadFile(path)), _, reading) => reading matches Some((p, node)) && p
                == path && node.kind is Regular && pending.contains((p, node)),
            (Ok(CollectStep::ReadLink(path)), _, reading) => reading matches Some((p, node)) && p
                == path && node.kind == FileKind::Symlink && pending.contains((p, node)),
            (Ok(CollectStep::List(path)), _, reading) => reading is None && exists|i: int|
                0 <= i < pending.len() && (#[trigger] pending[i]).0 == path && pending[i].1.kind
                    == FileKind::Directory,
            (Ok(CollectStep::Done), rest, reading) => reading is None && rest.len() == 0 && forall|
                i: int,
            |
                0 <= i < pending.len() ==> (#[trigger] pending[i]).1.kind == FileKind::Other && (
                forall|k: int| 0 <= k < index.len() ==> (#[trigger] index[k]).path != pending[i].0),
            (Err(err), _, _) => err matches AddError::UnsupportedFileType { path } && exists|
                i: int,
                k: int,
            |
                0 <= i < pending.len() && (#[trigger] pending[i]).0 == path && pending[i].1.kind
                    == FileKind::Other && 0 <= k < index.len() && (#[trigger] index[k]).path == path,
        },
    decreases pending.len(),
{
    if pending.len() > 0 {
        let rest = pending.drop_first();
        assert(pending[0] == pending[0]);
        match pending[0].1.kind {
            FileKind::Other => {
                if !has_path(index, pending[0].0) {
                    collectors_ask_for_what_is_there(index, rest);
                    assert forall|i: int| 0 <= i < rest.len() implies #[trigger] rest[i]
                        == pending[i + 1] by {}
                    match collected_from(index, rest) {
                        (Ok(CollectStep::ReadFile(_)), _, Some(file)) => {
                            let i = choose|i: int| 0 <= i < rest.len() && rest[i] == file;
                            assert(pending[i + 1] == file);
                        },
                        (Ok(CollectStep::ReadLink(_)), _, Some(file)) => {
                            let i = choose|i: int| 0 <= i < rest.len() && rest[i] == file;
                            assert(pending[i + 1] == file);
                        },
                        (Ok(CollectStep::List(path)), _, _) => {
                            let i = choose|i: int|
                                0 <= i < rest.len() && (#[trigger] rest[i]).0 == path
                                    && rest[i].1.kind == FileKind::Directory;
                            assert(pending[i + 1] == rest[i]);
                        },
                        (Ok(CollectStep::Done), _, _) => {
                            assert forall|i: int| 0 <= i < pending.len() implies (
                            #[trigger] pending[i]).1.kind == FileKind::Other && (forall|k: int|
                                0 <= k < index.len() ==> (#[trigger] index[k]).path
                                    != pending[i].0) by {
                                if i > 0 {
                                    assert(rest[i - 1] == pending[i]);
                                }
                            }
                        },
                        (Err(err), _, _) => {
                            let path = err->UnsupportedFileType_path;
                            let (i, k) = choose|i: int, k: int|
                                0 <= i < rest.len() && (#[trigger] rest[i]).0 == path
                                    && rest[i].1.kind == FileKind::Other && 0 <= k < index.len() && (
                                #[trigger] index[k]).path == path;
                            assert(pending[i + 1] == rest[i]);
                            assert(index[k].path == path);
                        },
                        _ => {},
                    }
                }
            },
            _ => {},
        }
    }
}

} // verus!
