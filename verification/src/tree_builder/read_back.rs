//! Reading a tree that was written for an index.

use crate::bytes::{until, SLASH};
use crate::index::{is_conflict_free, is_sorted, IndexEntry};
use crate::object::mode::Mode;
use crate::object::oid::Oid;
use crate::object::{entry_bytes, lemma_tree_push, object_bytes, tree_bytes, Entry, ObjectView};
use crate::repo_path::{path_error, path_joined, split};
use crate::report::tree_files::{files_in, tree_has, trees_in};
use crate::tree_builder::{
    built, dir_at, found, is_file_at, lemma_parts, lemma_place, node_id, node_mode, place, planted,
    slot_of, tree_content, tree_holds_the_index, with_slot, NodeView,
};
use vstd::prelude::*;

verus! {

/// An entry says what stands under its name: the mode and the id, and, of a directory, the tree
/// that is stored under the id.
pub open spec fn entry_records(
    trees: spec_fn(Oid) -> Seq<Entry<Seq<u8>>>,
    entry: Entry<Seq<u8>>,
    name: Seq<u8>,
    node: NodeView,
) -> bool
    decreases node,
{
    &&& entry.name == name
    &&& entry.mode == node_mode(node)
    &&& entry.oid@ == node_id(node)
    &&& match node {
        NodeView::Blob { .. } => true,
        NodeView::Tree(dir) => tree_records(trees, entry.oid, dir),
    }
}

/// The tree that is stored under an id has an entry for each name in a directory. `trees` tells what
/// is stored.
pub open spec fn tree_records(
    trees: spec_fn(Oid) -> Seq<Entry<Seq<u8>>>,
    oid: Oid,
    dir: Seq<(Seq<u8>, NodeView)>,
) -> bool
    decreases dir,
{
    &&& trees(oid).len() == dir.len()
    &&& forall|i: int|
        0 <= i < dir.len() ==> entry_records(
            trees,
            #[trigger] trees(oid)[i],
            dir[i].0,
            dir[i].1,
        )
}

/// No name occurs twice in a directory or in one below it, and no file has the mode of a directory.
spec fn is_sound(dir: Seq<(Seq<u8>, NodeView)>) -> bool
    decreases dir,
{
    &&& forall|i: int| 0 <= i < dir.len() ==> place(dir, (#[trigger] dir[i]).0) == i
    &&& forall|i: int| 0 <= i < dir.len() ==> is_node_sound((#[trigger] dir[i]).1)
}

spec fn is_node_sound(node: NodeView) -> bool
    decreases node,
{
    match node {
        NodeView::Blob { mode, .. } => mode != Mode::Directory,
        NodeView::Tree(dir) => is_sound(dir),
    }
}

proof fn lemma_with_slot_sound(dir: Seq<(Seq<u8>, NodeView)>, name: Seq<u8>, node: NodeView)
    requires
        is_sound(dir),
        is_node_sound(node),
    ensures
        is_sound(with_slot(dir, name, node)),
{
    let after = with_slot(dir, name, node);
    lemma_place(dir, name);
    let at = place(dir, name);
    assert forall|i: int| 0 <= i < after.len() implies place(after, (#[trigger] after[i]).0) == i by {
        let key = after[i].0;
        lemma_place(after, key);
        let j = place(after, key);
        if j < i {
            // both would be in the directory before, or one of them is new
            if i < dir.len() {
                assert(dir[i].0 == key && dir[j].0 == key);
                lemma_place(dir, key);
            } else {
                assert(dir[j].0 == name);
            }
        }
    }
    assert forall|i: int| 0 <= i < after.len() implies is_node_sound((#[trigger] after[i]).1) by {
        if i != at {
            assert(after[i] == dir[i]);
        }
    }
}

proof fn lemma_planted_sound(
    dir: Seq<(Seq<u8>, NodeView)>,
    path: Seq<Seq<u8>>,
    oid: Oid,
    mode: Mode,
)
    requires
        is_sound(dir),
        mode != Mode::Directory,
    ensures
        is_sound(planted(dir, path, oid, mode)),
    decreases path.len(),
{
    if path.len() == 1 {
        lemma_with_slot_sound(dir, path[0], NodeView::Blob { oid, mode });
    } else if path.len() > 1 {
        let sub = dir_at(dir, path[0]);
        lemma_place(dir, path[0]);
        if slot_of(dir, path[0]) is Some {
            assert(is_node_sound(dir[place(dir, path[0])].1));
        }
        assert(is_sound(sub));
        lemma_planted_sound(sub, path.drop_first(), oid, mode);
        lemma_with_slot_sound(
            dir,
            path[0],
            NodeView::Tree(planted(sub, path.drop_first(), oid, mode)),
        );
    }
}

proof fn lemma_built_sound(entries: Seq<IndexEntry<Seq<u8>>>)
    requires
        forall|i: int| 0 <= i < entries.len() ==> (#[trigger] entries[i]).mode != Mode::Directory,
    ensures
        is_sound(built(entries)),
    decreases entries.len(),
{
    if entries.len() > 0 {
        let before = entries.drop_last();
        let e = entries.last();
        assert(entries[entries.len() - 1].mode != Mode::Directory);
        lemma_built_sound(before);
        lemma_planted_sound(built(before), split(e.path, SLASH), e.oid, e.mode);
    }
}

/// A path and components below it.
spec fn descended(path: Seq<u8>, parts: Seq<Seq<u8>>) -> Seq<u8>
    decreases parts.len(),
{
    if parts.len() == 0 {
        path
    } else {
        descended(path_joined(path, parts[0]), parts.drop_first())
    }
}

proof fn lemma_descended(path: Seq<u8>, b: Seq<u8>)
    requires
        path.len() > 0,
    ensures
        descended(path, split(b, SLASH)) == path + seq![SLASH] + b,
    decreases b.len(),
{
    lemma_parts(b);
    let n = until(b, SLASH);
    let parts = split(b, SLASH);
    let next = path_joined(path, parts[0]);
    if n < b.len() {
        let rest = b.skip(n + 1);
        lemma_descended(next, rest);
        assert(path + seq![SLASH] + b =~= path + seq![SLASH] + b.take(n) + seq![SLASH] + rest);
    } else {
        assert(b.take(n) =~= b);
        assert(descended(next, parts.drop_first()) == next);
    }
}

/// The components of a path, one below the other, are the path.
proof fn lemma_descended_from_root(b: Seq<u8>)
    requires
        path_error(b) is None,
    ensures
        descended(Seq::empty(), split(b, SLASH)) == b,
{
    lemma_parts(b);
    let n = until(b, SLASH);
    let parts = split(b, SLASH);
    if n < b.len() {
        let rest = b.skip(n + 1);
        assert(n > 0);
        lemma_descended(parts[0], rest);
        assert(b =~= b.take(n) + seq![SLASH] + rest);
    } else {
        assert(b.take(n) =~= b);
        assert(descended(b, parts.drop_first()) == b);
    }
}

proof fn lemma_files_in(dir: Seq<u8>, entries: Seq<Entry<Seq<u8>>>, i: int)
    requires
        0 <= i < entries.len(),
        entries[i].mode != Mode::Directory,
    ensures
        files_in(dir, entries).contains(
            (path_joined(dir, entries[i].name), (entries[i].oid, entries[i].mode)),
        ),
    decreases entries.len(),
{
    let file = (path_joined(dir, entries[i].name), (entries[i].oid, entries[i].mode));
    let before = files_in(dir, entries.drop_last());
    let all = files_in(dir, entries);
    if i == entries.len() - 1 {
        assert(all[before.len() as int] == file);
    } else {
        lemma_files_in(dir, entries.drop_last(), i);
        assert(all[before.index_of(file)] == file);
    }
}

proof fn lemma_file_from(
    dir: Seq<u8>,
    entries: Seq<Entry<Seq<u8>>>,
    file: (Seq<u8>, (Oid, Mode)),
) -> (i: int)
    requires
        files_in(dir, entries).contains(file),
    ensures
        0 <= i < entries.len(),
        entries[i].mode != Mode::Directory,
        file == (path_joined(dir, entries[i].name), (entries[i].oid, entries[i].mode)),
    decreases entries.len(),
{
    let all = files_in(dir, entries);
    let k = all.index_of(file);
    if entries.len() == 0 {
        assert(false);
        0
    } else {
        let before = files_in(dir, entries.drop_last());
        if k < before.len() {
            assert(before[k] == file);
            lemma_file_from(dir, entries.drop_last(), file)
        } else {
            entries.len() - 1
        }
    }
}

proof fn lemma_trees_in(dir: Seq<u8>, entries: Seq<Entry<Seq<u8>>>, i: int) -> (k: int)
    requires
        0 <= i < entries.len(),
        entries[i].mode == Mode::Directory,
    ensures
        0 <= k < trees_in(dir, entries).len(),
        trees_in(dir, entries)[k] == (path_joined(dir, entries[i].name), entries[i].oid),
    decreases entries.len(),
{
    let before = trees_in(dir, entries.drop_last());
    if i == entries.len() - 1 {
        before.len() as int
    } else {
        let k = lemma_trees_in(dir, entries.drop_last(), i);
        assert(trees_in(dir, entries)[k] == before[k]);
        k
    }
}

proof fn lemma_tree_from(dir: Seq<u8>, entries: Seq<Entry<Seq<u8>>>, k: int) -> (i: int)
    requires
        0 <= k < trees_in(dir, entries).len(),
    ensures
        0 <= i < entries.len(),
        entries[i].mode == Mode::Directory,
        trees_in(dir, entries)[k] == (path_joined(dir, entries[i].name), entries[i].oid),
    decreases entries.len(),
{
    let before = trees_in(dir, entries.drop_last());
    if k < before.len() {
        assert(trees_in(dir, entries)[k] == before[k]);
        lemma_tree_from(dir, entries.drop_last(), k)
    } else {
        entries.len() - 1
    }
}

/// A file that is found in the stored trees stands in the directory.
proof fn lemma_stands(
    trees: spec_fn(Oid) -> Seq<Entry<Seq<u8>>>,
    prefix: Seq<u8>,
    oid: Oid,
    dir: Seq<(Seq<u8>, NodeView)>,
    file: (Seq<u8>, (Oid, Mode)),
    depth: nat,
) -> (parts: Seq<Seq<u8>>)
    requires
        tree_records(trees, oid, dir),
        is_sound(dir),
        tree_has(trees, prefix, oid, file, depth),
    ensures
        parts.len() > 0,
        file.0 == descended(prefix, parts),
        found(dir, parts) == Some(NodeView::Blob { oid: (file.1).0, mode: (file.1).1 }),
    decreases depth,
{
    let entries = trees(oid);
    if files_in(prefix, entries).contains(file) {
        let i = lemma_file_from(prefix, entries, file);
        let (name, node) = dir[i];
        assert(entry_records(trees, entries[i], name, node));
        assert(place(dir, dir[i].0) == i);
        assert(is_node_sound(dir[i].1));
        match node {
            NodeView::Blob { oid: id, mode } => {
                id.lemma_ext(entries[i].oid);
            },
            NodeView::Tree(_) => {},
        }
        let parts = seq![name];
        assert(parts.drop_first() =~= Seq::<Seq<u8>>::empty());
        assert(descended(path_joined(prefix, name), parts.drop_first()) == path_joined(
            prefix,
            name,
        ));
        parts
    } else {
        let below = trees_in(prefix, entries);
        let k = choose|k: int|
            0 <= k < below.len() && tree_has(
                trees,
                (#[trigger] below[k]).0,
                below[k].1,
                file,
                (depth - 1) as nat,
            );
        let i = lemma_tree_from(prefix, entries, k);
        let (name, node) = dir[i];
        assert(entry_records(trees, entries[i], name, node));
        assert(place(dir, dir[i].0) == i);
        assert(is_node_sound(dir[i].1));
        match node {
            NodeView::Tree(sub) => {
                let rest = lemma_stands(
                    trees,
                    below[k].0,
                    below[k].1,
                    sub,
                    file,
                    (depth - 1) as nat,
                );
                let parts = seq![name] + rest;
                assert(parts.drop_first() =~= rest);
                parts
            },
            NodeView::Blob { .. } => {
                assert(false);
                Seq::empty()
            },
        }
    }
}

/// A file that stands in the directory is found in the stored trees.
proof fn lemma_is_had(
    trees: spec_fn(Oid) -> Seq<Entry<Seq<u8>>>,
    prefix: Seq<u8>,
    oid: Oid,
    dir: Seq<(Seq<u8>, NodeView)>,
    parts: Seq<Seq<u8>>,
)
    requires
        tree_records(trees, oid, dir),
        is_sound(dir),
        is_file_at(dir, parts),
    ensures
        found(dir, parts) matches Some(NodeView::Blob { oid: id, mode }) && tree_has(
            trees,
            prefix,
            oid,
            (descended(prefix, parts), (id, mode)),
            parts.len(),
        ),
    decreases parts.len(),
{
    let entries = trees(oid);
    let name = parts[0];
    lemma_place(dir, name);
    let i = place(dir, name);
    let node = dir[i].1;
    let entry = entries[i];
    assert(entry_records(trees, entries[i], dir[i].0, dir[i].1));
    assert(is_node_sound(dir[i].1));
    let next = path_joined(prefix, name);
    match node {
        NodeView::Blob { oid: id, mode } => {
            id.lemma_ext(entry.oid);
            lemma_files_in(prefix, entries, i);
            assert(descended(next, parts.drop_first()) == next);
        },
        NodeView::Tree(sub) => {
            let rest = parts.drop_first();
            lemma_is_had(trees, next, entry.oid, sub, rest);
            let k = lemma_trees_in(prefix, entries, i);
            assert(trees_in(prefix, entries)[k].0 == next);
        },
    }
}

proof fn lemma_content(entries: Seq<Entry<Seq<u8>>>, dir: Seq<(Seq<u8>, NodeView)>)
    requires
        entries.len() == dir.len(),
        forall|i: int|
            0 <= i < dir.len() ==> (#[trigger] entries[i]).name == dir[i].0 && entries[i].mode
                == node_mode(dir[i].1) && entries[i].oid@ == node_id(dir[i].1),
    ensures
        tree_content(dir) == tree_bytes(entries),
    decreases dir.len(),
{
    if dir.len() > 0 {
        let before = entries.drop_last();
        let e = entries.last();
        assert(entries[entries.len() - 1] == e);
        assert forall|i: int| 0 <= i < before.len() implies (#[trigger] before[i]).name
            == dir.drop_last()[i].0 && before[i].mode == node_mode(dir.drop_last()[i].1)
            && before[i].oid@ == node_id(dir.drop_last()[i].1) by {
            assert(before[i] == entries[i]);
        }
        lemma_content(before, dir.drop_last());
        lemma_tree_push(before, e);
        assert(before.push(e) =~= entries);
        assert(tree_content(dir) =~= tree_bytes(before) + entry_bytes(e));
    } else {
        assert(tree_content(dir) =~= tree_bytes(entries));
    }
}

/// The content that is written for a directory is that of a tree object with the entries that are
/// read back.
pub proof fn contents_hold_the_entries(
    trees: spec_fn(Oid) -> Seq<Entry<Seq<u8>>>,
    oid: Oid,
    dir: Seq<(Seq<u8>, NodeView)>,
)
    requires
        tree_records(trees, oid, dir),
    ensures
        tree_content(dir) == object_bytes(ObjectView::Tree(trees(oid))),
{
    let entries = trees(oid);
    assert forall|i: int| 0 <= i < dir.len() implies (#[trigger] entries[i]).name == dir[i].0
        && entries[i].mode == node_mode(dir[i].1) && entries[i].oid@ == node_id(dir[i].1) by {
        assert(entry_records(trees, trees(oid)[i], dir[i].0, dir[i].1));
    }
    lemma_content(entries, dir);
}

/// What is committed is what is read back: the files that are found in the stored trees of an index
/// are its entries, with their ids and modes.
pub proof fn reading_back_gives_the_index(
    trees: spec_fn(Oid) -> Seq<Entry<Seq<u8>>>,
    root: Oid,
    entries: Seq<IndexEntry<Seq<u8>>>,
    file: (Seq<u8>, (Oid, Mode)),
)
    requires
        is_sorted(entries),
        is_conflict_free(entries),
        forall|i: int|
            0 <= i < entries.len() ==> (#[trigger] entries[i]).mode != Mode::Directory
                && path_error(entries[i].path) is None,
        tree_records(trees, root, built(entries)),
    ensures
        (exists|depth: nat| tree_has(trees, Seq::empty(), root, file, depth)) <==> (exists|i: int|
            0 <= i < entries.len() && (#[trigger] entries[i]).path == file.0 && (
            entries[i].oid,
            entries[i].mode,
        ) == file.1),
{
    lemma_built_sound(entries);
    tree_holds_the_index(entries);
    let dir = built(entries);
    if exists|depth: nat| tree_has(trees, Seq::empty(), root, file, depth) {
        let depth = choose|depth: nat| tree_has(trees, Seq::empty(), root, file, depth);
        let parts = lemma_stands(trees, Seq::empty(), root, dir, file, depth);
        assert(is_file_at(dir, parts));
        let i = choose|i: int|
            0 <= i < entries.len() && split((#[trigger] entries[i]).path, SLASH) == parts;
        lemma_descended_from_root(entries[i].path);
        assert(found(dir, split(entries[i].path, SLASH)) == Some(
            NodeView::Blob { oid: entries[i].oid, mode: entries[i].mode },
        ));
    }
    if exists|i: int|
        0 <= i < entries.len() && (#[trigger] entries[i]).path == file.0 && (
        entries[i].oid,
        entries[i].mode,
    ) == file.1 {
        let i = choose|i: int|
            0 <= i < entries.len() && (#[trigger] entries[i]).path == file.0 && (
            entries[i].oid,
            entries[i].mode,
        ) == file.1;
        let parts = split(entries[i].path, SLASH);
        lemma_descended_from_root(entries[i].path);
        lemma_is_had(trees, Seq::empty(), root, dir, parts);
        assert(tree_has(trees, Seq::empty(), root, file, parts.len()));
    }
}

} // verus!
