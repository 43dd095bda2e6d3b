//! The trees of a commit, built from the entries of the index.

use crate::bytes::{copy_of, lemma_lex_irreflexive, lemma_until, lex_less, until, NUL, SLASH, SPACE};
use crate::digest::{hash, sha1_of};
use crate::index::{is_conflict_free, is_sorted, Index, IndexEntry};
use crate::object::mode::Mode;
use crate::object::oid::Oid;
use crate::object::{
    entries_view, entry_bytes, framed, lemma_tree_push, tree_bytes, Entry, Object, ObjectType,
};
use crate::repo_path::{byte_strings, spec_is_parent_path, split, RepoPath};
use indexmap::IndexMap;
use vstd::prelude::*;

pub mod order;
pub mod read_back;

verus! {

/// `indexmap::IndexMap`: a map that keeps its entries in the order in which they came.
#[verifier::external_type_specification]
#[verifier::external_body]
#[verifier::reject_recursive_types(K)]
#[verifier::reject_recursive_types(V)]
#[verifier::reject_recursive_types(S)]
pub struct ExIndexMap<K, V, S>(indexmap::IndexMap<K, V, S>);

/// The names in a map with their numbers, in the order in which the names first came.
pub uninterp spec fn slots(m: IndexMap<Vec<u8>, usize>) -> Seq<(Seq<u8>, usize)>;

/// The place of `name`, or the number of slots where it has none.
pub open spec fn place<T>(s: Seq<(Seq<u8>, T)>, name: Seq<u8>) -> int
    decreases s.len(),
{
    if s.len() == 0 || s[0].0 == name {
        0
    } else {
        1 + place(s.drop_first(), name)
    }
}

pub open spec fn slot_of<T>(s: Seq<(Seq<u8>, T)>, name: Seq<u8>) -> Option<T> {
    let at = place(s, name);
    if at < s.len() {
        Some(s[at].1)
    } else {
        None
    }
}

/// The slots with `value` under `name`: in its place, or behind all others.
pub open spec fn with_slot<T>(s: Seq<(Seq<u8>, T)>, name: Seq<u8>, value: T) -> Seq<(Seq<u8>, T)> {
    let at = place(s, name);
    if at < s.len() {
        s.update(at, (name, value))
    } else {
        s.push((name, value))
    }
}

/// `indexmap::IndexMap::new`: a map without entries.
#[verifier::external_body]
fn map_new() -> (m: IndexMap<Vec<u8>, usize>)
    ensures
        slots(m) == Seq::<(Seq<u8>, usize)>::empty(),
{
    IndexMap::new()
}

/// `indexmap::IndexMap::insert`: a name that is there keeps its place and gets the new number; a
/// new one comes last.
#[verifier::external_body]
fn map_insert(m: &mut IndexMap<Vec<u8>, usize>, name: Vec<u8>, number: usize)
    ensures
        slots(*final(m)) == with_slot(slots(*old(m)), name@, number),
{
    m.insert(name, number);
}

/// `indexmap::IndexMap::get`: the number of a name, if the name is there.
#[verifier::external_body]
fn map_get(m: &IndexMap<Vec<u8>, usize>, name: &[u8]) -> (r: Option<usize>)
    ensures
        r == slot_of(slots(*m), name@),
{
    m.get(name).copied()
}

/// `indexmap::IndexMap::get_index`: the name at a place, if there are so many.
#[verifier::external_body]
fn map_name(m: &IndexMap<Vec<u8>, usize>, at: usize) -> (r: Option<&Vec<u8>>)
    ensures
        match r {
            Some(name) => at < slots(*m).len() && name@ == slots(*m)[at as int].0,
            None => at >= slots(*m).len(),
        },
{
    m.get_index(at).map(|slot| slot.0)
}

/// What stands under a name: a file or a directory.
pub enum TreeNode {
    Blob { oid: Oid, mode: Mode },
    Tree(InMemTree),
}

/// A directory in memory. The map holds the names in the order in which they came, each with the
/// number of its node.
pub struct InMemTree {
    names: IndexMap<Vec<u8>, usize>,
    nodes: Vec<TreeNode>,
}

/// A node in terms of byte strings; a directory is the sequence of its names and nodes.
pub enum NodeView {
    Blob { oid: Oid, mode: Mode },
    Tree(Seq<(Seq<u8>, NodeView)>),
}

pub closed spec fn node_view(node: TreeNode) -> NodeView
    decreases node,
{
    match node {
        TreeNode::Blob { oid, mode } => NodeView::Blob { oid, mode },
        TreeNode::Tree(dir) => NodeView::Tree(dir_view(dir)),
    }
}

pub closed spec fn dir_view(dir: InMemTree) -> Seq<(Seq<u8>, NodeView)>
    decreases dir,
{
    Seq::new(
        dir.nodes@.len(),
        |i: int|
            (
                slots(dir.names)[i].0,
                if 0 <= i < dir.nodes@.len() {
                    node_view(dir.nodes@[i])
                } else {
                    arbitrary()
                },
            ),
    )
}

pub closed spec fn node_wf(node: TreeNode) -> bool
    decreases node,
{
    match node {
        TreeNode::Blob { .. } => true,
        TreeNode::Tree(dir) => dir_wf(dir),
    }
}

/// Each name has the number of its own place.
pub closed spec fn dir_wf(dir: InMemTree) -> bool
    decreases dir,
{
    &&& slots(dir.names).len() == dir.nodes@.len()
    &&& forall|i: int|
        0 <= i < dir.nodes@.len() ==> (#[trigger] slots(dir.names)[i]).1 == i
    &&& forall|i: int| 0 <= i < dir.nodes@.len() ==> node_wf(#[trigger] dir.nodes@[i])
}

impl View for InMemTree {
    type V = Seq<(Seq<u8>, NodeView)>;

    open spec fn view(&self) -> Seq<(Seq<u8>, NodeView)> {
        dir_view(*self)
    }
}

/// The directory under `name`; where there is none, it is new and empty.
pub open spec fn dir_at(dir: Seq<(Seq<u8>, NodeView)>, name: Seq<u8>) -> Seq<(Seq<u8>, NodeView)> {
    match slot_of(dir, name) {
        Some(NodeView::Tree(sub)) => sub,
        _ => Seq::empty(),
    }
}

/// The directory with a file at `path`, in directories that are made where they are missing.
pub open spec fn planted(
    dir: Seq<(Seq<u8>, NodeView)>,
    path: Seq<Seq<u8>>,
    oid: Oid,
    mode: Mode,
) -> Seq<(Seq<u8>, NodeView)>
    decreases path.len(),
{
    if path.len() == 0 {
        dir
    } else if path.len() == 1 {
        with_slot(dir, path[0], NodeView::Blob { oid, mode })
    } else {
        with_slot(
            dir,
            path[0],
            NodeView::Tree(planted(dir_at(dir, path[0]), path.drop_first(), oid, mode)),
        )
    }
}

/// None of the directories on the way to `path` is a file.
pub open spec fn is_free(dir: Seq<(Seq<u8>, NodeView)>, path: Seq<Seq<u8>>) -> bool
    decreases path.len(),
{
    path.len() > 1 ==> match slot_of(dir, path[0]) {
        None => true,
        Some(NodeView::Blob { .. }) => false,
        Some(NodeView::Tree(sub)) => is_free(sub, path.drop_first()),
    }
}

pub proof fn lemma_place<T>(s: Seq<(Seq<u8>, T)>, name: Seq<u8>)
    ensures
        0 <= place(s, name) <= s.len(),
        place(s, name) < s.len() ==> s[place(s, name)].0 == name,
        forall|i: int| 0 <= i < place(s, name) ==> (#[trigger] s[i]).0 != name,
    decreases s.len(),
{
    if s.len() > 0 && s[0].0 != name {
        lemma_place(s.drop_first(), name);
        assert forall|i: int| 0 <= i < place(s, name) implies (#[trigger] s[i]).0 != name by {
            if i > 0 {
                assert(s.drop_first()[i - 1] == s[i]);
            }
        }
    }
}

/// The place depends on the names alone.
proof fn lemma_place_by_names<T, U>(s: Seq<(Seq<u8>, T)>, t: Seq<(Seq<u8>, U)>, name: Seq<u8>)
    requires
        s.len() == t.len(),
        forall|i: int| 0 <= i < s.len() ==> (#[trigger] s[i]).0 == (#[trigger] t[i]).0,
    ensures
        place(s, name) == place(t, name),
    decreases s.len(),
{
    if s.len() > 0 && s[0].0 != name {
        assert(t[0].0 == s[0].0);
        assert forall|i: int| 0 <= i < s.drop_first().len() implies (#[trigger] s.drop_first()[i]).0
            == (#[trigger] t.drop_first()[i]).0 by {
            assert(s[i + 1].0 == t[i + 1].0);
        }
        lemma_place_by_names(s.drop_first(), t.drop_first(), name);
    } else if s.len() > 0 {
        assert(t[0].0 == s[0].0);
    }
}

impl InMemTree {
    pub open spec fn wf(&self) -> bool {
        dir_wf(*self)
    }

    pub fn new() -> (r: Self)
        ensures
            r.wf(),
            r@ == Seq::<(Seq<u8>, NodeView)>::empty(),
    {
        let r = InMemTree { names: map_new(), nodes: Vec::new() };
        assert(r@ =~= Seq::<(Seq<u8>, NodeView)>::empty());
        r
    }

    /// The number of the node under `name`.
    fn number_of(&self, name: &[u8]) -> (r: Option<usize>)
        requires
            self.wf(),
        ensures
            match r {
                Some(i) => i == place(self@, name@) && i < self.nodes@.len(),
                None => place(self@, name@) == self.nodes@.len(),
            },
    {
        proof {
            lemma_place(slots(self.names), name@);
            lemma_place_by_names(slots(self.names), self@, name@);
        }
        map_get(&self.names, name)
    }

    /// Puts a node behind all others, under a name that is new.
    fn push(&mut self, name: &[u8], node: TreeNode)
        requires
            old(self).wf(),
            node_wf(node),
            place(old(self)@, name@) == old(self).nodes@.len(),
        ensures
            final(self).wf(),
            final(self).nodes@ == old(self).nodes@.push(node),
            final(self)@ == old(self)@.push((name@, node_view(node))),
    {
        proof {
            lemma_place(slots(self.names), name@);
            lemma_place_by_names(slots(self.names), self@, name@);
        }
        let number: usize = self.nodes.len();
        map_insert(&mut self.names, copy_of(name), number);
        self.nodes.push(node);
        assert(self@ =~= old(self)@.push((name@, node_view(node))));
    }

    /// Puts a file at the path whose components start at `from`.
    fn insert_below(&mut self, path: &Vec<&[u8]>, from: usize, oid: Oid, mode: Mode)
        requires
            old(self).wf(),
            from < path@.len(),
            is_free(old(self)@, byte_strings(path@).skip(from as int)),
        ensures
            final(self).wf(),
            final(self)@ == planted(
                old(self)@,
                byte_strings(path@).skip(from as int),
                oid,
                mode,
            ),
        decreases path@.len() - from,
    {
        let ghost way = byte_strings(path@).skip(from as int);
        let name = path[from];
        assert(way[0] == name@);
        proof {
            lemma_place(self@, name@);
        }
        if from == path.len() - 1 {
            match self.number_of(name) {
                Some(i) => {
                    self.nodes.set(i, TreeNode::Blob { oid, mode });
                },
                None => {
                    self.push(name, TreeNode::Blob { oid, mode });
                },
            }
            assert(self@ =~= with_slot(old(self)@, name@, NodeView::Blob { oid, mode }));
        } else {
            assert(way.drop_first() =~= byte_strings(path@).skip(from + 1));
            let i: usize = match self.number_of(name) {
                Some(i) => i,
                None => {
                    self.push(name, TreeNode::Tree(InMemTree::new()));
                    self.nodes.len() - 1
                },
            };
            let ghost whole = *self;
            let ghost before = self.nodes@;
            assert(whole@[i as int].0 == name@);
            let ghost sub = dir_at(old(self)@, name@);
            assert(before[i as int] matches TreeNode::Tree(dir) && dir@ == sub && dir.wf()) by {
                assert(node_wf(before[i as int]));
            }
            match &mut self.nodes[i] {
                TreeNode::Tree(dir) => {
                    dir.insert_below(path, from + 1, oid, mode);
                },
                TreeNode::Blob { .. } => {},
            }
            let ghost node = NodeView::Tree(planted(sub, way.drop_first(), oid, mode));
            assert(node_view(self.nodes@[i as int]) == node);
            assert(self@ =~= whole@.update(i as int, (name@, node)));
            assert(self@ =~= with_slot(old(self)@, name@, node));
        }
    }

    /// Puts a file into the tree. The last component is the file; the others are directories,
    /// which are made where they are missing.
    pub fn insert(&mut self, path: &RepoPath, oid: Oid, mode: Mode)
        requires
            old(self).wf(),
            is_free(old(self)@, split(path@, SLASH)),
        ensures
            final(self).wf(),
            final(self)@ == planted(old(self)@, split(path@, SLASH), oid, mode),
    {
        let components = path.components();
        proof {
            let all = byte_strings(components@);
            assert(all.len() == split(path@, SLASH).len());
            assert(all.skip(0) =~= split(path@, SLASH));
        }
        self.insert_below(&components, 0, oid, mode);
    }

    /// The root with a file for each entry of the index.
    pub fn from_index(index: &Index) -> (r: Self)
        requires
            is_conflict_free(index@),
        ensures
            r.wf(),
            r@ == built(index@),
    {
        let mut root = Self::new();
        let mut i: usize = 0;
        while i < index.entries.len()
            invariant
                i <= index.entries@.len(),
                is_conflict_free(index@),
                root.wf(),
                root@ == built(index@.take(i as int)),
            decreases index.entries@.len() - i,
        {
            let entry = &index.entries[i];
            proof {
                let some = index@.take(i + 1);
                assert(some.drop_last() =~= index@.take(i as int));
                assert(some.last() == entry@);
                assert forall|a: int, b: int| 0 <= a < some.len() && 0 <= b < some.len() implies
                    !spec_is_parent_path((#[trigger] some[a]).path, (#[trigger] some[b]).path) by {
                    assert(some[a] == index@[a] && some[b] == index@[b]);
                }
                lemma_built(some);
            }
            root.insert(&entry.path, entry.oid, entry.mode);
            i = i + 1;
        }
        assert(index@.take(i as int) =~= index@);
        root
    }

    /// The id of the root's tree object. The contents of the tree objects of this directory and of
    /// all below it are appended, each behind those it refers to: once all of them are stored, so
    /// is the whole tree.
    pub fn write(&self, contents: &mut Vec<Vec<u8>>) -> (oid: Oid)
        requires
            self.wf(),
        ensures
            oid@ == node_id(NodeView::Tree(self@)),
            contents_view(final(contents)@) == contents_view(old(contents)@) + node_contents(
                NodeView::Tree(self@),
            ),
        decreases self,
    {
        let mut entries: Vec<Entry> = Vec::new();
        let mut i: usize = 0;
        assert(contents_view(contents@) =~= contents_view(old(contents)@) + contents_below(
            self@.take(0),
        ));
        while i < self.nodes.len()
            invariant
                i <= self.nodes@.len(),
                self.wf(),
                tree_bytes(entries_view(entries@)) == tree_content(self@.take(i as int)),
                contents_view(contents@) == contents_view(old(contents)@) + contents_below(
                    self@.take(i as int),
                ),
            decreases self.nodes@.len() - i,
        {
            let ghost some = self@.take(i + 1);
            let ghost node = node_view(self.nodes@[i as int]);
            let ghost before = contents_view(contents@);
            proof {
                assert(some.drop_last() =~= self@.take(i as int));
                assert(some.last().1 == node);
                assert(node_wf(self.nodes@[i as int]));
            }
            let name = match map_name(&self.names, i) {
                Some(name) => copy_of(name.as_slice()),
                None => Vec::new(),
            };
            let (oid, mode) = match &self.nodes[i] {
                TreeNode::Blob { oid, mode } => (*oid, *mode),
                TreeNode::Tree(dir) => (dir.write(contents), Mode::Directory),
            };
            let entry = Entry { mode, name, oid };
            proof {
                lemma_tree_push(entries_view(entries@), entry@);
                assert(entries_view(entries@.push(entry)) =~= entries_view(entries@).push(entry@));
                assert(some.last().0 == entry.name@);
                assert(oid@ == node_id(node) && mode == node_mode(node));
                assert(tree_content(some) =~= tree_content(some.drop_last()) + entry_bytes(entry@));
                assert(contents_view(contents@) =~= before + node_contents(node));
                assert(contents_view(contents@) =~= contents_view(old(contents)@)
                    + contents_below(some));
            }
            entries.push(entry);
            i = i + 1;
        }
        assert(self@.take(i as int) =~= self@);
        let content = Object::Tree(entries).serialize();
        let oid = hash(ObjectType::Tree, content.as_slice());
        let ghost before = contents@;
        contents.push(content);
        assert(contents_view(contents@) =~= contents_view(before).push(content@));
        oid
    }
}

/// The content of the tree object of a directory: one line for each name, with the mode and the
/// id of what stands under it.
pub open spec fn tree_content(dir: Seq<(Seq<u8>, NodeView)>) -> Seq<u8>
    decreases dir,
{
    if dir.len() == 0 {
        Seq::empty()
    } else {
        let (name, node) = dir.last();
        tree_content(dir.drop_last()) + node_mode(node).octal() + seq![SPACE] + name + seq![NUL]
            + node_id(dir.last().1)
    }
}

/// A file has its own id; a directory has that of its tree object.
pub open spec fn node_id(node: NodeView) -> Seq<u8>
    decreases node,
{
    match node {
        NodeView::Blob { oid, .. } => oid@,
        NodeView::Tree(dir) => sha1_of(framed(ObjectType::Tree, tree_content(dir))),
    }
}

pub open spec fn node_mode(node: NodeView) -> Mode {
    match node {
        NodeView::Blob { mode, .. } => mode,
        NodeView::Tree(_) => Mode::Directory,
    }
}

/// The contents of the tree objects of all directories below this one, each behind those of the
/// directories in it.
pub open spec fn contents_below(dir: Seq<(Seq<u8>, NodeView)>) -> Seq<Seq<u8>>
    decreases dir,
{
    if dir.len() == 0 {
        Seq::empty()
    } else {
        contents_below(dir.drop_last()) + node_contents(dir.last().1)
    }
}

pub open spec fn node_contents(node: NodeView) -> Seq<Seq<u8>>
    decreases node,
{
    match node {
        NodeView::Blob { .. } => Seq::empty(),
        NodeView::Tree(dir) => contents_below(dir).push(tree_content(dir)),
    }
}

pub open spec fn contents_view(contents: Seq<Vec<u8>>) -> Seq<Seq<u8>> {
    Seq::new(contents.len(), |i: int| contents[i]@)
}

/// What stands at a path.
pub open spec fn found(dir: Seq<(Seq<u8>, NodeView)>, path: Seq<Seq<u8>>) -> Option<NodeView>
    decreases path.len(),
{
    if path.len() == 0 {
        None
    } else {
        match slot_of(dir, path[0]) {
            None => None,
            Some(node) => if path.len() == 1 {
                Some(node)
            } else {
                match node {
                    NodeView::Blob { .. } => None,
                    NodeView::Tree(sub) => found(sub, path.drop_first()),
                }
            },
        }
    }
}

pub open spec fn is_file_at(dir: Seq<(Seq<u8>, NodeView)>, path: Seq<Seq<u8>>) -> bool {
    found(dir, path) matches Some(NodeView::Blob { .. })
}

/// The components of `a`, and more.
pub open spec fn leads_to(a: Seq<Seq<u8>>, b: Seq<Seq<u8>>) -> bool {
    a.len() < b.len() && b.take(a.len() as int) == a
}

/// The root with a file for each entry.
pub open spec fn built(entries: Seq<IndexEntry<Seq<u8>>>) -> Seq<(Seq<u8>, NodeView)>
    decreases entries.len(),
{
    if entries.len() == 0 {
        Seq::empty()
    } else {
        let e = entries.last();
        planted(built(entries.drop_last()), split(e.path, SLASH), e.oid, e.mode)
    }
}

proof fn lemma_with_slot<T>(s: Seq<(Seq<u8>, T)>, name: Seq<u8>, value: T, other: Seq<u8>)
    ensures
        slot_of(with_slot(s, name, value), other) == (if other == name {
            Some(value)
        } else {
            slot_of(s, other)
        }),
{
    let after = with_slot(s, name, value);
    lemma_place(s, name);
    lemma_place(s, other);
    lemma_place(after, other);
    let i = place(s, other);
    let j = place(after, other);
    if other == name {
        let at = place(s, name);
        assert(after[at].0 == name);
        if j < at {
            assert(after[j].0 == s[j].0);
        }
    } else {
        if i < s.len() {
            assert(after[i].0 == other);
            if j < i {
                assert(after[j].0 == s[j].0);
            }
        } else if j < after.len() {
            assert(after[j].0 == other);
            assert(after[j].0 == s[j].0);
        }
    }
}

/// A file that was put somewhere stands there, and every other file stands where it stood, unless
/// it stood below.
proof fn lemma_planted(
    dir: Seq<(Seq<u8>, NodeView)>,
    path: Seq<Seq<u8>>,
    oid: Oid,
    mode: Mode,
    other: Seq<Seq<u8>>,
)
    requires
        path.len() > 0,
        is_free(dir, path),
    ensures
        other == path ==> found(planted(dir, path, oid, mode), other) == Some(
            NodeView::Blob { oid, mode },
        ),
        other != path && is_file_at(planted(dir, path, oid, mode), other) ==> found(
            planted(dir, path, oid, mode),
            other,
        ) == found(dir, other),
        other != path && is_file_at(dir, other) && !leads_to(path, other) ==> found(
            planted(dir, path, oid, mode),
            other,
        ) == found(dir, other),
    decreases path.len(),
{
    if other.len() > 0 {
        let name = path[0];
        let rest = path.drop_first();
        let below = other.drop_first();
        if path.len() == 1 {
            lemma_with_slot(dir, name, NodeView::Blob { oid, mode }, other[0]);
            if other[0] == name {
                if other.len() == 1 {
                    assert(other =~= path);
                } else {
                    assert(other.take(1) =~= path);
                }
            }
        } else {
            let sub = dir_at(dir, name);
            let node = NodeView::Tree(planted(sub, rest, oid, mode));
            lemma_with_slot(dir, name, node, other[0]);
            if slot_of(dir, name) is None {
                lemma_free_in_empty(rest);
            }
            lemma_planted(sub, rest, oid, mode, below);
            if other[0] == name {
                if below == rest {
                    assert(other =~= seq![name] + rest);
                    assert(path =~= seq![name] + rest);
                }
                if leads_to(rest, below) {
                    assert(other.take(path.len() as int) =~= seq![name] + below.take(
                        rest.len() as int,
                    ));
                    assert(path =~= seq![name] + rest);
                }
                if slot_of(dir, name) is None {
                    lemma_nothing_in_empty(below);
                }
            }
        }
    }
}

pub proof fn lemma_free_in_empty(path: Seq<Seq<u8>>)
    ensures
        is_free(Seq::empty(), path),
{
    lemma_place(Seq::<(Seq<u8>, NodeView)>::empty(), path[0]);
}

proof fn lemma_nothing_in_empty(path: Seq<Seq<u8>>)
    ensures
        found(Seq::empty(), path) is None,
{
    lemma_place(Seq::<(Seq<u8>, NodeView)>::empty(), path[0]);
}

/// A path is free if no file stands on the way to it.
proof fn lemma_free(dir: Seq<(Seq<u8>, NodeView)>, path: Seq<Seq<u8>>)
    requires
        forall|way: Seq<Seq<u8>>| #[trigger] leads_to(way, path) ==> !is_file_at(dir, way),
    ensures
        is_free(dir, path),
    decreases path.len(),
{
    if path.len() > 1 {
        let rest = path.drop_first();
        let first = path.take(1);
        assert(leads_to(first, path));
        assert(!is_file_at(dir, first));
        match slot_of(dir, path[0]) {
            Some(NodeView::Tree(sub)) => {
                assert forall|way: Seq<Seq<u8>>| #[trigger] leads_to(way, rest) implies !is_file_at(
                    sub,
                    way,
                ) by {
                    let full = seq![path[0]] + way;
                    assert(full.drop_first() =~= way);
                    assert(path.take(full.len() as int) =~= seq![path[0]] + rest.take(
                        way.len() as int,
                    ));
                    assert(leads_to(full, path));
                    assert(!is_file_at(dir, full));
                    if way.len() == 0 {
                        assert(found(sub, way) is None);
                    }
                }
                lemma_free(sub, rest);
            },
            _ => {},
        }
    }
}

pub proof fn lemma_built(entries: Seq<IndexEntry<Seq<u8>>>)
    requires
        is_conflict_free(entries),
    ensures
        forall|path: Seq<Seq<u8>>| #[trigger]
            is_file_at(built(entries), path) ==> exists|i: int|
                0 <= i < entries.len() && split((#[trigger] entries[i]).path, SLASH) == path && found(
                    built(entries),
                    path,
                ) == Some(NodeView::Blob { oid: entries[i].oid, mode: entries[i].mode }),
        entries.len() > 0 ==> is_free(
            built(entries.drop_last()),
            split(entries.last().path, SLASH),
        ),
    decreases entries.len(),
{
    if entries.len() == 0 {
        assert forall|path: Seq<Seq<u8>>| !#[trigger] is_file_at(built(entries), path) by {
            lemma_nothing_in_empty(path);
        }
    } else {
        let before = entries.drop_last();
        let e = entries.last();
        let parts = split(e.path, SLASH);
        assert(is_conflict_free(before)) by {
            assert forall|i: int, j: int| 0 <= i < before.len() && 0 <= j < before.len() implies
                !spec_is_parent_path((#[trigger] before[i]).path, (#[trigger] before[j]).path) by {
                assert(before[i] == entries[i] && before[j] == entries[j]);
            }
        }
        lemma_built(before);
        assert forall|way: Seq<Seq<u8>>| #[trigger] leads_to(way, parts) implies !is_file_at(
            built(before),
            way,
        ) by {
            if is_file_at(built(before), way) {
                let i = choose|i: int|
                    0 <= i < before.len() && split((#[trigger] before[i]).path, SLASH) == way;
                lemma_parts_of_parent(entries[i].path, e.path);
                assert(entries[entries.len() - 1] == e);
            }
        }
        lemma_free(built(before), parts);
        assert(parts.len() > 0);
        assert forall|path: Seq<Seq<u8>>| #[trigger] is_file_at(built(entries), path) implies exists|
            i: int,
        |
            0 <= i < entries.len() && split((#[trigger] entries[i]).path, SLASH) == path && found(
                built(entries),
                path,
            ) == Some(NodeView::Blob { oid: entries[i].oid, mode: entries[i].mode }) by {
            lemma_planted(built(before), parts, e.oid, e.mode, path);
            if path == parts {
                assert(split(entries[entries.len() - 1].path, SLASH) == path);
            } else {
                assert(is_file_at(built(before), path));
                let i = choose|i: int|
                    0 <= i < before.len() && split((#[trigger] before[i]).path, SLASH) == path
                        && found(built(before), path) == Some(
                        NodeView::Blob { oid: before[i].oid, mode: before[i].mode },
                    );
                assert(entries[i] == before[i]);
            }
        }
    }
}

/// The tree holds the files of the index: each entry stands at its path, with its id and its mode,
/// and no other file stands anywhere.
pub proof fn tree_holds_the_index(entries: Seq<IndexEntry<Seq<u8>>>)
    requires
        is_sorted(entries),
        is_conflict_free(entries),
    ensures
        forall|i: int|
            0 <= i < entries.len() ==> found(
                built(entries),
                split((#[trigger] entries[i]).path, SLASH),
            ) == Some(NodeView::Blob { oid: entries[i].oid, mode: entries[i].mode }),
        forall|path: Seq<Seq<u8>>| #[trigger]
            is_file_at(built(entries), path) ==> exists|i: int|
                0 <= i < entries.len() && split((#[trigger] entries[i]).path, SLASH) == path,
    decreases entries.len(),
{
    lemma_built(entries);
    if entries.len() > 0 {
        let before = entries.drop_last();
        let e = entries.last();
        let parts = split(e.path, SLASH);
        assert forall|i: int, j: int| 0 <= i < before.len() && 0 <= j < before.len() implies
            !spec_is_parent_path((#[trigger] before[i]).path, (#[trigger] before[j]).path) by {
            assert(before[i] == entries[i] && before[j] == entries[j]);
        }
        assert forall|i: int, j: int| 0 <= i < j < before.len() implies lex_less(
            (#[trigger] before[i]).path,
            (#[trigger] before[j]).path,
        ) by {
            assert(before[i] == entries[i] && before[j] == entries[j]);
        }
        tree_holds_the_index(before);
        assert forall|i: int| 0 <= i < entries.len() implies found(
            built(entries),
            split((#[trigger] entries[i]).path, SLASH),
        ) == Some(NodeView::Blob { oid: entries[i].oid, mode: entries[i].mode }) by {
            let path = split(entries[i].path, SLASH);
            lemma_planted(built(before), parts, e.oid, e.mode, path);
            if i < before.len() {
                assert(before[i] == entries[i]);
                let last = entries.len() - 1;
                assert(lex_less(entries[i].path, entries[last].path));
                if path == parts {
                    lemma_parts_injective(entries[i].path, e.path);
                    lemma_lex_irreflexive(e.path);
                }
                if leads_to(parts, path) {
                    lemma_parts_of_parent(e.path, entries[i].path);
                    assert(spec_is_parent_path(entries[last].path, entries[i].path));
                }
            }
        }
    }
}

pub proof fn lemma_parts(b: Seq<u8>)
    ensures
        split(b, SLASH).len() > 0,
        0 <= until(b, SLASH) <= b.len(),
        split(b, SLASH)[0] == b.take(until(b, SLASH)),
        until(b, SLASH) < b.len() ==> b[until(b, SLASH)] == SLASH && split(b, SLASH).drop_first()
            == split(b.skip(until(b, SLASH) + 1), SLASH) && split(b, SLASH).len() > 1,
        until(b, SLASH) == b.len() ==> split(b, SLASH).len() == 1,
{
    lemma_until(b, SLASH);
    let n = until(b, SLASH);
    if n < b.len() {
        let rest = split(b.skip(n + 1), SLASH);
        assert(split(b, SLASH) == seq![b.take(n)] + rest);
        assert(split(b, SLASH).drop_first() =~= rest);
        assert(rest.len() > 0);
    } else {
        assert(b.take(n) =~= b);
    }
}

proof fn lemma_parts_injective(a: Seq<u8>, b: Seq<u8>)
    requires
        split(a, SLASH) == split(b, SLASH),
    ensures
        a == b,
    decreases a.len(),
{
    lemma_parts(a);
    lemma_parts(b);
    let n = until(a, SLASH);
    let m = until(b, SLASH);
    assert(a.take(n).len() == n && b.take(m).len() == m);
    if n < a.len() {
        lemma_parts_injective(a.skip(n + 1), b.skip(m + 1));
        assert(a =~= a.take(n) + seq![SLASH] + a.skip(n + 1));
        assert(b =~= b.take(m) + seq![SLASH] + b.skip(m + 1));
    } else {
        assert(a =~= a.take(n));
        assert(b =~= b.take(m));
    }
}

/// A path whose components are the first ones of another path is a parent of it.
proof fn lemma_parts_of_parent(a: Seq<u8>, b: Seq<u8>)
    requires
        leads_to(split(a, SLASH), split(b, SLASH)),
    ensures
        spec_is_parent_path(a, b),
    decreases a.len(),
{
    lemma_parts(a);
    lemma_parts(b);
    let n = until(a, SLASH);
    let m = until(b, SLASH);
    let pa = split(a, SLASH);
    let pb = split(b, SLASH);
    assert(pb.take(pa.len() as int)[0] == pb[0]);
    assert(a.take(n).len() == n && b.take(m).len() == m);
    if n < a.len() {
        let ra = a.skip(n + 1);
        let rb = b.skip(m + 1);
        assert(split(rb, SLASH).take(split(ra, SLASH).len() as int) =~= pb.take(
            pa.len() as int,
        ).drop_first());
        lemma_parts_of_parent(ra, rb);
        assert(b.take(n) == a.take(n));
        assert forall|i: int| 0 <= i < a.len() implies b[i] == a[i] by {
            if i < n {
                assert(a.take(n)[i] == b.take(n)[i]);
            } else if i > n {
                assert(ra[i - n - 1] == rb.take(ra.len() as int)[i - n - 1]);
            }
        }
        assert(b.take(a.len() as int) =~= a);
        assert(b[a.len() as int] == rb[ra.len() as int]);
    } else {
        assert(a =~= a.take(n));
        assert(b.take(a.len() as int) =~= a);
    }
}

} // verus!
