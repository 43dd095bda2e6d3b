//! The order of the names in a tree.

use crate::bytes::{
    has_prefix, lemma_lex_common, lemma_lex_irreflexive, lemma_lex_transitive, lemma_until,
    lex_less, until, SLASH,
};
use crate::index::{is_conflict_free, is_sorted, IndexEntry};
use crate::object::mode::Mode;
use crate::object::oid::Oid;
use crate::repo_path::{spec_is_parent_path, split};
use crate::tree_builder::{
    built, dir_at, is_free, lemma_built, lemma_free_in_empty, lemma_parts, lemma_place, place,
    planted, slot_of, with_slot, NodeView,
};
use vstd::prelude::*;

verus! {

/// What a name is ordered by: the name of a directory counts with a slash behind it.
pub open spec fn sort_key(name: Seq<u8>, is_dir: bool) -> Seq<u8> {
    if is_dir {
        name.push(SLASH)
    } else {
        name
    }
}

pub open spec fn slot_key(slot: (Seq<u8>, NodeView)) -> Seq<u8> {
    sort_key(slot.0, slot.1 is Tree)
}

/// The names ascend, in this directory and in all below it.
pub open spec fn is_ordered(dir: Seq<(Seq<u8>, NodeView)>) -> bool
    decreases dir,
{
    &&& forall|i: int, j: int|
        0 <= i < j < dir.len() ==> lex_less(
            slot_key(#[trigger] dir[i]),
            slot_key(#[trigger] dir[j]),
        )
    &&& forall|i: int| 0 <= i < dir.len() ==> is_node_ordered((#[trigger] dir[i]).1)
}

pub open spec fn is_node_ordered(node: NodeView) -> bool
    decreases node,
{
    match node {
        NodeView::Blob { .. } => true,
        NodeView::Tree(dir) => is_ordered(dir),
    }
}

/// The key of the first component of a path.
spec fn head_key(path: Seq<Seq<u8>>) -> Seq<u8> {
    sort_key(path[0], path.len() > 1)
}

/// One path stands before another: at the first component in which they differ.
spec fn precedes(a: Seq<Seq<u8>>, b: Seq<Seq<u8>>) -> bool
    decreases a.len(),
{
    a.len() > 0 && b.len() > 0 && (lex_less(head_key(a), head_key(b)) || (a.len() > 1 && b.len() > 1
        && a[0] == b[0] && precedes(a.drop_first(), b.drop_first())))
}

/// All files of a directory stand before a path.
spec fn all_precede(dir: Seq<(Seq<u8>, NodeView)>, path: Seq<Seq<u8>>) -> bool
    decreases path.len(), 1int,
{
    forall|i: int| 0 <= i < dir.len() ==> slot_precedes(#[trigger] dir[i], path)
}

spec fn slot_precedes(slot: (Seq<u8>, NodeView), path: Seq<Seq<u8>>) -> bool
    decreases path.len(), 0int,
{
    path.len() > 0 && (lex_less(slot_key(slot), head_key(path)) || (slot.1 matches NodeView::Tree(
        sub,
    ) && path.len() > 1 && slot.0 == path[0] && all_precede(sub, path.drop_first())))
}

proof fn lemma_slot_precedes(slot: (Seq<u8>, NodeView), path: Seq<Seq<u8>>, next: Seq<Seq<u8>>)
    requires
        slot_precedes(slot, path),
        precedes(path, next),
    ensures
        slot_precedes(slot, next),
    decreases path.len(),
{
    if lex_less(head_key(path), head_key(next)) {
        if lex_less(slot_key(slot), head_key(path)) {
            lemma_lex_transitive(slot_key(slot), head_key(path), head_key(next));
        }
    } else if !lex_less(slot_key(slot), head_key(path)) {
        let sub = slot.1->Tree_0;
        let rest = path.drop_first();
        assert forall|i: int| 0 <= i < sub.len() implies slot_precedes(
            #[trigger] sub[i],
            next.drop_first(),
        ) by {
            lemma_slot_precedes(sub[i], rest, next.drop_first());
        }
    }
}

/// A file that stands behind all others keeps the order, and stands before whatever its path
/// stands before.
proof fn lemma_planted_last(
    dir: Seq<(Seq<u8>, NodeView)>,
    path: Seq<Seq<u8>>,
    oid: Oid,
    mode: Mode,
)
    requires
        path.len() > 0,
        is_free(dir, path),
        is_ordered(dir),
        all_precede(dir, path),
    ensures
        is_ordered(planted(dir, path, oid, mode)),
        forall|next: Seq<Seq<u8>>| #[trigger]
            precedes(path, next) ==> all_precede(planted(dir, path, oid, mode), next),
    decreases path.len(),
{
    let name = path[0];
    let rest = path.drop_first();
    let at = place(dir, name);
    let after = planted(dir, path, oid, mode);
    lemma_place(dir, name);
    lemma_lex_irreflexive(name);
    lemma_lex_irreflexive(name.push(SLASH));
    lemma_dir_not_before_file(name);
    let node = if path.len() == 1 {
        NodeView::Blob { oid, mode }
    } else {
        NodeView::Tree(planted(dir_at(dir, name), rest, oid, mode))
    };
    assert(after == with_slot(dir, name, node));
    if at < dir.len() {
        assert(slot_precedes(dir[at], path));
        assert(path.len() > 1);
        assert(slot_of(dir, name) == Some(dir[at].1));
        assert(is_node_ordered(dir[at].1));
        lemma_planted_last(dir_at(dir, name), rest, oid, mode);
        assert(slot_key(after[at]) == slot_key(dir[at]));
        assert forall|i: int, j: int| 0 <= i < j < after.len() implies lex_less(
            slot_key(#[trigger] after[i]),
            slot_key(#[trigger] after[j]),
        ) by {
            assert(slot_key(after[i]) == slot_key(dir[i]));
            assert(slot_key(after[j]) == slot_key(dir[j]));
        }
        assert forall|i: int| 0 <= i < after.len() implies is_node_ordered(
            (#[trigger] after[i]).1,
        ) by {
            if i != at {
                assert(after[i] == dir[i]);
            }
        }
    } else {
        if path.len() > 1 {
            lemma_free_in_empty(rest);
            lemma_planted_last(Seq::empty(), rest, oid, mode);
        }
        assert forall|i: int, j: int| 0 <= i < j < after.len() implies lex_less(
            slot_key(#[trigger] after[i]),
            slot_key(#[trigger] after[j]),
        ) by {
            assert(after[i] == dir[i]);
            if j < dir.len() {
                assert(after[j] == dir[j]);
            } else {
                assert(slot_precedes(dir[i], path));
            }
        }
        assert forall|i: int| 0 <= i < after.len() implies is_node_ordered(
            (#[trigger] after[i]).1,
        ) by {
            if i < dir.len() {
                assert(after[i] == dir[i]);
            }
        }
    }
    assert forall|next: Seq<Seq<u8>>| #[trigger] precedes(path, next) implies all_precede(
        after,
        next,
    ) by {
        assert forall|i: int| 0 <= i < after.len() implies slot_precedes(
            #[trigger] after[i],
            next,
        ) by {
            if i == at {
                if !lex_less(head_key(path), head_key(next)) {
                    assert(precedes(rest, next.drop_first()));
                }
            } else {
                assert(after[i] == dir[i]);
                lemma_slot_precedes(dir[i], path, next);
            }
        }
    }
}

proof fn lemma_dir_not_before_file(name: Seq<u8>)
    ensures
        !lex_less(name.push(SLASH), name),
{
    lemma_prefix_not_after(name, name.push(SLASH));
}

/// A byte string does not come before its prefixes.
proof fn lemma_prefix_not_after(prefix: Seq<u8>, b: Seq<u8>)
    requires
        prefix.len() <= b.len(),
        b.take(prefix.len() as int) =~= prefix,
    ensures
        !lex_less(b, prefix),
{
    let n = prefix.len() as int;
    assert forall|j: int| 0 <= j < n implies b[j] == prefix[j] by {
        assert(b.take(n)[j] == prefix[j]);
    }
    lemma_lex_common(b, prefix, n);
    assert(prefix.skip(n).len() == 0);
}

/// The order of two byte strings is that of their heads, unless one head starts with the other.
proof fn lemma_heads(head: Seq<u8>, tail: Seq<u8>, other: Seq<u8>, rest: Seq<u8>)
    requires
        lex_less(head + tail, other + rest),
    ensures
        lex_less(head, other) || has_prefix(head, other),
    decreases head.len(),
{
    if other.len() == 0 {
        assert(head.take(0) =~= other);
    } else if head.len() > 0 {
        assert((head + tail)[0] == head[0]);
        assert((other + rest)[0] == other[0]);
        if head[0] == other[0] {
            assert((head + tail).drop_first() =~= head.drop_first() + tail);
            assert((other + rest).drop_first() =~= other.drop_first() + rest);
            lemma_heads(head.drop_first(), tail, other.drop_first(), rest);
            if has_prefix(head.drop_first(), other.drop_first()) {
                assert(head.take(other.len() as int) =~= seq![head[0]] + head.drop_first().take(
                    other.len() - 1,
                ));
                assert(other =~= seq![other[0]] + other.drop_first());
            }
        }
    }
}

proof fn lemma_head_key(b: Seq<u8>)
    ensures
        b == head_key(split(b, SLASH)) + (if until(b, SLASH) < b.len() {
            b.skip(until(b, SLASH) + 1)
        } else {
            Seq::empty()
        }),
{
    lemma_parts(b);
    let n = until(b, SLASH);
    if n < b.len() {
        assert(b =~= b.take(n).push(SLASH) + b.skip(n + 1));
    } else {
        assert(b =~= b.take(n) + Seq::<u8>::empty());
    }
}

/// Paths in ascending order stand before each other.
proof fn lemma_precedes(a: Seq<u8>, b: Seq<u8>)
    requires
        lex_less(a, b),
    ensures
        precedes(split(a, SLASH), split(b, SLASH)),
    decreases a.len(),
{
    let n = until(a, SLASH);
    let m = until(b, SLASH);
    let pa = split(a, SLASH);
    let pb = split(b, SLASH);
    lemma_parts(a);
    lemma_parts(b);
    lemma_until(a, SLASH);
    lemma_until(b, SLASH);
    lemma_head_key(a);
    lemma_head_key(b);
    let ka = head_key(pa);
    let kb = head_key(pb);
    let ra = if n < a.len() {
        a.skip(n + 1)
    } else {
        Seq::empty()
    };
    let rb = if m < b.len() {
        b.skip(m + 1)
    } else {
        Seq::empty()
    };
    lemma_heads(ka, ra, kb, rb);
    if !lex_less(ka, kb) {
        assert(ka.take(kb.len() as int) == kb);
        assert(a.take(kb.len() as int) =~= kb);
        if m == b.len() {
            lemma_prefix_not_after(b, a);
        } else {
            assert(kb[m] == SLASH);
            assert(a.take(kb.len() as int)[m] == a[m]);
            assert(n <= m);
            if n < m {
                assert(a.take(kb.len() as int)[n] == a[n]);
                assert(kb[n] == b[n]);
            }
            assert(n == m);
            assert(ka =~= kb);
            assert(a.take(n) =~= ka.take(n));
            assert(b.take(n) =~= kb.take(n));
            assert(pa[0] == pb[0]);
            assert forall|j: int| 0 <= j < n + 1 implies a[j] == b[j] by {
                assert(ka[j] == kb[j]);
            }
            lemma_lex_common(a, b, n + 1);
            lemma_precedes(ra, rb);
        }
    }
}

proof fn lemma_built_ordered(entries: Seq<IndexEntry<Seq<u8>>>)
    requires
        is_sorted(entries),
        is_conflict_free(entries),
    ensures
        is_ordered(built(entries)),
        entries.len() > 0 ==> forall|next: Seq<Seq<u8>>| #[trigger]
            precedes(split(entries.last().path, SLASH), next) ==> all_precede(built(entries), next),
    decreases entries.len(),
{
    if entries.len() > 0 {
        let before = entries.drop_last();
        let e = entries.last();
        let parts = split(e.path, SLASH);
        assert forall|i: int, j: int| 0 <= i < before.len() && 0 <= j < before.len() implies
            !spec_is_parent_path((#[trigger] before[i]).path, (#[trigger] before[j]).path) by {
            assert(before[i] == entries[i] && before[j] == entries[j]);
        }
        assert forall|i: int, j: int| 0 <= i < j < before.len() implies lex_less(
            (#[trigger] before[i]).path,
            (#[trigger] before[j]).path,
        ) by {
            assert(before[i] == entries[i] && before[j] == entries[j]);
        }
        lemma_built_ordered(before);
        lemma_built(entries);
        lemma_parts(e.path);
        if before.len() > 0 {
            let last = before.len() - 1;
            assert(before[last] == entries[last]);
            assert(lex_less(entries[last].path, entries[last + 1].path));
            lemma_precedes(before.last().path, e.path);
        }
        assert(all_precede(built(before), parts));
        lemma_planted_last(built(before), parts, e.oid, e.mode);
    }
}

/// The names in every tree that is built from the index ascend, where the name of a directory
/// counts with a slash behind it.
pub proof fn trees_are_ordered(entries: Seq<IndexEntry<Seq<u8>>>)
    requires
        is_sorted(entries),
        is_conflict_free(entries),
    ensures
        is_ordered(built(entries)),
{
    lemma_built_ordered(entries);
}

} // verus!
