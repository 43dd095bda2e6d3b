//! `commit`: the next commit, and the refresh of the index that comes before it.

use crate::index::{Index, IndexEntry};
use crate::object::oid::Oid;
use crate::object::{self, Signature};
use crate::os::StatNode;
use crate::report::laws::{is_untouched, looks_alike};
use crate::report::{compare_stat, is_content_wanted, is_staged_blob, Comparison};
use crate::tree_builder::built;
use vstd::prelude::*;
use vstd::string::*;

verus! {

/// The entries, among the first `n`, of files that were touched but not changed. `nodes` tells what
/// is at the path of each entry, `ids` the id of the contents where they had to be looked at.
pub open spec fn touched(
    entries: Seq<IndexEntry<Seq<u8>>>,
    nodes: Seq<Option<StatNode>>,
    ids: Seq<Option<Oid>>,
    n: int,
) -> Seq<(usize, StatNode)>
    decreases n,
{
    if n <= 0 {
        Seq::empty()
    } else {
        let before = touched(entries, nodes, ids, n - 1);
        if is_content_wanted(entries[n - 1], nodes[n - 1]) && is_staged_blob(
            entries[n - 1],
            ids[n - 1],
        ) {
            before.push(((n - 1) as usize, nodes[n - 1]->0))
        } else {
            before
        }
    }
}

/// The entries with new statistics at some places.
pub open spec fn with_stats(
    entries: Seq<IndexEntry<Seq<u8>>>,
    refreshes: Seq<(usize, StatNode)>,
) -> Seq<IndexEntry<Seq<u8>>>
    decreases refreshes.len(),
{
    if refreshes.len() == 0 {
        entries
    } else {
        let before = with_stats(entries, refreshes.drop_last());
        let (at, node) = refreshes.last();
        before.update(at as int, IndexEntry { stat: node.stat, ..before[at as int] })
    }
}

/// Does the file at an entry's path have to be read? Not if there is none, and not if the
/// statistics tell enough.
pub fn content_wanted(entry: &IndexEntry, node: Option<StatNode>) -> (r: bool)
    ensures
        r == is_content_wanted(entry@, node),
        r <==> (node matches Some(n) && looks_alike(entry@, n) && !is_untouched(entry@, n)),
{
    match node {
        None => false,
        Some(node) => compare_stat(entry, &node) == Comparison::Unknown,
    }
}

/// The entries whose statistics can be brought up to date: those of files that were touched but
/// not changed.
pub fn index_background_refreshing(
    index: &Index,
    nodes: &Vec<Option<StatNode>>,
    ids: &Vec<Option<Oid>>,
) -> (r: Vec<(usize, StatNode)>)
    requires
        nodes@.len() == index@.len(),
        ids@.len() == index@.len(),
    ensures
        r@ == touched(index@, nodes@, ids@, index@.len() as int),
        forall|i: int| 0 <= i < r@.len() ==> (#[trigger] r@[i]).0 < index@.len(),
{
    let mut refreshes: Vec<(usize, StatNode)> = Vec::new();
    let mut i: usize = 0;
    while i < index.entries.len()
        invariant
            i <= index@.len(),
            nodes@.len() == index@.len(),
            ids@.len() == index@.len(),
            refreshes@ == touched(index@, nodes@, ids@, i as int),
            forall|j: int| 0 <= j < refreshes@.len() ==> (#[trigger] refreshes@[j]).0 < index@.len(),
        decreases index@.len() - i,
    {
        let entry = &index.entries[i];
        assert(entry@ == index@[i as int]);
        if content_wanted(entry, nodes[i]) {
            if let Some(oid) = ids[i] {
                if oid.same_as(&entry.oid) {
                    if let Some(node) = nodes[i] {
                        refreshes.push((i, node));
                    }
                }
            }
        }
        i = i + 1;
    }
    refreshes
}

/// Brings the statistics of some entries up to date.
pub fn refresh(index: &mut Index, refreshes: &Vec<(usize, StatNode)>)
    requires
        old(index).wf(),
        forall|i: int| 0 <= i < refreshes@.len() ==> (#[trigger] refreshes@[i]).0 < old(index)@.len(),
    ensures
        final(index).wf(),
        final(index)@ == with_stats(old(index)@, refreshes@),
        final(index).path == old(index).path,
        final(index).modified == old(index).modified,
{
    let mut i: usize = 0;
    assert(refreshes@.take(0) =~= Seq::<(usize, StatNode)>::empty());
    while i < refreshes.len()
        invariant
            i <= refreshes@.len(),
            index.wf(),
            index@.len() == old(index)@.len(),
            forall|j: int|
                0 <= j < refreshes@.len() ==> (#[trigger] refreshes@[j]).0 < old(index)@.len(),
            index@ == with_stats(old(index)@, refreshes@.take(i as int)),
            index.path == old(index).path,
            index.modified == old(index).modified,
        decreases refreshes@.len() - i,
    {
        let (at, node) = refreshes[i];
        assert(refreshes@[i as int] == (at, node));
        assert(refreshes@.take(i + 1).drop_last() =~= refreshes@.take(i as int));
        index.refresh_entry_stat(at, node.stat);
        i = i + 1;
    }
    assert(refreshes@.take(i as int) =~= refreshes@);
}

/// A refresh changes statistics and nothing else: the paths, modes and ids stay, and so does the
/// tree that the next commit records.
pub proof fn refreshing_keeps_contents(
    entries: Seq<IndexEntry<Seq<u8>>>,
    refreshes: Seq<(usize, StatNode)>,
)
    requires
        forall|i: int| 0 <= i < refreshes.len() ==> (#[trigger] refreshes[i]).0 < entries.len(),
    ensures
        with_stats(entries, refreshes).len() == entries.len(),
        forall|i: int|
            0 <= i < entries.len() ==> (#[trigger] with_stats(entries, refreshes)[i]) == (
            IndexEntry { stat: with_stats(entries, refreshes)[i].stat, ..entries[i] }),
        built(with_stats(entries, refreshes)) == built(
            entries,
        ),
    decreases refreshes.len(),
{
    if refreshes.len() > 0 {
        let fewer = refreshes.drop_last();
        assert forall|i: int| 0 <= i < fewer.len() implies (#[trigger] fewer[i]).0
            < entries.len() by {
            assert(fewer[i] == refreshes[i]);
        }
        refreshing_keeps_contents(entries, fewer);
        let before = with_stats(entries, fewer);
        let (at, node) = refreshes.last();
        assert(refreshes[refreshes.len() - 1].0 < entries.len());
        let after = with_stats(entries, refreshes);
        assert forall|i: int| 0 <= i < entries.len() implies (#[trigger] after[i]) == (IndexEntry {
            stat: after[i].stat,
            ..entries[i]
        }) by {
            assert(before[i] == (IndexEntry { stat: before[i].stat, ..entries[i] }));
        }
        lemma_built_by_contents(entries, after);
    }
}

proof fn lemma_built_by_contents(a: Seq<IndexEntry<Seq<u8>>>, b: Seq<IndexEntry<Seq<u8>>>)
    requires
        a.len() == b.len(),
        forall|i: int|
            0 <= i < a.len() ==> (#[trigger] b[i]) == (IndexEntry { stat: b[i].stat, ..a[i] }),
    ensures
        built(a) == built(b),
    decreases a.len(),
{
    if a.len() > 0 {
        assert forall|i: int| 0 <= i < a.drop_last().len() implies (#[trigger] b.drop_last()[i]) == (
        IndexEntry { stat: b.drop_last()[i].stat, ..a.drop_last()[i] }) by {
            assert(b[i] == (IndexEntry { stat: b[i].stat, ..a[i] }));
        }
        lemma_built_by_contents(a.drop_last(), b.drop_last());
        assert(b[b.len() - 1] == (IndexEntry { stat: b[b.len() - 1].stat, ..a[a.len() - 1] }));
    }
}

/// The `commit` command.
#[derive(Debug)]
pub struct Commit;

impl Commit {
    /// The commit of a tree, behind those in `parents`.
    pub fn execute(author: Signature, committer: Signature, parents: Vec<Oid>, root_id: Oid) -> (r:
        object::Commit)
        ensures
            r.author == author,
            r.committer == committer,
            r.parents == parents,
            r.root_id == root_id,
            r.message@ == "hey"@,
    {
        object::Commit { author, committer, parents, message: "hey".to_owned(), root_id }
    }
}

/// The entries that are brought up to date before a commit are those of files that were touched but
/// have the size, the mode and the contents that are staged; each gets what the workspace has.
pub proof fn touched_entries_are_exact(
    entries: Seq<IndexEntry<Seq<u8>>>,
    nodes: Seq<Option<StatNode>>,
    ids: Seq<Option<Oid>>,
    n: int,
    i: int,
    node: StatNode,
)
    requires
        0 <= n <= entries.len() <= usize::MAX,
        0 <= i < entries.len(),
    ensures
        touched(entries, nodes, ids, n).contains((i as usize, node)) <==> i < n && nodes[i] == Some(
            node,
        ) && looks_alike(entries[i], node) && !is_untouched(entries[i], node) && (
        ids[i] matches Some(id) && id@ == entries[i].oid@),
    decreases n,
{
    if n > 0 {
        touched_entries_are_exact(entries, nodes, ids, n - 1, i, node);
        let before = touched(entries, nodes, ids, n - 1);
        let after = touched(entries, nodes, ids, n);
        let entry = (i as usize, node);
        if before.contains(entry) {
            let k = choose|k: int| 0 <= k < before.len() && before[k] == entry;
            assert(after[k] == entry);
        }
        if after.contains(entry) {
            let k = choose|k: int| 0 <= k < after.len() && after[k] == entry;
            if k < before.len() {
                assert(before[k] == entry);
            }
        }
        if i == n - 1 && after.len() > before.len() {
            assert(after.last() == (i as usize, nodes[i]->0));
        }
    }
}

/// After a refresh an entry has the statistics of the last refresh of its place, and the others have
/// what they had.
pub proof fn refreshing_sets_the_statistics(
    entries: Seq<IndexEntry<Seq<u8>>>,
    refreshes: Seq<(usize, StatNode)>,
    i: int,
)
    requires
        0 <= i < entries.len(),
        forall|k: int| 0 <= k < refreshes.len() ==> (#[trigger] refreshes[k]).0 < entries.len(),
    ensures
        forall|k: int|
            0 <= k < refreshes.len() && (#[trigger] refreshes[k]).0 == i && (forall|l: int|
                k < l < refreshes.len() ==> (#[trigger] refreshes[l]).0 != i) ==> with_stats(
                entries,
                refreshes,
            )[i].stat == refreshes[k].1.stat,
        (forall|k: int| 0 <= k < refreshes.len() ==> (#[trigger] refreshes[k]).0 != i)
            ==> with_stats(entries, refreshes)[i] == entries[i],
    decreases refreshes.len(),
{
    if refreshes.len() > 0 {
        let fewer = refreshes.drop_last();
        let last = refreshes.len() - 1;
        assert forall|k: int| 0 <= k < fewer.len() implies #[trigger] fewer[k] == refreshes[k] by {}
        refreshing_sets_the_statistics(entries, fewer, i);
        refreshing_keeps_contents(entries, fewer);
        let before = with_stats(entries, fewer);
        let after = with_stats(entries, refreshes);
        assert(refreshes[last] == refreshes.last());
        assert(refreshes[last].0 != i ==> after[i] == before[i]);
        assert forall|k: int|
            0 <= k < refreshes.len() && (#[trigger] refreshes[k]).0 == i && (forall|l: int|
                k < l < refreshes.len() ==> (#[trigger] refreshes[l]).0 != i) implies after[i].stat
            == refreshes[k].1.stat by {
            if k < last {
                assert(refreshes[last].0 != i);
                assert(fewer[k] == refreshes[k]);
                assert forall|l: int| k < l < fewer.len() implies (#[trigger] fewer[l]).0 != i by {
                    assert(fewer[l] == refreshes[l]);
                }
            }
        }
        if forall|k: int| 0 <= k < refreshes.len() ==> (#[trigger] refreshes[k]).0 != i {
            assert(refreshes[last].0 != i);
            assert forall|k: int| 0 <= k < fewer.len() implies (#[trigger] fewer[k]).0 != i by {
                assert(fewer[k] == refreshes[k]);
            }
        }
    }
}

} // verus!
