//! What the operations on the index mean, path by path and byte by byte.

use crate::add::staged;
use crate::bytes::{lemma_ascii_text, lemma_lex_irreflexive, lemma_lex_transitive, lex_less, text};
use crate::digest::sha1_of;
use crate::index::laws::{
    adding_again_changes_nothing, adding_keeps_invariants, adding_one_keeps_invariants,
    lemma_added_one_contains, lemma_lower_bound_exists,
};
use crate::index::parse::index_entry_of;
use crate::index::{
    added, added_one, be16, be32, entries_bytes, entry_bytes, has_path, index_bytes, index_content,
    is_conflict, is_conflict_free, is_lower_bound, is_sorted, lemma_entries_push,
    lemma_filter_sorted, load_entries, loaded, lower_bound_of, owner_bytes, padding,
    spec_is_tracked, times_bytes, u32_at, without_conflicts, zeros, IndexEntry,
};
use crate::object::mode::Mode;
use crate::os::FileStat;
use crate::repo_path::spec_is_parent_path;
use vstd::prelude::*;
use vstd::string::*;

verus! {

/// `path` stands in the directory `dir`, at any depth: a slash and more come behind the name of the
/// directory.
pub open spec fn lies_in(path: Seq<u8>, dir: Seq<u8>) -> bool {
    exists|rest: Seq<u8>| path == dir + seq![0x2fu8] + #[trigger] as_rest(rest)
}

pub open spec fn as_rest(rest: Seq<u8>) -> Seq<u8> {
    rest
}

/// A path lies in the directories that it goes through, and in no others: `lib` has nothing to do
/// with `library/doc`.
pub proof fn parents_end_at_slashes(parent: Seq<u8>, child: Seq<u8>)
    ensures
        spec_is_parent_path(parent, child) <==> lies_in(child, parent),
{
    let n = parent.len() as int;
    if spec_is_parent_path(parent, child) {
        let rest = child.skip(n + 1);
        assert(child =~= parent + seq![0x2fu8] + as_rest(rest));
    }
    if lies_in(child, parent) {
        let rest = choose|rest: Seq<u8>| child == parent + seq![0x2fu8] + #[trigger] as_rest(rest);
        assert(child.take(n) =~= parent);
    }
}

/// A path is tracked if it is in the index, or if something in the index lies in it.
pub proof fn tracked_means_in_the_index(entries: Seq<IndexEntry<Seq<u8>>>, path: Seq<u8>)
    ensures
        spec_is_tracked(entries, path) <==> exists|i: int|
            0 <= i < entries.len() && ((#[trigger] entries[i]).path == path || lies_in(
                entries[i].path,
                path,
            )),
{
    assert forall|i: int| 0 <= i < entries.len() implies spec_is_parent_path(
        path,
        (#[trigger] entries[i]).path,
    ) == lies_in(entries[i].path, path) by {
        parents_end_at_slashes(path, entries[i].path);
    }
}

/// After an entry is added, the index holds it and, of what it held, all that has another path and
/// that is neither a directory on the way to it nor in a directory of its name.
pub proof fn adding_puts_one_entry_in(
    entries: Seq<IndexEntry<Seq<u8>>>,
    e: IndexEntry<Seq<u8>>,
    x: IndexEntry<Seq<u8>>,
)
    requires
        is_sorted(entries),
    ensures
        added_one(entries, e).0.contains(x) <==> x == e || (entries.contains(x) && x.path != e.path
            && !lies_in(x.path, e.path) && !lies_in(e.path, x.path)),
{
    let after = added_one(entries, e).0;
    parents_end_at_slashes(x.path, e.path);
    parents_end_at_slashes(e.path, x.path);
    adding_one_keeps_invariants(entries, e);
    lemma_added_one_contains(entries, e, x);
    if after.contains(x) && x != e {
        let i = choose|i: int| 0 <= i < after.len() && after[i] == x;
        let j = choose|j: int| 0 <= j < after.len() && after[j] == e;
        lemma_lex_irreflexive(e.path);
        if i < j {
            assert(lex_less(after[i].path, after[j].path));
        } else {
            assert(lex_less(after[j].path, after[i].path));
        }
        lemma_conflicts_are_gone(entries, e, x);
    }
}

proof fn lemma_conflicts_are_gone(
    entries: Seq<IndexEntry<Seq<u8>>>,
    e: IndexEntry<Seq<u8>>,
    x: IndexEntry<Seq<u8>>,
)
    requires
        is_sorted(entries),
        x != e,
        added_one(entries, e).0.contains(x),
    ensures
        !is_conflict(x.path, e.path),
{
    let keep = |x: IndexEntry<Seq<u8>>| !is_conflict(x.path, e.path);
    let kept = without_conflicts(entries, e.path);
    assert(kept == entries.filter(keep));
    let after = added_one(entries, e).0;
    let at = lower_bound_of(kept, e.path);
    lemma_filter_sorted(entries, keep);
    lemma_lower_bound_exists(kept, e.path, kept.len() as int);
    assert(is_lower_bound(kept, e.path, at));
    let k = choose|k: int| 0 <= k < after.len() && after[k] == x;
    assert(kept.contains(x)) by {
        if at < kept.len() && kept[at].path == e.path {
            assert(k != at);
            assert(kept[k] == x);
        } else if k < at {
            assert(kept[k] == x);
        } else {
            assert(k != at);
            assert(kept[k - 1] == x);
        }
    }
    entries.lemma_filter_pred(keep, kept.index_of(x));
}

/// Of several entries that are added, each is in the index afterwards, unless a later one has its
/// path, lies in it or is a directory on the way to it.
pub proof fn adding_puts_all_entries_in(
    entries: Seq<IndexEntry<Seq<u8>>>,
    new: Seq<IndexEntry<Seq<u8>>>,
    j: int,
)
    requires
        is_sorted(entries),
        0 <= j < new.len(),
        forall|k: int|
            j < k < new.len() ==> (#[trigger] new[k]).path != new[j].path && !lies_in(
                new[k].path,
                new[j].path,
            ) && !lies_in(new[j].path, new[k].path),
    ensures
        added(entries, new).0.contains(new[j]),
    decreases new.len(),
{
    let some = new.drop_last();
    let before = added(entries, some).0;
    adding_keeps_invariants(entries, some);
    adding_puts_one_entry_in(before, new.last(), new[j]);
    if j < some.len() {
        assert(some[j] == new[j]);
        assert forall|k: int| j < k < some.len() implies (#[trigger] some[k]).path != some[j].path
            && !lies_in(some[k].path, some[j].path) && !lies_in(some[j].path, some[k].path) by {
            assert(some[k] == new[k]);
        }
        adding_puts_all_entries_in(entries, some, j);
        assert(new[new.len() - 1] == new.last());
    }
}

/// The index is marked as changed by an entry exactly if the entry was not in it before, as it is.
pub proof fn adding_marks_changes(entries: Seq<IndexEntry<Seq<u8>>>, e: IndexEntry<Seq<u8>>)
    requires
        is_sorted(entries),
        is_conflict_free(entries),
    ensures
        added_one(entries, e).1 <==> !entries.contains(e),
{
    lemma_added_one_contains(entries, e, e);
    if entries.contains(e) {
        adding_again_changes_nothing(entries, e);
    }
}

/// Staging a path that is gone drops the entry with that path and no other; that is a change
/// exactly if there was one.
pub proof fn staging_a_deletion_drops_one_entry(
    entries: Seq<IndexEntry<Seq<u8>>>,
    path: Seq<u8>,
    x: IndexEntry<Seq<u8>>,
)
    requires
        is_sorted(entries),
    ensures
        staged(entries, path, None).0.contains(x) <==> entries.contains(x) && x.path != path,
        staged(entries, path, None).1 <==> exists|i: int|
            0 <= i < entries.len() && (#[trigger] entries[i]).path == path,
{
    if has_path(entries, path) {
        let i = choose|i: int| 0 <= i < entries.len() && (#[trigger] entries[i]).path == path;
        lemma_lower_bound_exists(entries, path, entries.len() as int);
        let at = lower_bound_of(entries, path);
        assert(is_lower_bound(entries, path, at));
        lemma_lex_irreflexive(path);
        assert(i == at) by {
            assert(i >= at);
            if i > at {
                assert(lex_less(entries[at].path, entries[i].path));
            }
        }
        let after = entries.remove(at);
        if after.contains(x) {
            let k = choose|k: int| 0 <= k < after.len() && after[k] == x;
            if k < at {
                assert(entries[k] == x);
                assert(lex_less(entries[k].path, entries[at].path));
            } else {
                assert(entries[k + 1] == x);
                assert(lex_less(entries[at].path, entries[k + 1].path));
            }
        }
        if entries.contains(x) && x.path != path {
            let k = choose|k: int| 0 <= k < entries.len() && entries[k] == x;
            if k < at {
                assert(after[k] == x);
            } else {
                assert(after[k - 1] == x);
            }
        }
    } else if entries.contains(x) {
        let k = choose|k: int| 0 <= k < entries.len() && entries[k] == x;
        assert(entries[k].path != path);
    }
}

/// The number in the four bytes from `at` on, the most significant first.
pub open spec fn number_at(b: Seq<u8>, at: int) -> int {
    b[at] * 0x100_0000 + b[at + 1] * 0x1_0000 + b[at + 2] * 0x100 + b[at + 3]
}

proof fn lemma_number(b: Seq<u8>, at: int, n: u32)
    requires
        0 <= at,
        at + 4 <= b.len(),
        b.subrange(at, at + 4) == be32(n),
    ensures
        number_at(b, at) == n,
{
    let part = b.subrange(at, at + 4);
    assert(part[0] == b[at] && part[1] == b[at + 1] && part[2] == b[at + 2] && part[3] == b[at + 3]);
}

proof fn lemma_times_laid_out(stat: FileStat)
    ensures
        times_bytes(stat).len() == 24,
        number_at(times_bytes(stat), 0) == stat.ctime,
        number_at(times_bytes(stat), 4) == stat.ctime_nsec,
        number_at(times_bytes(stat), 8) == stat.mtime,
        number_at(times_bytes(stat), 12) == stat.mtime_nsec,
        number_at(times_bytes(stat), 16) == stat.dev,
        number_at(times_bytes(stat), 20) == stat.ino,
{
    let b = times_bytes(stat);
    assert(b.subrange(0, 4) =~= be32(stat.ctime));
    assert(b.subrange(4, 8) =~= be32(stat.ctime_nsec));
    assert(b.subrange(8, 12) =~= be32(stat.mtime));
    assert(b.subrange(12, 16) =~= be32(stat.mtime_nsec));
    assert(b.subrange(16, 20) =~= be32(stat.dev));
    assert(b.subrange(20, 24) =~= be32(stat.ino));
    lemma_number(b, 0, stat.ctime);
    lemma_number(b, 4, stat.ctime_nsec);
    lemma_number(b, 8, stat.mtime);
    lemma_number(b, 12, stat.mtime_nsec);
    lemma_number(b, 16, stat.dev);
    lemma_number(b, 20, stat.ino);
}

proof fn lemma_owner_laid_out(stat: FileStat)
    ensures
        owner_bytes(stat).len() == 12,
        number_at(owner_bytes(stat), 0) == stat.uid,
        number_at(owner_bytes(stat), 4) == stat.gid,
        number_at(owner_bytes(stat), 8) == stat.file_size,
{
    let b = owner_bytes(stat);
    assert(b.subrange(0, 4) =~= be32(stat.uid));
    assert(b.subrange(4, 8) =~= be32(stat.gid));
    assert(b.subrange(8, 12) =~= be32(stat.file_size));
    lemma_number(b, 0, stat.uid);
    lemma_number(b, 4, stat.gid);
    lemma_number(b, 8, stat.file_size);
}

proof fn lemma_number_inside(b: Seq<u8>, from: int, part: Seq<u8>, at: int)
    requires
        0 <= from,
        from + part.len() <= b.len(),
        b.subrange(from, from + part.len() as int) == part,
        0 <= at,
        at + 4 <= part.len(),
    ensures
        number_at(b, from + at) == number_at(part, at),
{
    assert(part[at] == b[from + at] && part[at + 1] == b[from + at + 1] && part[at + 2] == b[from
        + at + 2] && part[at + 3] == b[from + at + 3]);
}

proof fn lemma_parts(
    times: Seq<u8>,
    mode: Seq<u8>,
    owner: Seq<u8>,
    oid: Seq<u8>,
    flags: Seq<u8>,
    path: Seq<u8>,
    nul: Seq<u8>,
    pad: Seq<u8>,
)
    requires
        times.len() == 24,
        mode.len() == 4,
        owner.len() == 12,
        oid.len() == 20,
        flags.len() == 2,
    ensures
        ({
            let b = times + mode + owner + oid + flags + path + nul + pad;
            let n = path.len() as int;
            &&& b.len() == 62 + n + nul.len() + pad.len()
            &&& b.subrange(0, 24) == times
            &&& b.subrange(24, 28) == mode
            &&& b.subrange(28, 40) == owner
            &&& b.subrange(40, 60) == oid
            &&& b[60] == flags[0] && b[61] == flags[1]
            &&& b.subrange(62, 62 + n) == path
            &&& forall|i: int|
                62 + n <= i < b.len() ==> #[trigger] b[i] == (nul + pad)[i - 62 - n]
        }),
{
    let b = times + mode + owner + oid + flags + path + nul + pad;
    assert(b.subrange(0, 24) =~= times);
    assert(b.subrange(24, 28) =~= mode);
    assert(b.subrange(28, 40) =~= owner);
    assert(b.subrange(40, 60) =~= oid);
    assert(b.subrange(62, 62 + path.len() as int) =~= path);
}

proof fn lemma_lengths(stat: FileStat)
    ensures
        times_bytes(stat).len() == 24,
        owner_bytes(stat).len() == 12,
{
}

proof fn lemma_entry_parts(e: IndexEntry<Seq<u8>>)
    requires
        e.oid@.len() == 20,
    ensures
        stand_in(entry_bytes(e), e),
{
    lemma_lengths(e.stat);
    let size = 63 + e.path.len() as int;
    let pad = zeros(padding(size));
    lemma_parts(
        times_bytes(e.stat),
        be32(e.mode.raw()),
        owner_bytes(e.stat),
        e.oid@,
        be16(e.flags),
        e.path,
        seq![0u8],
        pad,
    );
}

/// The parts of an entry stand in these bytes.
spec fn stand_in(b: Seq<u8>, e: IndexEntry<Seq<u8>>) -> bool {
    let n = e.path.len() as int;
    let pad = zeros(padding(63 + n));
    &&& b.len() == 63 + n + pad.len()
    &&& b.subrange(0, 24) == times_bytes(e.stat)
    &&& b.subrange(24, 28) == be32(e.mode.raw())
    &&& b.subrange(28, 40) == owner_bytes(e.stat)
    &&& b.subrange(40, 60) == e.oid@
    &&& b[60] == be16(e.flags)[0] && b[61] == be16(e.flags)[1]
    &&& b.subrange(62, 62 + n) == e.path
    &&& forall|i: int| 62 + n <= i < b.len() ==> #[trigger] b[i] == (seq![0u8] + pad)[i - 62 - n]
}

/// The fields of an entry, in the bytes that its parts stand in.
spec fn are_laid_out(b: Seq<u8>, e: IndexEntry<Seq<u8>>) -> bool {
    let n = e.path.len() as int;
    &&& number_at(b, 0) == e.stat.ctime
    &&& number_at(b, 4) == e.stat.ctime_nsec
    &&& number_at(b, 8) == e.stat.mtime
    &&& number_at(b, 12) == e.stat.mtime_nsec
    &&& number_at(b, 16) == e.stat.dev
    &&& number_at(b, 20) == e.stat.ino
    &&& number_at(b, 24) == (match e.mode {
        Mode::Regular => 0o100644int,
        Mode::Executable => 0o100755,
        Mode::Symlink => 0o120000,
        Mode::Directory => 0o40000,
    })
    &&& number_at(b, 28) == e.stat.uid
    &&& number_at(b, 32) == e.stat.gid
    &&& number_at(b, 36) == e.stat.file_size
    &&& b.subrange(40, 60) == e.oid@
    &&& b[60] * 0x100 + b[61] == e.flags
    &&& b.subrange(62, 62 + n) == e.path
    &&& 1 <= b.len() - (62 + n) <= 8
    &&& b.len() % 8 == 0
    &&& forall|i: int| 62 + n <= i < b.len() ==> #[trigger] b[i] == 0
}

proof fn lemma_laid_out(b: Seq<u8>, e: IndexEntry<Seq<u8>>)
    requires
        stand_in(b, e),
    ensures
        are_laid_out(b, e),
{
    lemma_numbers(b, e.stat, e.mode.raw());
    lemma_end(b, e.path.len() as int, e.flags);
}

proof fn lemma_end(b: Seq<u8>, n: int, flags: u16)
    requires
        0 <= n,
        b.len() == 63 + n + zeros(padding(63 + n)).len(),
        b[60] == be16(flags)[0],
        b[61] == be16(flags)[1],
        forall|i: int|
            62 + n <= i < b.len() ==> #[trigger] b[i] == (seq![0u8] + zeros(padding(63 + n)))[i - 62
                - n],
    ensures
        b[60] * 0x100 + b[61] == flags,
        1 <= b.len() - (62 + n) <= 8,
        b.len() % 8 == 0,
        forall|i: int| 62 + n <= i < b.len() ==> #[trigger] b[i] == 0,
{
    let size = 63 + n;
    assert(0 <= padding(size) < 8 && (size + padding(size)) % 8 == 0);
}

/// Where the fields of an entry stand in its bytes: ten numbers, the id, the length of the path, the
/// path, and one to eight NULs up to a multiple of eight.
pub proof fn entries_are_laid_out(e: IndexEntry<Seq<u8>>)
    requires
        e.oid@.len() == 20,
    ensures
        ({
            let b = entry_bytes(e);
            let n = e.path.len() as int;
            &&& number_at(b, 0) == e.stat.ctime
            &&& number_at(b, 4) == e.stat.ctime_nsec
            &&& number_at(b, 8) == e.stat.mtime
            &&& number_at(b, 12) == e.stat.mtime_nsec
            &&& number_at(b, 16) == e.stat.dev
            &&& number_at(b, 20) == e.stat.ino
            &&& number_at(b, 24) == (match e.mode {
                Mode::Regular => 0o100644int,
                Mode::Executable => 0o100755,
                Mode::Symlink => 0o120000,
                Mode::Directory => 0o40000,
            })
            &&& number_at(b, 28) == e.stat.uid
            &&& number_at(b, 32) == e.stat.gid
            &&& number_at(b, 36) == e.stat.file_size
            &&& b.subrange(40, 60) == e.oid@
            &&& b[60] * 0x100 + b[61] == e.flags
            &&& b.subrange(62, 62 + n) == e.path
            &&& 1 <= b.len() - (62 + n) <= 8
            &&& b.len() % 8 == 0
            &&& forall|i: int| 62 + n <= i < b.len() ==> #[trigger] b[i] == 0
        }),
{
    lemma_entry_parts(e);
    lemma_laid_out(entry_bytes(e), e);
}

proof fn lemma_numbers(b: Seq<u8>, stat: FileStat, mode: u32)
    requires
        b.len() >= 40,
        b.subrange(0, 24) == times_bytes(stat),
        b.subrange(24, 28) == be32(mode),
        b.subrange(28, 40) == owner_bytes(stat),
    ensures
        number_at(b, 0) == stat.ctime,
        number_at(b, 4) == stat.ctime_nsec,
        number_at(b, 8) == stat.mtime,
        number_at(b, 12) == stat.mtime_nsec,
        number_at(b, 16) == stat.dev,
        number_at(b, 20) == stat.ino,
        number_at(b, 24) == mode,
        number_at(b, 28) == stat.uid,
        number_at(b, 32) == stat.gid,
        number_at(b, 36) == stat.file_size,
{
    let times = times_bytes(stat);
    let owner = owner_bytes(stat);
    lemma_times_laid_out(stat);
    lemma_owner_laid_out(stat);
    lemma_number_inside(b, 0, times, 0);
    lemma_number_inside(b, 0, times, 4);
    lemma_number_inside(b, 0, times, 8);
    lemma_number_inside(b, 0, times, 12);
    lemma_number_inside(b, 0, times, 16);
    lemma_number_inside(b, 0, times, 20);
    lemma_number(b, 24, mode);
    lemma_number_inside(b, 28, owner, 0);
    lemma_number_inside(b, 28, owner, 4);
    lemma_number_inside(b, 28, owner, 8);
}

/// An index starts with `DIRC`, the number 2 and the number of its entries. The entries follow in
/// their order, and the hash of all that at the end.
pub proof fn indexes_are_laid_out(entries: Seq<IndexEntry<Seq<u8>>>, e: IndexEntry<Seq<u8>>)
    requires
        entries.len() < u32::MAX,
    ensures
        index_bytes(entries) == index_content(entries) + sha1_of(index_content(entries)),
        index_content(entries).len() >= 12,
        index_content(entries).take(4) == seq![0x44u8, 0x49, 0x52, 0x43],
        number_at(index_content(entries), 4) == 2,
        number_at(index_content(entries), 8) == entries.len(),
        index_content(Seq::empty()).len() == 12,
        index_content(entries.push(e)).skip(12) == index_content(entries).skip(12) + entry_bytes(e),
{
    reveal_strlit("DIRC");
    lemma_ascii_text("DIRC");
    lemma_entries_push(entries, e);
    let head = |n: u32| text("DIRC") + be32(2) + be32(n);
    let n = entries.len() as u32;
    let b = index_content(entries);
    let all = index_content(entries.push(e));
    assert(b == head(n) + entries_bytes(entries));
    assert(all == head((n + 1) as u32) + entries_bytes(entries.push(e)));
    assert(b.take(4) =~= seq![0x44u8, 0x49, 0x52, 0x43]);
    assert(b.subrange(4, 8) =~= be32(2));
    assert(b.subrange(8, 12) =~= be32(n));
    lemma_number(b, 4, 2);
    lemma_number(b, 8, n);
    assert(b.skip(12) =~= entries_bytes(entries));
    assert(all.skip(12) =~= entries_bytes(entries.push(e)));
    assert(index_content(Seq::empty()) =~= head(0));
}

/// A file is loaded only if its checksum is right, it starts with `DIRC` and the number 2, and it
/// holds as many entries as it says.
pub proof fn only_whole_files_are_loaded(bytes: Seq<u8>)
    requires
        loaded(Seq::empty(), bytes).1 is Ok,
    ensures
        bytes.len() >= 32,
        sha1_of(bytes.take(bytes.len() - 20)) == bytes.skip(bytes.len() - 20),
        bytes.take(4) == seq![0x44u8, 0x49, 0x52, 0x43],
        number_at(bytes, 4) == 2,
        loaded(Seq::empty(), bytes).0.len() == number_at(bytes, 8),
        is_sorted(loaded(Seq::empty(), bytes).0),
{
    reveal_strlit("DIRC");
    lemma_ascii_text("DIRC");
    let b = bytes.take(bytes.len() - 20);
    assert(bytes.take(4) =~= b.take(4));
    assert(b.take(4) =~= seq![0x44u8, 0x49, 0x52, 0x43]);
    let none = Seq::<IndexEntry<Seq<u8>>>::empty();
    let count = u32_at(b, 8) as int;
    lemma_loaded_sorted(b, 12, none, count, count);
}

proof fn lemma_loaded_sorted(
    b: Seq<u8>,
    pos: int,
    entries: Seq<IndexEntry<Seq<u8>>>,
    count: int,
    left: int,
)
    requires
        is_sorted(entries),
    ensures
        is_sorted(load_entries(b, pos, entries, count, left).entries),
    decreases left,
{
    if left > 0 {
        if let Ok((e, next)) = index_entry_of(b, pos) {
            if entries.len() == 0 || lex_less(entries.last().path, e.path) {
                let more = entries.push(e);
                assert forall|i: int, j: int| 0 <= i < j < more.len() implies lex_less(
                    (#[trigger] more[i]).path,
                    (#[trigger] more[j]).path,
                ) by {
                    if j == entries.len() && i < entries.len() - 1 {
                        let k = entries.len() - 1;
                        assert(lex_less(entries[i].path, entries[k].path));
                        lemma_lex_transitive(
                            entries[i].path,
                            entries[k].path,
                            e.path,
                        );
                    }
                }
                if entries.len() + 1 <= count {
                    lemma_loaded_sorted(b, next, more, count, left - 1);
                }
            }
        }
    }
}

/// Neither has the path of the other, and neither lies in the other.
pub open spec fn are_apart(a: Seq<u8>, b: Seq<u8>) -> bool {
    a != b && !lies_in(a, b) && !lies_in(b, a)
}

/// Staging what was found at a path puts it into the index: what was found is there afterwards,
/// unless something found later is in its way, what the index held stays, unless something found
/// is in its way, and nothing else comes in. Where nothing is marked as changed, nothing is.
pub proof fn staging_puts_in_what_was_found(
    entries: Seq<IndexEntry<Seq<u8>>>,
    path: Seq<u8>,
    new: Seq<IndexEntry<Seq<u8>>>,
    x: IndexEntry<Seq<u8>>,
)
    requires
        is_sorted(entries),
    ensures
        ({
            let (after, changed) = staged(entries, path, Some(new));
            &&& forall|j: int|
                0 <= j < new.len() && (forall|k: int|
                    j < k < new.len() ==> are_apart((#[trigger] new[k]).path, new[j].path))
                    ==> after.contains(#[trigger] new[j])
            &&& entries.contains(x) && (forall|k: int|
                0 <= k < new.len() ==> are_apart((#[trigger] new[k]).path, x.path))
                ==> after.contains(x)
            &&& after.contains(x) ==> entries.contains(x) || new.contains(x)
            &&& is_conflict_free(entries) && !changed ==> after == entries
        }),
{
    let after = added(entries, new).0;
    assert forall|j: int|
        0 <= j < new.len() && (forall|k: int|
            j < k < new.len() ==> are_apart((#[trigger] new[k]).path, new[j].path)) implies
        after.contains(#[trigger] new[j]) by {
        assert forall|k: int| j < k < new.len() implies (#[trigger] new[k]).path != new[j].path
            && !lies_in(new[k].path, new[j].path) && !lies_in(new[j].path, new[k].path) by {
            assert(are_apart(new[k].path, new[j].path));
        }
        adding_puts_all_entries_in(entries, new, j);
    }
    lemma_adding_keeps_the_rest(entries, new, x);
}

proof fn lemma_adding_keeps_the_rest(
    entries: Seq<IndexEntry<Seq<u8>>>,
    new: Seq<IndexEntry<Seq<u8>>>,
    x: IndexEntry<Seq<u8>>,
)
    requires
        is_sorted(entries),
    ensures
        entries.contains(x) && (forall|k: int|
            0 <= k < new.len() ==> are_apart((#[trigger] new[k]).path, x.path)) ==> added(
            entries,
            new,
        ).0.contains(x),
        added(entries, new).0.contains(x) ==> entries.contains(x) || new.contains(x),
        is_conflict_free(entries) && !added(entries, new).1 ==> added(entries, new).0 == entries,
    decreases new.len(),
{
    if new.len() > 0 {
        let some = new.drop_last();
        let e = new.last();
        let before = added(entries, some).0;
        lemma_adding_keeps_the_rest(entries, some, x);
        adding_keeps_invariants(entries, some);
        adding_puts_one_entry_in(before, e, x);
        assert(new[new.len() - 1] == e);
        assert forall|k: int| 0 <= k < some.len() implies some[k] == #[trigger] new[k] by {}
        if forall|k: int| 0 <= k < new.len() ==> are_apart((#[trigger] new[k]).path, x.path) {
            assert forall|k: int| 0 <= k < some.len() implies are_apart(
                (#[trigger] some[k]).path,
                x.path,
            ) by {
                assert(are_apart(new[k].path, x.path));
            }
            assert(are_apart(e.path, x.path));
        }
        if some.contains(x) {
            assert(new[some.index_of(x)] == x);
        }
        if is_conflict_free(entries) {
            adding_marks_changes(before, e);
            if before.contains(e) {
                adding_again_changes_nothing(before, e);
            }
        }
    }
}

} // verus!
