//! What the index keeps: its order, its freedom from conflicts, and what was written to its file.

use crate::bytes::{
    free_of, lemma_ascii_text, lemma_lex_irreflexive, lemma_lex_transitive, lemma_stands_byte,
    lemma_stands_split, lemma_until, lemma_until_is, lex_less, stands_at, text, until, NUL, SLASH,
};
use crate::digest::sha1_of;
use crate::index::parse::{
    entry_path_at, index_entry_of, lemma_mode_with_raw, padding_error, short_fields, stat_at,
};
use crate::index::{
    added, added_one, be16, be32, entries_bytes, entry_bytes, entry_head, entry_of, flags_of,
    has_path, index_bytes, index_content, is_conflict, is_conflict_free, is_lower_bound, is_sorted,
    lemma_filter_sorted, lemma_insert_sorted, lemma_lower_bound, lemma_update_sorted, load_entries,
    loaded, lower_bound_of, owner_bytes, padding, put, times_bytes, u16_at, u32_at,
    without_conflicts, zeros, FormatError, IndexEntry, IndexError, Loaded, INDEX_VERSION,
};
use crate::object::mode::Mode;
use crate::object::parse::lemma_oid_of;
use crate::os::FileStat;
use crate::repo_path::{first_component_error, path_error, spec_is_parent_path, split};
use vstd::prelude::*;
use vstd::string::*;

verus! {

pub proof fn lemma_lower_bound_exists(entries: Seq<IndexEntry<Seq<u8>>>, path: Seq<u8>, n: int)
    requires
        is_sorted(entries),
        0 <= n <= entries.len(),
        forall|i: int| n <= i < entries.len() ==> !lex_less((#[trigger] entries[i]).path, path),
    ensures
        exists|at: int| is_lower_bound(entries, path, at),
    decreases n,
{
    if n == 0 {
        assert(is_lower_bound(entries, path, 0));
    } else if lex_less(entries[n - 1].path, path) {
        assert forall|i: int| 0 <= i < n implies lex_less((#[trigger] entries[i]).path, path) by {
            if i < n - 1 {
                let k = n - 1;
                assert(lex_less(entries[i].path, entries[k].path));
                lemma_lex_transitive(entries[i].path, entries[k].path, path);
            }
        }
        assert(is_lower_bound(entries, path, n));
    } else {
        lemma_lower_bound_exists(entries, path, n - 1);
    }
}

proof fn lemma_put(entries: Seq<IndexEntry<Seq<u8>>>, e: IndexEntry<Seq<u8>>)
    requires
        is_sorted(entries),
    ensures
        is_sorted(put(entries, e).0),
        put(entries, e).0.contains(e),
        forall|x: IndexEntry<Seq<u8>>| #[trigger]
            put(entries, e).0.contains(x) ==> x == e || entries.contains(x),
        forall|x: IndexEntry<Seq<u8>>| #[trigger]
            entries.contains(x) && x.path != e.path ==> put(entries, e).0.contains(x),
        !put(entries, e).1 ==> entries.contains(e),
{
    lemma_lower_bound_exists(entries, e.path, entries.len() as int);
    let at = lower_bound_of(entries, e.path);
    assert(is_lower_bound(entries, e.path, at));
    let all = put(entries, e).0;
    if at < entries.len() && entries[at].path == e.path {
        lemma_update_sorted(entries, at, e);
        assert(all[at] == e);
        assert forall|x: IndexEntry<Seq<u8>>| #[trigger] all.contains(x) implies x == e
            || entries.contains(x) by {
            let k = choose|k: int| 0 <= k < all.len() && all[k] == x;
            if k != at {
                assert(entries[k] == x);
            }
        }
        assert forall|x: IndexEntry<Seq<u8>>| #[trigger] entries.contains(x) && x.path
            != e.path implies all.contains(x) by {
            let k = choose|k: int| 0 <= k < entries.len() && entries[k] == x;
            assert(all[k] == x);
        }
    } else {
        if has_path(entries, e.path) {
            let i = choose|i: int| 0 <= i < entries.len() && (#[trigger] entries[i]).path == e.path;
            lemma_lex_irreflexive(e.path);
            assert(i >= at);
            if i > at {
                assert(lex_less(entries[at].path, entries[i].path));
            }
        }
        lemma_insert_sorted(entries, at, e);
        assert(all[at] == e);
        assert forall|x: IndexEntry<Seq<u8>>| #[trigger] all.contains(x) implies x == e
            || entries.contains(x) by {
            let k = choose|k: int| 0 <= k < all.len() && all[k] == x;
            if k < at {
                assert(entries[k] == x);
            } else if k > at {
                assert(entries[k - 1] == x);
            }
        }
        assert forall|x: IndexEntry<Seq<u8>>| #[trigger] entries.contains(x) implies all.contains(
            x,
        ) by {
            let k = choose|k: int| 0 <= k < entries.len() && entries[k] == x;
            if k < at {
                assert(all[k] == x);
            } else {
                assert(all[k + 1] == x);
            }
        }
    }
}

/// Adding one entry keeps the order of the index and its freedom from conflicts, and the entry is
/// in it afterwards.
pub proof fn adding_one_keeps_invariants(
    entries: Seq<IndexEntry<Seq<u8>>>,
    e: IndexEntry<Seq<u8>>,
)
    requires
        is_sorted(entries),
    ensures
        is_sorted(added_one(entries, e).0),
        added_one(entries, e).0.contains(e),
        is_conflict_free(entries) ==> is_conflict_free(added_one(entries, e).0),
{
    let keep = |x: IndexEntry<Seq<u8>>| !is_conflict(x.path, e.path);
    let kept = without_conflicts(entries, e.path);
    lemma_filter_sorted(entries, keep);
    assert(kept == entries.filter(keep));
    lemma_put(kept, e);
    let all = added_one(entries, e).0;
    if is_conflict_free(entries) {
        assert forall|i: int, j: int| 0 <= i < all.len() && 0 <= j < all.len() implies
            !spec_is_parent_path((#[trigger] all[i]).path, (#[trigger] all[j]).path) by {
            assert(all.contains(all[i]) && all.contains(all[j]));
            if all[i] != e {
                let k = choose|k: int| 0 <= k < kept.len() && kept[k] == all[i];
                assert(keep(kept[k]) && entries.contains(kept[k]));
            }
            if all[j] != e {
                let k = choose|k: int| 0 <= k < kept.len() && kept[k] == all[j];
                assert(keep(kept[k]) && entries.contains(kept[k]));
            }
            if all[i] != e && all[j] != e {
                let m = choose|m: int| 0 <= m < entries.len() && entries[m] == all[i];
                let n = choose|n: int| 0 <= n < entries.len() && entries[n] == all[j];
                assert(!spec_is_parent_path(entries[m].path, entries[n].path));
            }
        }
    }
}

/// Adding entries keeps the order of the index and its freedom from conflicts.
pub proof fn adding_keeps_invariants(
    entries: Seq<IndexEntry<Seq<u8>>>,
    new: Seq<IndexEntry<Seq<u8>>>,
)
    requires
        is_sorted(entries),
    ensures
        is_sorted(added(entries, new).0),
        is_conflict_free(entries) ==> is_conflict_free(added(entries, new).0),
    decreases new.len(),
{
    if new.len() > 0 {
        adding_keeps_invariants(entries, new.drop_last());
        adding_one_keeps_invariants(added(entries, new.drop_last()).0, new.last());
    }
}

pub proof fn lemma_added_one_contains(
    entries: Seq<IndexEntry<Seq<u8>>>,
    e: IndexEntry<Seq<u8>>,
    x: IndexEntry<Seq<u8>>,
)
    requires
        is_sorted(entries),
    ensures
        added_one(entries, e).0.contains(x) ==> x == e || entries.contains(x),
        entries.contains(x) && x.path != e.path && !is_conflict(x.path, e.path) ==> added_one(
            entries,
            e,
        ).0.contains(x),
        !added_one(entries, e).1 ==> entries.contains(e),
{
    let keep = |x: IndexEntry<Seq<u8>>| !is_conflict(x.path, e.path);
    let kept = without_conflicts(entries, e.path);
    lemma_filter_sorted(entries, keep);
    assert(kept == entries.filter(keep));
    lemma_put(kept, e);
    if kept.contains(x) {
        let k = choose|k: int| 0 <= k < kept.len() && kept[k] == x;
        assert(entries.contains(kept[k]));
    }
    if kept.contains(e) {
        let k = choose|k: int| 0 <= k < kept.len() && kept[k] == e;
        assert(entries.contains(kept[k]));
    }
    if entries.contains(x) && keep(x) {
        let k = choose|k: int| 0 <= k < entries.len() && entries[k] == x;
        entries.lemma_filter_contains(keep, k);
    }
}

/// Adding entries changes no more than it has to. Each entry afterwards is an old one or an added
/// one, and the last one added is among them. An old entry stays unless an added one has its path or
/// conflicts with it. An index without conflicts that is not marked as changed is the old one.
pub proof fn adding_changes_only_what_it_must(
    entries: Seq<IndexEntry<Seq<u8>>>,
    new: Seq<IndexEntry<Seq<u8>>>,
)
    requires
        is_sorted(entries),
    ensures
        new.len() > 0 ==> added(entries, new).0.contains(new.last()),
        forall|x: IndexEntry<Seq<u8>>| #[trigger]
            added(entries, new).0.contains(x) ==> entries.contains(x) || new.contains(x),
        forall|x: IndexEntry<Seq<u8>>| #[trigger]
            entries.contains(x) && (forall|j: int|
                0 <= j < new.len() ==> (#[trigger] new[j]).path != x.path && !is_conflict(
                    x.path,
                    new[j].path,
                )) ==> added(entries, new).0.contains(x),
        is_conflict_free(entries) && !added(entries, new).1 ==> added(entries, new).0 == entries,
    decreases new.len(),
{
    if new.len() > 0 {
        let some = new.drop_last();
        let e = new.last();
        let before = added(entries, some).0;
        let after = added(entries, new).0;
        adding_keeps_invariants(entries, some);
        adding_changes_only_what_it_must(entries, some);
        adding_one_keeps_invariants(before, e);
        assert forall|x: IndexEntry<Seq<u8>>| #[trigger] after.contains(x) implies entries.contains(
            x,
        ) || new.contains(x) by {
            lemma_added_one_contains(before, e, x);
            if x == e {
                assert(new[new.len() - 1] == x);
            } else if some.contains(x) {
                assert(new[some.index_of(x)] == x);
            }
        }
        assert forall|x: IndexEntry<Seq<u8>>| #[trigger] entries.contains(x) && (forall|j: int|
            0 <= j < new.len() ==> (#[trigger] new[j]).path != x.path && !is_conflict(
                x.path,
                new[j].path,
            )) implies after.contains(x) by {
            assert forall|j: int| 0 <= j < some.len() implies (#[trigger] some[j]).path != x.path
                && !is_conflict(x.path, some[j].path) by {
                assert(some[j] == new[j]);
            }
            assert(before.contains(x));
            assert(new[new.len() - 1] == e);
            lemma_added_one_contains(before, e, x);
        }
        if is_conflict_free(entries) && !added(entries, new).1 {
            lemma_added_one_contains(before, e, e);
            adding_again_changes_nothing(entries, e);
        }
    }
}

/// Adding an entry that is there, to an index without conflicts, changes nothing.
pub proof fn adding_again_changes_nothing(
    entries: Seq<IndexEntry<Seq<u8>>>,
    e: IndexEntry<Seq<u8>>,
)
    requires
        is_sorted(entries),
        is_conflict_free(entries),
        entries.contains(e),
    ensures
        added_one(entries, e) == (entries, false),
{
    let keep = |x: IndexEntry<Seq<u8>>| !is_conflict(x.path, e.path);
    let k = choose|k: int| 0 <= k < entries.len() && entries[k] == e;
    assert forall|i: int| 0 <= i < entries.len() implies keep(#[trigger] entries[i]) by {
        assert(!spec_is_parent_path(entries[i].path, entries[k].path));
        assert(!spec_is_parent_path(entries[k].path, entries[i].path));
    }
    lemma_filter_all(entries, keep);
    assert(is_lower_bound(entries, e.path, k)) by {
        assert forall|i: int| k <= i < entries.len() implies !lex_less(
            (#[trigger] entries[i]).path,
            e.path,
        ) by {
            lemma_lex_irreflexive(e.path);
            if i > k && lex_less(entries[i].path, e.path) {
                assert(lex_less(entries[k].path, entries[i].path));
                lemma_lex_transitive(e.path, entries[i].path, e.path);
            }
        }
        assert forall|i: int| 0 <= i < k implies lex_less((#[trigger] entries[i]).path, e.path) by {
            assert(lex_less(entries[i].path, entries[k].path));
        }
    }
    lemma_lower_bound(entries, e.path, k);
    assert(entries.update(k, e) =~= entries);
}

proof fn lemma_filter_all(
    entries: Seq<IndexEntry<Seq<u8>>>,
    keep: spec_fn(IndexEntry<Seq<u8>>) -> bool,
)
    requires
        forall|i: int| 0 <= i < entries.len() ==> keep(#[trigger] entries[i]),
    ensures
        entries.filter(keep) == entries,
    decreases entries.len(),
{
    reveal(Seq::filter);
    if entries.len() > 0 {
        let front = entries.drop_last();
        assert forall|i: int| 0 <= i < front.len() implies keep(#[trigger] front[i]) by {
            assert(front[i] == entries[i]);
        }
        lemma_filter_all(front, keep);
        assert(keep(entries[entries.len() - 1]));
        assert(front.push(entries.last()) =~= entries);
    } else {
        assert(entries.filter(keep) =~= entries);
    }
}

/// An entry that can be written and read back: what reading an index accepts.
pub open spec fn entry_is_plain(e: IndexEntry<Seq<u8>>) -> bool {
    &&& e.mode != Mode::Directory
    &&& e.stat.ctime_nsec < 1_000_000_000
    &&& e.stat.mtime_nsec < 1_000_000_000
    &&& path_error(e.path) is None
    &&& e.flags == flags_of(e.path.len())
}

proof fn lemma_split_free(b: Seq<u8>)
    requires
        first_component_error(split(b, SLASH)) is None,
    ensures
        free_of(b, NUL),
    decreases b.len(),
{
    lemma_until(b, SLASH);
    let n = until(b, SLASH);
    let head = b.take(n);
    let parts = split(b, SLASH);
    if n < b.len() {
        let rest = b.skip(n + 1);
        assert(parts =~= seq![head] + split(rest, SLASH));
        assert(parts.drop_first() =~= split(rest, SLASH));
        lemma_split_free(rest);
        assert forall|i: int| 0 <= i < b.len() implies #[trigger] b[i] != NUL by {
            if i < n {
                assert(head[i] == b[i]);
                if head[i] == NUL {
                    assert(head.contains(NUL));
                }
            } else if i > n {
                assert(rest[i - n - 1] == b[i]);
            }
        }
    } else {
        assert(parts =~= seq![b]);
        assert forall|i: int| 0 <= i < b.len() implies #[trigger] b[i] != NUL by {
            if b[i] == NUL {
                assert(b.contains(NUL));
            }
        }
    }
}

/// A path of the repository holds no NUL.
pub proof fn paths_hold_no_nul(b: Seq<u8>)
    requires
        path_error(b) is None,
    ensures
        free_of(b, NUL),
{
    lemma_split_free(b);
}

proof fn lemma_u32(b: Seq<u8>, pos: int, n: u32)
    requires
        stands_at(b, pos, be32(n)),
    ensures
        u32_at(b, pos) == n,
{
}

proof fn lemma_times(b: Seq<u8>, pos: int, stat: FileStat)
    requires
        stands_at(b, pos, times_bytes(stat)),
    ensures
        u32_at(b, pos) == stat.ctime,
        u32_at(b, pos + 4) == stat.ctime_nsec,
        u32_at(b, pos + 8) == stat.mtime,
        u32_at(b, pos + 12) == stat.mtime_nsec,
        u32_at(b, pos + 16) == stat.dev,
        u32_at(b, pos + 20) == stat.ino,
        times_bytes(stat).len() == 24,
{
    let b1 = be32(stat.ctime);
    let b2 = b1 + be32(stat.ctime_nsec);
    let b3 = b2 + be32(stat.mtime);
    let b4 = b3 + be32(stat.mtime_nsec);
    let b5 = b4 + be32(stat.dev);
    lemma_stands_split(b, pos, b5, be32(stat.ino));
    lemma_stands_split(b, pos, b4, be32(stat.dev));
    lemma_stands_split(b, pos, b3, be32(stat.mtime_nsec));
    lemma_stands_split(b, pos, b2, be32(stat.mtime));
    lemma_stands_split(b, pos, b1, be32(stat.ctime_nsec));
    lemma_u32(b, pos, stat.ctime);
    lemma_u32(b, pos + 4, stat.ctime_nsec);
    lemma_u32(b, pos + 8, stat.mtime);
    lemma_u32(b, pos + 12, stat.mtime_nsec);
    lemma_u32(b, pos + 16, stat.dev);
    lemma_u32(b, pos + 20, stat.ino);
}

proof fn lemma_owner(b: Seq<u8>, pos: int, stat: FileStat)
    requires
        stands_at(b, pos, owner_bytes(stat)),
    ensures
        u32_at(b, pos) == stat.uid,
        u32_at(b, pos + 4) == stat.gid,
        u32_at(b, pos + 8) == stat.file_size,
        owner_bytes(stat).len() == 12,
{
    let b1 = be32(stat.uid);
    let b2 = b1 + be32(stat.gid);
    lemma_stands_split(b, pos, b2, be32(stat.file_size));
    lemma_stands_split(b, pos, b1, be32(stat.gid));
    lemma_u32(b, pos, stat.uid);
    lemma_u32(b, pos + 4, stat.gid);
    lemma_u32(b, pos + 8, stat.file_size);
}

proof fn lemma_fields_fit(b: Seq<u8>, at: int, n: int)
    requires
        n >= 0,
        at + 4 * n <= b.len(),
    ensures
        short_fields(b, at, n) is None,
    decreases n,
{
    if n > 0 {
        lemma_fields_fit(b, at + 4, n - 1);
    }
}

proof fn lemma_no_padding_error(b: Seq<u8>, at: int, n: int)
    requires
        stands_at(b, at, zeros(n)),
        n >= 0,
    ensures
        padding_error(b, at, n) is None,
    decreases n,
{
    if n > 0 {
        lemma_stands_byte(b, at, zeros(n), 0);
        assert(zeros(n) =~= seq![NUL] + zeros(n - 1));
        lemma_stands_split(b, at, seq![NUL], zeros(n - 1));
        lemma_no_padding_error(b, at + 1, n - 1);
    }
}

proof fn lemma_path(b: Seq<u8>, pos: int, e: IndexEntry<Seq<u8>>)
    requires
        stands_at(b, pos + 60, be16(e.flags)),
        stands_at(b, pos + 62, e.path),
        stands_at(b, pos + 62 + e.path.len(), seq![NUL]),
        entry_is_plain(e),
        0 <= pos,
    ensures
        entry_path_at(b, pos) == Ok::<(Seq<u8>, int), FormatError>(
            (e.path, pos + 63 + e.path.len()),
        ),
{
    lemma_stands_byte(b, pos + 60, be16(e.flags), 0);
    lemma_stands_byte(b, pos + 60, be16(e.flags), 1);
    lemma_stands_byte(b, pos + 62 + e.path.len(), seq![NUL], 0);
    assert(u16_at(b, pos + 60) == e.flags);
    let flags = e.flags;
    assert(flags & 0xfff == flags) by (bit_vector)
        requires
            flags <= 0xfff,
    ;
    paths_hold_no_nul(e.path);
    let rest = b.skip(pos + 62);
    assert forall|j: int| 0 <= j < e.path.len() implies rest[j] != NUL by {
        lemma_stands_byte(b, pos + 62, e.path, j);
    }
    lemma_until_is(rest, NUL, e.path.len() as int);
}

proof fn lemma_entry(b: Seq<u8>, pos: int, e: IndexEntry<Seq<u8>>)
    requires
        stands_at(b, pos, entry_bytes(e)),
        entry_is_plain(e),
    ensures
        index_entry_of(b, pos) == Ok::<(IndexEntry<Seq<u8>>, int), FormatError>(
            (e, pos + entry_bytes(e).len()),
        ),
        entry_bytes(e).len() > 0,
{
    let n = padding(63 + e.path.len() as int);
    let t = times_bytes(e.stat);
    let m = be32(e.mode.raw());
    let o = owner_bytes(e.stat);
    e.oid.lemma_len();
    lemma_stands_split(b, pos, entry_head(e) + e.path + seq![NUL], zeros(n));
    lemma_stands_split(b, pos, entry_head(e) + e.path, seq![NUL]);
    lemma_stands_split(b, pos, entry_head(e), e.path);
    lemma_stands_split(b, pos, t + m + o + e.oid@, be16(e.flags));
    lemma_stands_split(b, pos, t + m + o, e.oid@);
    lemma_stands_split(b, pos, t + m, o);
    lemma_stands_split(b, pos, t, m);
    lemma_times(b, pos, e.stat);
    lemma_u32(b, pos + 24, e.mode.raw());
    lemma_owner(b, pos + 28, e.stat);
    lemma_fields_fit(b, pos, 7);
    lemma_fields_fit(b, pos + 28, 3);
    lemma_mode_with_raw(e.mode);
    lemma_oid_of(e.oid);
    lemma_path(b, pos, e);
    lemma_no_padding_error(b, pos + 63 + e.path.len(), n);
    assert(stat_at(b, pos) == e.stat);
    assert(entry_of(e.path, e.oid, e.mode, e.stat) == e);
}

proof fn lemma_load_entries(
    b: Seq<u8>,
    pos: int,
    done: Seq<IndexEntry<Seq<u8>>>,
    rest: Seq<IndexEntry<Seq<u8>>>,
)
    requires
        stands_at(b, pos, entries_bytes(rest)),
        is_sorted(done + rest),
        forall|i: int| 0 <= i < rest.len() ==> entry_is_plain(#[trigger] rest[i]),
    ensures
        load_entries(b, pos, done, (done + rest).len() as int, rest.len() as int) == (Loaded {
            entries: done + rest,
            end: Ok(pos + entries_bytes(rest).len()),
        }),
    decreases rest.len(),
{
    let count = (done + rest).len() as int;
    if rest.len() == 0 {
        assert(done + rest =~= done);
    } else {
        let e = rest[0];
        let tail = rest.drop_first();
        lemma_stands_split(b, pos, entry_bytes(e), entries_bytes(tail));
        lemma_entry(b, pos, e);
        assert(done.push(e) + tail =~= done + rest);
        if done.len() > 0 {
            let k = done.len() - 1;
            let all = done + rest;
            assert(all[k] == done.last() && all[k + 1] == e);
        }
        assert forall|i: int| 0 <= i < tail.len() implies entry_is_plain(#[trigger] tail[i]) by {
            assert(tail[i] == rest[i + 1]);
        }
        lemma_load_entries(b, pos + entry_bytes(e).len(), done.push(e), tail);
    }
}

/// An entry that was written is read back as it is, whatever stands behind it, and nothing of what
/// stands behind it is read.
pub proof fn entry_round_trip(e: IndexEntry<Seq<u8>>, rest: Seq<u8>)
    requires
        entry_is_plain(e),
    ensures
        index_entry_of(entry_bytes(e) + rest, 0) == Ok::<(IndexEntry<Seq<u8>>, int), FormatError>(
            (e, entry_bytes(e).len() as int),
        ),
{
    let b = entry_bytes(e) + rest;
    assert(b.subrange(0, entry_bytes(e).len() as int) =~= entry_bytes(e));
    lemma_entry(b, 0, e);
}

/// Loading the bytes that an index was written to gives its entries back.
pub proof fn index_round_trip(entries: Seq<IndexEntry<Seq<u8>>>)
    requires
        is_sorted(entries),
        forall|i: int| 0 <= i < entries.len() ==> entry_is_plain(#[trigger] entries[i]),
        entries.len() <= u32::MAX,
        sha1_of(index_content(entries)).len() == 20,
    ensures
        loaded(Seq::empty(), index_bytes(entries)) == (entries, Ok::<(), IndexError>(())),
{
    let bytes = index_bytes(entries);
    let b = index_content(entries);
    assert(bytes.take(bytes.len() - 20) =~= b);
    assert(bytes.skip(bytes.len() - 20) =~= sha1_of(b));
    reveal_strlit("DIRC");
    lemma_ascii_text("DIRC");
    let head = text("DIRC") + be32(INDEX_VERSION) + be32(entries.len() as u32);
    assert(b.subrange(0, b.len() as int) =~= b);
    lemma_stands_split(b, 0, head, entries_bytes(entries));
    lemma_stands_split(b, 0, text("DIRC") + be32(INDEX_VERSION), be32(entries.len() as u32));
    lemma_stands_split(b, 0, text("DIRC"), be32(INDEX_VERSION));
    assert(b.take(4) =~= text("DIRC"));
    lemma_u32(b, 4, INDEX_VERSION);
    lemma_u32(b, 8, entries.len() as u32);
    let none = Seq::<IndexEntry<Seq<u8>>>::empty();
    assert(none + entries =~= entries);
    lemma_load_entries(b, 12, none, entries);
}

} // verus!
