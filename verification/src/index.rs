//! The index: the sorted list of tracked files and the file it is kept in.

use crate::bytes::{
    append, append_text, copy_of, first, from, has_prefix, is_text, less_bytes,
    lemma_lex_irreflexive, lemma_lex_total, lemma_lex_transitive, lex_less, same_bytes, starts_with,
    text, NUL, SLASH,
};
use crate::digest::{sha1_digest, sha1_of};
use crate::index::parse::{index_entry_of, Parser};
use crate::object::mode::Mode;
use crate::object::oid::Oid;
use crate::os::FileStat;
use crate::path::OsPath;
use crate::repo_path::{spec_is_parent_path, RepoPath, RepoPathErrorKind};
use vstd::prelude::*;
use vstd::string::*;

pub mod laws;
pub mod meaning;
pub mod parse;

verus! {

/// The version of the format that is read and written.
pub const INDEX_VERSION: u32 = 2;

/// The greatest path length that the flags of an entry can hold. It stands for every length from
/// there on.
pub const PATH_MAX_SIZE: u16 = 0xfff;

#[derive(Debug, Clone, Copy, PartialEq, Eq, Structural)]
pub enum FormatErrorKind {
    Eof { needed: usize, remaining: usize },
    InvalidSignature,
    EntriesNotSorted,
    EntriesCountMissMatch { actual: usize, expected: usize },
    /// Bytes are left over behind the last entry.
    TrailingBytes { remaining: usize },
    InvalidMode(u32),
    InvalidNanoseconds,
    MissingNulTerminator,
    InvalidPadding,
    LongPathLenMissMatch,
    InvalidPathSyntax(RepoPathErrorKind),
}

/// What is wrong with the bytes of an index, and where.
#[derive(Debug, Clone, Copy, PartialEq, Eq, Structural)]
pub struct FormatError {
    pub offset: usize,
    pub kind: FormatErrorKind,
}

impl FormatError {
    pub fn at(offset: usize, kind: FormatErrorKind) -> (r: Self)
        ensures
            r == (FormatError { offset, kind }),
    {
        Self { offset, kind }
    }
}

#[derive(Debug, Clone, Copy, PartialEq, Eq, Structural)]
pub enum IndexError {
    /// The bytes are not the ones that were written.
    InvalidChecksum,
    UnsupportedVersion(u32),
    InvalidFormat(FormatError),
}

/// One tracked file.
#[derive(Debug, PartialEq, Eq)]
pub struct IndexEntry<P = RepoPath> {
    pub stat: FileStat,
    pub mode: Mode,
    pub oid: Oid,
    /// The length of the path, as far as it fits twelve bits.
    pub flags: u16,
    pub path: P,
}

impl View for IndexEntry {
    type V = IndexEntry<Seq<u8>>;

    open spec fn view(&self) -> IndexEntry<Seq<u8>> {
        IndexEntry {
            stat: self.stat,
            mode: self.mode,
            oid: self.oid,
            flags: self.flags,
            path: self.path@,
        }
    }
}

pub open spec fn flags_of(path_len: nat) -> u16 {
    if path_len < PATH_MAX_SIZE {
        path_len as u16
    } else {
        PATH_MAX_SIZE
    }
}

/// The entry of a file.
pub open spec fn entry_of(path: Seq<u8>, oid: Oid, mode: Mode, stat: FileStat) -> IndexEntry<
    Seq<u8>,
> {
    IndexEntry { stat, mode, oid, flags: flags_of(path.len()), path }
}

/// The four bytes of a number, the most significant first.
pub open spec fn be32(n: u32) -> Seq<u8> {
    seq![
        (n / 0x100_0000) as u8,
        (n / 0x1_0000 % 0x100) as u8,
        (n / 0x100 % 0x100) as u8,
        (n % 0x100) as u8,
    ]
}

/// The two bytes of a number, the most significant first.
pub open spec fn be16(n: u16) -> Seq<u8> {
    seq![(n / 0x100) as u8, (n % 0x100) as u8]
}

/// The times, the device and the inode of a file.
pub open spec fn times_bytes(stat: FileStat) -> Seq<u8> {
    be32(stat.ctime) + be32(stat.ctime_nsec) + be32(stat.mtime) + be32(stat.mtime_nsec) + be32(
        stat.dev,
    ) + be32(stat.ino)
}

/// The owner and the size of a file.
pub open spec fn owner_bytes(stat: FileStat) -> Seq<u8> {
    be32(stat.uid) + be32(stat.gid) + be32(stat.file_size)
}

/// The 62 bytes in front of the path of an entry.
pub open spec fn entry_head(e: IndexEntry<Seq<u8>>) -> Seq<u8> {
    times_bytes(e.stat) + be32(e.mode.raw()) + owner_bytes(e.stat) + e.oid@ + be16(e.flags)
}

pub open spec fn zeros(n: int) -> Seq<u8> {
    Seq::new(n as nat, |i: int| NUL)
}

/// The number of NUL bytes that fill up an entry of `size` bytes to a multiple of eight.
pub open spec fn padding(size: int) -> int {
    (8 - size % 8) % 8
}

/// The bytes of an entry: the fixed fields, the path, a NUL, and NULs up to a multiple of eight.
pub open spec fn entry_bytes(e: IndexEntry<Seq<u8>>) -> Seq<u8> {
    entry_head(e) + e.path + seq![NUL] + zeros(padding(63 + e.path.len() as int))
}

pub open spec fn entries_bytes(entries: Seq<IndexEntry<Seq<u8>>>) -> Seq<u8>
    decreases entries.len(),
{
    if entries.len() == 0 {
        Seq::empty()
    } else {
        entry_bytes(entries[0]) + entries_bytes(entries.drop_first())
    }
}

/// The bytes of an index without the checksum.
pub open spec fn index_content(entries: Seq<IndexEntry<Seq<u8>>>) -> Seq<u8> {
    text("DIRC") + be32(INDEX_VERSION) + be32(entries.len() as u32) + entries_bytes(entries)
}

/// The bytes of an index: the content and its checksum.
pub open spec fn index_bytes(entries: Seq<IndexEntry<Seq<u8>>>) -> Seq<u8> {
    index_content(entries) + sha1_of(index_content(entries))
}

/// The paths ascend, so no path occurs twice.
pub open spec fn is_sorted(entries: Seq<IndexEntry<Seq<u8>>>) -> bool {
    forall|i: int, j: int|
        0 <= i < j < entries.len() ==> lex_less(
            (#[trigger] entries[i]).path,
            (#[trigger] entries[j]).path,
        )
}

/// One of the two paths would have to be a file and a directory at once.
pub open spec fn is_conflict(a: Seq<u8>, b: Seq<u8>) -> bool {
    spec_is_parent_path(a, b) || spec_is_parent_path(b, a)
}

pub open spec fn is_conflict_free(entries: Seq<IndexEntry<Seq<u8>>>) -> bool {
    forall|i: int, j: int|
        0 <= i < entries.len() && 0 <= j < entries.len() ==> !spec_is_parent_path(
            (#[trigger] entries[i]).path,
            (#[trigger] entries[j]).path,
        )
}

/// The entries that do not conflict with `path`.
pub open spec fn without_conflicts(entries: Seq<IndexEntry<Seq<u8>>>, path: Seq<u8>) -> Seq<
    IndexEntry<Seq<u8>>,
> {
    entries.filter(|e: IndexEntry<Seq<u8>>| !is_conflict(e.path, path))
}

/// The number of entries in front of `path`: the place where it stands or belongs.
pub open spec fn is_lower_bound(entries: Seq<IndexEntry<Seq<u8>>>, path: Seq<u8>, at: int) -> bool {
    &&& 0 <= at <= entries.len()
    &&& forall|i: int| 0 <= i < at ==> lex_less((#[trigger] entries[i]).path, path)
    &&& forall|i: int| at <= i < entries.len() ==> !lex_less((#[trigger] entries[i]).path, path)
}

pub open spec fn lower_bound_of(entries: Seq<IndexEntry<Seq<u8>>>, path: Seq<u8>) -> int {
    choose|at: int| is_lower_bound(entries, path, at)
}

/// An entry with this path.
pub open spec fn has_path(entries: Seq<IndexEntry<Seq<u8>>>, path: Seq<u8>) -> bool {
    exists|i: int| 0 <= i < entries.len() && (#[trigger] entries[i]).path == path
}

/// The entries with `e` among them: in the place of the entry with its path, or at the place where
/// it belongs. The flag tells whether that changes anything.
pub open spec fn put(entries: Seq<IndexEntry<Seq<u8>>>, e: IndexEntry<Seq<u8>>) -> (
    Seq<IndexEntry<Seq<u8>>>,
    bool,
) {
    let at = lower_bound_of(entries, e.path);
    if at < entries.len() && entries[at].path == e.path {
        (entries.update(at, e), entries[at] != e)
    } else {
        (entries.insert(at, e), true)
    }
}

/// The entries after `e` was added: whatever conflicts with it is gone.
pub open spec fn added_one(entries: Seq<IndexEntry<Seq<u8>>>, e: IndexEntry<Seq<u8>>) -> (
    Seq<IndexEntry<Seq<u8>>>,
    bool,
) {
    put(without_conflicts(entries, e.path), e)
}

/// The entries after all of `new` were added, one by one, and whether that changed anything.
pub open spec fn added(entries: Seq<IndexEntry<Seq<u8>>>, new: Seq<IndexEntry<Seq<u8>>>) -> (
    Seq<IndexEntry<Seq<u8>>>,
    bool,
)
    decreases new.len(),
{
    if new.len() == 0 {
        (entries, false)
    } else {
        let before = added(entries, new.drop_last());
        let after = added_one(before.0, new.last());
        (after.0, before.1 || after.1)
    }
}

/// A path is tracked if it is in the index or is a directory with something of the index in it.
pub open spec fn spec_is_tracked(entries: Seq<IndexEntry<Seq<u8>>>, path: Seq<u8>) -> bool {
    has_path(entries, path) || exists|i: int|
        0 <= i < entries.len() && spec_is_parent_path(path, (#[trigger] entries[i]).path)
}

pub open spec fn entries_view(entries: Seq<IndexEntry>) -> Seq<IndexEntry<Seq<u8>>> {
    Seq::new(entries.len(), |i: int| entries[i]@)
}

/// What reading entries leads to: the entries so far, and an error or the position behind them.
pub struct Loaded {
    pub entries: Seq<IndexEntry<Seq<u8>>>,
    pub end: Result<int, FormatError>,
}

/// Reads `left` entries from `pos` on and puts them behind `entries`, of which there may be
/// `count` in the end.
pub open spec fn load_entries(
    b: Seq<u8>,
    pos: int,
    entries: Seq<IndexEntry<Seq<u8>>>,
    count: int,
    left: int,
) -> Loaded
    decreases left,
{
    if left <= 0 {
        Loaded { entries, end: Ok(pos) }
    } else {
        match index_entry_of(b, pos) {
            Err(err) => Loaded { entries, end: Err(err) },
            Ok((e, next)) => if entries.len() > 0 && !lex_less(entries.last().path, e.path) {
                Loaded {
                    entries,
                    end: Err(
                        FormatError { offset: pos as usize, kind: FormatErrorKind::EntriesNotSorted },
                    ),
                }
            } else if entries.len() + 1 > count {
                Loaded {
                    entries: entries.push(e),
                    end: Err(count_mismatch(next, entries.len() as int + 1, count)),
                }
            } else {
                load_entries(b, next, entries.push(e), count, left - 1)
            },
        }
    }
}

pub open spec fn count_mismatch(pos: int, actual: int, expected: int) -> FormatError {
    FormatError {
        offset: pos as usize,
        kind: FormatErrorKind::EntriesCountMissMatch {
            actual: actual as usize,
            expected: expected as usize,
        },
    }
}

pub open spec fn format_error(offset: int, kind: FormatErrorKind) -> IndexError {
    IndexError::InvalidFormat(FormatError { offset: offset as usize, kind })
}

pub open spec fn eof(b: Seq<u8>, pos: int, needed: int) -> FormatError {
    FormatError {
        offset: pos as usize,
        kind: FormatErrorKind::Eof {
            needed: needed as usize,
            remaining: (b.len() - pos) as usize,
        },
    }
}

/// The number in four bytes, the most significant first.
pub open spec fn u32_of(b: Seq<u8>) -> u32 {
    (b[0] * 0x100_0000 + b[1] * 0x1_0000 + b[2] * 0x100 + b[3]) as u32
}

pub open spec fn u32_at(b: Seq<u8>, pos: int) -> u32 {
    u32_of(b.subrange(pos, pos + 4))
}

pub open spec fn u16_at(b: Seq<u8>, pos: int) -> u16 {
    (b[pos] * 0x100 + b[pos + 1]) as u16
}

/// What loading the bytes of an index file into an index with `entries` leads to: the entries
/// afterwards, and the error if there is one.
pub open spec fn loaded(entries: Seq<IndexEntry<Seq<u8>>>, bytes: Seq<u8>) -> (
    Seq<IndexEntry<Seq<u8>>>,
    Result<(), IndexError>,
) {
    let b = bytes.take(bytes.len() - 20);
    let count = u32_at(b, 8);
    let all = load_entries(b, 12, entries, count as int, count as int);
    if bytes.len() < 20 {
        (
            entries,
            Err(
                format_error(
                    0,
                    FormatErrorKind::Eof { needed: 20, remaining: bytes.len() as usize },
                ),
            ),
        )
    } else if sha1_of(b) != bytes.skip(bytes.len() - 20) {
        (entries, Err(IndexError::InvalidChecksum))
    } else if b.len() < 4 {
        (entries, Err(IndexError::InvalidFormat(eof(b, 0, 4))))
    } else if b.take(4) != text("DIRC") {
        (entries, Err(format_error(0, FormatErrorKind::InvalidSignature)))
    } else if b.len() < 8 {
        (entries, Err(IndexError::InvalidFormat(eof(b, 4, 4))))
    } else if u32_at(b, 4) != INDEX_VERSION {
        (entries, Err(IndexError::UnsupportedVersion(u32_at(b, 4))))
    } else if b.len() < 12 {
        (entries, Err(IndexError::InvalidFormat(eof(b, 8, 4))))
    } else {
        match all.end {
            Err(err) => (all.entries, Err(IndexError::InvalidFormat(err))),
            Ok(pos) => if all.entries.len() != count {
                (
                    all.entries,
                    Err(
                        IndexError::InvalidFormat(
                            count_mismatch(pos, all.entries.len() as int, count as int),
                        ),
                    ),
                )
            } else if pos != b.len() {
                (
                    all.entries,
                    Err(
                        format_error(
                            pos,
                            FormatErrorKind::TrailingBytes { remaining: (b.len() - pos) as usize },
                        ),
                    ),
                )
            } else {
                (all.entries, Ok(()))
            },
        }
    }
}

pub proof fn lemma_entries_push(entries: Seq<IndexEntry<Seq<u8>>>, e: IndexEntry<Seq<u8>>)
    ensures
        entries_bytes(entries.push(e)) == entries_bytes(entries) + entry_bytes(e),
    decreases entries.len(),
{
    let all = entries.push(e);
    if entries.len() == 0 {
        assert(all.drop_first() =~= entries);
        assert(entries_bytes(all) =~= entries_bytes(entries) + entry_bytes(e));
    } else {
        assert(all.drop_first() =~= entries.drop_first().push(e));
        lemma_entries_push(entries.drop_first(), e);
        assert(entries_bytes(all) =~= entries_bytes(entries) + entry_bytes(e));
    }
}

fn append_be32(out: &mut Vec<u8>, n: u32)
    ensures
        final(out)@ == old(out)@ + be32(n),
{
    out.push((n / 0x100_0000) as u8);
    out.push((n / 0x1_0000 % 0x100) as u8);
    out.push((n / 0x100 % 0x100) as u8);
    out.push((n % 0x100) as u8);
    assert(out@ =~= old(out)@ + be32(n));
}

fn append_be16(out: &mut Vec<u8>, n: u16)
    ensures
        final(out)@ == old(out)@ + be16(n),
{
    out.push((n / 0x100) as u8);
    out.push((n % 0x100) as u8);
    assert(out@ =~= old(out)@ + be16(n));
}

fn append_times(out: &mut Vec<u8>, stat: &FileStat)
    ensures
        final(out)@ == old(out)@ + times_bytes(*stat),
        times_bytes(*stat).len() == 24,
{
    append_be32(out, stat.ctime);
    append_be32(out, stat.ctime_nsec);
    append_be32(out, stat.mtime);
    append_be32(out, stat.mtime_nsec);
    append_be32(out, stat.dev);
    append_be32(out, stat.ino);
    assert(out@ =~= old(out)@ + times_bytes(*stat));
}

fn append_owner(out: &mut Vec<u8>, stat: &FileStat)
    ensures
        final(out)@ == old(out)@ + owner_bytes(*stat),
        owner_bytes(*stat).len() == 12,
{
    append_be32(out, stat.uid);
    append_be32(out, stat.gid);
    append_be32(out, stat.file_size);
    assert(out@ =~= old(out)@ + owner_bytes(*stat));
}

/// Appends NULs up to a multiple of eight.
fn pad(bytes: &mut Vec<u8>)
    ensures
        final(bytes)@ == old(bytes)@ + zeros(padding(old(bytes)@.len() as int)),
{
    let ghost unpadded = bytes@;
    let ghost n = padding(unpadded.len() as int);
    assert(unpadded + zeros(0) =~= unpadded);
    while bytes.len() % 8 != 0
        invariant
            unpadded.len() <= bytes@.len() <= unpadded.len() + n,
            n == padding(unpadded.len() as int),
            bytes@ == unpadded + zeros(bytes@.len() - unpadded.len()),
        decreases unpadded.len() + n - bytes@.len(),
    {
        bytes.push(NUL);
        assert(bytes@ =~= unpadded + zeros(bytes@.len() - unpadded.len()));
    }
}

impl IndexEntry {
    pub fn new(path: RepoPath, oid: Oid, mode: Mode, stat: FileStat) -> (r: Self)
        ensures
            r@ == entry_of(path@, oid, mode, stat),
            r.path == path,
            r.oid == oid,
            r.mode == mode,
            r.stat == stat,
            r.flags == (if path@.len() < 0xfff {
                path@.len() as int
            } else {
                0xfff
            }),
    {
        let flags: u16 = if path.len() < PATH_MAX_SIZE as usize {
            path.len() as u16
        } else {
            PATH_MAX_SIZE
        };
        Self { stat, mode, oid, flags, path }
    }

    /// Are the times of the last changes the same?
    pub fn times_match(&self, other: &FileStat) -> (r: bool)
        ensures
            r == (self.stat.ctime == other.ctime && self.stat.ctime_nsec == other.ctime_nsec
                && self.stat.mtime == other.mtime && self.stat.mtime_nsec == other.mtime_nsec),
    {
        self.stat.ctime == other.ctime && self.stat.ctime_nsec == other.ctime_nsec
            && self.stat.mtime == other.mtime && self.stat.mtime_nsec == other.mtime_nsec
    }

    /// The bytes of the entry.
    pub fn serialize(&self) -> (bytes: Vec<u8>)
        ensures
            bytes@ == entry_bytes(self@),
    {
        let mut bytes: Vec<u8> = Vec::new();
        append_times(&mut bytes, &self.stat);
        append_be32(&mut bytes, self.mode.to_raw());
        append_owner(&mut bytes, &self.stat);
        append(&mut bytes, self.oid.as_bytes().as_slice());
        append_be16(&mut bytes, self.flags);
        proof {
            self.oid.lemma_len();
            assert(bytes@ =~= entry_head(self@));
        }
        append(&mut bytes, self.path.as_bytes());
        // a path is always followed by a NUL, which ends one whose length is not known
        bytes.push(NUL);
        assert(bytes@ =~= entry_head(self@) + self.path@ + seq![NUL]);
        pad(&mut bytes);
        bytes
    }

    /// Are all the fields the same?
    pub fn same_as(&self, other: &IndexEntry) -> (r: bool)
        ensures
            r == (self@ == other@),
    {
        proof {
            if self.oid@ == other.oid@ {
                self.oid.lemma_ext(other.oid);
            }
        }
        self.stat == other.stat && self.mode == other.mode && self.oid.same_as(&other.oid)
            && self.flags == other.flags && same_bytes(self.path.as_bytes(), other.path.as_bytes())
    }
}

/// The tracked files, sorted by their paths.
#[derive(Debug)]
pub struct Index {
    pub entries: Vec<IndexEntry>,
    /// The file that the index is kept in.
    pub path: OsPath,
    /// Was anything changed since the index was loaded?
    pub modified: bool,
}

impl View for Index {
    type V = Seq<IndexEntry<Seq<u8>>>;

    open spec fn view(&self) -> Seq<IndexEntry<Seq<u8>>> {
        entries_view(self.entries@)
    }
}

pub proof fn lemma_lower_bound(entries: Seq<IndexEntry<Seq<u8>>>, path: Seq<u8>, at: int)
    requires
        is_lower_bound(entries, path, at),
    ensures
        lower_bound_of(entries, path) == at,
{
    let other = lower_bound_of(entries, path);
    assert(is_lower_bound(entries, path, other));
    if other < at {
        assert(lex_less(entries[other].path, path));
    } else if at < other {
        assert(lex_less(entries[at].path, path));
    }
}

impl Index {
    pub open spec fn wf(&self) -> bool {
        is_sorted(self@)
    }

    pub fn new(path: OsPath) -> (r: Self)
        ensures
            r@ == Seq::<IndexEntry<Seq<u8>>>::empty(),
            r.path == path,
            !r.modified,
            r.wf(),
    {
        let r = Self { entries: Vec::new(), path, modified: false };
        assert(r@ =~= Seq::<IndexEntry<Seq<u8>>>::empty());
        r
    }

    /// The number of entries in front of `path`: the place where it stands or belongs.
    pub fn lower_bound(&self, path_bytes: &[u8]) -> (at: usize)
        requires
            self.wf(),
        ensures
            is_lower_bound(self@, path_bytes@, at as int),
            at == lower_bound_of(self@, path_bytes@),
            at <= self.entries@.len(),
    {
        let mut low: usize = 0;
        let mut high: usize = self.entries.len();
        while low < high
            invariant
                self.wf(),
                low <= high <= self.entries@.len(),
                forall|i: int| 0 <= i < low ==> lex_less((#[trigger] self@[i]).path, path_bytes@),
                forall|i: int|
                    high <= i < self@.len() ==> !lex_less((#[trigger] self@[i]).path, path_bytes@),
            decreases high - low,
        {
            let mid: usize = low + (high - low) / 2;
            assert(self@[mid as int] == self.entries@[mid as int]@);
            if less_bytes(self.entries[mid].path.as_bytes(), path_bytes) {
                proof {
                    assert forall|i: int| 0 <= i < mid + 1 implies lex_less(
                        (#[trigger] self@[i]).path,
                        path_bytes@,
                    ) by {
                        if i < mid {
                            lemma_lex_transitive(
                                self@[i].path,
                                self@[mid as int].path,
                                path_bytes@,
                            );
                        }
                    }
                }
                low = mid + 1;
            } else {
                proof {
                    assert forall|i: int| mid <= i < self@.len() implies !lex_less(
                        (#[trigger] self@[i]).path,
                        path_bytes@,
                    ) by {
                        if i > mid && lex_less(self@[i].path, path_bytes@) {
                            lemma_lex_transitive(
                                self@[mid as int].path,
                                self@[i].path,
                                path_bytes@,
                            );
                        }
                    }
                }
                high = mid;
            }
        }
        proof {
            lemma_lower_bound(self@, path_bytes@, low as int);
        }
        low
    }

    /// The place of the entry with this path; where there is none, the place where it belongs.
    fn search(&self, path: &[u8]) -> (r: Result<usize, usize>)
        requires
            self.wf(),
        ensures
            match r {
                Ok(at) => at < self@.len() && self@[at as int].path == path@ && at
                    == lower_bound_of(self@, path@),
                Err(at) => !has_path(self@, path@) && at == lower_bound_of(self@, path@) && at
                    <= self@.len() && !(at < self@.len() && self@[at as int].path == path@),
            },
            match r {
                Ok(at) => is_lower_bound(self@, path@, at as int),
                Err(at) => is_lower_bound(self@, path@, at as int),
            },
    {
        let at: usize = self.lower_bound(path);
        proof {
            if at < self.entries@.len() {
                assert(self@[at as int] == self.entries@[at as int]@);
            }
        }
        if at < self.entries.len() && same_bytes(self.entries[at].path.as_bytes(), path) {
            Ok(at)
        } else {
            proof {
                if has_path(self@, path@) {
                    let i = choose|i: int| 0 <= i < self@.len() && (#[trigger] self@[i]).path
                        == path@;
                    lemma_lex_irreflexive(path@);
                    assert(i >= at);
                    if i > at {
                        assert(lex_less(self@[at as int].path, self@[i].path));
                    }
                }
            }
            Err(at)
        }
    }

    /// Is there an entry with this path?
    pub fn contains(&self, path: &RepoPath) -> (r: bool)
        requires
            self.wf(),
        ensures
            r == has_path(self@, path@),
    {
        match self.search(path.as_bytes()) {
            Ok(_) => true,
            Err(_) => false,
        }
    }

    /// Is the path in the index, or a directory with something of the index in it? The entries of
    /// a directory stand together, behind the name of the directory and a slash: a sibling such as
    /// `a/b.txt` can stand between `a/b` and `a/b/c.txt`.
    pub fn is_tracked(&self, path: &RepoPath) -> (r: bool)
        requires
            self.wf(),
        ensures
            r == spec_is_tracked(self@, path@),
    {
        self.contains(path) || self.has_below(path)
    }

    /// Does anything in the index lie in this directory?
    pub fn has_below(&self, path: &RepoPath) -> (r: bool)
        requires
            self.wf(),
        ensures
            r == exists|i: int|
                0 <= i < self@.len() && spec_is_parent_path(path@, (#[trigger] self@[i]).path),
    {
        let mut path_bytes: Vec<u8> = copy_of(path.as_bytes());
        path_bytes.push(SLASH);
        let at: usize = self.lower_bound(path_bytes.as_slice());
        proof {
            let key = path@.push(SLASH);
            assert(path_bytes@ == key);
            assert forall|i: int| 0 <= i < self@.len() implies spec_is_parent_path(
                path@,
                (#[trigger] self@[i]).path,
            ) == has_prefix(self@[i].path, key) by {
                lemma_parent_is_prefix(path@, self@[i].path);
            }
            assert forall|i: int| 0 <= i < self@.len() && has_prefix((#[trigger] self@[i]).path, key)
                implies at < self@.len() && has_prefix(self@[at as int].path, key) by {
                lemma_prefix_not_less(key, self@[i].path);
                assert(i >= at);
                if i > at {
                    lemma_between_prefixes(key, self@[at as int].path, self@[i].path);
                }
            }
        }
        if at < self.entries.len() {
            assert(self@[at as int] == self.entries@[at as int]@);
            starts_with(self.entries[at].path.as_bytes(), path_bytes.as_slice())
        } else {
            false
        }
    }

    /// Is none of the paths a file and a directory at once?
    pub fn is_conflict_free(&self) -> (r: bool)
        requires
            self.wf(),
        ensures
            r == is_conflict_free(self@),
    {
        let mut i: usize = 0;
        while i < self.entries.len()
            invariant
                i <= self.entries@.len(),
                self.wf(),
                forall|a: int, b: int|
                    0 <= a < i && 0 <= b < self@.len() ==> !spec_is_parent_path(
                        (#[trigger] self@[a]).path,
                        (#[trigger] self@[b]).path,
                    ),
            decreases self.entries@.len() - i,
        {
            assert(self@[i as int] == self.entries@[i as int]@);
            if self.has_below(&self.entries[i].path) {
                return false;
            }
            i = i + 1;
        }
        true
    }

    /// Removes the entries that could not exist beside a file at `path`: files in whose place it
    /// needs a directory, and files in a directory in whose place it stands.
    pub fn resolve_conflicts(&mut self, path: &RepoPath)
        ensures
            final(self)@ == without_conflicts(old(self)@, path@),
            final(self).path == old(self).path,
            final(self).modified == old(self).modified,
            old(self).wf() ==> final(self).wf(),
    {
        let ghost keep = |e: IndexEntry<Seq<u8>>| !is_conflict(e.path, path@);
        let ghost all = self@;
        let mut old_entries: Vec<IndexEntry> = Vec::new();
        core::mem::swap(&mut old_entries, &mut self.entries);
        let mut kept: Vec<IndexEntry> = Vec::new();
        let ghost given = old_entries@;
        assert(all.take(0).filter(keep) =~= entries_view(kept@)) by {
            assert(all.take(0) =~= Seq::<IndexEntry<Seq<u8>>>::empty());
            reveal(Seq::filter);
        }
        for entry in it: old_entries
            invariant
                it.seq() == given,
                all == entries_view(given),
                keep == (|e: IndexEntry<Seq<u8>>| !is_conflict(e.path, path@)),
                entries_view(kept@) == all.take(it.index()).filter(keep),
        {
            let ghost before = kept@;
            proof {
                let i = it.index();
                assert(entry == given[i]);
                assert(all.take(i + 1) =~= all.take(i).push(entry@));
                all.take(i).lemma_filter_push(entry@, keep);
            }
            if !(entry.path.is_parent_of(path) || path.is_parent_of(&entry.path)) {
                kept.push(entry);
                assert(entries_view(kept@) =~= entries_view(before).push(entry@));
            }
        }
        assert(all.take(given.len() as int) =~= all);
        self.entries = kept;
        proof {
            if is_sorted(all) {
                lemma_filter_sorted(all, keep);
            }
        }
    }

    /// Adds entries. An entry takes the place of the one with its path, and of those it conflicts
    /// with.
    pub fn add_entries(&mut self, entries: Vec<IndexEntry>) -> (r: Result<(), IndexError>)
        requires
            old(self).wf(),
        ensures
            r is Ok,
            final(self).wf(),
            final(self)@ == added(old(self)@, entries_view(entries@)).0,
            final(self).modified == (old(self).modified || added(
                old(self)@,
                entries_view(entries@),
            ).1),
            final(self).path == old(self).path,
    {
        let ghost new = entries_view(entries@);
        let ghost given = entries@;
        assert(new.take(0) =~= Seq::<IndexEntry<Seq<u8>>>::empty());
        for entry in it: entries
            invariant
                it.seq() == given,
                new == entries_view(given),
                self.wf(),
                self@ == added(old(self)@, new.take(it.index())).0,
                self.modified == (old(self).modified || added(old(self)@, new.take(it.index())).1),
                self.path == old(self).path,
        {
            let ghost i = it.index();
            proof {
                assert(entry == given[i]);
                assert(new.take(i + 1).drop_last() =~= new.take(i));
                assert(new.take(i + 1).last() == entry@);
            }
            self.add_entry(entry);
        }
        assert(new.take(given.len() as int) =~= new);
        Ok(())
    }

    fn add_entry(&mut self, entry: IndexEntry)
        requires
            old(self).wf(),
        ensures
            final(self).wf(),
            final(self)@ == added_one(old(self)@, entry@).0,
            final(self).modified == (old(self).modified || added_one(old(self)@, entry@).1),
            final(self).path == old(self).path,
    {
        self.resolve_conflicts(&entry.path);
        let ghost before = self@;
        match self.search(entry.path.as_bytes()) {
            Ok(at) => {
                assert(self@[at as int] == self.entries@[at as int]@);
                if !self.entries[at].same_as(&entry) {
                    let ghost e = entry@;
                    self.entries[at] = entry;
                    self.modified = true;
                    proof {
                        assert(self@ =~= before.update(at as int, e));
                        lemma_update_sorted(before, at as int, e);
                    }
                } else {
                    assert(before.update(at as int, entry@) =~= before);
                }
            },
            Err(at) => {
                let ghost e = entry@;
                self.entries.insert(at, entry);
                self.modified = true;
                proof {
                    assert(self@ =~= before.insert(at as int, e));
                    lemma_insert_sorted(before, at as int, e);
                }
            },
        }
    }

    /// Removes the entry with this path.
    pub fn remove(&mut self, path: &RepoPath) -> (r: Option<IndexEntry>)
        requires
            old(self).wf(),
        ensures
            final(self).wf(),
            final(self).path == old(self).path,
            if has_path(old(self)@, path@) {
                let at = lower_bound_of(old(self)@, path@);
                &&& 0 <= at < old(self)@.len() && old(self)@[at].path == path@
                &&& r matches Some(e) && e@ == old(self)@[at]
                &&& final(self)@ == old(self)@.remove(at)
                &&& final(self).modified
            } else {
                r is None && final(self)@ == old(self)@ && final(self).modified == old(
                    self,
                ).modified
            },
    {
        match self.search(path.as_bytes()) {
            Ok(at) => {
                let ghost before = self@;
                assert(self@[at as int] == self.entries@[at as int]@);
                let entry = self.entries.remove(at);
                self.modified = true;
                proof {
                    assert(self@ =~= before.remove(at as int));
                    assert(has_path(before, path@));
                }
                Some(entry)
            },
            Err(_) => None,
        }
    }

    /// Replaces the statistics of one entry.
    pub fn refresh_entry_stat(&mut self, index: usize, stat: FileStat)
        requires
            index < old(self).entries@.len(),
        ensures
            final(self)@ == old(self)@.update(
                index as int,
                IndexEntry { stat, ..old(self)@[index as int] },
            ),
            final(self).path == old(self).path,
            final(self).modified == old(self).modified,
            old(self).wf() ==> final(self).wf(),
    {
        let ghost before = self@;
        let entry = IndexEntry {
            stat,
            mode: self.entries[index].mode,
            oid: self.entries[index].oid,
            flags: self.entries[index].flags,
            path: self.entries[index].path.copied(),
        };
        self.entries[index] = entry;
        assert(before[index as int] == old(self).entries@[index as int]@);
        assert(self@ =~= before.update(
            index as int,
            IndexEntry { stat, ..before[index as int] },
        ));
        proof {
            if old(self).wf() {
                lemma_update_sorted(
                    before,
                    index as int,
                    IndexEntry { stat, ..before[index as int] },
                );
            }
        }
    }

    /// The bytes of the index file.
    pub fn serialize(&self) -> (bytes: Vec<u8>)
        ensures
            bytes@ == index_bytes(self@),
            sha1_of(index_content(self@)).len() == 20,
    {
        let mut bytes: Vec<u8> = Vec::new();
        append_text(&mut bytes, "DIRC");
        append_be32(&mut bytes, INDEX_VERSION);
        append_be32(&mut bytes, #[verifier::truncate] (self.entries.len() as u32));
        let ghost head = bytes@;
        let mut i: usize = 0;
        assert(self@.take(0) =~= Seq::<IndexEntry<Seq<u8>>>::empty());
        assert(head + entries_bytes(self@.take(0)) =~= head);
        while i < self.entries.len()
            invariant
                i <= self.entries@.len(),
                bytes@ == head + entries_bytes(self@.take(i as int)),
            decreases self.entries@.len() - i,
        {
            let entry = self.entries[i].serialize();
            append(&mut bytes, entry.as_slice());
            proof {
                let e = self.entries@[i as int]@;
                assert(self@.take(i + 1) =~= self@.take(i as int).push(e));
                lemma_entries_push(self@.take(i as int), e);
                assert(bytes@ =~= head + entries_bytes(self@.take(i + 1)));
            }
            i = i + 1;
        }
        assert(self@.take(i as int) =~= self@);
        assert(bytes@ =~= index_content(self@));
        let checksum = sha1_digest(bytes.as_slice());
        append(&mut bytes, checksum.as_slice());
        bytes
    }

    /// Loads the bytes of the index file. Where there is no file yet, there are no entries.
    pub fn load(&mut self, file: Option<&[u8]>) -> (r: Result<(), IndexError>)
        ensures
            final(self).path == old(self).path,
            final(self).modified == old(self).modified,
            match file {
                None => r is Ok && final(self)@ == Seq::<IndexEntry<Seq<u8>>>::empty(),
                Some(bytes) => final(self)@ == loaded(old(self)@, bytes@).0 && r == loaded(
                    old(self)@,
                    bytes@,
                ).1,
            },
            old(self).wf() ==> final(self).wf(),
    {
        let bytes = match file {
            None => {
                self.entries = Vec::new();
                assert(self@ =~= Seq::<IndexEntry<Seq<u8>>>::empty());
                return Ok(());
            },
            Some(bytes) => bytes,
        };
        if bytes.len() < 20 {
            return Err(
                IndexError::InvalidFormat(
                    FormatError::at(
                        0,
                        FormatErrorKind::Eof { needed: 20, remaining: bytes.len() },
                    ),
                ),
            );
        }
        let content = first(bytes, bytes.len() - 20);
        let checksum = from(bytes, bytes.len() - 20);
        let hash = sha1_digest(content);
        // the checksum says that these are the bytes that were written, not that they form an index
        if !same_bytes(hash.as_slice(), checksum) {
            return Err(IndexError::InvalidChecksum);
        }
        let mut parser = Parser::new(content);
        match parser.take::<4>() {
            Err(err) => {
                return Err(IndexError::InvalidFormat(err));
            },
            Ok(signature) => {
                assert(content@.subrange(0, 4) =~= content@.take(4));
                if !is_text(signature, "DIRC") {
                    return Err(
                        IndexError::InvalidFormat(
                            FormatError::at(0, FormatErrorKind::InvalidSignature),
                        ),
                    );
                }
            },
        }
        let version: u32 = match parser.read_u32() {
            Err(err) => {
                return Err(IndexError::InvalidFormat(err));
            },
            Ok(version) => version,
        };
        if version != INDEX_VERSION {
            return Err(IndexError::UnsupportedVersion(version));
        }
        let count: u32 = match parser.read_u32() {
            Err(err) => {
                return Err(IndexError::InvalidFormat(err));
            },
            Ok(count) => count,
        };
        match self.load_all(&mut parser, count) {
            Err(err) => Err(IndexError::InvalidFormat(err)),
            Ok(()) => if self.entries.len() != count as usize {
                Err(
                    IndexError::InvalidFormat(
                        FormatError::at(
                            parser.offset(),
                            FormatErrorKind::EntriesCountMissMatch {
                                actual: self.entries.len(),
                                expected: count as usize,
                            },
                        ),
                    ),
                )
            } else if !parser.is_empty() {
                Err(
                    IndexError::InvalidFormat(
                        FormatError::at(
                            parser.offset(),
                            FormatErrorKind::TrailingBytes { remaining: parser.remaining() },
                        ),
                    ),
                )
            } else {
                Ok(())
            },
        }
    }

    /// Reads `count` entries. Each path has to be greater than the one before it, so that none
    /// occurs twice.
    fn load_all(&mut self, parser: &mut Parser, count: u32) -> (r: Result<(), FormatError>)
        requires
            old(parser).wf(),
        ensures
            final(self).path == old(self).path,
            final(self).modified == old(self).modified,
            ({
                let all = load_entries(
                    old(parser).buf@,
                    old(parser).pos as int,
                    old(self)@,
                    count as int,
                    count as int,
                );
                &&& final(self)@ == all.entries
                &&& match all.end {
                    Err(err) => r == Err::<(), FormatError>(err),
                    Ok(pos) => r is Ok && final(parser).pos == pos,
                }
            }),
            final(parser).wf(),
            final(parser).buf@ == old(parser).buf@,
            old(self).wf() ==> final(self).wf(),
    {
        let mut left: u32 = count;
        let ghost all = load_entries(
            parser.buf@,
            parser.pos as int,
            self@,
            count as int,
            count as int,
        );
        while left > 0
            invariant
                left <= count,
                parser.wf(),
                parser.buf == old(parser).buf,
                self.path == old(self).path,
                self.modified == old(self).modified,
                old(self).wf() ==> self.wf(),
                all == load_entries(
                    old(parser).buf@,
                    old(parser).pos as int,
                    old(self)@,
                    count as int,
                    count as int,
                ),
                all == load_entries(
                    parser.buf@,
                    parser.pos as int,
                    self@,
                    count as int,
                    left as int,
                ),
            decreases left,
        {
            let entry_offset: usize = parser.offset();
            let entry = parser.next()?;
            let ghost before = self@;
            let n: usize = self.entries.len();
            if n > 0 {
                assert(before.last() == self.entries@[n - 1]@);
                if !less_bytes(self.entries[n - 1].path.as_bytes(), entry.path.as_bytes()) {
                    return Err(FormatError::at(entry_offset, FormatErrorKind::EntriesNotSorted));
                }
            }
            let ghost e = entry@;
            self.entries.push(entry);
            proof {
                assert(self@ =~= before.push(e));
                if is_sorted(before) {
                    lemma_push_sorted(before, e);
                }
            }
            if self.entries.len() > count as usize {
                return Err(
                    FormatError::at(
                        parser.offset(),
                        FormatErrorKind::EntriesCountMissMatch {
                            actual: self.entries.len(),
                            expected: count as usize,
                        },
                    ),
                );
            }
            left = left - 1;
        }
        Ok(())
    }
}

proof fn lemma_push_sorted(entries: Seq<IndexEntry<Seq<u8>>>, e: IndexEntry<Seq<u8>>)
    requires
        is_sorted(entries),
        entries.len() > 0 ==> lex_less(entries.last().path, e.path),
    ensures
        is_sorted(entries.push(e)),
{
    let all = entries.push(e);
    assert forall|i: int, j: int| 0 <= i < j < all.len() implies lex_less(
        (#[trigger] all[i]).path,
        (#[trigger] all[j]).path,
    ) by {
        if j < entries.len() {
            assert(all[i] == entries[i] && all[j] == entries[j]);
        } else {
            assert(all[i] == entries[i]);
            if i < entries.len() - 1 {
                let last = entries.len() - 1;
                assert(lex_less(entries[i].path, entries[last].path));
                lemma_lex_transitive(entries[i].path, entries[last].path, e.path);
            }
        }
    }
}

pub proof fn lemma_update_sorted(entries: Seq<IndexEntry<Seq<u8>>>, at: int, e: IndexEntry<Seq<u8>>)
    requires
        is_sorted(entries),
        0 <= at < entries.len(),
        entries[at].path == e.path,
    ensures
        is_sorted(entries.update(at, e)),
{
    let all = entries.update(at, e);
    assert forall|i: int, j: int| 0 <= i < j < all.len() implies lex_less(
        (#[trigger] all[i]).path,
        (#[trigger] all[j]).path,
    ) by {
        assert(all[i].path == entries[i].path && all[j].path == entries[j].path);
    }
}

pub proof fn lemma_insert_sorted(entries: Seq<IndexEntry<Seq<u8>>>, at: int, e: IndexEntry<Seq<u8>>)
    requires
        is_sorted(entries),
        is_lower_bound(entries, e.path, at),
        !has_path(entries, e.path),
    ensures
        is_sorted(entries.insert(at, e)),
{
    let all = entries.insert(at, e);
    assert forall|i: int, j: int| 0 <= i < j < all.len() implies lex_less(
        (#[trigger] all[i]).path,
        (#[trigger] all[j]).path,
    ) by {
        if i < at {
            assert(all[i] == entries[i]);
            if j > at {
                assert(all[j] == entries[j - 1]);
            } else if j < at {
                assert(all[j] == entries[j]);
            }
        } else if i == at {
            let x = entries[j - 1];
            assert(all[j] == x);
            lemma_lex_total(e.path, x.path);
        } else {
            assert(all[i] == entries[i - 1] && all[j] == entries[j - 1]);
        }
    }
}

pub proof fn lemma_filter_sorted(
    entries: Seq<IndexEntry<Seq<u8>>>,
    keep: spec_fn(IndexEntry<Seq<u8>>) -> bool,
)
    requires
        is_sorted(entries),
    ensures
        is_sorted(entries.filter(keep)),
        forall|i: int|
            0 <= i < entries.filter(keep).len() ==> keep(#[trigger] entries.filter(keep)[i])
                && entries.contains(entries.filter(keep)[i]),
    decreases entries.len(),
{
    reveal(Seq::filter);
    if entries.len() > 0 {
        let front = entries.drop_last();
        assert forall|i: int, j: int| 0 <= i < j < front.len() implies lex_less(
            (#[trigger] front[i]).path,
            (#[trigger] front[j]).path,
        ) by {
            assert(front[i] == entries[i] && front[j] == entries[j]);
        }
        lemma_filter_sorted(front, keep);
        let kept = front.filter(keep);
        assert forall|i: int| 0 <= i < kept.len() implies lex_less(
            (#[trigger] kept[i]).path,
            entries.last().path,
        ) && entries.contains(kept[i]) by {
            let k = choose|k: int| 0 <= k < front.len() && front[k] == kept[i];
            let last = entries.len() - 1;
            assert(entries[k] == kept[i]);
            assert(lex_less(entries[k].path, entries[last].path));
        }
        let e = entries.last();
        let all = entries.filter(keep);
        assert(entries[entries.len() - 1] == e);
        if keep(e) {
            assert(all == kept.push(e));
            assert forall|i: int, j: int| 0 <= i < j < all.len() implies lex_less(
                (#[trigger] all[i]).path,
                (#[trigger] all[j]).path,
            ) by {
                assert(all[i] == kept[i]);
                if j < kept.len() {
                    assert(all[j] == kept[j]);
                }
            }
            assert forall|i: int| 0 <= i < all.len() implies keep(#[trigger] all[i])
                && entries.contains(all[i]) by {
                if i < kept.len() {
                    assert(all[i] == kept[i]);
                }
            }
        } else {
            assert(all == kept);
        }
    }
}

proof fn lemma_parent_is_prefix(parent: Seq<u8>, child: Seq<u8>)
    ensures
        spec_is_parent_path(parent, child) == has_prefix(child, parent.push(SLASH)),
{
    let key = parent.push(SLASH);
    let n = parent.len() as int;
    if has_prefix(child, key) {
        assert(child.take(n + 1)[n] == key[n]);
        assert(child.take(n) =~= parent) by {
            assert forall|i: int| 0 <= i < n implies child.take(n)[i] == parent[i] by {
                assert(child.take(n + 1)[i] == key[i]);
            }
        }
    } else if spec_is_parent_path(parent, child) {
        assert(child.take(n + 1) =~= key) by {
            assert forall|i: int| 0 <= i < n implies child.take(n + 1)[i] == key[i] by {
                assert(child.take(n)[i] == parent[i]);
            }
        }
    }
}

/// A byte string is not less than a prefix of it.
proof fn lemma_prefix_not_less(prefix: Seq<u8>, b: Seq<u8>)
    requires
        has_prefix(b, prefix),
    ensures
        !lex_less(b, prefix),
    decreases prefix.len(),
{
    if prefix.len() > 0 {
        assert(b.take(prefix.len() as int)[0] == prefix[0]);
        let p = prefix.drop_first();
        assert(b.drop_first().take(p.len() as int) =~= p) by {
            assert forall|i: int| 0 <= i < p.len() implies b.drop_first().take(p.len() as int)[i]
                == p[i] by {
                assert(b.take(prefix.len() as int)[i + 1] == prefix[i + 1]);
            }
        }
        lemma_prefix_not_less(p, b.drop_first());
    }
}

/// What lies between a prefix and a byte string with that prefix has the prefix too.
proof fn lemma_between_prefixes(prefix: Seq<u8>, x: Seq<u8>, b: Seq<u8>)
    requires
        has_prefix(b, prefix),
        !lex_less(x, prefix),
        lex_less(x, b),
    ensures
        has_prefix(x, prefix),
    decreases prefix.len(),
{
    if prefix.len() == 0 {
        assert(x.take(0) =~= prefix);
    } else {
        assert(b.take(prefix.len() as int)[0] == prefix[0]);
        assert(x.len() > 0);
        assert(x[0] == prefix[0]);
        let p = prefix.drop_first();
        assert(b.drop_first().take(p.len() as int) =~= p) by {
            assert forall|i: int| 0 <= i < p.len() implies b.drop_first().take(p.len() as int)[i]
                == p[i] by {
                assert(b.take(prefix.len() as int)[i + 1] == prefix[i + 1]);
            }
        }
        lemma_between_prefixes(p, x.drop_first(), b.drop_first());
        assert(x.take(prefix.len() as int) =~= prefix) by {
            assert forall|i: int| 0 <= i < prefix.len() implies x.take(prefix.len() as int)[i]
                == prefix[i] by {
                if i > 0 {
                    assert(x.drop_first().take(p.len() as int)[i - 1] == p[i - 1]);
                }
            }
        }
    }
}

} // verus!
