//! Reading the entries of an index.

use crate::bytes::{from, lemma_until, lemma_until_is, memchr, until, NUL};
use crate::index::{
    entry_of, eof, padding, u16_at, u32_at, FormatError, FormatErrorKind, IndexEntry, PATH_MAX_SIZE,
};
use crate::object::mode::{raw_is_injective, Mode};
use crate::object::oid::Oid;
use crate::object::parse::{lemma_oid_of, oid_of};
use crate::os::FileStat;
use crate::repo_path::{path_error, RepoPath};
use vstd::prelude::*;
use vstd::slice::slice_subrange;

verus! {

/// A position in the bytes of an index.
pub struct Parser<'a> {
    pub buf: &'a [u8],
    pub pos: usize,
}

/// The error of reading `n` fields of four bytes from `at` on, where the bytes run out.
pub open spec fn short_fields(b: Seq<u8>, at: int, n: int) -> Option<FormatError>
    decreases n,
{
    if n <= 0 {
        None
    } else if at + 4 > b.len() {
        Some(eof(b, at, 4))
    } else {
        short_fields(b, at + 4, n - 1)
    }
}

pub open spec fn error_at(offset: int, kind: FormatErrorKind) -> FormatError {
    FormatError { offset: offset as usize, kind }
}

/// The path of `len` bytes at `pos` with the NUL behind it, and the position behind the NUL.
pub open spec fn path_at(b: Seq<u8>, pos: int, len: int) -> Result<(Seq<u8>, int), FormatError> {
    let path = b.subrange(pos, pos + len);
    if pos + len >= b.len() {
        Err(eof(b, pos, len))
    } else {
        match path_error(path) {
            Some(kind) => Err(error_at(pos, FormatErrorKind::InvalidPathSyntax(kind))),
            None => if b[pos + len] != NUL {
                Err(error_at(pos + len, FormatErrorKind::MissingNulTerminator))
            } else {
                Ok((path, pos + len + 1))
            },
        }
    }
}

/// The long path from `pos` to the next NUL, and the position behind the NUL.
pub open spec fn long_path_at(b: Seq<u8>, pos: int) -> Result<(Seq<u8>, int), FormatError> {
    let len = until(b.skip(pos), NUL);
    let path = b.subrange(pos, pos + len);
    if pos + len >= b.len() {
        Err(error_at(b.len() as int, FormatErrorKind::MissingNulTerminator))
    } else if len < PATH_MAX_SIZE {
        Err(error_at(pos, FormatErrorKind::LongPathLenMissMatch))
    } else {
        match path_error(path) {
            Some(kind) => Err(error_at(pos, FormatErrorKind::InvalidPathSyntax(kind))),
            None => Ok((path, pos + len + 1)),
        }
    }
}

/// The error in `n` bytes of padding from `at` on: a byte that is not NUL, or the end of the
/// input.
pub open spec fn padding_error(b: Seq<u8>, at: int, n: int) -> Option<FormatError>
    decreases n,
{
    if n <= 0 {
        None
    } else if at >= b.len() {
        Some(error_at(at, FormatErrorKind::Eof { needed: 1, remaining: 0 }))
    } else if b[at] != NUL {
        Some(error_at(at, FormatErrorKind::InvalidPadding))
    } else {
        padding_error(b, at + 1, n - 1)
    }
}

pub open spec fn mode_with_raw(raw: u32) -> Option<Mode> {
    if exists|m: Mode| m.raw() == raw {
        Some(choose|m: Mode| m.raw() == raw)
    } else {
        None
    }
}

pub open spec fn stat_at(b: Seq<u8>, pos: int) -> FileStat {
    FileStat {
        ctime: u32_at(b, pos),
        ctime_nsec: u32_at(b, pos + 4),
        mtime: u32_at(b, pos + 8),
        mtime_nsec: u32_at(b, pos + 12),
        dev: u32_at(b, pos + 16),
        ino: u32_at(b, pos + 20),
        uid: u32_at(b, pos + 28),
        gid: u32_at(b, pos + 32),
        file_size: u32_at(b, pos + 36),
    }
}

/// The path of an entry whose fixed fields start at `pos`, and the position behind it. The length
/// is in the low twelve bits of the flags.
pub open spec fn entry_path_at(b: Seq<u8>, pos: int) -> Result<(Seq<u8>, int), FormatError> {
    let path_len = u16_at(b, pos + 60) & PATH_MAX_SIZE;
    if path_len == PATH_MAX_SIZE {
        long_path_at(b, pos + 62)
    } else {
        path_at(b, pos + 62, path_len as int)
    }
}

/// The entry that starts at `pos`, and the position behind it.
pub open spec fn index_entry_of(b: Seq<u8>, pos: int) -> Result<
    (IndexEntry<Seq<u8>>, int),
    FormatError,
> {
    let raw = u32_at(b, pos + 24);
    let stat = stat_at(b, pos);
    if short_fields(b, pos, 7) is Some {
        Err(short_fields(b, pos, 7)->0)
    } else {
        match mode_with_raw(raw) {
            None => Err(error_at(pos + 28, FormatErrorKind::InvalidMode(raw))),
            Some(mode) => if short_fields(b, pos + 28, 3) is Some {
                Err(short_fields(b, pos + 28, 3)->0)
            } else if mode == Mode::Directory {
                Err(error_at(pos, FormatErrorKind::InvalidMode(raw)))
            } else if stat.ctime_nsec >= 1_000_000_000 || stat.mtime_nsec >= 1_000_000_000 {
                Err(error_at(pos, FormatErrorKind::InvalidNanoseconds))
            } else if pos + 60 > b.len() {
                Err(eof(b, pos + 40, 20))
            } else if pos + 62 > b.len() {
                Err(eof(b, pos + 60, 2))
            } else {
                match entry_path_at(b, pos) {
                    Err(err) => Err(err),
                    Ok((path, end)) => match padding_error(b, end, padding(end - pos)) {
                        Some(err) => Err(err),
                        None => {
                            let oid = oid_of(b.subrange(pos + 40, pos + 60));
                            Ok((entry_of(path, oid, mode, stat), end + padding(end - pos)))
                        },
                    },
                }
            },
        }
    }
}

/// The number of a mode stands for the mode.
pub proof fn lemma_mode_with_raw(mode: Mode)
    ensures
        mode_with_raw(mode.raw()) == Some(mode),
{
    raw_is_injective(mode_with_raw(mode.raw())->0, mode);
}

proof fn lemma_short_fields(b: Seq<u8>, at: int, n: int)
    ensures
        short_fields(b, at, n) is None && n >= 0 ==> at + 4 * n <= b.len() || n == 0,
    decreases n,
{
    if n > 0 && at + 4 <= b.len() {
        lemma_short_fields(b, at + 4, n - 1);
    }
}

proof fn lemma_padding_error(b: Seq<u8>, at: int, n: int)
    requires
        0 <= at <= b.len(),
        n >= 0,
    ensures
        padding_error(b, at, n) is None ==> at + n <= b.len(),
    decreases n,
{
    if n > 0 && at < b.len() && b[at] == NUL {
        lemma_padding_error(b, at + 1, n - 1);
    }
}

/// An entry takes at least one byte.
pub proof fn lemma_entry_advances(b: Seq<u8>, pos: int)
    requires
        0 <= pos <= b.len(),
    ensures
        index_entry_of(b, pos) matches Ok((_, next)) ==> pos < next <= b.len(),
{
    if let Ok((_, next)) = index_entry_of(b, pos) {
        lemma_until(b.skip(pos + 62), NUL);
        if let Ok((_, end)) = entry_path_at(b, pos) {
            lemma_padding_error(b, end, padding(end - pos));
        }
    }
}

impl<'a> Parser<'a> {
    pub open spec fn wf(&self) -> bool {
        self.pos <= self.buf.len()
    }

    pub fn new(buf: &'a [u8]) -> (r: Self)
        ensures
            r.buf == buf,
            r.pos == 0,
            r.wf(),
    {
        Self { buf, pos: 0 }
    }

    /// How far the input was read.
    pub fn offset(&self) -> (r: usize)
        ensures
            r == self.pos,
    {
        self.pos
    }

    pub fn advance(&mut self, n: usize)
        requires
            old(self).pos + n <= old(self).buf.len(),
        ensures
            final(self).buf == old(self).buf,
            final(self).pos == old(self).pos + n,
    {
        self.pos = self.pos + n;
    }

    pub fn remaining(&self) -> (r: usize)
        requires
            self.wf(),
        ensures
            r == self.buf@.len() - self.pos,
    {
        self.buf.len() - self.pos
    }

    pub fn is_empty(&self) -> (r: bool)
        requires
            self.wf(),
        ensures
            r == (self.pos == self.buf@.len()),
    {
        self.remaining() == 0
    }

    /// The next `N` bytes.
    pub fn take<const N: usize>(&mut self) -> (r: Result<&'a [u8], FormatError>)
        requires
            old(self).wf(),
        ensures
            final(self).buf == old(self).buf,
            final(self).wf(),
            if old(self).pos + N <= old(self).buf@.len() {
                &&& r matches Ok(bytes)
                &&& bytes@ == old(self).buf@.subrange(old(self).pos as int, old(self).pos + N)
                &&& final(self).pos == old(self).pos + N
            } else {
                &&& r == Err::<&'a [u8], FormatError>(
                    eof(old(self).buf@, old(self).pos as int, N as int),
                )
                &&& final(self).pos == old(self).pos
            },
    {
        let remaining: usize = self.remaining();
        if N > remaining {
            return Err(FormatError::at(self.pos, FormatErrorKind::Eof { needed: N, remaining }));
        }
        let start: usize = self.pos;
        self.advance(N);
        Ok(slice_subrange(self.buf, start, start + N))
    }

    pub fn read_u32(&mut self) -> (r: Result<u32, FormatError>)
        requires
            old(self).wf(),
        ensures
            final(self).buf == old(self).buf,
            final(self).wf(),
            if old(self).pos + 4 <= old(self).buf@.len() {
                &&& r == Ok::<u32, FormatError>(u32_at(old(self).buf@, old(self).pos as int))
                &&& final(self).pos == old(self).pos + 4
            } else {
                r == Err::<u32, FormatError>(eof(old(self).buf@, old(self).pos as int, 4))
            },
    {
        let bytes = self.take::<4>()?;
        Ok(
            bytes[0] as u32 * 0x100_0000 + bytes[1] as u32 * 0x1_0000 + bytes[2] as u32 * 0x100
                + bytes[3] as u32,
        )
    }

    /// The next `N` numbers.
    pub fn u32_array<const N: usize>(&mut self) -> (r: Result<Vec<u32>, FormatError>)
        requires
            old(self).wf(),
        ensures
            final(self).buf == old(self).buf,
            final(self).wf(),
            match short_fields(old(self).buf@, old(self).pos as int, N as int) {
                Some(err) => r matches Err(e) && e == err,
                None => {
                    &&& r matches Ok(v)
                    &&& v@.len() == N
                    &&& forall|i: int|
                        #![trigger v@[i]]
                        0 <= i < N ==> v@[i] == u32_at(old(self).buf@, old(self).pos + 4 * i)
                    &&& final(self).pos == old(self).pos + 4 * N
                },
            },
    {
        let mut elements: Vec<u32> = Vec::new();
        let mut i: usize = 0;
        let ghost b = self.buf@;
        let ghost start = self.pos as int;
        while i < N
            invariant
                i <= N,
                self.wf(),
                self.buf == old(self).buf,
                b == old(self).buf@,
                start == old(self).pos,
                self.pos == start + 4 * i,
                elements@.len() == i,
                forall|j: int|
                    #![trigger elements@[j]]
                    0 <= j < i ==> elements@[j] == u32_at(b, start + 4 * j),
                short_fields(b, start, N as int) == short_fields(b, self.pos as int, N - i),
            decreases N - i,
        {
            let n: u32 = self.read_u32()?;
            elements.push(n);
            i = i + 1;
        }
        Ok(elements)
    }

    /// The path of `path_len` bytes and the NUL behind it. A path that is longer has no NUL
    /// there; one that is shorter has a NUL inside, which no path may have.
    pub fn read_path(&mut self, path_len: usize) -> (r: Result<RepoPath, FormatError>)
        requires
            old(self).wf(),
        ensures
            final(self).buf == old(self).buf,
            final(self).wf(),
            match path_at(old(self).buf@, old(self).pos as int, path_len as int) {
                Ok((path, next)) => (r matches Ok(p) && p@ == path && p.wf()) && final(self).pos
                    == next,
                Err(err) => r matches Err(e) && e == err,
            },
    {
        if path_len >= self.remaining() {
            return Err(
                FormatError::at(
                    self.pos,
                    FormatErrorKind::Eof { needed: path_len, remaining: self.remaining() },
                ),
            );
        }
        let start: usize = self.pos;
        let path = match RepoPath::from_bytes(slice_subrange(self.buf, start, start + path_len)) {
            Ok(path) => path,
            Err(err) => {
                return Err(FormatError::at(start, FormatErrorKind::InvalidPathSyntax(err.kind)));
            },
        };
        self.pos = start + path_len;
        if self.buf[self.pos] == NUL {
            self.advance(1);
            Ok(path)
        } else {
            Err(FormatError::at(self.pos, FormatErrorKind::MissingNulTerminator))
        }
    }

    /// A path that is too long for the flags to hold its length, up to the next NUL.
    pub fn read_path_until_nul(&mut self) -> (r: Result<RepoPath, FormatError>)
        requires
            old(self).wf(),
        ensures
            final(self).buf == old(self).buf,
            final(self).wf(),
            match long_path_at(old(self).buf@, old(self).pos as int) {
                Ok((path, next)) => (r matches Ok(p) && p@ == path && p.wf()) && final(self).pos
                    == next,
                Err(err) => r matches Err(e) && e == err,
            },
    {
        let start: usize = self.pos;
        let rest = from(self.buf, start);
        let len: usize = match memchr(NUL, rest) {
            None => {
                proof {
                    lemma_until_is(rest@, NUL, rest@.len() as int);
                }
                return Err(
                    FormatError::at(self.buf.len(), FormatErrorKind::MissingNulTerminator),
                );
            },
            Some(len) => {
                proof {
                    lemma_until_is(rest@, NUL, len as int);
                }
                len
            },
        };
        if len < PATH_MAX_SIZE as usize {
            return Err(FormatError::at(start, FormatErrorKind::LongPathLenMissMatch));
        }
        let path = match RepoPath::from_bytes(slice_subrange(self.buf, start, start + len)) {
            Ok(path) => path,
            Err(err) => {
                return Err(FormatError::at(start, FormatErrorKind::InvalidPathSyntax(err.kind)));
            },
        };
        self.pos = start + len + 1;
        Ok(path)
    }

    /// The NUL bytes that fill up an entry of `entry_size` bytes to a multiple of eight.
    pub fn skip_padding(&mut self, entry_size: usize) -> (r: Result<(), FormatError>)
        requires
            old(self).wf(),
        ensures
            final(self).buf == old(self).buf,
            final(self).wf(),
            match padding_error(
                old(self).buf@,
                old(self).pos as int,
                padding(entry_size as int),
            ) {
                Some(err) => r == Err::<(), FormatError>(err),
                None => r is Ok && final(self).pos == old(self).pos + padding(entry_size as int),
            },
    {
        let mut left: usize = (8 - (entry_size % 8)) % 8;
        let ghost b = self.buf@;
        let ghost start = self.pos as int;
        let ghost n = padding(entry_size as int);
        while left > 0
            invariant
                self.wf(),
                self.buf == old(self).buf,
                b == self.buf@,
                start == old(self).pos,
                n == padding(entry_size as int),
                left <= n,
                self.pos == start + (n - left),
                padding_error(b, start, n) == padding_error(b, self.pos as int, left as int),
            decreases left,
        {
            if self.pos >= self.buf.len() {
                return Err(
                    FormatError::at(
                        self.pos,
                        FormatErrorKind::Eof { needed: 1, remaining: 0 },
                    ),
                );
            }
            if self.buf[self.pos] != NUL {
                return Err(FormatError::at(self.pos, FormatErrorKind::InvalidPadding));
            }
            self.advance(1);
            left = left - 1;
        }
        Ok(())
    }

    /// The next entry, which is always a valid one.
    pub fn next(&mut self) -> (r: Result<IndexEntry, FormatError>)
        requires
            old(self).wf(),
        ensures
            final(self).buf == old(self).buf,
            final(self).wf(),
            match index_entry_of(old(self).buf@, old(self).pos as int) {
                Ok((entry, next)) => {
                    &&& r matches Ok(e)
                    &&& e@ == entry
                    &&& e.path.wf()
                    &&& final(self).pos == next
                },
                Err(err) => r matches Err(e) && e == err,
            },
    {
        let entry_offset: usize = self.offset();
        let ghost b = self.buf@;
        let ghost pos = self.pos as int;
        proof {
            lemma_short_fields(b, pos, 7);
            lemma_short_fields(b, pos, 6);
            lemma_short_split(b, pos, 6, 7);
            lemma_short_fields(b, pos + 28, 3);
            reveal_with_fuel(short_fields, 2);
        }
        let times = self.u32_array::<6>()?;
        let raw: u32 = self.read_u32()?;
        let mode = match Mode::from_raw(raw) {
            Some(mode) => {
                proof {
                    lemma_mode_with_raw(mode);
                }
                mode
            },
            None => {
                return Err(FormatError::at(self.offset(), FormatErrorKind::InvalidMode(raw)));
            },
        };
        let owner = self.u32_array::<3>()?;
        let stat = FileStat {
            ctime: times[0],
            ctime_nsec: times[1],
            mtime: times[2],
            mtime_nsec: times[3],
            dev: times[4],
            ino: times[5],
            uid: owner[0],
            gid: owner[1],
            file_size: owner[2],
        };
        assert(stat == stat_at(b, pos));
        if mode.is_directory() {
            return Err(FormatError::at(entry_offset, FormatErrorKind::InvalidMode(raw)));
        }
        // the nanoseconds are the fraction of a second
        if stat.ctime_nsec >= 1_000_000_000 || stat.mtime_nsec >= 1_000_000_000 {
            return Err(FormatError::at(entry_offset, FormatErrorKind::InvalidNanoseconds));
        }
        let bytes = self.take::<20>()?;
        let oid = Oid::from_slice(bytes);
        proof {
            lemma_oid_of(oid);
        }
        let flag_bytes = self.take::<2>()?;
        let flags: u16 = flag_bytes[0] as u16 * 0x100 + flag_bytes[1] as u16;
        let path_len: u16 = flags & PATH_MAX_SIZE;
        assert(path_len <= 0xfff) by (bit_vector)
            requires
                path_len == flags & 0xfff,
        ;
        let path = if path_len == PATH_MAX_SIZE {
            self.read_path_until_nul()?
        } else {
            self.read_path(path_len as usize)?
        };
        proof {
            lemma_until(b.skip(pos + 62), NUL);
        }
        let size: usize = self.pos - entry_offset;
        self.skip_padding(size)?;
        Ok(IndexEntry::new(path, oid, mode, stat))
    }
}

proof fn lemma_short_split(b: Seq<u8>, at: int, m: int, n: int)
    requires
        0 <= m <= n,
    ensures
        short_fields(b, at, n) == (match short_fields(b, at, m) {
            Some(err) => Some(err),
            None => short_fields(b, at + 4 * m, n - m),
        }),
    decreases m,
{
    if m > 0 && at + 4 <= b.len() {
        lemma_short_split(b, at + 4, m - 1, n - 1);
    }
}

} // verus!
