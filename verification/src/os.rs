//! What the file system reports of a file, in plain values.

use vstd::prelude::*;

verus! {

/// The owner's execute permission.
pub const OWNER_EXECUTE: u32 = 0o100;

#[derive(Debug, Clone, Copy, PartialEq, Eq, Structural)]
pub enum FileKind {
    /// A regular file; the flag tells whether its owner may execute it.
    Regular(bool),
    Symlink,
    Directory,
    Other,
}

/// The fields of `lstat` that the index keeps, each cut to 32 bits.
#[derive(Debug, Clone, Copy, PartialEq, Eq, Structural)]
pub struct FileStat {
    /// The last change of the file's attributes.
    pub ctime: u32,
    pub ctime_nsec: u32,
    /// The last change of the file's contents.
    pub mtime: u32,
    pub mtime_nsec: u32,
    pub dev: u32,
    pub ino: u32,
    pub uid: u32,
    pub gid: u32,
    pub file_size: u32,
}

#[derive(Debug, Clone, Copy, PartialEq, Eq, Structural)]
pub struct StatNode {
    pub kind: FileKind,
    pub stat: FileStat,
}

/// The metadata of a path itself, symbolic links not followed.
#[derive(Debug, Clone, Copy, PartialEq, Eq, Structural)]
pub struct Metadata {
    pub is_symlink: bool,
    pub is_file: bool,
    pub is_dir: bool,
    pub mode: u32,
    pub ctime: i64,
    pub ctime_nsec: i64,
    pub mtime: i64,
    pub mtime_nsec: i64,
    pub dev: u64,
    pub ino: u64,
    pub uid: u32,
    pub gid: u32,
    pub size: u64,
}

pub open spec fn kind_of(meta: Metadata) -> FileKind {
    if meta.is_symlink {
        FileKind::Symlink
    } else if meta.is_file {
        FileKind::Regular(meta.mode & OWNER_EXECUTE != 0)
    } else if meta.is_dir {
        FileKind::Directory
    } else {
        FileKind::Other
    }
}

/// The kind of a file. Of the execute permissions only the owner's counts.
pub fn file_kind(meta: &Metadata) -> (kind: FileKind)
    ensures
        kind == kind_of(*meta),
        kind == FileKind::Symlink <==> meta.is_symlink,
        kind is Regular <==> meta.is_file && !meta.is_symlink,
        kind == FileKind::Directory <==> meta.is_dir && !meta.is_file && !meta.is_symlink,
        kind matches FileKind::Regular(executable) ==> executable == (meta.mode & 0o100 != 0),
{
    if meta.is_symlink {
        FileKind::Symlink
    } else if meta.is_file {
        FileKind::Regular(meta.mode & OWNER_EXECUTE != 0)
    } else if meta.is_dir {
        FileKind::Directory
    } else {
        FileKind::Other
    }
}

/// The kind of a file with the statistics that the index keeps of it.
pub fn stat(meta: &Metadata) -> (node: StatNode)
    ensures
        node.kind == kind_of(*meta),
        node.stat.ctime == meta.ctime as u32,
        node.stat.ctime_nsec == meta.ctime_nsec as u32,
        node.stat.mtime == meta.mtime as u32,
        node.stat.mtime_nsec == meta.mtime_nsec as u32,
        node.stat.dev == meta.dev as u32,
        node.stat.ino == meta.ino as u32,
        node.stat.uid == meta.uid,
        node.stat.gid == meta.gid,
        node.stat.file_size == meta.size as u32,
{
    let file_stat = FileStat {
        ctime: #[verifier::truncate] (meta.ctime as u32),
        ctime_nsec: #[verifier::truncate] (meta.ctime_nsec as u32),
        mtime: #[verifier::truncate] (meta.mtime as u32),
        mtime_nsec: #[verifier::truncate] (meta.mtime_nsec as u32),
        dev: #[verifier::truncate] (meta.dev as u32),
        ino: #[verifier::truncate] (meta.ino as u32),
        uid: meta.uid,
        gid: meta.gid,
        file_size: #[verifier::truncate] (meta.size as u32),
    };
    StatNode { kind: file_kind(meta), stat: file_stat }
}

/// Is this a regular file that its owner may execute? Not whether this process can run it.
pub fn is_executable(meta: &Metadata) -> (r: bool)
    ensures
        r == (kind_of(*meta) == FileKind::Regular(true)),
{
    match file_kind(meta) {
        FileKind::Regular(executable) => executable,
        _ => false,
    }
}

/// The mode to ask for in order to learn whether the file system keeps the execute permission.
pub fn toggled_mode(mode: u32) -> (r: u32)
    ensures
        r == mode ^ OWNER_EXECUTE,
        (mode ^ r) & OWNER_EXECUTE != 0,
        (mode ^ r) & !OWNER_EXECUTE == 0,
{
    let r: u32 = mode ^ OWNER_EXECUTE;
    assert((mode ^ (mode ^ 0o100u32)) & 0o100u32 != 0) by (bit_vector);
    assert((mode ^ (mode ^ 0o100u32)) & !0o100u32 == 0) by (bit_vector);
    r
}

/// Does the file system keep the owner's execute permission? `original` is the mode of a file
/// before the toggled mode was asked for; `after` is the mode read back, or `None` when the
/// change was refused or could not be read.
pub fn probe_filemode(original: u32, after: Option<u32>) -> (r: bool)
    ensures
        r == (after matches Some(mode) && (original & OWNER_EXECUTE) != (mode & OWNER_EXECUTE)),
{
    match after {
        None => false,
        Some(mode) => {
            assert(((original ^ mode) & 0o100u32 != 0) == ((original & 0o100u32) != (mode
                & 0o100u32))) by (bit_vector);
            (original ^ mode) & OWNER_EXECUTE != 0
        },
    }
}

/// The second of a Windows file time, counted from the first of January 1601, that is taken for the
/// Unix epoch. It is 600 seconds before the first of January 1970.
pub const FILETIME_EPOCH_SECS: u64 = 11_644_473_000;

/// The number of 100-nanosecond ticks in a second.
pub const TICKS_PER_SEC: u64 = 10_000_000;

/// The seconds of a Windows file time, counted from `FILETIME_EPOCH_SECS`; zero for a time before it.
pub fn to_unix_time(filetime: u64) -> (r: u64)
    ensures
        r == (if filetime / TICKS_PER_SEC >= FILETIME_EPOCH_SECS {
            filetime / TICKS_PER_SEC - FILETIME_EPOCH_SECS
        } else {
            0
        }),
{
    (filetime / TICKS_PER_SEC).saturating_sub(FILETIME_EPOCH_SECS)
}

/// The nanoseconds within the second of a Windows file time.
pub fn to_unix_time_nsec(filetime: u64) -> (r: u64)
    ensures
        r == (filetime % TICKS_PER_SEC) * 100,
        r < 1_000_000_000,
{
    (filetime % TICKS_PER_SEC) * 100
}

} // verus!
