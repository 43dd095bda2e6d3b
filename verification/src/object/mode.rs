//! File modes of tree and index entries.

use crate::bytes::text;
use crate::os::FileKind;
use vstd::prelude::*;
use vstd::string::*;

verus! {

#[derive(Debug, Clone, Copy, PartialEq, Eq, Structural)]
pub enum Mode {
    Regular,
    Executable,
    Symlink,
    Directory,
}

/// A file of a kind that is not tracked.
#[derive(Debug, Clone, Copy, PartialEq, Eq, Structural)]
pub struct UnsupportedFileType;

impl Mode {
    /// The number that stands for the mode.
    pub open spec fn raw(self) -> u32 {
        match self {
            Mode::Regular => 0o100644,
            Mode::Executable => 0o100755,
            Mode::Symlink => 0o120000,
            Mode::Directory => 0o040000,
        }
    }

    /// The octal digits that stand for the mode.
    pub open spec fn octal(self) -> Seq<u8> {
        match self {
            Mode::Regular => text("100644"),
            Mode::Executable => text("100755"),
            Mode::Symlink => text("120000"),
            Mode::Directory => text("040000"),
        }
    }

    pub open spec fn of_kind(kind: FileKind) -> Result<Mode, UnsupportedFileType> {
        match kind {
            FileKind::Regular(false) => Ok(Mode::Regular),
            FileKind::Regular(true) => Ok(Mode::Executable),
            FileKind::Symlink => Ok(Mode::Symlink),
            FileKind::Directory => Ok(Mode::Directory),
            FileKind::Other => Err(UnsupportedFileType),
        }
    }

    /// The number that stands for the mode.
    pub fn to_raw(self) -> (r: u32)
        ensures
            r == self.raw(),
    {
        match self {
            Mode::Regular => 0o100644,
            Mode::Executable => 0o100755,
            Mode::Symlink => 0o120000,
            Mode::Directory => 0o040000,
        }
    }

    pub fn is_regular(self) -> (r: bool)
        ensures
            r == (self == Mode::Regular),
    {
        matches!(self, Mode::Regular)
    }

    pub fn is_executable(self) -> (r: bool)
        ensures
            r == (self == Mode::Executable),
    {
        matches!(self, Mode::Executable)
    }

    pub fn is_symlink(self) -> (r: bool)
        ensures
            r == (self == Mode::Symlink),
    {
        matches!(self, Mode::Symlink)
    }

    pub fn is_directory(self) -> (r: bool)
        ensures
            r == (self == Mode::Directory),
    {
        matches!(self, Mode::Directory)
    }

    /// The mode that a number stands for, if any.
    pub fn from_raw(value: u32) -> (r: Option<Self>)
        ensures
            match r {
                Some(mode) => mode.raw() == value,
                None => forall|mode: Mode| mode.raw() != value,
            },
    {
        if value == 0o100644 {
            Some(Mode::Regular)
        } else if value == 0o100755 {
            Some(Mode::Executable)
        } else if value == 0o120000 {
            Some(Mode::Symlink)
        } else if value == 0o040000 {
            Some(Mode::Directory)
        } else {
            None
        }
    }

    /// The octal digits that stand for the mode.
    pub fn as_octal_bytes(&self) -> (r: &'static [u8])
        ensures
            r@ == self.octal(),
    {
        match self {
            Mode::Regular => "100644".as_bytes(),
            Mode::Executable => "100755".as_bytes(),
            Mode::Symlink => "120000".as_bytes(),
            Mode::Directory => "040000".as_bytes(),
        }
    }

    /// The mode of a file of this kind.
    pub fn try_from_kind(kind: FileKind) -> (r: Result<Self, UnsupportedFileType>)
        ensures
            r == Mode::of_kind(kind),
            r is Err <==> kind == FileKind::Other,
            r matches Ok(mode) ==> match kind {
                FileKind::Regular(executable) => mode == (if executable {
                    Mode::Executable
                } else {
                    Mode::Regular
                }),
                FileKind::Symlink => mode == Mode::Symlink,
                FileKind::Directory => mode == Mode::Directory,
                FileKind::Other => false,
            },
    {
        match kind {
            FileKind::Regular(executable) => if executable {
                Ok(Mode::Executable)
            } else {
                Ok(Mode::Regular)
            },
            FileKind::Symlink => Ok(Mode::Symlink),
            FileKind::Directory => Ok(Mode::Directory),
            FileKind::Other => Err(UnsupportedFileType),
        }
    }
}

/// Different modes have different numbers.
pub proof fn raw_is_injective(a: Mode, b: Mode)
    requires
        a.raw() == b.raw(),
    ensures
        a == b,
{
}

/// The modes are written as file systems write theirs: the type of the file, and for a regular file
/// the permissions, in octal.
pub proof fn modes_are_written_in_octal(mode: Mode)
    ensures
        match mode {
            Mode::Regular => mode.raw() == 33_188 && mode.octal() == text("100644"),
            Mode::Executable => mode.raw() == 33_261 && mode.octal() == text("100755"),
            Mode::Symlink => mode.raw() == 40_960 && mode.octal() == text("120000"),
            Mode::Directory => mode.raw() == 16_384 && mode.octal() == text("040000"),
        },
{
}

} // verus!
