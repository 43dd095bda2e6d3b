//! Pointer files: a file in the place of a metadata directory that names the directory.

use crate::bytes::{
    append, append_text, ends_with, first, from, has_prefix, has_suffix, lemma_ascii_text,
    starts_with, text, CR, LF, NUL,
};
use crate::path::{os_path_error, OsPath, OsPathError};
use vstd::prelude::*;
use vstd::string::*;

verus! {

/// The longest pointer file.
pub const FILE_MAX_SIZE: usize = 65536;

/// `litdir: `
pub open spec fn prefix() -> Seq<u8> {
    text("litdir: ")
}

#[derive(Debug, PartialEq, Eq)]
pub enum LitFileErrorKind<B = Vec<u8>> {
    TooLarge,
    MissingPrefix,
    Empty,
    MissingLineEnding,
    OsPath(OsPathError<B>),
}

impl View for LitFileErrorKind {
    type V = LitFileErrorKind<Seq<u8>>;

    open spec fn view(&self) -> LitFileErrorKind<Seq<u8>> {
        match *self {
            LitFileErrorKind::TooLarge => LitFileErrorKind::TooLarge,
            LitFileErrorKind::MissingPrefix => LitFileErrorKind::MissingPrefix,
            LitFileErrorKind::Empty => LitFileErrorKind::Empty,
            LitFileErrorKind::MissingLineEnding => LitFileErrorKind::MissingLineEnding,
            LitFileErrorKind::OsPath(err) => LitFileErrorKind::OsPath(err@),
        }
    }
}

/// An error, and the file it is about.
#[derive(Debug)]
pub struct LitFileError {
    pub path: OsPath,
    pub kind: LitFileErrorKind,
}

/// The bytes without the line ending they have to end with.
pub open spec fn without_line_ending(b: Seq<u8>) -> Option<Seq<u8>> {
    if has_suffix(b, text("\r\n")) {
        Some(b.take(b.len() - 2))
    } else if has_suffix(b, text("\n")) {
        Some(b.take(b.len() - 1))
    } else {
        None
    }
}

/// The path that a pointer file names.
pub open spec fn target_of(b: Seq<u8>) -> Result<Seq<u8>, LitFileErrorKind<Seq<u8>>> {
    if b.len() > FILE_MAX_SIZE {
        Err(LitFileErrorKind::TooLarge)
    } else if !has_prefix(b, prefix()) {
        Err(LitFileErrorKind::MissingPrefix)
    } else {
        match without_line_ending(b.skip(prefix().len() as int)) {
            None => Err(LitFileErrorKind::MissingLineEnding),
            Some(path) => if path.len() == 0 {
                Err(LitFileErrorKind::Empty)
            } else {
                match os_path_error(path) {
                    Some(err) => Err(LitFileErrorKind::OsPath(err)),
                    None => Ok(path),
                }
            },
        }
    }
}

/// The pointer file that names a path.
pub open spec fn pointer_bytes(path: Seq<u8>) -> Seq<u8> {
    prefix() + path + seq![LF]
}

/// The bytes without their line ending, if they have one.
pub fn strip_line_ending<'a>(bytes: &'a [u8]) -> (r: Option<&'a [u8]>)
    ensures
        match without_line_ending(bytes@) {
            Some(rest) => r matches Some(s) && s@ == rest,
            None => r is None,
        },
{
    proof {
        lemma_endings();
    }
    if ends_with(bytes, "\r\n".as_bytes()) {
        Some(first(bytes, bytes.len() - 2))
    } else if ends_with(bytes, "\n".as_bytes()) {
        Some(first(bytes, bytes.len() - 1))
    } else {
        None
    }
}

proof fn lemma_endings()
    ensures
        text("\r\n") == seq![CR, LF],
        text("\n") == seq![LF],
        text("litdir: ").len() == 8,
{
    reveal_strlit("\r\n");
    reveal_strlit("\n");
    reveal_strlit("litdir: ");
    lemma_ascii_text("\r\n");
    lemma_ascii_text("\n");
    lemma_ascii_text("litdir: ");
    assert(text("\r\n") =~= seq![CR, LF]);
    assert(text("\n") =~= seq![LF]);
}

/// Reads the path that a pointer file names. Of a longer file, it is enough to hand in one byte
/// more than the limit.
pub fn read(buf: &[u8], file_path: &OsPath) -> (r: Result<OsPath, LitFileError>)
    ensures
        match target_of(buf@) {
            Ok(path) => r matches Ok(p) && p@ == path && p.wf(),
            Err(err) => r matches Err(e) && e.path@ == file_path@ && e.kind@ == err,
        },
{
    let kind = if buf.len() > FILE_MAX_SIZE {
        LitFileErrorKind::TooLarge
    } else if !starts_with(buf, "litdir: ".as_bytes()) {
        LitFileErrorKind::MissingPrefix
    } else {
        proof {
            lemma_endings();
        }
        match strip_line_ending(from(buf, 8)) {
            None => LitFileErrorKind::MissingLineEnding,
            Some(bytes) => if bytes.len() == 0 {
                LitFileErrorKind::Empty
            } else {
                match OsPath::new(bytes) {
                    Ok(path) => {
                        return Ok(path);
                    },
                    Err(err) => LitFileErrorKind::OsPath(err),
                }
            },
        }
    };
    Err(LitFileError { path: file_path.copied(), kind })
}

/// The pointer file that names a path.
pub fn content(path_bytes: &[u8]) -> (r: Vec<u8>)
    ensures
        r@ == pointer_bytes(path_bytes@),
{
    let mut out: Vec<u8> = Vec::new();
    append_text(&mut out, "litdir: ");
    append(&mut out, path_bytes);
    out.push(LF);
    assert(out@ =~= pointer_bytes(path_bytes@));
    out
}

/// Reading a pointer file gives back the path it was written for. A path that ends with a carriage
/// return is not given back: together with the newline it would be a line ending.
pub proof fn reading_inverts_writing(path: Seq<u8>)
    requires
        path.len() > 0,
        !path.contains(NUL),
        path.last() != CR,
        pointer_bytes(path).len() <= FILE_MAX_SIZE,
    ensures
        target_of(pointer_bytes(path)) == Ok::<_, LitFileErrorKind<Seq<u8>>>(path),
{
    lemma_endings();
    let b = pointer_bytes(path);
    assert(b.take(8) =~= prefix());
    let rest = b.skip(8);
    assert(rest =~= path + seq![LF]);
    assert(!has_suffix(rest, text("\r\n"))) by {
        if has_suffix(rest, text("\r\n")) {
            assert(rest.skip(rest.len() - 2)[0] == seq![CR, LF][0]);
            assert(rest[rest.len() - 2] == path.last());
        }
    }
    assert(rest.skip(rest.len() - 1) =~= seq![LF]);
    assert(rest.take(rest.len() - 1) =~= path);
}

/// A file names a path exactly if it is `litdir: `, the path and one line ending, the file is not too
/// large, and the path can be one. A carriage return in front of the newline belongs to the line
/// ending, never to the path.
pub proof fn pointers_are_one_line(b: Seq<u8>, path: Seq<u8>)
    ensures
        target_of(b) == Ok::<_, LitFileErrorKind<Seq<u8>>>(path) <==> {
            &&& b.len() <= 65536
            &&& path.len() > 0
            &&& !path.contains(0)
            &&& b == text("litdir: ") + path + seq![0x0du8, 0x0a] || (path.last() != 0x0d && b
                == text("litdir: ") + path + seq![0x0au8])
        },
{
    lemma_endings();
    let p = text("litdir: ");
    let rest = b.skip(8);
    let crlf = seq![CR, LF];
    let lf = seq![LF];
    if b == p + path + crlf {
        assert(b.take(8) =~= p);
        assert(rest =~= path + crlf);
        assert(rest.skip(rest.len() - 2) =~= crlf);
        assert(rest.take(rest.len() - 2) =~= path);
    } else if b == p + path + lf && path.len() > 0 && path.last() != CR {
        assert(b.take(8) =~= p);
        assert(rest =~= path + lf);
        assert(rest[rest.len() - 2] == path.last());
        if has_suffix(rest, crlf) {
            assert(rest.skip(rest.len() - 2)[0] == crlf[0]);
        }
        assert(rest.skip(rest.len() - 1) =~= lf);
        assert(rest.take(rest.len() - 1) =~= path);
    }
    if target_of(b) == Ok::<_, LitFileErrorKind<Seq<u8>>>(path) {
        assert(b =~= p + rest);
        if has_suffix(rest, crlf) {
            assert(rest =~= path + rest.skip(rest.len() - 2));
            assert(b =~= p + path + crlf);
        } else {
            assert(rest =~= path + rest.skip(rest.len() - 1));
            assert(b =~= p + path + lf);
            if path.last() == CR {
                assert(rest.skip(rest.len() - 2) =~= crlf) by {
                    assert(rest[rest.len() - 1] == rest.skip(rest.len() - 1)[0]);
                }
            }
        }
    }
}

} // verus!
