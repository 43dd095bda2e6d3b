//! Reading objects.

use crate::bytes::{
    contains_byte, copy_of, decimal_value, first, from, is_digit, is_text, lemma_span,
    lemma_span_is, lemma_until, lemma_until_is, lemma_valid_up_to, memchr, span, spec_is_digit,
    string_from_utf8, text, until, valid_up_to, DIGIT_0, DIGIT_7, GREATER, LESS, LF, NUL, SLASH,
    SPACE,
};
use crate::hex::{is_hex_digit, spec_is_hex_digit, unhex, HexError};
use crate::object::mode::Mode;
use crate::object::oid::Oid;
use crate::object::{entries_view, Commit, Entry, Object, ObjectView, Signature};
use crate::timestamp::{reads_timestamp, Timestamp, TimestampError};
use vstd::prelude::*;
use vstd::slice::slice_subrange;
use vstd::string::*;
use vstd::utf8::*;

verus! {

/// A position in a byte string.
pub struct Cursor<'a> {
    pub buf: &'a [u8],
    pub pos: usize,
}

#[derive(Debug, Clone, Copy, PartialEq, Eq, Structural)]
pub enum CursorErrorKind {
    /// The delimiter does not occur between the offset and the end of the input.
    MissingDelimiter { delimiter: u8 },
    /// Fewer bytes than needed remained.
    Truncated { needed: usize, available: usize },
}

#[derive(Debug, Clone, Copy, PartialEq, Eq, Structural)]
pub struct CursorError {
    pub offset: usize,
    pub kind: CursorErrorKind,
}

impl CursorError {
    pub fn new(offset: usize, kind: CursorErrorKind) -> (r: Self)
        ensures
            r == (CursorError { offset, kind }),
    {
        Self { offset, kind }
    }
}

#[derive(Debug, Clone, Copy, PartialEq, Eq, Structural)]
pub enum OidError {
    WrongLen { offset: usize, len: usize },
    BadDigit(HexError),
}

impl OidError {
    pub open spec fn spec_offset(self) -> usize {
        match self {
            OidError::WrongLen { offset, .. } => offset,
            OidError::BadDigit(err) => err.pos,
        }
    }

    /// Where the error stands in the text of the id.
    pub fn offset(&self) -> (r: usize)
        ensures
            r == self.spec_offset(),
    {
        match self {
            OidError::WrongLen { offset, .. } => *offset,
            OidError::BadDigit(err) => err.pos,
        }
    }
}

#[derive(Debug, Clone, Copy, PartialEq, Eq, Structural)]
pub enum SignatureErrorKind {
    MissingSpace,
    MissingAngleBracket,
    MissingName,
    MissingEmail,
    MissingTime,
    InvalidUtf8,
    BadTimestamp(TimestampError),
}

#[derive(Debug, Clone, Copy, PartialEq, Eq, Structural)]
pub struct SignatureError {
    pub offset: usize,
    pub kind: SignatureErrorKind,
}

impl SignatureError {
    pub fn new(offset: usize, kind: SignatureErrorKind) -> (r: Self)
        ensures
            r == (SignatureError { offset, kind }),
    {
        Self { offset, kind }
    }
}

#[derive(Debug, PartialEq, Eq)]
pub enum TreeEntryErrorKind<B = Vec<u8>> {
    MissingSpace,
    MissingNul,
    TruncatedOid,
    BadPathName { name: B },
    UnknownMode { mode: B },
}

#[derive(Debug, PartialEq, Eq)]
pub struct TreeEntryError<B = Vec<u8>> {
    pub offset: usize,
    pub kind: TreeEntryErrorKind<B>,
}

impl<B> TreeEntryError<B> {
    pub fn new(offset: usize, kind: TreeEntryErrorKind<B>) -> (r: Self)
        ensures
            r == (TreeEntryError { offset, kind }),
    {
        Self { offset, kind }
    }
}

#[derive(Debug, PartialEq, Eq)]
#[allow(inconsistent_fields)]
pub enum ParseErrorKind<B = Vec<u8>> {
    DuplicateHeader { name: &'static str },
    MissingHeaderSpace,
    MissingHeaderNul,
    InvalidTreeEntry(TreeEntryErrorKind<B>),
    InvalidSizeHeader,
    SizeMisMatch { expected: usize, actual: usize },
    MissingDelimiter { delimiter: u8 },
    MissingNewLine,
    UnknownType { got: B },
    BadSignature(SignatureErrorKind),
    BadOid(OidError),
    BadTimestamp(TimestampError),
    MissingBlankLine,
    UnexpectedHeader { expected: B, got: B },
    InvalidUtf8,
}

/// What is wrong with an object, and the offset from its start.
#[derive(Debug, PartialEq, Eq)]
pub struct ParseError<B = Vec<u8>> {
    pub offset: usize,
    pub kind: ParseErrorKind<B>,
}

impl<B> ParseError<B> {
    pub fn new(offset: usize, kind: ParseErrorKind<B>) -> (r: Self)
        ensures
            r == (ParseError { offset, kind }),
    {
        Self { offset, kind }
    }
}

impl View for TreeEntryErrorKind {
    type V = TreeEntryErrorKind<Seq<u8>>;

    open spec fn view(&self) -> TreeEntryErrorKind<Seq<u8>> {
        match *self {
            TreeEntryErrorKind::MissingSpace => TreeEntryErrorKind::MissingSpace,
            TreeEntryErrorKind::MissingNul => TreeEntryErrorKind::MissingNul,
            TreeEntryErrorKind::TruncatedOid => TreeEntryErrorKind::TruncatedOid,
            TreeEntryErrorKind::BadPathName { name } => TreeEntryErrorKind::BadPathName {
                name: name@,
            },
            TreeEntryErrorKind::UnknownMode { mode } => TreeEntryErrorKind::UnknownMode {
                mode: mode@,
            },
        }
    }
}

impl View for TreeEntryError {
    type V = TreeEntryError<Seq<u8>>;

    open spec fn view(&self) -> TreeEntryError<Seq<u8>> {
        TreeEntryError { offset: self.offset, kind: self.kind@ }
    }
}

impl View for ParseErrorKind {
    type V = ParseErrorKind<Seq<u8>>;

    open spec fn view(&self) -> ParseErrorKind<Seq<u8>> {
        match *self {
            ParseErrorKind::DuplicateHeader { name } => ParseErrorKind::DuplicateHeader { name },
            ParseErrorKind::MissingHeaderSpace => ParseErrorKind::MissingHeaderSpace,
            ParseErrorKind::MissingHeaderNul => ParseErrorKind::MissingHeaderNul,
            ParseErrorKind::InvalidTreeEntry(kind) => ParseErrorKind::InvalidTreeEntry(kind@),
            ParseErrorKind::InvalidSizeHeader => ParseErrorKind::InvalidSizeHeader,
            ParseErrorKind::SizeMisMatch { expected, actual } => ParseErrorKind::SizeMisMatch {
                expected,
                actual,
            },
            ParseErrorKind::MissingDelimiter { delimiter } => ParseErrorKind::MissingDelimiter {
                delimiter,
            },
            ParseErrorKind::MissingNewLine => ParseErrorKind::MissingNewLine,
            ParseErrorKind::UnknownType { got } => ParseErrorKind::UnknownType { got: got@ },
            ParseErrorKind::BadSignature(kind) => ParseErrorKind::BadSignature(kind),
            ParseErrorKind::BadOid(err) => ParseErrorKind::BadOid(err),
            ParseErrorKind::BadTimestamp(err) => ParseErrorKind::BadTimestamp(err),
            ParseErrorKind::MissingBlankLine => ParseErrorKind::MissingBlankLine,
            ParseErrorKind::UnexpectedHeader { expected, got } => ParseErrorKind::UnexpectedHeader {
                expected: expected@,
                got: got@,
            },
            ParseErrorKind::InvalidUtf8 => ParseErrorKind::InvalidUtf8,
        }
    }
}

impl View for ParseError {
    type V = ParseError<Seq<u8>>;

    open spec fn view(&self) -> ParseError<Seq<u8>> {
        ParseError { offset: self.offset, kind: self.kind@ }
    }
}

/// The bytes from `pos` to the next `delimiter`, and the position behind the delimiter.
pub open spec fn field(buf: Seq<u8>, pos: int, delimiter: u8) -> Option<(Seq<u8>, int)> {
    let n = until(buf.skip(pos), delimiter);
    if pos + n < buf.len() {
        Some((buf.subrange(pos, pos + n), pos + n + 1))
    } else {
        None
    }
}

impl<'a> Cursor<'a> {
    pub open spec fn wf(&self) -> bool {
        self.pos <= self.buf.len()
    }

    pub fn new(buf: &'a [u8]) -> (r: Self)
        ensures
            r.buf == buf,
            r.pos == 0,
    {
        Self { buf, pos: 0 }
    }

    pub fn is_empty(&self) -> (r: bool)
        ensures
            r == (self.pos >= self.buf@.len()),
    {
        self.pos >= self.buf.len()
    }

    /// The bytes that are left.
    pub fn rest(&self) -> (r: &'a [u8])
        requires
            self.wf(),
        ensures
            r@ == self.buf@.skip(self.pos as int),
    {
        from(self.buf, self.pos)
    }

    /// Moves `n` bytes on.
    pub fn advance(&mut self, n: usize)
        requires
            old(self).pos + n <= old(self).buf.len(),
        ensures
            final(self).buf == old(self).buf,
            final(self).pos == old(self).pos + n,
    {
        self.pos = self.pos + n;
    }

    /// The next `N` bytes.
    pub fn take<const N: usize>(&mut self) -> (r: Result<&'a [u8], CursorError>)
        requires
            old(self).wf(),
        ensures
            final(self).buf == old(self).buf,
            final(self).wf(),
            if old(self).pos + N <= old(self).buf@.len() {
                &&& r matches Ok(bytes)
                &&& bytes@ == old(self).buf@.subrange(old(self).pos as int, old(self).pos + N)
                &&& final(self).pos == old(self).pos + N
            } else {
                &&& r == Err::<&'a [u8], CursorError>(
                    CursorError {
                        offset: old(self).pos,
                        kind: CursorErrorKind::Truncated {
                            needed: N,
                            available: (old(self).buf@.len() - old(self).pos) as usize,
                        },
                    },
                )
                &&& final(self).pos == old(self).pos
            },
    {
        let start: usize = self.pos;
        let available: usize = self.buf.len() - start;
        if N > available {
            return Err(
                CursorError::new(start, CursorErrorKind::Truncated { needed: N, available }),
            );
        }
        self.advance(N);
        Ok(slice_subrange(self.buf, start, start + N))
    }

    /// The bytes up to the next delimiter, which is consumed too. What the delimiter ends, a
    /// header, a name or a mode, the caller knows.
    pub fn read_until(&mut self, delimiter: u8) -> (r: Result<&'a [u8], CursorError>)
        requires
            old(self).wf(),
        ensures
            final(self).buf == old(self).buf,
            final(self).wf(),
            match field(old(self).buf@, old(self).pos as int, delimiter) {
                Some((bytes, next)) => (r matches Ok(b) && b@ == bytes) && final(self).pos == next,
                None => r == Err::<&'a [u8], CursorError>(
                    CursorError {
                        offset: old(self).pos,
                        kind: CursorErrorKind::MissingDelimiter { delimiter },
                    },
                ) && final(self).pos == old(self).pos,
            },
    {
        let start: usize = self.pos;
        let rest = from(self.buf, start);
        match memchr(delimiter, rest) {
            Some(index) => {
                proof {
                    lemma_until_is(rest@, delimiter, index as int);
                }
                let end: usize = start + index;
                self.pos = end + 1;
                Ok(slice_subrange(self.buf, start, end))
            },
            None => {
                proof {
                    lemma_until_is(rest@, delimiter, rest@.len() as int);
                }
                Err(CursorError::new(start, CursorErrorKind::MissingDelimiter { delimiter }))
            },
        }
    }
}

pub open spec fn is_octal_digit(b: u8) -> bool {
    DIGIT_0 <= b <= DIGIT_7
}

pub open spec fn all_octal(b: Seq<u8>) -> bool {
    forall|i: int| 0 <= i < b.len() ==> is_octal_digit(#[trigger] b[i])
}

/// The value of a text of octal digits.
pub open spec fn octal_value(b: Seq<u8>) -> nat
    decreases b.len(),
{
    if b.len() == 0 {
        0
    } else {
        octal_value(b.drop_last()) * 8 + (b.last() - DIGIT_0) as nat
    }
}

/// The mode that a text of octal digits stands for.
pub open spec fn reads_mode(b: Seq<u8>, mode: Mode) -> bool {
    all_octal(b) && octal_value(b) == mode.raw()
}

/// A name that no entry of a tree may have: it is empty, reserved or more than one component.
pub open spec fn is_bad_name(name: Seq<u8>) -> bool {
    name == text(".") || name == text("..") || name == text(".lit") || name.contains(NUL)
        || name.contains(SLASH) || name.len() == 0
}

/// The id with these bytes.
pub open spec fn oid_of(bytes: Seq<u8>) -> Oid {
    choose|oid: Oid| oid@ == bytes
}

pub proof fn lemma_oid_of(oid: Oid)
    ensures
        oid_of(oid@) == oid,
{
    oid_of(oid@).lemma_ext(oid);
}

/// The mode that a text of octal digits stands for, if any.
pub open spec fn mode_of(b: Seq<u8>) -> Option<Mode> {
    if exists|mode: Mode| reads_mode(b, mode) {
        Some(choose|mode: Mode| reads_mode(b, mode))
    } else {
        None
    }
}

/// The tree entry that starts at `pos`, and the position behind it.
pub open spec fn tree_entry_of(buf: Seq<u8>, pos: int) -> Result<
    (Entry<Seq<u8>>, int),
    TreeEntryError<Seq<u8>>,
> {
    match field(buf, pos, SPACE) {
        None => Err(
            TreeEntryError { offset: pos as usize, kind: TreeEntryErrorKind::MissingSpace },
        ),
        Some((digits, name_start)) => match mode_of(digits) {
            None => Err(
                TreeEntryError {
                    offset: pos as usize,
                    kind: TreeEntryErrorKind::UnknownMode { mode: digits },
                },
            ),
            Some(mode) => match field(buf, name_start, NUL) {
                None => Err(
                    TreeEntryError {
                        offset: name_start as usize,
                        kind: TreeEntryErrorKind::MissingNul,
                    },
                ),
                Some((name, oid_start)) => if is_bad_name(name) {
                    Err(
                        TreeEntryError {
                            offset: name_start as usize,
                            kind: TreeEntryErrorKind::BadPathName { name },
                        },
                    )
                } else if oid_start + 20 > buf.len() {
                    Err(
                        TreeEntryError {
                            offset: oid_start as usize,
                            kind: TreeEntryErrorKind::TruncatedOid,
                        },
                    )
                } else {
                    let oid = oid_of(buf.subrange(oid_start, oid_start + 20));
                    Ok((Entry { mode, name, oid }, oid_start + 20))
                },
            },
        },
    }
}

proof fn lemma_octal_prefix(b: Seq<u8>, k: int)
    requires
        0 <= k <= b.len(),
    ensures
        octal_value(b.take(k)) <= octal_value(b),
    decreases b.len(),
{
    if k == b.len() {
        assert(b.take(k) =~= b);
    } else {
        lemma_octal_prefix(b.drop_last(), k);
        assert(b.drop_last().take(k) =~= b.take(k));
    }
}

/// The mode that a text of octal digits stands for.
fn parse_mode(buf: &[u8]) -> (r: Option<Mode>)
    ensures
        r == mode_of(buf@),
{
    let mut mode: u32 = 0;
    let mut i: usize = 0;
    while i < buf.len()
        invariant
            i <= buf@.len(),
            mode == octal_value(buf@.take(i as int)),
            all_octal(buf@.take(i as int)),
        decreases buf@.len() - i,
    {
        let b: u8 = buf[i];
        if !(DIGIT_0 <= b && b <= DIGIT_7) {
            return None;
        }
        proof {
            assert(buf@.take(i + 1).drop_last() =~= buf@.take(i as int));
            lemma_octal_prefix(buf@, i + 1);
        }
        match mode.checked_mul(8) {
            None => {
                return None;
            },
            Some(m) => {
                match m.checked_add((b - DIGIT_0) as u32) {
                    None => {
                        return None;
                    },
                    Some(sum) => {
                        mode = sum;
                    },
                }
            },
        }
        i = i + 1;
    }
    assert(buf@.take(i as int) =~= buf@);
    let r = Mode::from_raw(mode);
    proof {
        match r {
            Some(m) => {
                assert(reads_mode(buf@, m));
            },
            None => {},
        }
    }
    r
}

/// Reads one tree entry.
pub fn parse_tree_entry(cursor: &mut Cursor) -> (r: Result<Entry, TreeEntryError>)
    requires
        old(cursor).wf(),
    ensures
        final(cursor).buf == old(cursor).buf,
        final(cursor).wf(),
        match tree_entry_of(old(cursor).buf@, old(cursor).pos as int) {
            Ok((entry, next)) => (r matches Ok(e) && e@ == entry) && final(cursor).pos == next,
            Err(error) => r matches Err(e) && e@ == error,
        },
{
    let start: usize = cursor.pos;
    let buf = match cursor.read_until(SPACE) {
        Ok(buf) => buf,
        Err(err) => {
            return Err(TreeEntryError::new(err.offset, TreeEntryErrorKind::MissingSpace));
        },
    };
    // the mode is written as octal digits, "100644" for 0o100644
    let mode = match parse_mode(buf) {
        Some(mode) => mode,
        None => {
            return Err(
                TreeEntryError::new(start, TreeEntryErrorKind::UnknownMode { mode: copy_of(buf) }),
            );
        },
    };

    let start: usize = cursor.pos;
    let name = match cursor.read_until(NUL) {
        Ok(name) => name,
        Err(err) => {
            return Err(TreeEntryError::new(err.offset, TreeEntryErrorKind::MissingNul));
        },
    };
    // the name is one component: the tree it stands in is the directory
    if is_text(name, ".") || is_text(name, "..") || is_text(name, ".lit") || contains_byte(
        name,
        NUL,
    ) || contains_byte(name, SLASH) || name.len() == 0 {
        return Err(
            TreeEntryError::new(start, TreeEntryErrorKind::BadPathName { name: copy_of(name) }),
        );
    }
    let oid = match cursor.take::<20>() {
        Ok(bytes) => Oid::from_slice(bytes),
        Err(err) => {
            return Err(TreeEntryError::new(err.offset, TreeEntryErrorKind::TruncatedOid));
        },
    };
    proof {
        lemma_oid_of(oid);
    }
    Ok(Entry { mode, name: copy_of(name), oid })
}

/// The entries from `pos` to the end of the input.
pub open spec fn entries_of(buf: Seq<u8>, pos: int) -> Result<
    Seq<Entry<Seq<u8>>>,
    ParseError<Seq<u8>>,
>
    decreases buf.len() - pos,
{
    if pos >= buf.len() {
        Ok(Seq::empty())
    } else {
        match tree_entry_of(buf, pos) {
            Err(err) => Err(
                ParseError { offset: err.offset, kind: ParseErrorKind::InvalidTreeEntry(err.kind) },
            ),
            Ok((entry, next)) => if next <= pos {
                Ok(Seq::empty())
            } else {
                match entries_of(buf, next) {
                    Err(err) => Err(err),
                    Ok(entries) => Ok(seq![entry] + entries),
                }
            },
        }
    }
}

/// An entry takes at least one byte of the input.
pub proof fn lemma_entry_advances(buf: Seq<u8>, pos: int)
    requires
        0 <= pos <= buf.len(),
    ensures
        tree_entry_of(buf, pos) matches Ok((_, next)) ==> pos < next <= buf.len(),
{
    lemma_until(buf.skip(pos), SPACE);
    match field(buf, pos, SPACE) {
        Some((_, name_start)) => {
            lemma_until(buf.skip(name_start), NUL);
        },
        None => {},
    }
}

/// Reads tree entries up to the end of the input.
fn parse_entries(cursor: &mut Cursor) -> (r: Result<Vec<Entry>, ParseError>)
    requires
        old(cursor).wf(),
    ensures
        match entries_of(old(cursor).buf@, old(cursor).pos as int) {
            Ok(entries) => r matches Ok(v) && entries_view(v@) == entries,
            Err(error) => r matches Err(e) && e@ == error,
        },
{
    let mut entries: Vec<Entry> = Vec::new();
    let ghost buf = cursor.buf@;
    let ghost start = cursor.pos as int;
    while !cursor.is_empty()
        invariant
            cursor.wf(),
            cursor.buf@ == buf,
            buf == old(cursor).buf@,
            start == old(cursor).pos,
            match entries_of(buf, start) {
                Ok(all) => entries_of(buf, cursor.pos as int) matches Ok(rest) && all
                    == entries_view(entries@) + rest,
                Err(error) => entries_of(buf, cursor.pos as int) == Err::<
                    Seq<Entry<Seq<u8>>>,
                    ParseError<Seq<u8>>,
                >(error),
            },
        decreases buf.len() - cursor.pos,
    {
        proof {
            lemma_entry_advances(buf, cursor.pos as int);
        }
        let ghost done = entries_view(entries@);
        match parse_tree_entry(cursor) {
            Ok(entry) => {
                entries.push(entry);
                proof {
                    assert(entries_view(entries@) =~= done.push(entry@));
                    if let Ok(rest) = entries_of(buf, cursor.pos as int) {
                        assert(done + (seq![entry@] + rest) =~= done.push(entry@) + rest);
                    }
                }
            },
            Err(err) => {
                return Err(
                    ParseError::new(err.offset, ParseErrorKind::InvalidTreeEntry(err.kind)),
                );
            },
        }
    }
    assert(entries_view(entries@) + Seq::<Entry<Seq<u8>>>::empty() =~= entries_view(entries@));
    Ok(entries)
}

/// The size in the header, and the position behind the header.
pub open spec fn size_of(buf: Seq<u8>, pos: int) -> Result<(int, int), ParseError<Seq<u8>>> {
    match field(buf, pos, NUL) {
        None => Err(
            ParseError { offset: pos as usize, kind: ParseErrorKind::MissingHeaderNul },
        ),
        Some((digits, next)) => {
            let k = span(digits, |b: u8| spec_is_digit(b));
            if digits.len() == 0 || decimal_value(digits.take(k)) > usize::MAX {
                Err(ParseError { offset: pos as usize, kind: ParseErrorKind::InvalidSizeHeader })
            } else if k < digits.len() {
                Err(
                    ParseError {
                        offset: (pos + k) as usize,
                        kind: ParseErrorKind::InvalidSizeHeader,
                    },
                )
            } else {
                Ok((decimal_value(digits) as int, next))
            }
        },
    }
}

proof fn lemma_decimal_prefix(b: Seq<u8>, j: int, k: int)
    requires
        0 <= j <= k <= b.len(),
    ensures
        decimal_value(b.take(j)) <= decimal_value(b.take(k)),
    decreases k - j,
{
    if j < k {
        lemma_decimal_prefix(b, j, k - 1);
        assert(b.take(k).drop_last() =~= b.take(k - 1));
    }
}

/// Reads the size and the NUL behind it.
pub fn parse_size(cursor: &mut Cursor) -> (r: Result<usize, ParseError>)
    requires
        old(cursor).wf(),
    ensures
        final(cursor).buf == old(cursor).buf,
        final(cursor).wf(),
        match size_of(old(cursor).buf@, old(cursor).pos as int) {
            Ok((size, next)) => r == Ok::<usize, ParseError>(size as usize) && 0 <= size
                <= usize::MAX && final(cursor).pos == next,
            Err(error) => r matches Err(e) && e@ == error,
        },
{
    let start: usize = cursor.pos;
    let size_buf = match cursor.read_until(NUL) {
        Ok(buf) => buf,
        Err(err) => {
            return Err(ParseError::new(err.offset, ParseErrorKind::MissingHeaderNul));
        },
    };
    if size_buf.len() == 0 {
        return Err(ParseError::new(start, ParseErrorKind::InvalidSizeHeader));
    }
    proof {
        lemma_until(cursor.buf@.skip(start as int), NUL);
        lemma_span(size_buf@, |b: u8| spec_is_digit(b));
    }
    let ghost k = span(size_buf@, |b: u8| spec_is_digit(b));

    let mut size: usize = 0;
    let mut index: usize = 0;
    while index < size_buf.len()
        invariant
            index <= k <= size_buf@.len(),
            k < size_buf@.len() ==> !spec_is_digit(size_buf@[k]),
            forall|j: int| 0 <= j < k ==> spec_is_digit(#[trigger] size_buf@[j]),
            size == decimal_value(size_buf@.take(index as int)),
            start + size_buf@.len() < usize::MAX,
            cursor.wf(),
            cursor.buf == old(cursor).buf,
            size_buf@.len() > 0,
            k == span(size_buf@, |b: u8| spec_is_digit(b)),
            field(old(cursor).buf@, start as int, NUL) == Some((size_buf@, cursor.pos as int)),
            start == old(cursor).pos,
        decreases size_buf@.len() - index,
    {
        let byte: u8 = size_buf[index];
        if !is_digit(byte) {
            assert(index == k);
            return Err(ParseError::new(start + index, ParseErrorKind::InvalidSizeHeader));
        }
        proof {
            assert(index < k);
            assert(size_buf@.take(index + 1).drop_last() =~= size_buf@.take(index as int));
            lemma_decimal_prefix(size_buf@, index + 1, k);
        }
        match size.checked_mul(10) {
            None => {
                return Err(ParseError::new(start, ParseErrorKind::InvalidSizeHeader));
            },
            Some(n) => {
                match n.checked_add((byte - DIGIT_0) as usize) {
                    None => {
                        return Err(ParseError::new(start, ParseErrorKind::InvalidSizeHeader));
                    },
                    Some(sum) => {
                        size = sum;
                    },
                }
            },
        }
        index = index + 1;
    }
    assert(size_buf@.take(index as int) =~= size_buf@);
    Ok(size)
}

/// One header line: a key, a space and a value.
pub struct Line<B> {
    /// Where the line starts in the whole input.
    pub start: usize,
    pub key: B,
    pub value: B,
    /// Where the value starts in the whole input.
    pub vbase: usize,
}

/// The header line that starts at `pos`, and the position behind it.
pub open spec fn header_of(buf: Seq<u8>, pos: int) -> Result<
    (Line<Seq<u8>>, int),
    ParseError<Seq<u8>>,
> {
    match field(buf, pos, LF) {
        None => Err(ParseError { offset: pos as usize, kind: ParseErrorKind::MissingNewLine }),
        Some((line, next)) => {
            let i = until(line, SPACE);
            if i == line.len() {
                Err(ParseError { offset: pos as usize, kind: ParseErrorKind::MissingHeaderSpace })
            } else {
                Ok(
                    (
                        Line {
                            start: pos as usize,
                            key: line.take(i),
                            value: line.skip(i + 1),
                            vbase: (pos + i + 1) as usize,
                        },
                        next,
                    ),
                )
            }
        },
    }
}

/// Reads one header line.
pub fn parse_header<'a>(cursor: &mut Cursor<'a>) -> (r: Result<Line<&'a [u8]>, ParseError>)
    requires
        old(cursor).wf(),
    ensures
        final(cursor).buf == old(cursor).buf,
        final(cursor).wf(),
        match header_of(old(cursor).buf@, old(cursor).pos as int) {
            Ok((line, next)) => {
                &&& r matches Ok(l)
                &&& l.start == line.start
                &&& l.key@ == line.key
                &&& l.value@ == line.value
                &&& l.vbase == line.vbase
                &&& l.vbase + l.value@.len() + 1 == final(cursor).pos
                &&& final(cursor).pos == next
                &&& old(cursor).pos < next
            },
            Err(error) => r matches Err(e) && e@ == error,
        },
{
    let start: usize = cursor.pos;
    let line = match cursor.read_until(LF) {
        Ok(line) => line,
        Err(err) => {
            return Err(ParseError::new(err.offset, ParseErrorKind::MissingNewLine));
        },
    };
    proof {
        lemma_until(cursor.buf@.skip(start as int), LF);
    }
    match memchr(SPACE, line) {
        None => {
            proof {
                lemma_until_is(line@, SPACE, line@.len() as int);
            }
            Err(ParseError::new(start, ParseErrorKind::MissingHeaderSpace))
        },
        Some(index) => {
            proof {
                lemma_until_is(line@, SPACE, index as int);
            }
            Ok(
                Line {
                    start,
                    key: first(line, index),
                    value: from(line, index + 1),
                    vbase: start + index + 1,
                },
            )
        },
    }
}

/// The id written in forty hexadecimal digits.
pub open spec fn hex_oid_of(buf: Seq<u8>) -> Result<Oid, OidError> {
    let k = span(buf, |b: u8| spec_is_hex_digit(b));
    if buf.len() != 40 {
        Err(OidError::WrongLen { offset: 0, len: buf.len() as usize })
    } else if k < 40 {
        Err(OidError::BadDigit(HexError { digit: buf[k], pos: k as usize }))
    } else {
        Ok(oid_of(unhex(buf)))
    }
}

/// Reads an id. Offsets count from the start of `buf`.
pub fn parse_oid(buf: &[u8]) -> (r: Result<Oid, OidError>)
    ensures
        r == hex_oid_of(buf@),
{
    if buf.len() != 40 {
        return Err(OidError::WrongLen { offset: 0, len: buf.len() });
    }
    let mut i: usize = 0;
    while i < 40
        invariant
            i <= 40,
            buf@.len() == 40,
            forall|j: int| 0 <= j < i ==> spec_is_hex_digit(#[trigger] buf@[j]),
        decreases 40 - i,
    {
        if !is_hex_digit(buf[i]) {
            proof {
                lemma_span_is(buf@, |b: u8| spec_is_hex_digit(b), i as int);
            }
            return Err(OidError::BadDigit(HexError { digit: buf[i], pos: i }));
        }
        i = i + 1;
    }
    let oid = Oid::from_hex_bytes_unchecked(buf);
    proof {
        lemma_span_is(buf@, |b: u8| spec_is_hex_digit(b), 40);
        lemma_oid_of(oid);
    }
    Ok(oid)
}

/// The timestamp with these two texts.
pub open spec fn timestamp_of(unix: Seq<u8>, timezone: Seq<u8>) -> Result<
    Timestamp,
    TimestampError,
> {
    choose|r: Result<Timestamp, TimestampError>| reads_timestamp(unix, timezone, r)
}

pub proof fn lemma_timestamp_of(
    unix: Seq<u8>,
    timezone: Seq<u8>,
    r: Result<Timestamp, TimestampError>,
)
    requires
        reads_timestamp(unix, timezone, r),
    ensures
        timestamp_of(unix, timezone) == r,
{
    let other = timestamp_of(unix, timezone);
    assert(reads_timestamp(unix, timezone, other));
    if let (Ok(a), Ok(b)) = (r, other) {
        assert(a.timezone =~= b.timezone) by {
            assert forall|i: int| 0 <= i < 5 implies a.timezone[i] == b.timezone[i] by {
                assert(a.timezone@[i] == b.timezone@[i]);
            }
        }
    }
}

pub open spec fn signature_error(offset: int, kind: SignatureErrorKind) -> Result<
    Signature<Seq<u8>>,
    SignatureError,
> {
    Err(SignatureError { offset: offset as usize, kind })
}

/// `<name> <<email>> <seconds> <zone>`: the name ends before the first `<`, the email before the
/// next `>`.
pub open spec fn signature_of(buf: Seq<u8>) -> Result<Signature<Seq<u8>>, SignatureError> {
    let open = until(buf, LESS);
    let name = buf.take(open - 1);
    let email_start = open + 1;
    let close = email_start + until(buf.skip(email_start), GREATER);
    let email = buf.subrange(email_start, close);
    let time_start = close + 2;
    let space = time_start + until(buf.skip(time_start), SPACE);
    if open == buf.len() {
        signature_error(0, SignatureErrorKind::MissingAngleBracket)
    } else if open == 0 || buf[open - 1] != SPACE {
        signature_error(0, SignatureErrorKind::MissingSpace)
    } else if name.len() == 0 {
        signature_error(0, SignatureErrorKind::MissingName)
    } else if !valid_utf8(name) {
        signature_error(valid_up_to(name), SignatureErrorKind::InvalidUtf8)
    } else if close == buf.len() {
        signature_error(email_start, SignatureErrorKind::MissingAngleBracket)
    } else if email.len() == 0 {
        signature_error(email_start, SignatureErrorKind::MissingEmail)
    } else if !valid_utf8(email) {
        signature_error(email_start + valid_up_to(email), SignatureErrorKind::InvalidUtf8)
    } else if close + 1 >= buf.len() || buf[close + 1] != SPACE {
        signature_error(close + 1, SignatureErrorKind::MissingSpace)
    } else if space == buf.len() {
        signature_error(time_start, SignatureErrorKind::MissingSpace)
    } else {
        match timestamp_of(buf.subrange(time_start, space), buf.skip(space + 1)) {
            Err(err) => signature_error(time_start, SignatureErrorKind::BadTimestamp(err)),
            Ok(timestamp) => Ok(Signature { email, name, timestamp }),
        }
    }
}

/// Reads a signature. Offsets count from the start of `buf`.
pub fn parse_signature(buf: &[u8]) -> (r: Result<Signature, SignatureError>)
    ensures
        match signature_of(buf@) {
            Ok(signature) => r matches Ok(s) && s@ == signature,
            Err(error) => r matches Err(e) && e == error,
        },
        r matches Err(e) ==> e.offset <= buf@.len(),
        r matches Ok(s) ==> s.timestamp.wf(),
{
    let open: usize = match memchr(LESS, buf) {
        None => {
            proof {
                lemma_until_is(buf@, LESS, buf@.len() as int);
            }
            return Err(SignatureError::new(0, SignatureErrorKind::MissingAngleBracket));
        },
        Some(index) => {
            proof {
                lemma_until_is(buf@, LESS, index as int);
            }
            index
        },
    };
    if open == 0 || buf[open - 1] != SPACE {
        return Err(SignatureError::new(0, SignatureErrorKind::MissingSpace));
    }
    let name = copy_of(first(buf, open - 1));
    if name.len() == 0 {
        return Err(SignatureError::new(0, SignatureErrorKind::MissingName));
    }
    let ghost name_bytes = name@;
    let name = match string_from_utf8(name) {
        Ok(name) => name,
        Err(valid) => {
            proof {
                lemma_valid_up_to(name_bytes, valid as int);
            }
            return Err(SignatureError::new(valid, SignatureErrorKind::InvalidUtf8));
        },
    };

    let pos: usize = open + 1;
    let rest = from(buf, pos);
    let index: usize = match memchr(GREATER, rest) {
        None => {
            proof {
                lemma_until_is(rest@, GREATER, rest@.len() as int);
            }
            return Err(SignatureError::new(pos, SignatureErrorKind::MissingAngleBracket));
        },
        Some(index) => {
            proof {
                lemma_until_is(rest@, GREATER, index as int);
            }
            index
        },
    };
    let email = copy_of(slice_subrange(buf, pos, pos + index));
    if email.len() == 0 {
        return Err(SignatureError::new(pos, SignatureErrorKind::MissingEmail));
    }
    let ghost email_bytes = email@;
    let email = match string_from_utf8(email) {
        Ok(email) => email,
        Err(valid) => {
            proof {
                lemma_valid_up_to(email_bytes, valid as int);
            }
            return Err(SignatureError::new(pos + valid, SignatureErrorKind::InvalidUtf8));
        },
    };

    let pos: usize = pos + index + 1;
    if pos >= buf.len() || buf[pos] != SPACE {
        return Err(SignatureError::new(pos, SignatureErrorKind::MissingSpace));
    }
    let pos: usize = pos + 1;
    let rest = from(buf, pos);
    let index: usize = match memchr(SPACE, rest) {
        None => {
            proof {
                lemma_until_is(rest@, SPACE, rest@.len() as int);
            }
            return Err(SignatureError::new(pos, SignatureErrorKind::MissingSpace));
        },
        Some(index) => {
            proof {
                lemma_until_is(rest@, SPACE, index as int);
            }
            index
        },
    };
    let unix = slice_subrange(buf, pos, pos + index);
    let timezone = from(buf, pos + index + 1);
    let timestamp = Timestamp::from_bytes(unix, timezone);
    proof {
        lemma_timestamp_of(unix@, timezone@, timestamp);
    }
    match timestamp {
        Ok(timestamp) => Ok(Signature { email, name, timestamp }),
        Err(err) => Err(SignatureError::new(pos, SignatureErrorKind::BadTimestamp(err))),
    }
}

/// The error for a line with another key than the expected one.
pub open spec fn unexpected(line: Line<Seq<u8>>, expected: Seq<u8>) -> ParseError<Seq<u8>> {
    ParseError {
        offset: line.start,
        kind: ParseErrorKind::UnexpectedHeader { expected, got: line.key },
    }
}

/// The id in the value of a line.
pub open spec fn line_oid(line: Line<Seq<u8>>) -> Result<Oid, ParseError<Seq<u8>>> {
    match hex_oid_of(line.value) {
        Ok(oid) => Ok(oid),
        Err(err) => Err(
            ParseError {
                offset: (line.vbase + err.spec_offset()) as usize,
                kind: ParseErrorKind::BadOid(err),
            },
        ),
    }
}

/// The signature in the value of a line.
pub open spec fn line_signature(line: Line<Seq<u8>>) -> Result<
    Signature<Seq<u8>>,
    ParseError<Seq<u8>>,
> {
    match signature_of(line.value) {
        Ok(signature) => Ok(signature),
        Err(err) => Err(
            ParseError {
                offset: (line.vbase + err.offset) as usize,
                kind: ParseErrorKind::BadSignature(err.kind),
            },
        ),
    }
}

/// The ids of the `parent` lines from `pos` on, the first line that is none of them, and the
/// position behind it.
pub open spec fn parents_of(buf: Seq<u8>, pos: int) -> Result<
    (Seq<Oid>, Line<Seq<u8>>, int),
    ParseError<Seq<u8>>,
>
    decreases buf.len() - pos,
{
    match header_of(buf, pos) {
        Err(err) => Err(err),
        Ok((line, next)) => if line.key != text("parent") {
            Ok((Seq::empty(), line, next))
        } else {
            match line_oid(line) {
                Err(err) => Err(err),
                Ok(oid) => if next <= pos || pos >= buf.len() {
                    Ok((Seq::empty(), line, next))
                } else {
                    match parents_of(buf, next) {
                        Err(err) => Err(err),
                        Ok((oids, line, end)) => Ok((seq![oid] + oids, line, end)),
                    }
                },
            }
        },
    }
}

/// The blank line at `pos` and the message behind it.
pub open spec fn message_of(buf: Seq<u8>, pos: int) -> Result<Seq<u8>, ParseError<Seq<u8>>> {
    match field(buf, pos, LF) {
        None => Err(ParseError { offset: pos as usize, kind: ParseErrorKind::MissingNewLine }),
        Some((line, next)) => if line.len() > 0 {
            Err(ParseError { offset: pos as usize, kind: ParseErrorKind::MissingBlankLine })
        } else if !valid_utf8(buf.skip(next)) {
            Err(
                ParseError {
                    offset: (next + valid_up_to(buf.skip(next))) as usize,
                    kind: ParseErrorKind::InvalidUtf8,
                },
            )
        } else {
            Ok(buf.skip(next))
        },
    }
}

/// The commit from `pos` to the end of the input: a `tree` line, any number of `parent` lines, an
/// `author` and a `committer` line, a blank line and the message.
pub open spec fn commit_of(buf: Seq<u8>, pos: int) -> Result<
    Commit<Seq<u8>, Seq<Oid>>,
    ParseError<Seq<u8>>,
> {
    match header_of(buf, pos) {
        Err(err) => Err(err),
        Ok((tree_line, p1)) => if tree_line.key != text("tree") {
            Err(unexpected(tree_line, text("tree")))
        } else {
            match line_oid(tree_line) {
                Err(err) => Err(err),
                Ok(root_id) => match parents_of(buf, p1) {
                    Err(err) => Err(err),
                    Ok((parents, author_line, p2)) => if author_line.key != text("author") {
                        Err(unexpected(author_line, text("author")))
                    } else {
                        match line_signature(author_line) {
                            Err(err) => Err(err),
                            Ok(author) => match header_of(buf, p2) {
                                Err(err) => Err(err),
                                Ok((committer_line, p3)) => if committer_line.key != text(
                                    "committer",
                                ) {
                                    Err(unexpected(committer_line, text("committer")))
                                } else {
                                    match line_signature(committer_line) {
                                        Err(err) => Err(err),
                                        Ok(committer) => match message_of(buf, p3) {
                                            Err(err) => Err(err),
                                            Ok(message) => Ok(
                                                Commit {
                                                    author,
                                                    committer,
                                                    parents,
                                                    message,
                                                    root_id,
                                                },
                                            ),
                                        },
                                    }
                                },
                            },
                        }
                    },
                },
            }
        },
    }
}

fn unexpected_header(line: &Line<&[u8]>, expected: &str) -> (r: ParseError)
    ensures
        r.offset == line.start,
        r.kind@ == (ParseErrorKind::UnexpectedHeader {
            expected: text(expected),
            got: line.key@,
        }),
{
    ParseError::new(
        line.start,
        ParseErrorKind::UnexpectedHeader {
            expected: copy_of(expected.as_bytes()),
            got: copy_of(line.key),
        },
    )
}

fn oid_in(line: &Line<&[u8]>) -> (r: Result<Oid, ParseError>)
    requires
        line.vbase + line.value@.len() < usize::MAX,
    ensures
        match hex_oid_of(line.value@) {
            Ok(oid) => r == Ok::<Oid, ParseError>(oid),
            Err(err) => r matches Err(e) && e@ == (ParseError {
                offset: (line.vbase + err.spec_offset()) as usize,
                kind: ParseErrorKind::<Seq<u8>>::BadOid(err),
            }),
        },
{
    proof {
        lemma_span(line.value@, |b: u8| spec_is_hex_digit(b));
    }
    match parse_oid(line.value) {
        Ok(oid) => Ok(oid),
        Err(err) => Err(ParseError::new(line.vbase + err.offset(), ParseErrorKind::BadOid(err))),
    }
}

fn signature_in(line: &Line<&[u8]>) -> (r: Result<Signature, ParseError>)
    requires
        line.vbase + line.value@.len() < usize::MAX,
    ensures
        match signature_of(line.value@) {
            Ok(signature) => r matches Ok(s) && s@ == signature,
            Err(err) => r matches Err(e) && e@ == (ParseError {
                offset: (line.vbase + err.offset) as usize,
                kind: ParseErrorKind::<Seq<u8>>::BadSignature(err.kind),
            }),
        },
        r matches Ok(s) ==> s.timestamp.wf(),
{
    match parse_signature(line.value) {
        Ok(signature) => Ok(signature),
        Err(err) => Err(
            ParseError::new(line.vbase + err.offset, ParseErrorKind::BadSignature(err.kind)),
        ),
    }
}

/// Reads the `parent` lines and the line behind them.
fn parse_parents<'a>(cursor: &mut Cursor<'a>) -> (r: Result<
    (Vec<Oid>, Line<&'a [u8]>),
    ParseError,
>)
    requires
        old(cursor).wf(),
    ensures
        final(cursor).buf == old(cursor).buf,
        final(cursor).wf(),
        match parents_of(old(cursor).buf@, old(cursor).pos as int) {
            Ok((oids, line, next)) => {
                &&& r matches Ok((v, l))
                &&& v@ == oids
                &&& l.start == line.start
                &&& l.key@ == line.key
                &&& l.value@ == line.value
                &&& l.vbase == line.vbase
                &&& l.vbase + l.value@.len() + 1 == final(cursor).pos
                &&& final(cursor).pos == next
            },
            Err(error) => r matches Err(e) && e@ == error,
        },
{
    let mut parents: Vec<Oid> = Vec::new();
    let ghost buf = cursor.buf@;
    let ghost start = cursor.pos as int;
    loop
        invariant
            cursor.wf(),
            cursor.buf == old(cursor).buf,
            cursor.buf@ == buf,
            start == old(cursor).pos,
            match parents_of(buf, start) {
                Ok((oids, line, next)) => parents_of(buf, cursor.pos as int) matches Ok(
                    (rest, l, n),
                ) && oids == parents@ + rest && l == line && n == next,
                Err(error) => parents_of(buf, cursor.pos as int) == Err::<
                    (Seq<Oid>, Line<Seq<u8>>, int),
                    ParseError<Seq<u8>>,
                >(error),
            },
        decreases buf.len() - cursor.pos,
    {
        let ghost here = cursor.pos as int;
        let ghost done = parents@;
        let line = parse_header(cursor)?;
        if !is_text(line.key, "parent") {
            assert(done + Seq::<Oid>::empty() =~= done);
            return Ok((parents, line));
        }
        let oid = oid_in(&line)?;
        parents.push(oid);
        proof {
            assert(here < buf.len());
            if let Ok((rest, l, n)) = parents_of(buf, cursor.pos as int) {
                assert(done + (seq![oid] + rest) =~= done.push(oid) + rest);
            }
        }
    }
}

/// Reads a commit, which takes all of the input that is left.
pub fn parse_commit(cursor: &mut Cursor) -> (r: Result<Commit, ParseError>)
    requires
        old(cursor).wf(),
    ensures
        match commit_of(old(cursor).buf@, old(cursor).pos as int) {
            Ok(commit) => r matches Ok(c) && c@ == commit,
            Err(error) => r matches Err(e) && e@ == error,
        },
        r matches Ok(c) ==> c.author.timestamp.wf() && c.committer.timestamp.wf(),
{
    let line = parse_header(cursor)?;
    if !is_text(line.key, "tree") {
        return Err(unexpected_header(&line, "tree"));
    }
    let root_id = oid_in(&line)?;
    let (parents, line) = parse_parents(cursor)?;
    if !is_text(line.key, "author") {
        return Err(unexpected_header(&line, "author"));
    }
    let author = signature_in(&line)?;

    let line = parse_header(cursor)?;
    if !is_text(line.key, "committer") {
        return Err(unexpected_header(&line, "committer"));
    }
    let committer = signature_in(&line)?;

    let start: usize = cursor.pos;
    let line = match cursor.read_until(LF) {
        Ok(line) => line,
        Err(err) => {
            return Err(ParseError::new(err.offset, ParseErrorKind::MissingNewLine));
        },
    };
    if line.len() > 0 {
        return Err(ParseError::new(start, ParseErrorKind::MissingBlankLine));
    }
    // behind the blank line, everything that is left is the message
    let start: usize = cursor.pos;
    let message = copy_of(cursor.rest());
    let ghost message_bytes = message@;
    match string_from_utf8(message) {
        Ok(message) => Ok(Commit { author, committer, parents, message, root_id }),
        Err(valid) => {
            proof {
                lemma_valid_up_to(message_bytes, valid as int);
            }
            Err(ParseError::new(start + valid, ParseErrorKind::InvalidUtf8))
        },
    }
}

/// The object with these bytes: its type, a space, its size, a NUL and its content.
pub open spec fn object_of(buf: Seq<u8>) -> Result<ObjectView, ParseError<Seq<u8>>> {
    match field(buf, 0, SPACE) {
        None => Err(ParseError { offset: 0, kind: ParseErrorKind::MissingHeaderSpace }),
        Some((kind, size_start)) => match size_of(buf, size_start) {
            Err(err) => Err(err),
            Ok((size, start)) => if size != buf.len() - start {
                Err(
                    ParseError {
                        offset: size_start as usize,
                        kind: ParseErrorKind::SizeMisMatch {
                            expected: size as usize,
                            actual: (buf.len() - start) as usize,
                        },
                    },
                )
            } else if kind == text("blob") {
                Ok(ObjectView::Blob(buf.skip(start)))
            } else if kind == text("tree") {
                match entries_of(buf, start) {
                    Err(err) => Err(err),
                    Ok(entries) => Ok(ObjectView::Tree(entries)),
                }
            } else if kind == text("commit") {
                match commit_of(buf, start) {
                    Err(err) => Err(err),
                    Ok(commit) => Ok(ObjectView::Commit(commit)),
                }
            } else {
                Err(ParseError { offset: 0, kind: ParseErrorKind::UnknownType { got: kind } })
            },
        },
    }
}

/// Reads an object.
pub fn parse(buf: &[u8]) -> (r: Result<Object, ParseError>)
    ensures
        match r {
            Ok(object) => object_of(buf@) == Ok::<ObjectView, ParseError<Seq<u8>>>(object@),
            Err(err) => object_of(buf@) == Err::<ObjectView, ParseError<Seq<u8>>>(err@),
        },
        r matches Ok(object) ==> object.wf(),
{
    let mut cursor = Cursor::new(buf);
    let kind = match cursor.read_until(SPACE) {
        Ok(kind) => kind,
        Err(err) => {
            return Err(ParseError::new(err.offset, ParseErrorKind::MissingHeaderSpace));
        },
    };

    let start: usize = cursor.pos;
    let size: usize = parse_size(&mut cursor)?;
    let rest = cursor.rest();
    if size != rest.len() {
        return Err(
            ParseError::new(
                start,
                ParseErrorKind::SizeMisMatch { expected: size, actual: rest.len() },
            ),
        );
    }
    if is_text(kind, "blob") {
        Ok(Object::Blob(copy_of(rest)))
    } else if is_text(kind, "tree") {
        let entries = parse_entries(&mut cursor)?;
        Ok(Object::Tree(entries))
    } else if is_text(kind, "commit") {
        let commit = parse_commit(&mut cursor)?;
        Ok(Object::Commit(commit))
    } else {
        Err(ParseError::new(0, ParseErrorKind::UnknownType { got: copy_of(kind) }))
    }
}

} // verus!
