//! Parsing one logical line of a configuration file.

use crate::bytes::{
    from, lemma_span, lemma_span_is, span, BACKSLASH, CLOSE_BRACKET, CR, DASH, DIGIT_0, DIGIT_9,
    EQUALS, HASH, LF, LOWER_A, LOWER_B, LOWER_N, LOWER_T, LOWER_Z, OPEN_BRACKET, QUOTE, SEMICOLON,
    SPACE, TAB, UPPER_A, UPPER_Z,
};
use crate::config::value::{escape_len, escapes_are_known, is_blank};
use vstd::prelude::*;

verus! {

/// Bytes of a line.
#[derive(Debug, Clone, Copy, PartialEq, Eq, Hash, Structural)]
pub struct LineSpan {
    pub start: usize,
    pub end: usize,
}

/// The name of a section and its optional subsection.
#[derive(Debug, Clone, Copy, PartialEq, Eq, Hash, Structural)]
pub struct Header {
    pub name: LineSpan,
    pub subsection: Option<LineSpan>,
}

#[derive(Debug, Clone, Copy, PartialEq, Eq, Structural)]
pub enum LineKind {
    Blank,
    Comment,
    /// The header of a section. The variables below it are lines of their own.
    Header(Header),
    /// A variable. One without a value is true.
    Variable { name: LineSpan, value: Option<LineSpan> },
}

#[derive(Debug, Clone, Copy, PartialEq, Eq, Structural)]
pub enum ParseErrorKind {
    UnexpectedByte(u8),
    UnterminatedQuote,
    UnexpectedEol,
}

/// What is wrong with a line, and the offset from its start.
#[derive(Debug, Clone, Copy, PartialEq, Eq, Structural)]
pub struct ParseError {
    pub kind: ParseErrorKind,
    pub pos: usize,
}

pub open spec fn spec_is_alphabetic(b: u8) -> bool {
    UPPER_A <= b <= UPPER_Z || LOWER_A <= b <= LOWER_Z
}

/// A letter, a digit or a dash: what names consist of.
pub open spec fn spec_is_name_byte(b: u8) -> bool {
    spec_is_alphabetic(b) || DIGIT_0 <= b <= DIGIT_9 || b == DASH
}

pub fn is_alphabetic(b: u8) -> (r: bool)
    ensures
        r == spec_is_alphabetic(b),
{
    (UPPER_A <= b && b <= UPPER_Z) || (LOWER_A <= b && b <= LOWER_Z)
}

pub fn is_name_byte(b: u8) -> (r: bool)
    ensures
        r == spec_is_name_byte(b),
{
    is_alphabetic(b) || (DIGIT_0 <= b && b <= DIGIT_9) || b == DASH
}

pub open spec fn error(pos: int, kind: ParseErrorKind) -> ParseError {
    ParseError { kind, pos: pos as usize }
}

pub open spec fn unexpected(b: Seq<u8>, pos: int) -> ParseError {
    error(pos, ParseErrorKind::UnexpectedByte(b[pos]))
}

pub open spec fn line_span(start: int, end: int) -> LineSpan {
    LineSpan { start: start as usize, end: end as usize }
}

/// The position behind the blanks at `pos`.
pub open spec fn past_blanks(b: Seq<u8>, pos: int) -> int {
    pos + span(b.skip(pos), |c: u8| is_blank(c))
}

/// The position behind the name bytes at `pos`.
pub open spec fn past_name(b: Seq<u8>, pos: int) -> int {
    pos + span(b.skip(pos), |c: u8| spec_is_name_byte(c))
}

/// The line ends at `pos`: with LF, with CRLF or with the input. CR alone ends nothing.
pub open spec fn is_eol(b: Seq<u8>, pos: int) -> bool {
    pos >= b.len() || b[pos] == LF || (b[pos] == CR && pos + 1 < b.len() && b[pos + 1] == LF)
}

pub open spec fn is_comment_start(b: u8) -> bool {
    b == HASH || b == SEMICOLON
}

/// The position of the quote that closes a subsection whose text goes on at `pos`. A backslash
/// takes the byte behind it along.
pub open spec fn closing_quote(b: Seq<u8>, pos: int) -> Result<int, ParseError>
    decreases b.len() - pos,
{
    if pos >= b.len() {
        Err(error(pos, ParseErrorKind::UnexpectedEol))
    } else if b[pos] == QUOTE {
        Ok(pos)
    } else if b[pos] == BACKSLASH {
        if is_eol(b, pos + 1) {
            Err(error(pos + 1, ParseErrorKind::UnterminatedQuote))
        } else {
            closing_quote(b, pos + 2)
        }
    } else {
        closing_quote(b, pos + 1)
    }
}

/// The error of not finding `byte` at `pos`.
pub open spec fn not_expected(b: Seq<u8>, pos: int, byte: u8) -> Option<ParseError> {
    if pos >= b.len() {
        Some(error(pos, ParseErrorKind::UnexpectedEol))
    } else if b[pos] != byte {
        Some(unexpected(b, pos))
    } else {
        None
    }
}

/// The header whose opening bracket stands at `pos`, and the position behind its closing bracket:
/// `[name]`, `[name ]` or `[name "subsection"]`. The name is not empty.
pub open spec fn header_at(b: Seq<u8>, pos: int) -> Result<(Header, int), ParseError> {
    let end = past_name(b, pos + 1);
    let name = line_span(pos + 1, end);
    if end < b.len() && (end == pos + 1 || b[end] == CLOSE_BRACKET) {
        if end == pos + 1 {
            Err(unexpected(b, end))
        } else {
            Ok((Header { name, subsection: None }, end + 1))
        }
    } else if not_expected(b, end, SPACE) is Some {
        Err(not_expected(b, end, SPACE)->0)
    } else if end + 1 < b.len() && b[end + 1] == CLOSE_BRACKET {
        Ok((Header { name, subsection: None }, end + 2))
    } else if not_expected(b, end + 1, QUOTE) is Some {
        Err(not_expected(b, end + 1, QUOTE)->0)
    } else {
        match closing_quote(b, end + 2) {
            Err(err) => Err(err),
            Ok(close) => match not_expected(b, close + 1, CLOSE_BRACKET) {
                Some(err) => Err(err),
                None => {
                    let subsection = Some(line_span(end + 2, close));
                    Ok((Header { name, subsection }, close + 2))
                },
            },
        }
    }
}

/// Where the value that goes on at `pos` ends: at the end of the line or, outside of quotes, at a
/// comment. A continued line goes on, and within quotes everything but a line ending is taken as
/// it is.
pub open spec fn value_end(b: Seq<u8>, pos: int, in_quote: bool, last_quote: int) -> Result<
    int,
    ParseError,
>
    decreases b.len() - pos,
{
    if pos < 0 || pos >= b.len() {
        if in_quote {
            Err(error(last_quote, ParseErrorKind::UnterminatedQuote))
        } else {
            Ok(pos)
        }
    } else if b[pos] == QUOTE {
        value_end(b, pos + 1, !in_quote, pos)
    } else if b[pos] == BACKSLASH {
        if escape_len(b.skip(pos)) > 0 {
            value_end(b, pos + escape_len(b.skip(pos)), in_quote, last_quote)
        } else {
            Err(unexpected(b, pos + 1))
        }
    } else if (is_comment_start(b[pos]) && !in_quote) || is_eol(b, pos) {
        if in_quote {
            Err(error(last_quote, ParseErrorKind::UnterminatedQuote))
        } else {
            Ok(pos)
        }
    } else {
        value_end(b, pos + 1, in_quote, last_quote)
    }
}

/// The end without the blanks before it.
pub open spec fn trimmed_end(b: Seq<u8>, start: int, end: int) -> int
    decreases end,
{
    if 0 <= start < end <= b.len() && is_blank(b[end - 1]) {
        trimmed_end(b, start, end - 1)
    } else {
        end
    }
}

/// The value that starts at `pos`, without the blanks behind it.
pub open spec fn value_at(b: Seq<u8>, pos: int) -> Result<LineSpan, ParseError> {
    match value_end(b, pos, false, pos) {
        Err(err) => Err(err),
        Ok(end) => Ok(line_span(pos, trimmed_end(b, pos, end))),
    }
}

/// The variable whose name starts at `pos`.
pub open spec fn variable_at(b: Seq<u8>, pos: int) -> Result<LineKind, ParseError> {
    let end = past_name(b, pos + 1);
    let name = line_span(pos, end);
    let next = past_blanks(b, end);
    if next < b.len() && b[next] == EQUALS {
        match value_at(b, past_blanks(b, next + 1)) {
            Err(err) => Err(err),
            Ok(value) => Ok(LineKind::Variable { name, value: Some(value) }),
        }
    } else if next >= b.len() || is_comment_start(b[next]) || b[next] == CR || b[next] == LF {
        Ok(LineKind::Variable { name, value: None })
    } else {
        Err(unexpected(b, next))
    }
}

/// What a line is.
pub open spec fn line_kind_of(b: Seq<u8>) -> Result<LineKind, ParseError> {
    let pos = past_blanks(b, 0);
    if pos >= b.len() || b[pos] == CR || b[pos] == LF {
        Ok(LineKind::Blank)
    } else if b[pos] == OPEN_BRACKET {
        match header_at(b, pos) {
            Err(err) => Err(err),
            Ok((header, next)) => {
                let end = past_blanks(b, next);
                if is_eol(b, end) || is_comment_start(b[end]) {
                    Ok(LineKind::Header(header))
                } else {
                    Err(unexpected(b, end))
                }
            },
        }
    } else if spec_is_alphabetic(b[pos]) {
        variable_at(b, pos)
    } else if is_comment_start(b[pos]) {
        Ok(LineKind::Comment)
    } else {
        Err(unexpected(b, pos))
    }
}

/// A position in a logical line.
pub struct LineParser<'a> {
    pub buf: &'a [u8],
    pub pos: usize,
}

impl<'a> LineParser<'a> {
    pub open spec fn wf(&self) -> bool {
        self.pos <= self.buf.len()
    }

    pub fn new(buf: &'a [u8]) -> (r: Self)
        ensures
            r.buf == buf,
            r.pos == 0,
            r.wf(),
    {
        Self { buf, pos: 0 }
    }

    /// What the line is.
    pub fn parse(self) -> (r: Result<LineKind, ParseError>)
        requires
            self.pos == 0,
        ensures
            r == line_kind_of(self.buf@),
    {
        let mut parser = LineParser { buf: self.buf, pos: self.pos };
        parser.skip_ws();
        match parser.peek() {
            None => Ok(LineKind::Blank),
            Some(byte) => {
                if byte == OPEN_BRACKET {
                    let (name, subsection) = parser.parse_header()?;
                    parser.check_trailing_comment()?;
                    Ok(LineKind::Header(Header { name, subsection }))
                } else if is_alphabetic(byte) {
                    let (name, value) = parser.parse_variable()?;
                    Ok(LineKind::Variable { name, value })
                } else if byte == HASH || byte == SEMICOLON {
                    Ok(LineKind::Comment)
                } else if byte == CR || byte == LF {
                    Ok(LineKind::Blank)
                } else {
                    Err(
                        ParseError {
                            pos: parser.pos,
                            kind: ParseErrorKind::UnexpectedByte(byte),
                        },
                    )
                }
            },
        }
    }

    /// Moves behind the name bytes.
    fn skip_name(&mut self)
        requires
            old(self).wf(),
        ensures
            final(self).wf(),
            final(self).buf == old(self).buf,
            final(self).pos == past_name(old(self).buf@, old(self).pos as int),
            final(self).pos >= old(self).pos,
    {
        let ghost start = self.pos as int;
        while self.pos < self.buf.len() && is_name_byte(self.buf[self.pos])
            invariant
                self.wf(),
                self.buf == old(self).buf,
                start == old(self).pos,
                start <= self.pos,
                forall|j: int| start <= j < self.pos ==> spec_is_name_byte(self.buf@[j]),
            decreases self.buf@.len() - self.pos,
        {
            self.advance(1);
        }
        proof {
            let rest = self.buf@.skip(start);
            let n = self.pos - start;
            assert forall|j: int| 0 <= j < n implies spec_is_name_byte(#[trigger] rest[j]) by {
                assert(rest[j] == self.buf@[start + j]);
            }
            lemma_span_is(rest, |c: u8| spec_is_name_byte(c), n);
        }
    }

    /// A header, from its opening to its closing bracket.
    pub fn parse_header(&mut self) -> (r: Result<(LineSpan, Option<LineSpan>), ParseError>)
        requires
            old(self).wf(),
            old(self).pos < old(self).buf@.len(),
        ensures
            final(self).wf(),
            final(self).buf == old(self).buf,
            match header_at(old(self).buf@, old(self).pos as int) {
                Ok((header, next)) => r == Ok::<(LineSpan, Option<LineSpan>), ParseError>(
                    (header.name, header.subsection),
                ) && final(self).pos == next,
                Err(err) => r == Err::<(LineSpan, Option<LineSpan>), ParseError>(err),
            },
    {
        self.advance(1);
        let start: usize = self.pos;
        self.skip_name();
        let section = LineSpan { start, end: self.pos };
        match self.peek() {
            Some(byte) => {
                if start == self.pos {
                    // a section has a name
                    return Err(
                        ParseError { pos: self.pos, kind: ParseErrorKind::UnexpectedByte(byte) },
                    );
                }
                if byte == CLOSE_BRACKET {
                    self.advance(1);
                    return Ok((section, None));
                }
            },
            None => {},
        }
        // one space separates the name from the subsection
        self.expect(SPACE)?;
        match self.peek() {
            Some(byte) => {
                if byte == CLOSE_BRACKET {
                    self.advance(1);
                    return Ok((section, None));
                }
            },
            None => {},
        }
        self.expect(QUOTE)?;
        let subsection = self.parse_subsection()?;
        self.expect(CLOSE_BRACKET)?;
        Ok((section, Some(subsection)))
    }

    /// The text of a subsection and the quote that closes it.
    pub fn parse_subsection(&mut self) -> (r: Result<LineSpan, ParseError>)
        requires
            old(self).wf(),
        ensures
            final(self).wf(),
            final(self).buf == old(self).buf,
            match closing_quote(old(self).buf@, old(self).pos as int) {
                Ok(close) => r == Ok::<LineSpan, ParseError>(
                    line_span(old(self).pos as int, close),
                ) && final(self).pos == close + 1 && old(self).pos <= close,
                Err(err) => r == Err::<LineSpan, ParseError>(err),
            },
    {
        let start: usize = self.pos;
        loop
            invariant
                self.wf(),
                self.buf == old(self).buf,
                start == old(self).pos,
                start <= self.pos,
                closing_quote(self.buf@, start as int) == closing_quote(
                    self.buf@,
                    self.pos as int,
                ),
            decreases self.buf@.len() - self.pos,
        {
            match self.peek() {
                None => {
                    return Err(
                        ParseError { pos: self.pos, kind: ParseErrorKind::UnexpectedEol },
                    );
                },
                Some(byte) => {
                    if byte == QUOTE {
                        let text = LineSpan { start, end: self.pos };
                        self.advance(1);
                        return Ok(text);
                    } else if byte == BACKSLASH {
                        self.advance(1);
                        if self.eol() {
                            return Err(
                                ParseError {
                                    pos: self.pos,
                                    kind: ParseErrorKind::UnterminatedQuote,
                                },
                            );
                        }
                        self.advance(1);
                    } else {
                        self.advance(1);
                    }
                },
            }
        }
    }

    /// A variable, whose first byte is known to be a letter.
    pub fn parse_variable(&mut self) -> (r: Result<(LineSpan, Option<LineSpan>), ParseError>)
        requires
            old(self).wf(),
            old(self).pos < old(self).buf@.len(),
        ensures
            final(self).wf(),
            final(self).buf == old(self).buf,
            match variable_at(old(self).buf@, old(self).pos as int) {
                Ok(kind) => r matches Ok((name, value)) && kind == (LineKind::Variable {
                    name,
                    value,
                }),
                Err(err) => r == Err::<(LineSpan, Option<LineSpan>), ParseError>(err),
            },
    {
        let start: usize = self.pos;
        self.advance(1);
        self.skip_name();
        let name = LineSpan { start, end: self.pos };
        self.skip_ws();
        match self.peek() {
            None => Ok((name, None)),
            Some(byte) => {
                if byte == EQUALS {
                    self.advance(1);
                    self.skip_ws();
                    let value = self.parse_value()?;
                    Ok((name, Some(value)))
                } else if byte == HASH || byte == SEMICOLON || byte == CR || byte == LF {
                    Ok((name, None))
                } else {
                    Err(ParseError { pos: self.pos, kind: ParseErrorKind::UnexpectedByte(byte) })
                }
            },
        }
    }

    /// A value. The quotes and the line endings of continued lines are part of it; the blanks
    /// behind it are not.
    pub fn parse_value(&mut self) -> (r: Result<LineSpan, ParseError>)
        requires
            old(self).wf(),
        ensures
            final(self).wf(),
            final(self).buf == old(self).buf,
            r == value_at(old(self).buf@, old(self).pos as int),
    {
        let start: usize = self.pos;
        let mut in_quote = false;
        let mut last_quote: usize = start;
        let mut going = true;
        while going
            invariant
                self.wf(),
                self.buf == old(self).buf,
                start == old(self).pos,
                start <= self.pos,
                going ==> value_end(self.buf@, start as int, false, start as int) == value_end(
                    self.buf@,
                    self.pos as int,
                    in_quote,
                    last_quote as int,
                ),
                !going ==> value_end(self.buf@, start as int, false, start as int) == (
                if in_quote {
                    Err::<int, ParseError>(
                        error(last_quote as int, ParseErrorKind::UnterminatedQuote),
                    )
                } else {
                    Ok(self.pos as int)
                }),
            decreases self.buf@.len() - self.pos, going as int,
        {
            match self.peek() {
                None => {
                    going = false;
                },
                Some(byte) => {
                    let ghost rest = self.buf@.skip(self.pos as int);
                    if byte == QUOTE {
                        last_quote = self.pos;
                        in_quote = !in_quote;
                        self.advance(1);
                    } else if byte == BACKSLASH {
                        self.advance(1);
                        match self.peek() {
                            // a backslash at the end of the input stands for nothing
                            None => {
                                assert(rest.len() == 1);
                            },
                            Some(other) => {
                                assert(rest[1] == other);
                                if other == LOWER_N || other == LOWER_T || other == LOWER_B || other
                                    == QUOTE || other == BACKSLASH || other == LF {
                                    self.advance(1);
                                } else if other == CR && self.eol() {
                                    assert(rest[2] == LF);
                                    self.advance(2);
                                } else {
                                    proof {
                                        if rest.len() > 2 {
                                            assert(rest[2] == self.buf@[self.pos + 1]);
                                        }
                                    }
                                    return Err(
                                        ParseError {
                                            pos: self.pos,
                                            kind: ParseErrorKind::UnexpectedByte(other),
                                        },
                                    );
                                }
                            },
                        }
                    } else if ((byte == HASH || byte == SEMICOLON) && !in_quote) || self.eol() {
                        going = false;
                    } else {
                        self.advance(1);
                    }
                },
            }
        }
        if in_quote {
            return Err(
                ParseError { pos: last_quote, kind: ParseErrorKind::UnterminatedQuote },
            );
        }
        let mut end: usize = self.pos;
        while end > start && (self.buf[end - 1] == SPACE || self.buf[end - 1] == TAB)
            invariant
                start <= end <= self.pos,
                self.wf(),
                trimmed_end(self.buf@, start as int, self.pos as int) == trimmed_end(
                    self.buf@,
                    start as int,
                    end as int,
                ),
            decreases end,
        {
            end = end - 1;
        }
        Ok(LineSpan { start, end })
    }

    /// Behind a header only blanks and a comment may stand. What the comment says is not looked
    /// at: a backslash in it continues nothing.
    pub fn check_trailing_comment(&mut self) -> (r: Result<(), ParseError>)
        requires
            old(self).wf(),
        ensures
            final(self).wf(),
            final(self).buf == old(self).buf,
            ({
                let end = past_blanks(old(self).buf@, old(self).pos as int);
                if is_eol(old(self).buf@, end) || is_comment_start(old(self).buf@[end]) {
                    r is Ok
                } else {
                    r == Err::<(), ParseError>(unexpected(old(self).buf@, end))
                }
            }),
    {
        self.skip_ws();
        if self.eol() {
            return Ok(());
        }
        let byte: u8 = self.buf[self.pos];
        if byte == HASH || byte == SEMICOLON {
            Ok(())
        } else {
            Err(ParseError { pos: self.pos, kind: ParseErrorKind::UnexpectedByte(byte) })
        }
    }

    pub fn advance(&mut self, n: usize)
        requires
            old(self).pos + n <= old(self).buf.len(),
        ensures
            final(self).buf == old(self).buf,
            final(self).pos == old(self).pos + n,
    {
        self.pos = self.pos + n;
    }

    /// The next byte.
    pub fn peek(&self) -> (r: Option<u8>)
        ensures
            r == (if self.pos < self.buf@.len() {
                Some(self.buf@[self.pos as int])
            } else {
                None::<u8>
            }),
    {
        if self.pos < self.buf.len() {
            Some(self.buf[self.pos])
        } else {
            None
        }
    }

    /// Moves behind the next byte, which has to be the expected one.
    pub fn expect(&mut self, expected: u8) -> (r: Result<(), ParseError>)
        requires
            old(self).wf(),
        ensures
            final(self).wf(),
            final(self).buf == old(self).buf,
            match not_expected(old(self).buf@, old(self).pos as int, expected) {
                Some(err) => r == Err::<(), ParseError>(err) && final(self).pos == old(self).pos,
                None => r is Ok && final(self).pos == old(self).pos + 1,
            },
    {
        match self.peek() {
            Some(byte) => {
                if byte == expected {
                    self.advance(1);
                    Ok(())
                } else {
                    Err(ParseError { pos: self.pos, kind: ParseErrorKind::UnexpectedByte(byte) })
                }
            },
            None => Err(ParseError { pos: self.pos, kind: ParseErrorKind::UnexpectedEol }),
        }
    }

    /// Moves behind the blanks.
    pub fn skip_ws(&mut self)
        requires
            old(self).wf(),
        ensures
            final(self).wf(),
            final(self).buf == old(self).buf,
            final(self).pos == past_blanks(old(self).buf@, old(self).pos as int),
    {
        let ghost start = self.pos as int;
        while self.pos < self.buf.len() && (self.buf[self.pos] == SPACE || self.buf[self.pos]
            == TAB)
            invariant
                self.wf(),
                self.buf == old(self).buf,
                start == old(self).pos,
                start <= self.pos,
                forall|j: int| start <= j < self.pos ==> is_blank(self.buf@[j]),
            decreases self.buf@.len() - self.pos,
        {
            self.advance(1);
        }
        proof {
            let rest = self.buf@.skip(start);
            let n = self.pos - start;
            assert forall|j: int| 0 <= j < n implies is_blank(#[trigger] rest[j]) by {
                assert(rest[j] == self.buf@[start + j]);
            }
            lemma_span_is(rest, |c: u8| is_blank(c), n);
        }
    }

    /// Does the line end here?
    pub fn eol(&self) -> (r: bool)
        requires
            self.wf(),
        ensures
            r == is_eol(self.buf@, self.pos as int),
    {
        if self.pos >= self.buf.len() {
            return true;
        }
        let byte: u8 = self.buf[self.pos];
        byte == LF || (byte == CR && self.buf.len() - self.pos > 1 && self.buf[self.pos + 1] == LF)
    }
}

/// The bytes of a span.
pub open spec fn span_bytes(b: Seq<u8>, s: LineSpan) -> Seq<u8> {
    b.subrange(s.start as int, s.end as int)
}

pub open spec fn span_fits(b: Seq<u8>, s: LineSpan) -> bool {
    s.start <= s.end <= b.len()
}

/// A name: not empty, and made of name bytes.
pub open spec fn is_name(b: Seq<u8>) -> bool {
    b.len() > 0 && forall|i: int| 0 <= i < b.len() ==> spec_is_name_byte(#[trigger] b[i])
}

/// What the parser promises of a line: the spans lie in the line, the names are names, that of a
/// variable starts with a letter, and every escape in a value is known.
pub open spec fn kind_fits(b: Seq<u8>, kind: LineKind) -> bool {
    match kind {
        LineKind::Blank => true,
        LineKind::Comment => true,
        LineKind::Header(header) => {
            &&& span_fits(b, header.name)
            &&& is_name(span_bytes(b, header.name))
            &&& header.subsection matches Some(s) ==> span_fits(b, s)
        },
        LineKind::Variable { name, value } => {
            &&& span_fits(b, name)
            &&& is_name(span_bytes(b, name))
            &&& spec_is_alphabetic(span_bytes(b, name)[0])
            &&& value matches Some(s) ==> span_fits(b, s) && escapes_are_known(span_bytes(b, s))
        },
    }
}

proof fn lemma_closing_quote(b: Seq<u8>, pos: int)
    requires
        0 <= pos,
    ensures
        closing_quote(b, pos) matches Ok(close) ==> pos <= close < b.len(),
    decreases b.len() - pos,
{
    if pos < b.len() && b[pos] != QUOTE {
        if b[pos] == BACKSLASH {
            if !is_eol(b, pos + 1) {
                lemma_closing_quote(b, pos + 2);
            }
        } else {
            lemma_closing_quote(b, pos + 1);
        }
    }
}

proof fn lemma_value_end(b: Seq<u8>, pos: int, in_quote: bool, last_quote: int)
    requires
        0 <= pos <= b.len(),
    ensures
        value_end(b, pos, in_quote, last_quote) matches Ok(end) ==> pos <= end <= b.len()
            && escapes_are_known(b.subrange(pos, end)),
    decreases b.len() - pos,
{
    if pos < b.len() {
        if b[pos] == QUOTE {
            lemma_value_end(b, pos + 1, !in_quote, pos);
            if let Ok(end) = value_end(b, pos, in_quote, last_quote) {
                assert(b.subrange(pos, end).drop_first() =~= b.subrange(pos + 1, end));
            }
        } else if b[pos] == BACKSLASH {
            let rest = b.skip(pos);
            let n = escape_len(rest);
            if n > 0 {
                lemma_value_end(b, pos + n, in_quote, last_quote);
                if let Ok(end) = value_end(b, pos, in_quote, last_quote) {
                    let s = b.subrange(pos, end);
                    assert(s[0] == BACKSLASH);
                    if n > 1 {
                        assert(s[1] == rest[1]);
                    }
                    if n > 2 {
                        assert(s[2] == rest[2]);
                    }
                    assert(escape_len(s) == n);
                    assert(s.skip(n) =~= b.subrange(pos + n, end));
                }
            }
        } else if !((is_comment_start(b[pos]) && !in_quote) || is_eol(b, pos)) {
            lemma_value_end(b, pos + 1, in_quote, last_quote);
            if let Ok(end) = value_end(b, pos, in_quote, last_quote) {
                assert(b.subrange(pos, end).drop_first() =~= b.subrange(pos + 1, end));
            }
        }
    }
}

proof fn lemma_drop_blank(s: Seq<u8>)
    requires
        escapes_are_known(s),
        s.len() > 0,
        is_blank(s.last()),
    ensures
        escapes_are_known(s.drop_last()),
    decreases s.len(),
{
    let t = s.drop_last();
    if s[0] == BACKSLASH {
        let n = escape_len(s);
        assert(s.len() > n) by {
            if s.len() == n {
                assert(s.last() == s[n - 1]);
            }
        }
        assert(escape_len(t) == n) by {
            if n > 1 {
                assert(t[1] == s[1]);
            }
            if n > 2 {
                assert(t[2] == s[2]);
            }
        }
        assert(s.skip(n).last() == s.last());
        lemma_drop_blank(s.skip(n));
        assert(t.skip(n) =~= s.skip(n).drop_last());
    } else if s.len() > 1 {
        assert(s.drop_first().last() == s.last());
        lemma_drop_blank(s.drop_first());
        assert(t.drop_first() =~= s.drop_first().drop_last());
    }
}

proof fn lemma_trimmed(b: Seq<u8>, start: int, end: int)
    requires
        0 <= start <= end <= b.len(),
        escapes_are_known(b.subrange(start, end)),
    ensures
        start <= trimmed_end(b, start, end) <= end,
        escapes_are_known(b.subrange(start, trimmed_end(b, start, end))),
        trimmed_end(b, start, end) > start ==> !is_blank(b[trimmed_end(b, start, end) - 1]),
    decreases end,
{
    if start < end && is_blank(b[end - 1]) {
        let s = b.subrange(start, end);
        assert(s.last() == b[end - 1]);
        lemma_drop_blank(s);
        assert(s.drop_last() =~= b.subrange(start, end - 1));
        lemma_trimmed(b, start, end - 1);
    }
}

proof fn lemma_past(b: Seq<u8>, pos: int)
    requires
        0 <= pos <= b.len(),
    ensures
        pos <= past_name(b, pos) <= b.len(),
        pos <= past_blanks(b, pos) <= b.len(),
        forall|i: int| pos <= i < past_name(b, pos) ==> spec_is_name_byte(#[trigger] b[i]),
{
    let rest = b.skip(pos);
    lemma_span(rest, |c: u8| spec_is_name_byte(c));
    lemma_span(rest, |c: u8| is_blank(c));
    assert forall|i: int| pos <= i < past_name(b, pos) implies spec_is_name_byte(
        #[trigger] b[i],
    ) by {
        assert(rest[i - pos] == b[i]);
    }
}

proof fn lemma_header_fits(b: Seq<u8>, pos: int)
    requires
        0 <= pos < b.len(),
        b.len() <= usize::MAX,
    ensures
        header_at(b, pos) matches Ok((header, _)) ==> kind_fits(b, LineKind::Header(header)),
{
    lemma_past(b, pos + 1);
    let end = past_name(b, pos + 1);
    if let Ok((header, _)) = header_at(b, pos) {
        lemma_closing_quote(b, end + 2);
        let name = span_bytes(b, header.name);
        assert forall|i: int| 0 <= i < name.len() implies spec_is_name_byte(#[trigger] name[i]) by {
            assert(name[i] == b[pos + 1 + i]);
        }
    }
}

proof fn lemma_variable_fits(b: Seq<u8>, pos: int)
    requires
        0 <= pos < b.len(),
        b.len() <= usize::MAX,
        spec_is_alphabetic(b[pos]),
    ensures
        variable_at(b, pos) matches Ok(kind) ==> kind_fits(b, kind),
{
    lemma_past(b, pos + 1);
    let end = past_name(b, pos + 1);
    lemma_past(b, end);
    let next = past_blanks(b, end);
    if let Ok(kind) = variable_at(b, pos) {
        let name = b.subrange(pos, end);
        assert(name[0] == b[pos]);
        assert forall|i: int| 0 <= i < name.len() implies spec_is_name_byte(#[trigger] name[i]) by {
            assert(name[i] == b[pos + i]);
        }
        if next < b.len() && b[next] == EQUALS {
            lemma_past(b, next + 1);
            let start = past_blanks(b, next + 1);
            lemma_value_end(b, start, false, start);
            let stop = value_end(b, start, false, start)->Ok_0;
            lemma_trimmed(b, start, stop);
        }
    }
}

/// A line that was parsed is what the parser promises.
pub proof fn parsed_lines_fit(b: Seq<u8>)
    requires
        b.len() <= usize::MAX,
    ensures
        line_kind_of(b) matches Ok(kind) ==> kind_fits(b, kind),
{
    lemma_past(b, 0);
    let pos = past_blanks(b, 0);
    if pos < b.len() {
        if b[pos] == OPEN_BRACKET {
            lemma_header_fits(b, pos);
        } else if spec_is_alphabetic(b[pos]) {
            lemma_variable_fits(b, pos);
        }
    }
}

} // verus!
