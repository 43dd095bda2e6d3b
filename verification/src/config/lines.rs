//! Configuration files as lines. A line that ends with a backslash goes on in the next one, if it
//! defines a variable.

use crate::bytes::{first, from, lemma_until, lemma_until_is, memchr, until, BACKSLASH, LF};
use crate::config::doc::{BufferSpan, Line, LineContent, LineView};
use crate::config::parse::{
    is_alphabetic, kind_fits, line_kind_of, parsed_lines_fit, past_blanks, span_bytes,
    spec_is_alphabetic, unexpected, LineKind, LineParser, ParseError, ParseErrorKind,
};
use vstd::prelude::*;
use vstd::slice::slice_subrange;

verus! {

/// The position behind the physical line that goes on at `at`.
pub open spec fn physical_end(b: Seq<u8>, at: int) -> int {
    let n = until(b.skip(at), LF);
    if at + n < b.len() {
        at + n + 1
    } else {
        b.len() as int
    }
}

/// The number of backslashes that end at `end`.
pub open spec fn backslashes_before(b: Seq<u8>, end: int) -> int
    decreases end,
{
    if 0 < end <= b.len() && b[end - 1] == BACKSLASH {
        1 + backslashes_before(b, end - 1)
    } else {
        0
    }
}

/// The line that ends at `end` goes on in the next one: it ends with LF, and with a backslash
/// before it that is not itself escaped.
pub open spec fn continues(b: Seq<u8>, end: int) -> bool {
    0 < end <= b.len() && b[end - 1] == LF && backslashes_before(b, end - 1) % 2 == 1
}

/// The end of the continued lines of which the first ends at `end`.
pub open spec fn folded_end(b: Seq<u8>, end: int) -> int
    decreases b.len() - end,
{
    if continues(b, end) && end < physical_end(b, end) {
        folded_end(b, physical_end(b, end))
    } else {
        end
    }
}

/// The first byte at `at` that is no blank is a letter: a variable starts here. Only variables can
/// be continued.
pub open spec fn starts_variable(b: Seq<u8>, at: int) -> bool {
    let pos = past_blanks(b, at);
    pos < b.len() && spec_is_alphabetic(b[pos])
}

/// The end of the logical line that starts at `at`.
pub open spec fn logical_end(b: Seq<u8>, at: int) -> int {
    if starts_variable(b, at) {
        folded_end(b, physical_end(b, at))
    } else {
        physical_end(b, at)
    }
}

pub open spec fn count_lf(b: Seq<u8>) -> int
    decreases b.len(),
{
    if b.len() == 0 {
        0
    } else {
        count_lf(b.drop_last()) + (if b.last() == LF {
            1int
        } else {
            0int
        })
    }
}

/// The number of the physical line in which `at` lies, the first being one.
pub open spec fn line_number(b: Seq<u8>, at: int) -> int {
    1 + count_lf(b.take(at))
}

#[derive(Debug, Clone, Copy, PartialEq, Eq, Structural)]
pub enum ConfigDocError {
    InvalidFormat { line: usize, source: ParseError },
}

/// The error of a line: it cannot be parsed, or is a variable with no section above it.
pub open spec fn line_error(bytes: Seq<u8>, in_section: bool) -> Option<ParseError> {
    match line_kind_of(bytes) {
        Err(err) => Some(err),
        Ok(kind) => match kind {
            LineKind::Variable { name, value } => if in_section {
                None
            } else {
                Some(unexpected(bytes, name.start as int))
            },
            _ => None,
        },
    }
}

/// The logical lines of a file from `at` on.
pub open spec fn lines_from(b: Seq<u8>, at: int, in_section: bool) -> Result<
    Seq<LineView>,
    ConfigDocError,
>
    decreases b.len() - at,
{
    let end = logical_end(b, at);
    let bytes = b.subrange(at, end);
    if at < 0 || at >= b.len() || end <= at || end > b.len() {
        Ok(Seq::empty())
    } else {
        match line_error(bytes, in_section) {
            Some(source) => Err(
                ConfigDocError::InvalidFormat { line: line_number(b, at) as usize, source },
            ),
            None => {
                let line = LineView { bytes, kind: line_kind_of(bytes)->Ok_0 };
                match lines_from(b, end, in_section || line.kind is Header) {
                    Err(err) => Err(err),
                    Ok(lines) => Ok(seq![line] + lines),
                }
            },
        }
    }
}

/// The logical lines of a file.
pub open spec fn lines_of(b: Seq<u8>) -> Result<Seq<LineView>, ConfigDocError> {
    lines_from(b, 0, false)
}

pub proof fn lemma_physical_end(b: Seq<u8>, at: int)
    requires
        0 <= at <= b.len(),
    ensures
        at <= physical_end(b, at) <= b.len(),
        at < b.len() ==> at < physical_end(b, at),
{
    lemma_until(b.skip(at), LF);
}

pub proof fn lemma_folded_end(b: Seq<u8>, end: int)
    requires
        0 <= end <= b.len(),
    ensures
        end <= folded_end(b, end) <= b.len(),
    decreases b.len() - end,
{
    lemma_physical_end(b, end);
    if continues(b, end) && end < physical_end(b, end) {
        lemma_folded_end(b, physical_end(b, end));
    }
}

/// A logical line takes at least one byte.
pub proof fn lemma_logical_end(b: Seq<u8>, at: int)
    requires
        0 <= at < b.len(),
    ensures
        at < logical_end(b, at) <= b.len(),
{
    lemma_physical_end(b, at);
    lemma_folded_end(b, physical_end(b, at));
}

/// Does the buffer end with a line that goes on?
pub fn ends_with_continuation(buf: &[u8]) -> (r: bool)
    ensures
        r == continues(buf@, buf@.len() as int),
{
    if buf.len() == 0 || buf[buf.len() - 1] != LF {
        return false;
    }
    let mut i: usize = buf.len() - 1;
    let mut odd = false;
    while i > 0 && buf[i - 1] == BACKSLASH
        invariant
            i < buf@.len(),
            backslashes_before(buf@, buf@.len() - 1) % 2 == (backslashes_before(buf@, i as int)
                + odd as int) % 2,
        decreases i,
    {
        odd = !odd;
        i = i - 1;
    }
    odd
}

proof fn lemma_backslashes_take(b: Seq<u8>, end: int, n: int)
    requires
        0 <= end <= n <= b.len(),
    ensures
        backslashes_before(b.take(n), end) == backslashes_before(b, end),
    decreases end,
{
    if end > 0 && b[end - 1] == BACKSLASH {
        lemma_backslashes_take(b, end - 1, n);
    }
}

/// Does a variable start here?
pub fn should_fold(buf: &[u8], start: usize) -> (r: bool)
    requires
        start <= buf@.len(),
    ensures
        r == starts_variable(buf@, start as int),
{
    let mut parser = LineParser { buf, pos: start };
    assert(buf.len() == buf@.len());
    parser.skip_ws();
    match parser.peek() {
        Some(byte) => is_alphabetic(byte),
        None => false,
    }
}

fn read_physical(b: &[u8], at: usize) -> (end: usize)
    requires
        at <= b@.len(),
    ensures
        end == physical_end(b@, at as int),
        at <= end <= b@.len(),
        at < b@.len() ==> at < end,
{
    let rest = from(b, at);
    assert(b.len() == b@.len());
    match memchr(LF, rest) {
        Some(n) => {
            proof {
                lemma_until_is(rest@, LF, n as int);
            }
            at + n + 1
        },
        None => {
            proof {
                lemma_until_is(rest@, LF, rest@.len() as int);
            }
            b.len()
        },
    }
}

fn read_logical(b: &[u8], at: usize) -> (end: usize)
    requires
        at < b@.len(),
    ensures
        end == logical_end(b@, at as int),
        at < end <= b@.len(),
{
    let mut end: usize = read_physical(b, at);
    if should_fold(b, at) {
        let mut going = true;
        while going
            invariant
                at < end <= b@.len(),
                going ==> folded_end(b@, end as int) == folded_end(
                    b@,
                    physical_end(b@, at as int),
                ),
                !going ==> end == folded_end(b@, physical_end(b@, at as int)),
            decreases b@.len() - end, going as int,
        {
            let so_far = first(b, end);
            proof {
                lemma_backslashes_take(b@, end - 1, end as int);
                assert(so_far@[end - 1] == b@[end - 1]);
            }
            if ends_with_continuation(so_far) {
                let next: usize = read_physical(b, end);
                if next == end {
                    going = false;
                } else {
                    end = next;
                }
            } else {
                going = false;
            }
        }
    }
    end
}

proof fn lemma_count_step(b: Seq<u8>, i: int, j: int)
    requires
        0 <= i <= j <= b.len(),
    ensures
        count_lf(b.take(j)) == count_lf(b.take(i)) + count_lf(b.subrange(i, j)),
        0 <= count_lf(b.take(i)) <= i,
    decreases j - i, i,
{
    if i < j {
        lemma_count_step(b, i, j - 1);
        assert(b.take(j).drop_last() =~= b.take(j - 1));
        assert(b.subrange(i, j).drop_last() =~= b.subrange(i, j - 1));
    } else {
        assert(b.subrange(i, j) =~= Seq::<u8>::empty());
        if i > 0 {
            lemma_count_step(b, i - 1, i - 1);
            assert(b.take(i).drop_last() =~= b.take(i - 1));
        }
    }
}

fn count_newlines(b: &[u8]) -> (n: usize)
    ensures
        n == count_lf(b@),
        n <= b@.len(),
{
    let mut n: usize = 0;
    let mut i: usize = 0;
    assert(b@.take(0) =~= Seq::<u8>::empty());
    while i < b.len()
        invariant
            i <= b@.len(),
            n <= i,
            n == count_lf(b@.take(i as int)),
        decreases b@.len() - i,
    {
        assert(b@.take(i + 1).drop_last() =~= b@.take(i as int));
        if b[i] == LF {
            n = n + 1;
        }
        i = i + 1;
    }
    assert(b@.take(i as int) =~= b@);
    n
}

/// What the line in these bytes of the file is.
pub fn classify(buf: &[u8], span: &BufferSpan) -> (r: Result<LineKind, ParseError>)
    requires
        span.start <= span.end <= buf@.len(),
    ensures
        r == line_kind_of(buf@.subrange(span.start as int, span.end as int)),
{
    let parser = LineParser::new(slice_subrange(buf, span.start, span.end));
    parser.parse()
}

/// The lines in terms of their bytes.
pub open spec fn lines_view(lines: Seq<Line>, buf: Seq<u8>) -> Seq<LineView> {
    Seq::new(lines.len(), |i: int| lines[i].view_in(buf))
}

pub open spec fn lines_wf(lines: Seq<Line>, buf: Seq<u8>) -> bool {
    forall|i: int| 0 <= i < lines.len() ==> (#[trigger] lines[i]).wf(buf)
}

/// The logical lines of a file.
pub fn read_lines(buf: &[u8]) -> (r: Result<Vec<Line>, ConfigDocError>)
    ensures
        match lines_of(buf@) {
            Ok(lines) => r matches Ok(v) && lines_view(v@, buf@) == lines && lines_wf(v@, buf@),
            Err(err) => r matches Err(e) && e == err,
        },
{
    let mut lines: Vec<Line> = Vec::new();
    let mut at: usize = 0;
    let mut physical_lines: usize = 0;
    let mut in_section = false;
    proof {
        assert(buf@.take(0) =~= Seq::<u8>::empty());
        if let Ok(all) = lines_of(buf@) {
            assert(lines_view(lines@, buf@) + all =~= all);
        }
    }
    while at < buf.len()
        invariant
            at <= buf@.len(),
            physical_lines == count_lf(buf@.take(at as int)),
            physical_lines <= at,
            lines_wf(lines@, buf@),
            match lines_of(buf@) {
                Ok(all) => lines_from(buf@, at as int, in_section) matches Ok(rest) && all
                    == lines_view(lines@, buf@) + rest,
                Err(err) => lines_from(buf@, at as int, in_section) == Err::<
                    Seq<LineView>,
                    ConfigDocError,
                >(err),
            },
        decreases buf@.len() - at,
    {
        let end: usize = read_logical(buf, at);
        let span = BufferSpan { start: at, end };
        let ghost done = lines_view(lines@, buf@);
        let ghost bytes = buf@.subrange(at as int, end as int);
        proof {
            lemma_count_step(buf@, at as int, end as int);
            assert(buf.len() == buf@.len());
            parsed_lines_fit(bytes);
            lemma_logical_end(buf@, at as int);
        }
        match classify(buf, &span) {
            Err(source) => {
                return Err(ConfigDocError::InvalidFormat { line: physical_lines + 1, source });
            },
            Ok(kind) => {
                match kind {
                    LineKind::Header(_) => {
                        in_section = true;
                    },
                    LineKind::Variable { name, value } => {
                        if !in_section {
                            let pos: usize = name.start;
                            assert(kind_fits(bytes, kind));
                            assert(bytes[pos as int] == span_bytes(bytes, name)[0]);
                            let byte: u8 = buf[at + pos];
                            return Err(
                                ConfigDocError::InvalidFormat {
                                    line: physical_lines + 1,
                                    source: ParseError {
                                        pos,
                                        kind: ParseErrorKind::UnexpectedByte(byte),
                                    },
                                },
                            );
                        }
                    },
                    _ => {},
                }
                let line = Line { content: LineContent::Slice(span), kind };
                let ghost shown = line.view_in(buf@);
                lines.push(line);
                proof {
                    assert(lines_view(lines@, buf@) =~= done.push(shown));
                    if let Ok(rest) = lines_from(buf@, end as int, in_section) {
                        assert(done + (seq![shown] + rest) =~= done.push(shown) + rest);
                    }
                }
            },
        }
        physical_lines = physical_lines + count_newlines(slice_subrange(buf, at, end));
        proof {
            lemma_count_step(buf@, end as int, end as int);
        }
        at = end;
    }
    proof {
        assert(lines_view(lines@, buf@) + Seq::<LineView>::empty() =~= lines_view(lines@, buf@));
    }
    Ok(lines)
}

} // verus!
