//! What is read back of a configuration file that was written.

use crate::bytes::{
    lemma_span, lemma_span_is, lemma_until, lemma_until_is, span, until, BACKSLASH, CLOSE_BRACKET,
    CR, EQUALS, HASH, LF, OPEN_BRACKET, QUOTE, SEMICOLON, SPACE, TAB,
};
use crate::config::doc::{
    concat, header_bytes, header_line, inserted, lemma_block, lemma_literals, newline_at,
    variable_bytes, variable_line, with_newline, LineView, Value,
};
use crate::config::index::{
    blocks_of, header_before, key_at, last_of, lemma_header_before, lemma_positions, positions_of,
    written_name,
};
use crate::config::key::{key_of_name, SectionKey};
use crate::config::laws::{get_after_set, lines_fit};
use crate::config::lines::{
    backslashes_before, continues, folded_end, lemma_folded_end, lemma_logical_end,
    lemma_physical_end, line_error, lines_from, lines_of, logical_end, physical_end,
    starts_variable, ConfigDocError,
};
use crate::config::parse::{
    closing_quote, header_at, is_eol, is_name, line_kind_of, line_span, parsed_lines_fit,
    past_blanks, past_name, spec_is_alphabetic, spec_is_name_byte, value_at, value_end, variable_at,
    Header,
};
use crate::config::value::{
    encoded, escape, escape_len, escape_letter, escaped, interpreted, interpreting_inverts_encoding,
    is_blank, lemma_escaped_push, needs_quotes,
};
use crate::config::{got, lemma_key_of_name, lookup, with_set, ConfigFileErrorKind};
use vstd::prelude::*;

verus! {

proof fn lemma_concat_cons(line: LineView, rest: Seq<LineView>)
    ensures
        concat(seq![line] + rest) == line.bytes + concat(rest),
    decreases rest.len(),
{
    let all = seq![line] + rest;
    if rest.len() == 0 {
        assert(all.drop_last() =~= Seq::<LineView>::empty());
        assert(concat(Seq::<LineView>::empty()) == Seq::<u8>::empty());
        assert(concat(all) =~= line.bytes + concat(rest));
    } else {
        assert(all.drop_last() =~= seq![line] + rest.drop_last());
        lemma_concat_cons(line, rest.drop_last());
        assert(concat(all) =~= line.bytes + concat(rest));
    }
}

proof fn lemma_lossless_from(b: Seq<u8>, at: int, in_section: bool)
    requires
        0 <= at <= b.len(),
    ensures
        lines_from(b, at, in_section) matches Ok(lines) ==> concat(lines) == b.skip(at),
    decreases b.len() - at,
{
    if at < b.len() {
        lemma_logical_end(b, at);
        let end = logical_end(b, at);
        let bytes = b.subrange(at, end);
        if line_error(bytes, in_section) is None {
            let line = LineView { bytes, kind: line_kind_of(bytes)->Ok_0 };
            let inside = in_section || line.kind is Header;
            lemma_lossless_from(b, end, inside);
            if let Ok(rest) = lines_from(b, end, inside) {
                lemma_concat_cons(line, rest);
                assert(b.skip(at) =~= bytes + b.skip(end));
            }
        }
    } else {
        assert(b.skip(at) =~= Seq::<u8>::empty());
    }
}

/// A file that is read and written again is the same, byte for byte.
pub proof fn loading_is_lossless(b: Seq<u8>)
    ensures
        lines_of(b) matches Ok(lines) ==> concat(lines) == b,
{
    lemma_lossless_from(b, 0, false);
    assert(b.skip(0) =~= b);
}

/// The bytes of the line are one line, and it is what they are.
pub open spec fn line_is_whole(line: LineView) -> bool {
    &&& line.bytes.len() > 0
    &&& logical_end(line.bytes, 0) == line.bytes.len()
    &&& line_kind_of(line.bytes) == Ok::<_, crate::config::parse::ParseError>(line.kind)
}

/// Another line can follow.
pub open spec fn line_is_closed(line: LineView) -> bool {
    &&& line.bytes.last() == LF
    &&& !(starts_variable(line.bytes, 0) && continues(line.bytes, line.bytes.len() as int))
}

/// Written one after the other, the lines are read as they are.
pub open spec fn well_written(lines: Seq<LineView>) -> bool {
    &&& forall|i: int| 0 <= i < lines.len() ==> line_is_whole(#[trigger] lines[i])
    &&& forall|i: int| 0 <= i < lines.len() - 1 ==> line_is_closed(#[trigger] lines[i])
    &&& forall|i: int|
        0 <= i < lines.len() && (#[trigger] lines[i]).kind is Variable ==> header_before(
            lines,
            i,
        ) is Some
}

proof fn lemma_backslashes_shift(b: Seq<u8>, at: int, e: int)
    requires
        0 <= at <= e <= b.len(),
        at == 0 || b[at - 1] != BACKSLASH,
    ensures
        backslashes_before(b, e) == backslashes_before(b.skip(at), e - at),
    decreases e - at,
{
    if e > at && b[e - 1] == BACKSLASH {
        lemma_backslashes_shift(b, at, e - 1);
    }
}

proof fn lemma_continues_shift(b: Seq<u8>, at: int, end: int)
    requires
        0 <= at < end <= b.len(),
        at == 0 || b[at - 1] != BACKSLASH,
    ensures
        continues(b, end) == continues(b.skip(at), end - at),
{
    lemma_backslashes_shift(b, at, end - 1);
}

proof fn lemma_physical_shift(b: Seq<u8>, at: int, from: int)
    requires
        0 <= at <= from <= b.len(),
    ensures
        physical_end(b, from) == at + physical_end(b.skip(at), from - at),
{
    assert(b.skip(at).skip(from - at) =~= b.skip(from));
}

proof fn lemma_folded_shift(b: Seq<u8>, at: int, end: int)
    requires
        0 <= at < end <= b.len(),
        at == 0 || b[at - 1] != BACKSLASH,
    ensures
        folded_end(b, end) == at + folded_end(b.skip(at), end - at),
    decreases b.len() - end,
{
    lemma_continues_shift(b, at, end);
    lemma_physical_shift(b, at, end);
    lemma_physical_end(b, end);
    if continues(b, end) && end < physical_end(b, end) {
        lemma_folded_shift(b, at, physical_end(b, end));
    }
}

/// A logical line does not depend on what stands before it.
proof fn lemma_logical_shift(b: Seq<u8>, at: int)
    requires
        0 <= at < b.len(),
        at == 0 || b[at - 1] == LF,
    ensures
        logical_end(b, at) == at + logical_end(b.skip(at), 0),
{
    let rest = b.skip(at);
    assert(rest.skip(0) =~= rest);
    lemma_span(rest, |c: u8| is_blank(c));
    lemma_physical_shift(b, at, at);
    lemma_physical_end(b, at);
    let pos = past_blanks(b, at);
    if pos < b.len() {
        assert(b[pos] == rest[pos - at]);
    }
    lemma_folded_shift(b, at, physical_end(b, at));
}

proof fn lemma_backslashes_same(a: Seq<u8>, b: Seq<u8>, e: int)
    requires
        0 <= e <= a.len(),
        e <= b.len(),
        a.take(e) == b.take(e),
    ensures
        backslashes_before(a, e) == backslashes_before(b, e),
    decreases e,
{
    if e > 0 {
        assert(a[e - 1] == a.take(e)[e - 1]);
        assert(b[e - 1] == b.take(e)[e - 1]);
        assert(a.take(e - 1) =~= a.take(e).take(e - 1));
        assert(b.take(e - 1) =~= b.take(e).take(e - 1));
        lemma_backslashes_same(a, b, e - 1);
    }
}

proof fn lemma_continues_same(a: Seq<u8>, b: Seq<u8>, end: int)
    requires
        0 < end <= a.len(),
        end <= b.len(),
        a.take(end) == b.take(end),
    ensures
        continues(a, end) == continues(b, end),
{
    assert(a[end - 1] == a.take(end)[end - 1]);
    assert(b[end - 1] == b.take(end)[end - 1]);
    assert(a.take(end - 1) =~= a.take(end).take(end - 1));
    assert(b.take(end - 1) =~= b.take(end).take(end - 1));
    lemma_backslashes_same(a, b, end - 1);
}

/// The physical line from `from` ends within the first `n` bytes, so what follows does not matter.
proof fn lemma_physical_cut(b: Seq<u8>, from: int, n: int)
    requires
        0 <= from <= n <= b.len(),
        physical_end(b, from) <= n,
    ensures
        physical_end(b.take(n), from) == physical_end(b, from),
{
    let a = b.take(n);
    let i = until(b.skip(from), LF);
    lemma_until(b.skip(from), LF);
    assert(a.skip(from) =~= b.skip(from).take(n - from));
    if from + i < b.len() {
        assert(a.skip(from)[i] == LF);
        lemma_until_is(a.skip(from), LF, i);
    } else {
        assert(n == b.len());
        assert(a =~= b);
    }
}

proof fn lemma_folded_cut(b: Seq<u8>, end: int, n: int)
    requires
        0 < end <= b.len(),
        n == folded_end(b, end),
    ensures
        folded_end(b.take(n), end) == n,
        end <= n <= b.len(),
        n < b.len() ==> !continues(b, n),
    decreases b.len() - end,
{
    lemma_folded_end(b, end);
    lemma_physical_end(b, end);
    let a = b.take(n);
    assert(a.take(end) =~= b.take(end));
    lemma_continues_same(a, b, end);
    if continues(b, end) && end < physical_end(b, end) {
        lemma_folded_cut(b, physical_end(b, end), n);
        lemma_folded_end(b, physical_end(b, end));
        lemma_physical_cut(b, end, n);
    } else {
        lemma_physical_end(a, end);
    }
}

/// A logical line on its own is one logical line, and it can be followed if it was.
proof fn lemma_cut(b: Seq<u8>, n: int)
    requires
        b.len() > 0,
        n == logical_end(b, 0),
    ensures
        0 < n <= b.len(),
        logical_end(b.take(n), 0) == n,
        n < b.len() ==> b[n - 1] == LF && !(starts_variable(b.take(n), 0) && continues(
            b.take(n),
            n,
        )),
{
    lemma_logical_end(b, 0);
    let a = b.take(n);
    let p = physical_end(b, 0);
    assert(b.skip(0) =~= b);
    assert(a.skip(0) =~= a);
    lemma_physical_end(b, 0);
    lemma_until(b, LF);
    lemma_span(b, |c: u8| is_blank(c));
    let s = span(b, |c: u8| is_blank(c));
    if starts_variable(b, 0) {
        lemma_folded_cut(b, p, n);
    }
    lemma_physical_cut(b, 0, n);
    if n < b.len() {
        // the blanks end before the line does
        assert(s < n) by {
            let i = until(b, LF);
            if starts_variable(b, 0) {
                lemma_folded_end(b, p);
            }
            assert(p <= n);
            if s >= n {
                assert(p < b.len() || n == b.len());
                assert(i < b.len());
                assert(b[i] == LF);
                assert(is_blank(b[i]));
            }
        }
        lemma_span_is(a, |c: u8| is_blank(c), s);
        if starts_variable(b, 0) {
            assert(a.take(n) =~= b.take(n));
            lemma_continues_same(a, b, n);
            lemma_ends_with_newline(b, p, n);
        }
    } else {
        assert(a =~= b);
    }
}

/// A line that does not end with the file ends with a newline.
proof fn lemma_ends_with_newline(b: Seq<u8>, end: int, n: int)
    requires
        0 < end <= b.len(),
        n == folded_end(b, end),
        end < b.len() ==> b[end - 1] == LF,
    ensures
        n < b.len() ==> b[n - 1] == LF,
    decreases b.len() - end,
{
    lemma_physical_end(b, end);
    lemma_folded_end(b, end);
    if continues(b, end) && end < physical_end(b, end) {
        lemma_until(b.skip(end), LF);
        let next = physical_end(b, end);
        if next < b.len() {
            assert(b.skip(end)[next - 1 - end] == LF);
        }
        lemma_ends_with_newline(b, next, n);
    }
}

proof fn lemma_physical_extend(a: Seq<u8>, tail: Seq<u8>, from: int)
    requires
        0 <= from < a.len(),
        a.last() == LF,
    ensures
        physical_end(a + tail, from) == physical_end(a, from),
{
    let b = a + tail;
    let i = until(a.skip(from), LF);
    lemma_until(a.skip(from), LF);
    assert(a.skip(from).last() == LF);
    assert(i < a.skip(from).len()) by {
        if i == a.skip(from).len() {
            assert(a.skip(from)[a.skip(from).len() - 1] != LF);
        }
    }
    assert forall|j: int| 0 <= j < a.len() - from implies b.skip(from)[j] == a.skip(from)[j] by {}
    lemma_until_is(b.skip(from), LF, i);
}

proof fn lemma_folded_extend(a: Seq<u8>, tail: Seq<u8>, end: int)
    requires
        0 < end <= a.len(),
        a.last() == LF,
        folded_end(a, end) == a.len(),
        !continues(a, a.len() as int),
    ensures
        folded_end(a + tail, end) == a.len(),
    decreases a.len() - end,
{
    let b = a + tail;
    assert(a.take(end) =~= b.take(end));
    lemma_continues_same(a, b, end);
    lemma_physical_end(a, end);
    if continues(a, end) && end < physical_end(a, end) {
        lemma_physical_extend(a, tail, end);
        lemma_folded_extend(a, tail, physical_end(a, end));
    }
}

/// A whole line that is closed stays one line, whatever follows.
proof fn lemma_extend(a: Seq<u8>, tail: Seq<u8>)
    requires
        a.len() > 0,
        logical_end(a, 0) == a.len(),
        a.last() == LF,
        !(starts_variable(a, 0) && continues(a, a.len() as int)),
    ensures
        logical_end(a + tail, 0) == a.len(),
{
    let b = a + tail;
    assert(a.skip(0) =~= a);
    assert(b.skip(0) =~= b);
    lemma_span(a, |c: u8| is_blank(c));
    let s = span(a, |c: u8| is_blank(c));
    assert(s < a.len()) by {
        if s == a.len() {
            assert(is_blank(a[a.len() - 1]));
        }
    }
    lemma_span_is(b, |c: u8| is_blank(c), s);
    lemma_physical_extend(a, tail, 0);
    if starts_variable(a, 0) {
        lemma_physical_end(a, 0);
        lemma_folded_extend(a, tail, physical_end(a, 0));
    }
}

/// A header in front of the lines, or among them.
proof fn lemma_header_cons(line: LineView, rest: Seq<LineView>, n: int)
    requires
        0 <= n <= rest.len(),
    ensures
        header_before(seq![line] + rest, n + 1) is Some <==> line.kind is Header || header_before(
            rest,
            n,
        ) is Some,
    decreases n,
{
    let all = seq![line] + rest;
    if n > 0 {
        assert(all[n] == rest[n - 1]);
        lemma_header_cons(line, rest, n - 1);
    } else {
        assert(all[0] == line);
        assert(header_before(all, 0) is None);
    }
}

proof fn lemma_loaded_from(b: Seq<u8>, at: int, in_section: bool)
    requires
        0 <= at <= b.len(),
        at == 0 || b[at - 1] == LF,
    ensures
        lines_from(b, at, in_section) matches Ok(lines) ==> {
            &&& at < b.len() ==> lines.len() > 0
            &&& forall|i: int| 0 <= i < lines.len() ==> line_is_whole(#[trigger] lines[i])
            &&& forall|i: int| 0 <= i < lines.len() - 1 ==> line_is_closed(#[trigger] lines[i])
            &&& forall|i: int|
                0 <= i < lines.len() && (#[trigger] lines[i]).kind is Variable ==> in_section
                    || header_before(lines, i) is Some
        },
    decreases b.len() - at,
{
    if at < b.len() {
        lemma_logical_end(b, at);
        lemma_logical_shift(b, at);
        let end = logical_end(b, at);
        let bytes = b.subrange(at, end);
        lemma_cut(b.skip(at), end - at);
        assert(b.skip(at).take(end - at) =~= bytes);
        if line_error(bytes, in_section) is None {
            let line = LineView { bytes, kind: line_kind_of(bytes)->Ok_0 };
            let inside = in_section || line.kind is Header;
            if let Ok(rest) = lines_from(b, end, inside) {
                if end < b.len() {
                    assert(b.skip(at)[end - at - 1] == b[end - 1]);
                    lemma_loaded_from(b, end, inside);
                } else {
                    assert(rest.len() == 0);
                }
                let lines = seq![line] + rest;
                assert(lines_from(b, at, in_section) == Ok::<_, ConfigDocError>(lines));
                assert forall|i: int| 0 <= i < lines.len() implies line_is_whole(
                    #[trigger] lines[i],
                ) by {
                    if i > 0 {
                        assert(lines[i] == rest[i - 1]);
                    }
                }
                assert forall|i: int| 0 <= i < lines.len() - 1 implies line_is_closed(
                    #[trigger] lines[i],
                ) by {
                    if i > 0 {
                        assert(lines[i] == rest[i - 1]);
                    } else {
                        assert(bytes.last() == b.skip(at)[end - at - 1]);
                    }
                }
                assert forall|i: int|
                    0 <= i < lines.len() && (#[trigger] lines[i]).kind is Variable implies in_section
                    || header_before(lines, i) is Some by {
                    if i > 0 {
                        assert(lines[i] == rest[i - 1]);
                        lemma_header_cons(line, rest, i - 1);
                    }
                }
            }
        }
    }
}

/// The lines of a file that was read are read the same way when they are written.
pub proof fn loaded_lines_are_well_written(b: Seq<u8>)
    ensures
        lines_of(b) matches Ok(lines) ==> well_written(lines),
{
    lemma_loaded_from(b, 0, false);
}

/// The line that the file goes on with.
proof fn lemma_first_line(b: Seq<u8>, at: int, line: LineView, tail: Seq<u8>)
    requires
        line_is_whole(line),
        line_is_closed(line) || tail.len() == 0,
        0 <= at <= b.len(),
        at == 0 || b[at - 1] == LF,
        b.skip(at) == line.bytes + tail,
    ensures
        at + line.bytes.len() <= b.len(),
        logical_end(b, at) == at + line.bytes.len(),
        b.subrange(at, at + line.bytes.len()) == line.bytes,
        b.skip(at + line.bytes.len()) == tail,
        line_is_closed(line) ==> b[at + line.bytes.len() - 1] == LF,
{
    let n = line.bytes.len() as int;
    let rest = b.skip(at);
    assert(rest.len() == n + tail.len());
    lemma_logical_shift(b, at);
    if line_is_closed(line) {
        lemma_extend(line.bytes, tail);
    } else {
        assert(line.bytes + tail =~= line.bytes);
    }
    assert(b.subrange(at, at + n) =~= rest.take(n));
    assert((line.bytes + tail).take(n) =~= line.bytes);
    assert(b.skip(at + n) =~= rest.skip(n));
    assert((line.bytes + tail).skip(n) =~= tail);
    assert(b[at + n - 1] == rest[n - 1]);
}

#[verifier::rlimit(30)]
proof fn lemma_reload_from(lines: Seq<LineView>, i: int, b: Seq<u8>, at: int)
    requires
        well_written(lines),
        0 <= i <= lines.len(),
        0 <= at <= b.len(),
        at == 0 || b[at - 1] == LF,
        b.skip(at) == concat(lines.skip(i)),
    ensures
        lines_from(b, at, header_before(lines, i) is Some) == Ok::<_, ConfigDocError>(
            lines.skip(i),
        ),
    decreases lines.len() - i,
{
    let inside = header_before(lines, i) is Some;
    if i < lines.len() {
        let line = lines[i];
        let rest = lines.skip(i + 1);
        assert(lines.skip(i) =~= seq![line] + rest);
        lemma_concat_cons(line, rest);
        assert(line_is_whole(line));
        if i < lines.len() - 1 {
            assert(line_is_closed(line));
        } else {
            assert(rest =~= Seq::<LineView>::empty());
            assert(concat(rest).len() == 0);
        }
        lemma_first_line(b, at, line, concat(rest));
        let end = at + line.bytes.len() as int;
        assert(line_error(line.bytes, inside) is None);
        assert(header_before(lines, i + 1) is Some == (inside || line.kind is Header));
        if i < lines.len() - 1 {
            lemma_reload_from(lines, i + 1, b, end);
        } else {
            assert(b.skip(end).len() == 0);
            assert(lines_from(b, end, inside || line.kind is Header) == Ok::<_, ConfigDocError>(
                rest,
            ));
        }
    } else {
        assert(lines.skip(i) =~= Seq::<LineView>::empty());
        assert(b.skip(at).len() == 0);
    }
}

/// Lines that are well written are read back as they are.
pub proof fn reading_inverts_writing(lines: Seq<LineView>)
    requires
        well_written(lines),
    ensures
        lines_of(concat(lines)) == Ok::<_, ConfigDocError>(lines),
{
    let b = concat(lines);
    assert(lines.skip(0) =~= lines);
    assert(b.skip(0) =~= b);
    lemma_reload_from(lines, 0, b, 0);
}

/// An escaped value holds no newline, and no blank at its start unless the value starts with one.
proof fn lemma_escaped_bytes(v: Seq<u8>)
    ensures
        forall|i: int| 0 <= i < escaped(v).len() ==> #[trigger] escaped(v)[i] != LF,
        v.len() > 0 ==> escaped(v).len() > 0,
        v.len() > 0 && !is_blank(v[0]) ==> !is_blank(escaped(v)[0]),
    decreases v.len(),
{
    if v.len() > 0 {
        let e = escape(v[0]);
        let rest = escaped(v.drop_first());
        lemma_escaped_bytes(v.drop_first());
        assert forall|i: int| 0 <= i < escaped(v).len() implies #[trigger] escaped(v)[i] != LF by {
            if i < e.len() {
                assert(escaped(v)[i] == e[i]);
            } else {
                assert(escaped(v)[i] == rest[i - e.len()]);
            }
        }
    }
}

/// An escaped value ends with a blank only if the value does.
proof fn lemma_escaped_last(v: Seq<u8>)
    requires
        v.len() > 0,
        !is_blank(v.last()),
    ensures
        escaped(v).len() > 0,
        !is_blank(escaped(v).last()),
{
    let w = v.drop_last();
    assert(w.push(v.last()) =~= v);
    lemma_escaped_push(w, v.last());
    assert(escaped(v).last() == escape(v.last()).last());
}

/// The backslashes that an escaped value ends with come in pairs.
proof fn lemma_escaped_pairs(p: Seq<u8>, v: Seq<u8>)
    requires
        p.len() == 0 || p.last() != BACKSLASH,
    ensures
        backslashes_before(p + escaped(v), (p + escaped(v)).len() as int) % 2 == 0,
    decreases v.len(),
{
    let b = p + escaped(v);
    if v.len() == 0 {
        assert(b =~= p);
    } else {
        let w = v.drop_last();
        let c = v.last();
        assert(w.push(c) =~= v);
        lemma_escaped_push(w, c);
        let a = p + escaped(w);
        assert(b =~= a + escape(c));
        lemma_escaped_pairs(p, w);
        if c == BACKSLASH {
            let n = b.len() as int;
            assert(b[n - 1] == BACKSLASH && b[n - 2] == BACKSLASH);
            assert(b.take(n - 2) =~= a.take(n - 2));
            lemma_backslashes_same(b, a, n - 2);
            assert(backslashes_before(b, n - 1) == 1 + backslashes_before(b, n - 2));
            assert(backslashes_before(b, n) == 2 + backslashes_before(b, n - 2));
        } else {
            assert(b.last() == escape(c).last());
            assert(b.last() != BACKSLASH);
        }
    }
}

/// The end of a value is looked for behind an escaped value in the same way as before it.
proof fn lemma_scan(b: Seq<u8>, pos: int, v: Seq<u8>, in_quote: bool, last_quote: int)
    requires
        0 <= pos,
        pos + escaped(v).len() < b.len(),
        b.subrange(pos, pos + escaped(v).len()) == escaped(v),
        b[pos + escaped(v).len()] == (if in_quote {
            QUOTE
        } else {
            LF
        }),
        !in_quote ==> !v.contains(HASH) && !v.contains(SEMICOLON) && (v.len() == 0 || v.last()
            != CR),
    ensures
        value_end(b, pos, in_quote, last_quote) == value_end(
            b,
            pos + escaped(v).len(),
            in_quote,
            last_quote,
        ),
    decreases v.len(),
{
    if v.len() > 0 {
        let c = v[0];
        let w = v.drop_first();
        let e = escape(c);
        let m = escaped(v).len() as int;
        let n = e.len() as int;
        assert(escaped(v) =~= e + escaped(w));
        assert(b[pos] == b.subrange(pos, pos + m)[0]);
        assert(b[pos] == e[0]);
        assert(b.subrange(pos + n, pos + m) =~= escaped(w)) by {
            assert(b.subrange(pos + n, pos + m) =~= b.subrange(pos, pos + m).skip(n));
            assert((e + escaped(w)).skip(n) =~= escaped(w));
        }
        if !in_quote {
            assert(v.contains(c));
            assert forall|x: u8| w.contains(x) implies v.contains(x) by {
                let i = choose|i: int| 0 <= i < w.len() && w[i] == x;
                assert(v[i + 1] == x);
            }
            if w.len() > 0 {
                assert(w.last() == v.last());
            }
        }
        lemma_scan(b, pos + n, w, in_quote, last_quote);
        if escape_letter(c) is Some {
            assert(b[pos + 1] == b.subrange(pos, pos + m)[1]);
            assert(b.skip(pos)[1] == b[pos + 1]);
            assert(escape_len(b.skip(pos)) == 2);
        } else {
            assert(!is_eol(b, pos)) by {
                if c == CR {
                    if w.len() > 0 {
                        lemma_escaped_bytes(w);
                        assert(b[pos + 1] == b.subrange(pos + 1, pos + m)[0]);
                    } else {
                        assert(v.last() == c);
                        assert(escaped(w).len() == 0);
                    }
                }
            }
        }
    }
}

/// A value that is read back as it was written: a carriage return at the end of a value without
/// quotes would be taken for a part of the line ending.
pub open spec fn value_reads_back(value: Seq<u8>) -> bool {
    needs_quotes(value) || value.len() == 0 || value.last() != CR
}

proof fn lemma_value_at(b: Seq<u8>, pos: int, value: Seq<u8>)
    requires
        0 <= pos,
        pos + encoded(value).len() + 1 == b.len(),
        b.subrange(pos, pos + encoded(value).len()) == encoded(value),
        b.last() == LF,
        value_reads_back(value),
    ensures
        value_at(b, pos) == Ok::<_, crate::config::parse::ParseError>(
            line_span(pos, pos + encoded(value).len()),
        ),
{
    let enc = encoded(value);
    let end = pos + enc.len() as int;
    assert(b[end] == LF);
    if needs_quotes(value) {
        let inner = escaped(value);
        assert(b[pos] == b.subrange(pos, end)[0]);
        assert(b[end - 1] == b.subrange(pos, end)[enc.len() - 1]);
        assert(b.subrange(pos + 1, end - 1) =~= inner) by {
            assert(b.subrange(pos + 1, end - 1) =~= b.subrange(pos, end).subrange(
                1,
                enc.len() - 1,
            ));
            assert(enc.subrange(1, enc.len() - 1) =~= inner);
        }
        lemma_scan(b, pos + 1, value, true, pos);
        assert(value_end(b, end - 1, true, pos) == value_end(b, end, false, end - 1));
        assert(value_end(b, pos, false, pos) == value_end(b, pos + 1, true, pos));
    } else {
        lemma_scan(b, pos, value, false, pos);
    }
    assert(is_eol(b, end));
    assert(value_end(b, pos, false, pos) == Ok::<_, crate::config::parse::ParseError>(end));
    if enc.len() > 0 {
        assert(b[end - 1] == b.subrange(pos, end)[enc.len() - 1]);
        if !needs_quotes(value) {
            if value.len() > 0 {
                lemma_escaped_last(value);
            }
        }
    }
}

/// The first byte of a value in the syntax is no blank.
proof fn lemma_encoded_first(value: Seq<u8>)
    ensures
        encoded(value).len() > 0 ==> !is_blank(encoded(value)[0]),
        forall|i: int| 0 <= i < encoded(value).len() ==> #[trigger] encoded(value)[i] != LF,
{
    lemma_escaped_bytes(value);
}

/// The line that a variable is written as is read as that variable.
#[verifier::spinoff_prover]
#[verifier::rlimit(40)]
proof fn lemma_variable_whole(name: Seq<u8>, value: Seq<u8>)
    requires
        is_name(name),
        spec_is_alphabetic(name[0]),
        value_reads_back(value),
    ensures
        line_is_whole(variable_line(name, value)),
        line_is_closed(variable_line(name, value)),
{
    lemma_literals();
    let b = variable_bytes(name, value);
    let enc = encoded(value);
    let n = 1 + name.len() as int;
    lemma_encoded_first(value);
    assert(b.len() == n + 3 + enc.len() + 1);
    assert(b[0] == TAB);
    assert forall|i: int| 1 <= i < n implies #[trigger] b[i] == name[i - 1] by {}
    assert(b[n] == SPACE && b[n + 1] == EQUALS && b[n + 2] == SPACE);
    assert(b.subrange(n + 3, n + 3 + enc.len()) =~= enc);
    assert forall|i: int| n + 3 <= i < b.len() - 1 implies #[trigger] b[i] == enc[i - n - 3] by {}
    assert(b.last() == LF);
    let blank = |c: u8| is_blank(c);
    let of_name = |c: u8| spec_is_name_byte(c);
    assert(b.skip(0) =~= b);
    assert(b[1] == name[0]);
    lemma_span_is(b, blank, 1);
    assert(past_blanks(b, 0) == 1);
    assert(b.skip(2)[name.len() - 1] == b[n]);
    assert forall|i: int| 0 <= i < name.len() - 1 implies of_name(#[trigger] b.skip(2)[i]) by {
        assert(b.skip(2)[i] == name[i + 1]);
        assert(spec_is_name_byte(name[i + 1]));
    }
    lemma_span_is(b.skip(2), of_name, name.len() - 1);
    assert(past_name(b, 2) == n);
    assert(b.skip(n)[0] == b[n] && b.skip(n)[1] == b[n + 1]);
    lemma_span_is(b.skip(n), blank, 1);
    assert(past_blanks(b, n) == n + 1);
    assert(b.skip(n + 2)[0] == b[n + 2] && b.skip(n + 2)[1] == b[n + 3]);
    assert(!is_blank(b[n + 3])) by {
        if enc.len() > 0 {
            assert(b[n + 3] == enc[0]);
        }
    }
    lemma_span_is(b.skip(n + 2), blank, 1);
    assert(past_blanks(b, n + 2) == n + 3);
    lemma_value_at(b, n + 3, value);
    assert(line_kind_of(b) == variable_at(b, 1));
    // the only newline is the one at the end
    lemma_until_is(b, LF, b.len() - 1);
    assert(physical_end(b, 0) == b.len());
    lemma_physical_end(b, b.len() as int);
    assert(folded_end(b, b.len() as int) == b.len());
    lemma_line_end(name, value);
}

/// No value turns into malformed syntax: the line that a variable is written as is one line, and it
/// is read as a variable whose name and value are those that were written. A value without quotes
/// that ends with a carriage return is left out: `x` and a carriage return is read as `x`.
pub proof fn written_variables_parse(name: Seq<u8>, value: Seq<u8>)
    requires
        is_name(name),
        spec_is_alphabetic(name[0]),
        value_reads_back(value),
    ensures
        ({
            let b = variable_bytes(name, value);
            let n = 1 + name.len() as int;
            let end = n + 3 + encoded(value).len();
            &&& line_kind_of(b) == Ok::<_, crate::config::parse::ParseError>(
                variable_line(name, value).kind,
            )
            &&& b.subrange(1, n) == name
            &&& interpreted(b.subrange(n + 3, end)) == value
            &&& end == b.len() - 1
            &&& logical_end(b, 0) == b.len()
            &&& line_is_closed(variable_line(name, value))
        }),
{
    lemma_literals();
    lemma_variable_whole(name, value);
    interpreting_inverts_encoding(value);
    let b = variable_bytes(name, value);
    let n = 1 + name.len() as int;
    assert(b.subrange(1, n) =~= name);
    assert(b.subrange(n + 3, n + 3 + encoded(value).len()) =~= encoded(value));
}

/// The line that a variable is written as does not go on.
proof fn lemma_line_end(name: Seq<u8>, value: Seq<u8>)
    ensures
        !continues(variable_bytes(name, value), variable_bytes(name, value).len() as int),
{
    lemma_literals();
    let b = variable_bytes(name, value);
    let n = b.len() as int;
    let front = seq![TAB] + name + seq![SPACE, EQUALS, SPACE];
    let c = front + encoded(value);
    assert(b.take(n - 1) =~= c);
    assert(c.take(n - 1) =~= c);
    lemma_backslashes_same(b, c, n - 1);
    if needs_quotes(value) {
        assert(c.last() == QUOTE);
    } else {
        lemma_escaped_pairs(front, value);
    }
}

/// A section that can be written. A subsection is written as it is: a quote in it has to have a
/// backslash in front, the last backslash has to have something behind it, and it is all on one
/// line.
pub open spec fn section_reads_back(key: SectionKey<Seq<u8>>) -> bool {
    key.subsection matches Some(s) ==> closing_quote(s.push(QUOTE), 0) == Ok::<
        _,
        crate::config::parse::ParseError,
    >(s.len() as int) && !s.contains(LF)
}

/// A subsection is closed at the same quote wherever it stands.
proof fn lemma_closing(b: Seq<u8>, at: int, s: Seq<u8>, pos: int)
    requires
        0 <= at,
        at + s.len() < b.len(),
        b.subrange(at, at + s.len() + 1) == s.push(QUOTE),
        0 <= pos <= s.len(),
        closing_quote(s.push(QUOTE), pos) == Ok::<_, crate::config::parse::ParseError>(
            s.len() as int,
        ),
    ensures
        closing_quote(b, at + pos) == Ok::<_, crate::config::parse::ParseError>(at + s.len()),
    decreases s.len() - pos,
{
    let t = s.push(QUOTE);
    assert forall|i: int| 0 <= i <= s.len() implies t[i] == #[trigger] b[at + i] by {
        assert(b.subrange(at, at + s.len() + 1)[i] == b[at + i]);
    }
    assert(t[pos] == b[at + pos]);
    if t[pos] == BACKSLASH {
        assert(t[pos + 1] == b[at + (pos + 1)]);
        if pos + 2 <= s.len() {
            assert(t[pos + 2] == b[at + (pos + 2)]);
            lemma_closing(b, at, s, pos + 2);
        }
    } else if t[pos] != QUOTE {
        lemma_closing(b, at, s, pos + 1);
    }
}

/// The line that a header is written as is read as that header.
proof fn lemma_header_whole(key: SectionKey<Seq<u8>>)
    requires
        is_name(key.name),
        section_reads_back(key),
    ensures
        line_is_whole(header_line(key)),
        line_is_closed(header_line(key)),
{
    lemma_literals();
    let b = header_bytes(key);
    let name = key.name;
    let n = 1 + name.len() as int;
    let blank = |c: u8| is_blank(c);
    let of_name = |c: u8| spec_is_name_byte(c);
    assert(b.skip(0) =~= b);
    assert(b[0] == OPEN_BRACKET);
    assert forall|i: int| 1 <= i < n implies #[trigger] b[i] == name[i - 1] && b[i] != LF by {
        assert(b[i] == name[i - 1]);
        assert(spec_is_name_byte(name[i - 1]));
    }
    lemma_span_is(b, blank, 0);
    assert(past_blanks(b, 0) == 0);
    assert forall|i: int| 0 <= i < name.len() implies of_name(#[trigger] b.skip(1)[i]) by {
        assert(b.skip(1)[i] == name[i]);
        assert(spec_is_name_byte(name[i]));
    }
    assert(b.skip(1)[name.len() as int] == b[n]);
    let len = b.len() as int;
    match key.subsection {
        None => {
            assert(b[n] == CLOSE_BRACKET && b[n + 1] == LF && len == n + 2);
            lemma_span_is(b.skip(1), of_name, name.len() as int);
        },
        Some(s) => {
            assert(b[n] == SPACE && b[n + 1] == QUOTE);
            lemma_span_is(b.skip(1), of_name, name.len() as int);
            let close = n + 2 + s.len() as int;
            assert(b[close] == QUOTE && b[close + 1] == CLOSE_BRACKET && b[close + 2] == LF && len
                == close + 3);
            assert forall|i: int| n + 2 <= i < close implies #[trigger] b[i] != LF by {
                assert(b[i] == s[i - n - 2]);
                assert(s.contains(s[i - n - 2]));
            }
            assert(b.subrange(n + 2, close + 1) =~= s.push(QUOTE));
            lemma_closing(b, n + 2, s, 0);
        },
    }
    assert(past_name(b, 1) == n);
    assert(b[len - 2] == CLOSE_BRACKET && b[len - 1] == LF);
    assert(header_at(b, 0) == Ok::<_, crate::config::parse::ParseError>(
        (header_line(key).kind->Header_0, len - 1),
    ));
    assert(b.skip(len - 1)[0] == LF);
    lemma_span_is(b.skip(len - 1), blank, 0);
    assert(past_blanks(b, len - 1) == len - 1);
    assert(is_eol(b, len - 1));
    lemma_until_is(b, LF, len - 1);
    assert(physical_end(b, 0) == len);
    assert(!starts_variable(b, 0));
}

/// Replacing a line by one that is whole and closed keeps the lines well written.
proof fn lemma_update_written(lines: Seq<LineView>, pos: int, line: LineView)
    requires
        well_written(lines),
        0 <= pos < lines.len(),
        line_is_whole(line),
        line_is_closed(line),
        lines[pos].kind is Variable,
        line.kind is Variable,
    ensures
        well_written(lines.update(pos, line)),
{
    let after = lines.update(pos, line);
    assert forall|i: int| 0 <= i < after.len() && (#[trigger] after[i]).kind is Variable implies
        header_before(after, i) is Some by {
        lemma_headers_same(lines, after, i);
        assert(lines[i].kind is Variable);
    }
}

proof fn lemma_headers_same(a: Seq<LineView>, b: Seq<LineView>, n: int)
    requires
        0 <= n <= a.len(),
        n <= b.len(),
        forall|i: int| 0 <= i < n ==> (#[trigger] a[i]).kind is Header == b[i].kind is Header,
    ensures
        header_before(a, n) == header_before(b, n),
    decreases n,
{
    if n > 0 {
        assert(a[n - 1].kind is Header == b[n - 1].kind is Header);
        lemma_headers_same(a, b, n - 1);
    }
}

/// Where a variable that is not defined yet is put.
pub open spec fn place_for(lines: Seq<LineView>, section: SectionKey<Seq<u8>>) -> int {
    match last_of(blocks_of(lines, section)) {
        Some(block) => block.end as int,
        None => lines.len() as int,
    }
}

/// The last line before the place stays what it is when it ends with a newline and another line
/// follows it. This is not so of a last line without a newline whose value ends with a carriage
/// return or with a single backslash: the newline would become part of it.
pub open spec fn can_follow(lines: Seq<LineView>, at: int) -> bool {
    at > 0 ==> line_is_whole(with_newline(lines[at - 1])) && line_is_closed(
        with_newline(lines[at - 1]),
    )
}

proof fn lemma_newline_written(lines: Seq<LineView>, at: int)
    requires
        well_written(lines),
        0 < at <= lines.len(),
        can_follow(lines, at),
    ensures
        well_written(newline_at(lines, at - 1)),
        forall|i: int| 0 <= i < at ==> line_is_closed(#[trigger] newline_at(lines, at - 1)[i]),
        forall|i: int|
            0 <= i < lines.len() ==> (#[trigger] newline_at(lines, at - 1)[i]).kind
                == lines[i].kind,
{
    let after = newline_at(lines, at - 1);
    assert forall|i: int| 0 <= i < after.len() && (#[trigger] after[i]).kind is Variable implies
        header_before(after, i) is Some by {
        lemma_headers_same(lines, after, i);
        assert(lines[i].kind is Variable);
    }
    assert forall|i: int| 0 <= i < after.len() implies line_is_whole(#[trigger] after[i]) by {
        if i != at - 1 {
            assert(after[i] == lines[i]);
        }
    }
    assert forall|i: int| 0 <= i < after.len() - 1 || i < at implies line_is_closed(
        #[trigger] after[i],
    ) || i < 0 by {
        if 0 <= i && i != at - 1 {
            assert(after[i] == lines[i]);
            assert(line_is_closed(lines[i]));
        }
    }
}

/// Putting a variable into a section keeps the lines well written.
proof fn lemma_insert_written(lines: Seq<LineView>, at: int, line: LineView)
    requires
        well_written(lines),
        0 < at <= lines.len(),
        forall|i: int| 0 <= i < at ==> line_is_closed(#[trigger] lines[i]),
        header_before(lines, at) is Some,
        line_is_whole(line),
        line_is_closed(line),
        line.kind is Variable,
    ensures
        well_written(lines.insert(at, line)),
{
    let after = lines.insert(at, line);
    assert forall|i: int| 0 <= i < after.len() implies line_is_whole(#[trigger] after[i]) by {
        if i < at {
            assert(after[i] == lines[i]);
        } else if i > at {
            assert(after[i] == lines[i - 1]);
        }
    }
    assert forall|i: int| 0 <= i < after.len() - 1 implies line_is_closed(#[trigger] after[i]) by {
        if i < at {
            assert(after[i] == lines[i]);
        } else if i > at {
            assert(after[i] == lines[i - 1]);
            assert(line_is_closed(lines[i - 1]));
        }
    }
    assert forall|i: int| 0 <= i < after.len() && (#[trigger] after[i]).kind is Variable implies
        header_before(after, i) is Some by {
        if i <= at {
            lemma_headers_same(lines, after, i);
            if i < at {
                assert(after[i] == lines[i]);
            }
        } else {
            assert(after[i] == lines[i - 1]);
            lemma_header_behind(lines, at, line, i);
        }
    }
}

/// A header before the inserted line is still before what follows it.
proof fn lemma_header_behind(lines: Seq<LineView>, at: int, line: LineView, n: int)
    requires
        0 < at <= n <= lines.len() + 1,
        at <= lines.len(),
        header_before(lines, at) is Some,
    ensures
        header_before(lines.insert(at, line), n) is Some,
    decreases n,
{
    let after = lines.insert(at, line);
    if n == at {
        lemma_headers_same(lines, after, at);
    } else {
        lemma_header_behind(lines, at, line, n - 1);
    }
}

/// Adding a section with a variable at the end keeps the lines well written.
proof fn lemma_append_written(lines: Seq<LineView>, header: LineView, line: LineView)
    requires
        well_written(lines),
        forall|i: int| 0 <= i < lines.len() ==> line_is_closed(#[trigger] lines[i]),
        line_is_whole(header),
        line_is_closed(header),
        header.kind is Header,
        line_is_whole(line),
        line.kind is Variable,
    ensures
        well_written(lines.push(header).push(line)),
{
    let after = lines.push(header).push(line);
    let n = lines.len() as int;
    assert(after[n] == header && after[n + 1] == line);
    assert forall|i: int| 0 <= i < after.len() implies line_is_whole(#[trigger] after[i]) by {
        if i < n {
            assert(after[i] == lines[i]);
        }
    }
    assert forall|i: int| 0 <= i < after.len() - 1 implies line_is_closed(#[trigger] after[i]) by {
        if i < n {
            assert(after[i] == lines[i]);
        }
    }
    assert forall|i: int| 0 <= i < after.len() && (#[trigger] after[i]).kind is Variable implies
        header_before(after, i) is Some by {
        if i < n {
            assert(after[i] == lines[i]);
            lemma_headers_same(lines, after, i);
        } else {
            assert(i == n + 1);
        }
    }
}

/// Setting a variable keeps the lines well written.
pub proof fn setting_keeps_lines_well_written(lines: Seq<LineView>, name: Seq<u8>, value: Seq<u8>)
    requires
        lines_fit(lines),
        well_written(lines),
        with_set(lines, name, value) is Ok,
        value_reads_back(value),
        lookup(lines, name) is Err ==> section_reads_back(key_of_name(name)->0.section)
            && can_follow(lines, place_for(lines, key_of_name(name)->0.section)),
    ensures
        well_written(with_set(lines, name, value)->Ok_0),
{
    let key = key_of_name(name)->0;
    lemma_key_of_name(name);
    lemma_positions(lines, key, lines.len() as int);
    match lookup(lines, name) {
        Ok((_, pos)) => {
            let p = pos.0 as int;
            assert(positions_of(lines, key)[0] == pos);
            assert(key_at(lines, p) == Some(key));
            assert(line_is_whole(lines[p]));
            parsed_lines_fit(lines[p].bytes);
            lemma_variable_whole(written_name(lines[p]), value);
            lemma_update_written(lines, p, variable_line(written_name(lines[p]), value));
        },
        Err(_) => {
            let line = variable_line(key.name, value);
            lemma_variable_whole(key.name, value);
            lemma_block(lines, key.section);
            match last_of(blocks_of(lines, key.section)) {
                Some(block) => {
                    let at = block.end as int;
                    let base = newline_at(lines, at - 1);
                    lemma_newline_written(lines, at);
                    lemma_headers_same(lines, base, at);
                    lemma_some_header(lines, block.start as int, at);
                    lemma_insert_written(base, at, line);
                },
                None => {
                    lemma_header_whole(key.section);
                    let n = lines.len() as int;
                    if n > 0 {
                        lemma_newline_written(lines, n);
                        lemma_append_written(
                            newline_at(lines, n - 1),
                            header_line(key.section),
                            line,
                        );
                    } else {
                        lemma_append_written(lines, header_line(key.section), line);
                    }
                },
            }
        },
    }
}

proof fn lemma_some_header(lines: Seq<LineView>, h: int, n: int)
    requires
        0 <= h < n <= lines.len(),
        lines[h].kind is Header,
    ensures
        header_before(lines, n) is Some,
{
    lemma_header_before(lines, n);
}

/// A variable that was set has its value after the file was written and read again.
pub proof fn get_after_set_and_reload(lines: Seq<LineView>, name: Seq<u8>, value: Seq<u8>)
    requires
        lines_fit(lines),
        well_written(lines),
        with_set(lines, name, value) is Ok,
        lines_fit(with_set(lines, name, value)->Ok_0),
        value_reads_back(value),
        lookup(lines, name) is Err ==> section_reads_back(key_of_name(name)->0.section)
            && can_follow(lines, place_for(lines, key_of_name(name)->0.section)),
    ensures
        ({
            let written = concat(with_set(lines, name, value)->Ok_0);
            &&& lines_of(written) == Ok::<_, ConfigDocError>(with_set(lines, name, value)->Ok_0)
            &&& got(lines_of(written)->Ok_0, name) == Ok::<_, ConfigFileErrorKind<Seq<u8>>>(
                Value::Bytes(value),
            )
        }),
{
    setting_keeps_lines_well_written(lines, name, value);
    reading_inverts_writing(with_set(lines, name, value)->Ok_0);
    get_after_set(lines, name, value, name);
}

} // verus!
