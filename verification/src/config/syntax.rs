//! What the lines of a configuration file mean, for files that others wrote.

use crate::bytes::{downcased, lemma_span_is, lemma_until, lemma_until_is, lower, DOT, LF};
use crate::config::doc::{concat, value_of, LineView, Value};
use crate::config::index::{header_before, key_at, section_of, written_name};
use crate::config::key::{all_name_bytes, key_of_name, last_index, ConfigKey, SectionKey};
use crate::config::lines::{
    backslashes_before, continues, folded_end, lemma_physical_end, lines_of, physical_end,
    starts_variable, ConfigDocError,
};
use crate::config::parse::{
    closing_quote, is_comment_start, is_eol, line_kind_of, line_span, past_blanks, past_name,
    spec_is_alphabetic, spec_is_name_byte, trimmed_end, value_end, LineKind, ParseError,
};
use crate::config::reload::{
    line_is_closed, line_is_whole, loaded_lines_are_well_written, loading_is_lossless,
};
use crate::config::value::{interpreted, is_blank};
use vstd::prelude::*;

verus! {

/// The escapes of a value: `\n`, `\t`, `\b`, `\"` and `\\` stand for a newline, a tab, a backspace, a
/// quote and a backslash. A backslash at the end of a line joins the next one. Quotes stand for
/// nothing, and all else stands for itself.
pub proof fn escapes_mean(t: Seq<u8>, b: u8)
    ensures
        interpreted(Seq::empty()) == Seq::<u8>::empty(),
        interpreted(seq![0x5cu8, 0x6e] + t) == seq![0x0au8] + interpreted(t),
        interpreted(seq![0x5cu8, 0x74] + t) == seq![0x09u8] + interpreted(t),
        interpreted(seq![0x5cu8, 0x62] + t) == seq![0x08u8] + interpreted(t),
        interpreted(seq![0x5cu8, 0x22] + t) == seq![0x22u8] + interpreted(t),
        interpreted(seq![0x5cu8, 0x5c] + t) == seq![0x5cu8] + interpreted(t),
        interpreted(seq![0x5cu8, 0x0a] + t) == interpreted(t),
        interpreted(seq![0x5cu8, 0x0d, 0x0a] + t) == interpreted(t),
        interpreted(seq![0x22u8] + t) == interpreted(t),
        b != 0x22 && b != 0x5c ==> interpreted(seq![b] + t) == seq![b] + interpreted(t),
{
    assert((seq![0x5cu8, 0x6e] + t).skip(2) =~= t);
    assert((seq![0x5cu8, 0x74] + t).skip(2) =~= t);
    assert((seq![0x5cu8, 0x62] + t).skip(2) =~= t);
    assert((seq![0x5cu8, 0x22] + t).skip(2) =~= t);
    assert((seq![0x5cu8, 0x5c] + t).skip(2) =~= t);
    assert((seq![0x5cu8, 0x0a] + t).skip(2) =~= t);
    assert((seq![0x5cu8, 0x0d, 0x0a] + t).skip(3) =~= t);
    assert((seq![0x22u8] + t).drop_first() =~= t);
    assert((seq![b] + t).drop_first() =~= t);
    assert(Seq::<u8>::empty() + interpreted(t) =~= interpreted(t));
}

/// Spaces and tabs.
pub open spec fn all_blank(b: Seq<u8>) -> bool {
    forall|i: int| 0 <= i < b.len() ==> (#[trigger] b[i]) == 0x20 || b[i] == 0x09
}

/// A letter, and letters, digits and dashes behind it.
pub open spec fn is_variable_name(b: Seq<u8>) -> bool {
    &&& b.len() > 0
    &&& 0x41 <= b[0] <= 0x5a || 0x61 <= b[0] <= 0x7a
    &&& forall|i: int|
        0 <= i < b.len() ==> 0x41 <= (#[trigger] b[i]) <= 0x5a || 0x61 <= b[i] <= 0x7a || 0x30
            <= b[i] <= 0x39 || b[i] == 0x2d
}

/// A byte that stands for itself in a value, wherever it stands.
pub open spec fn is_plain_byte(b: u8) -> bool {
    b != 0x22 && b != 0x5c && b != 0x23 && b != 0x3b && b != 0x0a && b != 0x0d
}

/// Plain bytes, with no blank at the ends.
pub open spec fn is_plain_value(b: Seq<u8>) -> bool {
    &&& forall|i: int| 0 <= i < b.len() ==> is_plain_byte(#[trigger] b[i])
    &&& b.len() > 0 ==> b[0] != 0x20 && b[0] != 0x09 && b.last() != 0x20 && b.last() != 0x09
}

/// The end of a line, or a comment.
pub open spec fn ends_definition(b: Seq<u8>) -> bool {
    b.len() == 0 || b[0] == 0x0a || b[0] == 0x23 || b[0] == 0x3b || (b.len() > 1 && b[0] == 0x0d
        && b[1] == 0x0a)
}

proof fn lemma_past_blanks(b: Seq<u8>, at: int, n: int)
    requires
        0 <= at,
        0 <= n,
        at + n <= b.len(),
        all_blank(b.subrange(at, at + n)),
        at + n < b.len() ==> b[at + n] != 0x20 && b[at + n] != 0x09,
    ensures
        past_blanks(b, at) == at + n,
{
    let rest = b.skip(at);
    let p = |c: u8| is_blank(c);
    assert forall|j: int| 0 <= j < n implies p(#[trigger] rest[j]) by {
        assert(rest[j] == b.subrange(at, at + n)[j]);
    }
    lemma_span_is(rest, p, n);
}

proof fn lemma_past_name(b: Seq<u8>, at: int, n: int)
    requires
        0 <= at,
        0 <= n,
        at + n <= b.len(),
        forall|j: int| at <= j < at + n ==> spec_is_name_byte(#[trigger] b[j]),
        at + n < b.len() ==> !spec_is_name_byte(b[at + n]),
    ensures
        past_name(b, at) == at + n,
{
    let rest = b.skip(at);
    let p = |c: u8| spec_is_name_byte(c);
    assert forall|j: int| 0 <= j < n implies p(#[trigger] rest[j]) by {
        assert(rest[j] == b[at + j]);
    }
    lemma_span_is(rest, p, n);
}

proof fn lemma_value_end(b: Seq<u8>, pos: int, end: int, last_quote: int)
    requires
        0 <= pos <= end <= b.len(),
        forall|i: int| pos <= i < end ==> is_plain_byte(#[trigger] b[i]),
        ends_definition(b.skip(end)),
    ensures
        value_end(b, pos, false, last_quote) == Ok::<int, ParseError>(end),
    decreases end - pos,
{
    if pos < end {
        assert(is_plain_byte(b[pos]));
        lemma_value_end(b, pos + 1, end, last_quote);
    } else if end < b.len() {
        assert(b.skip(end)[0] == b[end]);
        if b.skip(end).len() > 1 {
            assert(b.skip(end)[1] == b[end + 1]);
        }
    }
}

proof fn lemma_trimmed(b: Seq<u8>, start: int, stop: int, end: int)
    requires
        0 <= start <= stop <= end <= b.len(),
        forall|i: int| stop <= i < end ==> (#[trigger] b[i]) == 0x20 || b[i] == 0x09,
        start < stop ==> b[stop - 1] != 0x20 && b[stop - 1] != 0x09,
    ensures
        trimmed_end(b, start, end) == stop,
    decreases end - stop,
{
    if stop < end {
        lemma_trimmed(b, start, stop, end - 1);
    }
}

proof fn lemma_plain_value(v: Seq<u8>)
    requires
        forall|i: int| 0 <= i < v.len() ==> is_plain_byte(#[trigger] v[i]),
    ensures
        interpreted(v) == v,
    decreases v.len(),
{
    if v.len() > 0 {
        let rest = v.drop_first();
        assert(is_plain_byte(v[0]));
        assert forall|i: int| 0 <= i < rest.len() implies is_plain_byte(#[trigger] rest[i]) by {
            assert(rest[i] == v[i + 1]);
        }
        lemma_plain_value(rest);
        assert(v =~= seq![v[0]] + rest);
    } else {
        assert(interpreted(v) =~= v);
    }
}

/// The parts of a definition, and where they stand.
proof fn lemma_places(
    indent: Seq<u8>,
    name: Seq<u8>,
    gap: Seq<u8>,
    space: Seq<u8>,
    value: Seq<u8>,
    trail: Seq<u8>,
    rest: Seq<u8>,
)
    ensures
        ({
            let b = indent + name + gap + seq![0x3du8] + space + value + trail + rest;
            let p0 = indent.len() as int;
            let p1 = p0 + name.len();
            let p2 = p1 + gap.len();
            let p3 = p2 + 1 + space.len();
            let p4 = p3 + value.len();
            let p5 = p4 + trail.len();
            &&& b.len() == p5 + rest.len()
            &&& b.subrange(0, p0) == indent
            &&& b.subrange(p0, p1) == name
            &&& b.subrange(p1, p2) == gap
            &&& b[p2] == 0x3d
            &&& b.subrange(p2 + 1, p3) == space
            &&& b.subrange(p3, p4) == value
            &&& b.subrange(p4, p5) == trail
            &&& b.skip(p5) == rest
        }),
{
    let b = indent + name + gap + seq![0x3du8] + space + value + trail + rest;
    let p0 = indent.len() as int;
    let p1 = p0 + name.len();
    let p2 = p1 + gap.len();
    let p3 = p2 + 1 + space.len();
    let p4 = p3 + value.len();
    let p5 = p4 + trail.len();
    assert(b.subrange(0, p0) =~= indent);
    assert(b.subrange(p0, p1) =~= name);
    assert(b.subrange(p1, p2) =~= gap);
    assert(b.subrange(p2 + 1, p3) =~= space);
    assert(b.subrange(p3, p4) =~= value);
    assert(b.subrange(p4, p5) =~= trail);
    assert(b.skip(p5) =~= rest);
}

/// A line `name = value` defines the variable to be just these bytes, whatever blanks stand around
/// the name and the value, and whether a comment comes behind it or not.
pub proof fn definitions_give_values(
    indent: Seq<u8>,
    name: Seq<u8>,
    gap: Seq<u8>,
    space: Seq<u8>,
    value: Seq<u8>,
    trail: Seq<u8>,
    rest: Seq<u8>,
)
    requires
        all_blank(indent) && all_blank(gap) && all_blank(space) && all_blank(trail),
        is_variable_name(name),
        is_plain_value(value),
        value.len() == 0 ==> trail.len() == 0,
        ends_definition(rest),
        indent.len() + name.len() + gap.len() + 1 + space.len() + value.len() + trail.len()
            + rest.len() <= usize::MAX,
    ensures
        ({
            let b = indent + name + gap + seq![0x3du8] + space + value + trail + rest;
            &&& line_kind_of(b) matches Ok(kind) && kind is Variable && written_name(
                LineView { bytes: b, kind },
            ) == name && value_of(LineView { bytes: b, kind }) == Value::Bytes(value)
        }),
{
    let b = indent + name + gap + seq![0x3du8] + space + value + trail + rest;
    let p0 = indent.len() as int;
    let p1 = p0 + name.len();
    let p2 = p1 + gap.len();
    let p3 = p2 + 1 + space.len();
    let p4 = p3 + value.len();
    let p5 = p4 + trail.len();
    lemma_places(indent, name, gap, space, value, trail, rest);
    lemma_definition(b, p0, p1, p2, p3, p4, p5);
    lemma_plain_value(value);
}

proof fn lemma_definition(b: Seq<u8>, p0: int, p1: int, p2: int, p3: int, p4: int, p5: int)
    requires
        0 <= p0 < p1 <= p2 < p3 <= p4 <= p5 <= b.len() <= usize::MAX,
        all_blank(b.subrange(0, p0)),
        is_variable_name(b.subrange(p0, p1)),
        all_blank(b.subrange(p1, p2)),
        b[p2] == 0x3d,
        all_blank(b.subrange(p2 + 1, p3)),
        is_plain_value(b.subrange(p3, p4)),
        all_blank(b.subrange(p4, p5)),
        p3 == p4 ==> p4 == p5,
        ends_definition(b.skip(p5)),
    ensures
        line_kind_of(b) == Ok::<LineKind, ParseError>(
            LineKind::Variable { name: line_span(p0, p1), value: Some(line_span(p3, p4)) },
        ),
{
    let name = b.subrange(p0, p1);
    let value = b.subrange(p3, p4);
    assert(b[p0] == name[0]);
    lemma_past_blanks(b, 0, p0);
    assert(spec_is_alphabetic(b[p0]));
    assert forall|j: int| p0 <= j < p1 implies spec_is_name_byte(#[trigger] b[j]) by {
        assert(name[j - p0] == b[j]);
    }
    if p1 < p2 {
        assert(b.subrange(p1, p2)[0] == b[p1]);
    }
    lemma_past_name(b, p0 + 1, p1 - p0 - 1);
    lemma_past_blanks(b, p1, p2 - p1);
    if p3 < p4 {
        assert(value[0] == b[p3]);
        assert(value.last() == b[p4 - 1]);
    } else if p5 < b.len() {
        assert(b.skip(p5)[0] == b[p5]);
    }
    lemma_past_blanks(b, p2 + 1, p3 - p2 - 1);
    assert forall|i: int| p3 <= i < p5 implies is_plain_byte(#[trigger] b[i]) by {
        if i < p4 {
            assert(value[i - p3] == b[i]);
        } else {
            assert(b.subrange(p4, p5)[i - p4] == b[i]);
        }
    }
    lemma_value_end(b, p3, p5, p3);
    assert forall|i: int| p4 <= i < p5 implies (#[trigger] b[i]) == 0x20 || b[i] == 0x09 by {
        assert(b.subrange(p4, p5)[i - p4] == b[i]);
    }
    lemma_trimmed(b, p3, p4, p5);
}

/// A name alone on its line, with or without a comment behind it, defines a variable that is true.
pub proof fn names_alone_are_true(indent: Seq<u8>, name: Seq<u8>, trail: Seq<u8>, rest: Seq<u8>)
    requires
        all_blank(indent) && all_blank(trail),
        is_variable_name(name),
        ends_definition(rest),
        indent.len() + name.len() + trail.len() + rest.len() <= usize::MAX,
    ensures
        ({
            let b = indent + name + trail + rest;
            &&& line_kind_of(b) matches Ok(kind) && kind is Variable && written_name(
                LineView { bytes: b, kind },
            ) == name && value_of(LineView { bytes: b, kind }) is ImplicitlyTrue
        }),
{
    let b = indent + name + trail + rest;
    let p0 = indent.len() as int;
    let p1 = p0 + name.len();
    let p2 = p1 + trail.len();
    assert(b.subrange(0, p0) =~= indent);
    assert(b.subrange(p0, p1) =~= name);
    assert(b.subrange(p1, p2) =~= trail);
    assert(b.skip(p2) =~= rest);
    assert(b[p0] == name[0]);
    lemma_past_blanks(b, 0, p0);
    assert(spec_is_alphabetic(b[p0]));
    assert forall|j: int| p0 <= j < p1 implies spec_is_name_byte(#[trigger] b[j]) by {
        assert(name[j - p0] == b[j]);
    }
    if p1 < p2 {
        assert(trail[0] == b[p1]);
    } else if p2 < b.len() {
        assert(rest[0] == b[p2]);
    }
    lemma_past_name(b, p0 + 1, p1 - p0 - 1);
    if p2 < b.len() {
        assert(rest[0] == b[p2]);
    }
    lemma_past_blanks(b, p1, p2 - p1);
}

/// A line of blanks alone means nothing, and neither does one whose first other byte is `#` or `;`.
pub proof fn blanks_and_comments_mean_nothing(indent: Seq<u8>, rest: Seq<u8>)
    requires
        all_blank(indent),
    ensures
        rest.len() == 0 || rest[0] == 0x0a || rest[0] == 0x0d ==> line_kind_of(indent + rest) == Ok::<
            LineKind,
            ParseError,
        >(LineKind::Blank),
        rest.len() > 0 && (rest[0] == 0x23 || rest[0] == 0x3b) ==> line_kind_of(indent + rest)
            == Ok::<LineKind, ParseError>(LineKind::Comment),
{
    let b = indent + rest;
    let n = indent.len() as int;
    assert(b.subrange(0, n) =~= indent);
    if rest.len() == 0 || (rest[0] != 0x20 && rest[0] != 0x09) {
        if rest.len() > 0 {
            assert(b[n] == rest[0]);
        }
        lemma_past_blanks(b, 0, n);
    }
}

/// Letters, digits and dashes.
pub open spec fn is_section_name(b: Seq<u8>) -> bool {
    &&& b.len() > 0
    &&& forall|i: int|
        0 <= i < b.len() ==> 0x41 <= (#[trigger] b[i]) <= 0x5a || 0x61 <= b[i] <= 0x7a || 0x30
            <= b[i] <= 0x39 || b[i] == 0x2d
}

/// `[name]` starts a section. The case of its name does not count.
pub proof fn headers_start_sections(
    indent: Seq<u8>,
    name: Seq<u8>,
    trail: Seq<u8>,
    rest: Seq<u8>,
)
    requires
        all_blank(indent) && all_blank(trail),
        is_section_name(name),
        ends_definition(rest),
        indent.len() + name.len() + 2 + trail.len() + rest.len() <= usize::MAX,
    ensures
        ({
            let b = indent + seq![0x5bu8] + name + seq![0x5du8] + trail + rest;
            &&& line_kind_of(b) matches Ok(kind) && kind is Header && section_of(
                LineView { bytes: b, kind },
            ) == (SectionKey { name: downcased(name), subsection: None })
        }),
{
    let b = indent + seq![0x5bu8] + name + seq![0x5du8] + trail + rest;
    let p0 = indent.len() as int;
    let p1 = p0 + 1 + name.len();
    let p2 = p1 + 1 + trail.len();
    assert(b.subrange(0, p0) =~= indent);
    assert(b[p0] == 0x5b);
    assert(b.subrange(p0 + 1, p1) =~= name);
    assert(b[p1] == 0x5d);
    assert(b.subrange(p1 + 1, p2) =~= trail);
    assert(b.skip(p2) =~= rest);
    lemma_past_blanks(b, 0, p0);
    assert forall|j: int| p0 + 1 <= j < p1 implies spec_is_name_byte(#[trigger] b[j]) by {
        assert(name[j - p0 - 1] == b[j]);
    }
    lemma_past_name(b, p0 + 1, p1 - p0 - 1);
    lemma_after_header(b, p1 + 1, p2);
}

proof fn lemma_after_header(b: Seq<u8>, at: int, end: int)
    requires
        0 <= at <= end <= b.len(),
        all_blank(b.subrange(at, end)),
        ends_definition(b.skip(end)),
    ensures
        past_blanks(b, at) == end,
        is_eol(b, end) || is_comment_start(b[end]),
{
    if end < b.len() {
        assert(b.skip(end)[0] == b[end]);
        if b.skip(end).len() > 1 {
            assert(b.skip(end)[1] == b[end + 1]);
        }
    }
    lemma_past_blanks(b, at, end - at);
}

proof fn lemma_closing_quote(b: Seq<u8>, pos: int, end: int)
    requires
        0 <= pos <= end < b.len(),
        forall|i: int| pos <= i < end ==> (#[trigger] b[i]) != 0x22 && b[i] != 0x5c,
        b[end] == 0x22,
    ensures
        closing_quote(b, pos) == Ok::<int, ParseError>(end),
    decreases end - pos,
{
    if pos < end {
        assert(b[pos] != 0x22);
        lemma_closing_quote(b, pos + 1, end);
    }
}

/// `[name "subsection"]` starts a subsection, whose name is taken as it is written.
pub proof fn headers_start_subsections(
    indent: Seq<u8>,
    name: Seq<u8>,
    subsection: Seq<u8>,
    trail: Seq<u8>,
    rest: Seq<u8>,
)
    requires
        all_blank(indent) && all_blank(trail),
        is_section_name(name),
        forall|i: int|
            0 <= i < subsection.len() ==> (#[trigger] subsection[i]) != 0x22 && subsection[i]
                != 0x5c,
        ends_definition(rest),
        indent.len() + name.len() + subsection.len() + 5 + trail.len() + rest.len() <= usize::MAX,
    ensures
        ({
            let b = indent + seq![0x5bu8] + name + seq![0x20u8, 0x22] + subsection + seq![
                0x22u8,
                0x5d,
            ] + trail + rest;
            &&& line_kind_of(b) matches Ok(kind) && kind is Header && section_of(
                LineView { bytes: b, kind },
            ) == (SectionKey { name: downcased(name), subsection: Some(subsection) })
        }),
{
    let b = indent + seq![0x5bu8] + name + seq![0x20u8, 0x22] + subsection + seq![0x22u8, 0x5d]
        + trail + rest;
    let p0 = indent.len() as int;
    let p1 = p0 + 1 + name.len();
    let p2 = p1 + 2 + subsection.len();
    let p3 = p2 + 2 + trail.len();
    assert(b.subrange(0, p0) =~= indent);
    assert(b[p0] == 0x5b);
    assert(b.subrange(p0 + 1, p1) =~= name);
    assert(b[p1] == 0x20 && b[p1 + 1] == 0x22);
    assert(b.subrange(p1 + 2, p2) =~= subsection);
    assert(b[p2] == 0x22 && b[p2 + 1] == 0x5d);
    assert(b.subrange(p2 + 2, p3) =~= trail);
    assert(b.skip(p3) =~= rest);
    lemma_past_blanks(b, 0, p0);
    assert forall|j: int| p0 + 1 <= j < p1 implies spec_is_name_byte(#[trigger] b[j]) by {
        assert(name[j - p0 - 1] == b[j]);
    }
    lemma_past_name(b, p0 + 1, p1 - p0 - 1);
    assert forall|i: int| p1 + 2 <= i < p2 implies (#[trigger] b[i]) != 0x22 && b[i] != 0x5c by {
        assert(subsection[i - p1 - 2] == b[i]);
    }
    lemma_closing_quote(b, p1 + 2, p2);
    lemma_after_header(b, p2 + 2, p3);
}

/// A definition belongs to the section of the last header above it; the case of its name does not
/// count. Above the first header there are none.
pub proof fn definitions_belong_to_the_header_above(lines: Seq<LineView>, i: int, h: int)
    requires
        0 <= h < i < lines.len(),
        lines[h].kind is Header,
        forall|j: int| h < j <= i ==> !((#[trigger] lines[j]).kind is Header),
        lines[i].kind is Variable,
    ensures
        key_at(lines, i) == Some(
            ConfigKey {
                section: section_of(lines[h]),
                name: downcased(written_name(lines[i])),
            },
        ),
{
    lemma_last_header(lines, i + 1, h);
}

proof fn lemma_last_header(lines: Seq<LineView>, n: int, h: int)
    requires
        0 <= h < n <= lines.len(),
        lines[h].kind is Header,
        forall|j: int| h < j < n ==> !((#[trigger] lines[j]).kind is Header),
    ensures
        header_before(lines, n) == Some(h),
    decreases n,
{
    if h < n - 1 {
        assert(!(lines[n - 1].kind is Header));
        lemma_last_header(lines, n - 1, h);
    }
}

/// The case of the letters in `section.name` does not count.
pub proof fn names_ignore_case(a: Seq<u8>, b: Seq<u8>, dot: int)
    requires
        downcased(a) == downcased(b),
        0 <= dot < a.len(),
        a[dot] == 0x2e,
        forall|i: int| 0 <= i < a.len() && i != dot ==> (#[trigger] a[i]) != 0x2e,
    ensures
        key_of_name(a) == key_of_name(b),
{
    assert(a.len() == downcased(a).len() && b.len() == downcased(b).len());
    assert forall|i: int| 0 <= i < a.len() implies lower(#[trigger] a[i]) == lower(b[i]) by {
        assert(downcased(a)[i] == lower(a[i]));
        assert(downcased(b)[i] == lower(b[i]));
    }
    assert forall|i: int| 0 <= i < a.len() implies (#[trigger] b[i] == 0x2e) == (i == dot) by {
        assert(lower(a[i]) == lower(b[i]));
    }
    lemma_only_dot(a, dot);
    lemma_only_dot(b, dot);
    let name_a = a.skip(dot + 1);
    let name_b = b.skip(dot + 1);
    let section_a = a.take(dot);
    let section_b = b.take(dot);
    lemma_same_case(name_a, name_b);
    lemma_same_case(section_a, section_b);
    lemma_until_is(section_a, DOT, dot);
    lemma_until_is(section_b, DOT, dot);
    assert(section_a.take(dot) =~= section_a);
    assert(section_b.take(dot) =~= section_b);
    if name_a.len() > 0 {
        assert(lower(name_a[0]) == lower(name_b[0]));
    }
}

proof fn lemma_same_case(a: Seq<u8>, b: Seq<u8>)
    requires
        a.len() == b.len(),
        forall|i: int| 0 <= i < a.len() ==> lower(#[trigger] a[i]) == lower(b[i]),
    ensures
        downcased(a) == downcased(b),
        all_name_bytes(a) == all_name_bytes(b),
{
    assert(downcased(a) =~= downcased(b));
    if all_name_bytes(a) {
        assert forall|i: int| 0 <= i < b.len() implies spec_is_name_byte(#[trigger] b[i]) by {
            assert(lower(a[i]) == lower(b[i]));
            assert(spec_is_name_byte(a[i]));
        }
    }
    if all_name_bytes(b) {
        assert forall|i: int| 0 <= i < a.len() implies spec_is_name_byte(#[trigger] a[i]) by {
            assert(lower(a[i]) == lower(b[i]));
            assert(spec_is_name_byte(b[i]));
        }
    }
}

proof fn lemma_only_dot(b: Seq<u8>, dot: int)
    requires
        0 <= dot < b.len(),
        b[dot] == DOT,
        forall|i: int| 0 <= i < b.len() && i != dot ==> (#[trigger] b[i]) != DOT,
    ensures
        last_index(b, DOT) == dot,
    decreases b.len(),
{
    if dot < b.len() - 1 {
        assert(b[b.len() - 1] != DOT);
        let front = b.drop_last();
        assert forall|i: int| 0 <= i < front.len() && i != dot implies (#[trigger] front[i])
            != DOT by {
            assert(front[i] == b[i]);
        }
        lemma_only_dot(front, dot);
    }
}

/// The letters `A` to `Z` have lowercase forms; no other byte has.
pub proof fn only_letters_have_cases(b: u8)
    ensures
        lower(b) == (if 0x41 <= b <= 0x5a {
            b + 0x20
        } else {
            b as int
        }),
{
}

proof fn lemma_joined_by_backslashes(b: Seq<u8>, end: int)
    requires
        0 < end <= b.len(),
    ensures
        forall|j: int|
            end - 1 <= j < folded_end(b, end) - 1 && (#[trigger] b[j]) == 0x0a ==> j > 0 && b[j - 1]
                == 0x5c,
    decreases b.len() - end,
{
    lemma_physical_end(b, end);
    let next = physical_end(b, end);
    if continues(b, end) && end < next {
        lemma_joined_by_backslashes(b, next);
        lemma_until(b.skip(end), LF);
        assert forall|j: int|
            end - 1 <= j < folded_end(b, end) - 1 && (#[trigger] b[j]) == 0x0a implies j > 0 && b[j
            - 1] == 0x5c by {
            if j == end - 1 {
                if end == 1 || b[end - 2] != 0x5c {
                    assert(backslashes_before(b, end - 1) == 0);
                }
            } else if j < next - 1 {
                assert(b.skip(end)[j - end] == b[j]);
            }
        }
    }
}

proof fn lemma_whole_line(line: LineView)
    requires
        line_is_whole(line),
    ensures
        forall|j: int|
            0 <= j < line.bytes.len() - 1 && (#[trigger] line.bytes[j]) == 0x0a ==> j > 0
                && line.bytes[j - 1] == 0x5c && line.kind is Variable,
{
    let b = line.bytes;
    lemma_physical_end(b, 0);
    lemma_until(b.skip(0), LF);
    assert(b.skip(0) =~= b);
    let end = physical_end(b, 0);
    assert forall|j: int| 0 <= j < end - 1 implies (#[trigger] b[j]) != 0x0a by {}
    if starts_variable(b, 0) {
        lemma_joined_by_backslashes(b, end);
        assert(line.kind is Variable);
    }
}

/// Each line of a file ends with a newline, but for the last. A newline within a line stands only in
/// a definition, behind a backslash.
pub proof fn only_backslashes_join_lines(b: Seq<u8>, lines: Seq<LineView>)
    requires
        lines_of(b) == Ok::<_, ConfigDocError>(lines),
    ensures
        concat(lines) == b,
        forall|i: int| 0 <= i < lines.len() - 1 ==> (#[trigger] lines[i]).bytes.last() == 0x0a,
        forall|i: int, j: int|
            0 <= i < lines.len() && 0 <= j < lines[i].bytes.len() - 1 && (
            #[trigger] lines[i].bytes[j]) == 0x0a ==> j > 0 && lines[i].bytes[j - 1] == 0x5c
                && lines[i].kind is Variable,
{
    loading_is_lossless(b);
    loaded_lines_are_well_written(b);
    assert forall|i: int| 0 <= i < lines.len() - 1 implies (#[trigger] lines[i]).bytes.last()
        == 0x0a by {
        assert(line_is_closed(lines[i]));
    }
    assert forall|i: int, j: int|
        0 <= i < lines.len() && 0 <= j < lines[i].bytes.len() - 1 && (#[trigger] lines[i].bytes[j])
            == 0x0a implies j > 0 && lines[i].bytes[j - 1] == 0x5c && lines[i].kind is Variable by {
        assert(line_is_whole(lines[i]));
        lemma_whole_line(lines[i]);
    }
}

} // verus!
