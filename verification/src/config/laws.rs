//! What reading a configuration file gives after it was edited.

use crate::bytes::downcased;
use crate::config::doc::{
    entries_of, has_section, header_line, inserted, kept, lemma_block, lemma_literals,
    lemma_variable_line_fits, newline_at, replaced, replaced_at, value_of, variable_bytes,
    variable_line, with_newline, without_key, without_section, LineContent, LineView, Value,
    VariablePos,
};
use crate::config::index::{
    blocks_of, header_before, key_at, last_of, lemma_header_before, lemma_positions,
    lemma_positions_ascend, owner, positions_before, positions_of, section_of, written_name,
};
use crate::config::key::{key_of_name, ConfigKey, SectionKey};
use crate::config::parse::{is_name, kind_fits, span_bytes, span_fits, spec_is_alphabetic, LineSpan};
use crate::config::value::interpreting_inverts_encoding;
use crate::config::{
    got, got_all, lemma_key_of_name, lookup, with_set, with_set_all, with_unset, with_unset_all,
    ConfigFile, ConfigFileErrorKind,
};
use vstd::prelude::*;

verus! {

/// The spans of the lines lie within them, as the parser and the edits leave them.
pub open spec fn lines_fit(lines: Seq<LineView>) -> bool {
    &&& lines.len() <= usize::MAX
    &&& forall|i: int|
        0 <= i < lines.len() ==> kind_fits((#[trigger] lines[i]).bytes, lines[i].kind)
            && lines[i].bytes.len() <= usize::MAX
}

/// The values that the first `n` lines give a variable, in order.
pub open spec fn values_before(
    lines: Seq<LineView>,
    key: ConfigKey<Seq<u8>>,
    n: int,
) -> Seq<Value<Seq<u8>>>
    decreases n,
{
    if n <= 0 {
        Seq::empty()
    } else if key_at(lines, n - 1) == Some(key) {
        values_before(lines, key, n - 1).push(value_of(lines[n - 1]))
    } else {
        values_before(lines, key, n - 1)
    }
}

pub open spec fn values_of(lines: Seq<LineView>, key: ConfigKey<Seq<u8>>) -> Seq<Value<Seq<u8>>> {
    values_before(lines, key, lines.len() as int)
}

/// The values of a variable are those at its places.
pub proof fn lemma_values(lines: Seq<LineView>, key: ConfigKey<Seq<u8>>, n: int)
    requires
        0 <= n <= lines.len() <= usize::MAX,
    ensures
        values_before(lines, key, n) == Seq::new(
            positions_before(lines, key, n).len(),
            |k: int| value_of(lines[positions_before(lines, key, n)[k].0 as int]),
        ),
    decreases n,
{
    let p = positions_before(lines, key, n);
    let v = Seq::new(p.len(), |k: int| value_of(lines[p[k].0 as int]));
    if n > 0 {
        lemma_values(lines, key, n - 1);
        let p0 = positions_before(lines, key, n - 1);
        let v0 = Seq::new(p0.len(), |k: int| value_of(lines[p0[k].0 as int]));
        if key_at(lines, n - 1) == Some(key) {
            assert(v =~= v0.push(value_of(lines[n - 1])));
        }
    } else {
        assert(v =~= Seq::<Value<Seq<u8>>>::empty());
    }
}

/// What the values of a variable say of reading it.
pub proof fn lemma_got(lines: Seq<LineView>, name: Seq<u8>, key: ConfigKey<Seq<u8>>)
    requires
        lines.len() <= usize::MAX,
        key_of_name(name) == Some(key),
    ensures
        values_of(lines, key).len() == positions_of(lines, key).len(),
        got(lines, name) == (if values_of(lines, key).len() == 0 {
            Err(ConfigFileErrorKind::NotFound(name))
        } else if values_of(lines, key).len() > 1 {
            Err(ConfigFileErrorKind::MultipleValues(name))
        } else {
            Ok(values_of(lines, key)[0])
        }),
        got_all(lines, name) == (if values_of(lines, key).len() == 0 {
            Err(ConfigFileErrorKind::NotFound(name))
        } else {
            Ok(values_of(lines, key))
        }),
{
    lemma_values(lines, key, lines.len() as int);
}

/// Two lines say the same.
pub open spec fn same_meaning(a: LineView, b: LineView) -> bool {
    &&& a.kind is Header == b.kind is Header
    &&& section_of(a) == section_of(b)
    &&& a.kind is Variable == b.kind is Variable
    &&& written_name(a) == written_name(b)
    &&& value_of(a) == value_of(b)
}

/// A newline at the end of a line does not change what it says.
proof fn lemma_newline_meaning(line: LineView)
    requires
        kind_fits(line.bytes, line.kind),
    ensures
        same_meaning(with_newline(line), line),
{
    assert forall|s: LineSpan| span_fits(line.bytes, s) implies #[trigger] span_bytes(
        with_newline(line).bytes,
        s,
    ) == span_bytes(line.bytes, s) by {
        assert(span_bytes(with_newline(line).bytes, s) =~= span_bytes(line.bytes, s));
    }
}

/// Lines that start the same sections belong to the same sections.
proof fn lemma_owners(a: Seq<LineView>, b: Seq<LineView>, n: int)
    requires
        0 <= n <= a.len(),
        n <= b.len(),
        forall|i: int|
            0 <= i < n ==> ((#[trigger] a[i]).kind is Header == b[i].kind is Header && section_of(
                a[i],
            ) == section_of(b[i])),
    ensures
        header_before(a, n) == header_before(b, n),
        owner(a, n - 1) == owner(b, n - 1),
    decreases n,
{
    if n > 0 {
        lemma_owners(a, b, n - 1);
        assert(a[n - 1].kind is Header == b[n - 1].kind is Header);
        lemma_header_before(a, n);
    }
}

/// Lines that say the same give a variable the same values.
proof fn lemma_same_values(
    a: Seq<LineView>,
    b: Seq<LineView>,
    key: ConfigKey<Seq<u8>>,
    n: int,
)
    requires
        0 <= n <= a.len(),
        n <= b.len(),
        forall|i: int| 0 <= i < n ==> same_meaning(#[trigger] a[i], b[i]),
    ensures
        values_before(a, key, n) == values_before(b, key, n),
    decreases n,
{
    if n > 0 {
        lemma_same_values(a, b, key, n - 1);
        lemma_owners(a, b, n);
        assert(same_meaning(a[n - 1], b[n - 1]));
    }
}

/// The line of a variable says what it was written for.
proof fn lemma_variable_line(name: Seq<u8>, value: Seq<u8>)
    requires
        is_name(name),
        spec_is_alphabetic(name[0]),
        variable_bytes(name, value).len() <= usize::MAX,
    ensures
        written_name(variable_line(name, value)) == name,
        value_of(variable_line(name, value)) == Value::Bytes(value),
        variable_line(name, value).kind is Variable,
        kind_fits(variable_line(name, value).bytes, variable_line(name, value).kind),
{
    lemma_variable_line_fits(name, value, variable_bytes(name, value).len() as usize);
    interpreting_inverts_encoding(value);
}

/// The values after a variable was set in its place.
proof fn lemma_replaced_values(
    lines: Seq<LineView>,
    pos: int,
    value: Seq<u8>,
    key: ConfigKey<Seq<u8>>,
    n: int,
)
    requires
        lines_fit(lines),
        0 <= pos < lines.len(),
        lines[pos].kind is Variable,
        variable_bytes(written_name(lines[pos]), value).len() <= usize::MAX,
        0 <= n <= lines.len(),
    ensures
        n <= pos || key_at(lines, pos) != Some(key) ==> values_before(
            replaced(lines, pos, value),
            key,
            n,
        ) == values_before(lines, key, n),
        values_before(replaced(lines, pos, value), key, n).len() == values_before(
            lines,
            key,
            n,
        ).len(),
        forall|i: int|
            0 <= i < n ==> #[trigger] key_at(replaced(lines, pos, value), i) == key_at(lines, i),
    decreases n,
{
    let after = replaced(lines, pos, value);
    assert(kind_fits(lines[pos].bytes, lines[pos].kind));
    lemma_variable_line(written_name(lines[pos]), value);
    if n > 0 {
        lemma_replaced_values(lines, pos, value, key, n - 1);
        lemma_owners(after, lines, n);
        assert(key_at(after, n - 1) == key_at(lines, n - 1));
    }
}

/// The values after a line that defines a variable was put into a section.
proof fn lemma_insert_values(
    lines: Seq<LineView>,
    at: int,
    line: LineView,
    key: ConfigKey<Seq<u8>>,
    n: int,
)
    requires
        0 < at <= lines.len(),
        line.kind is Variable,
        owner(lines, at - 1) is Some,
        at < lines.len() ==> lines[at].kind is Header,
        0 <= n <= lines.len() + 1,
    ensures
        n <= at ==> values_before(lines.insert(at, line), key, n) == values_before(lines, key, n),
        n > at ==> values_before(lines.insert(at, line), key, n) == (if (ConfigKey {
            section: owner(lines, at - 1)->0,
            name: downcased(written_name(line)),
        }) == key {
            values_before(lines, key, at).push(value_of(line)) + values_between(
                lines,
                key,
                at,
                n - 1,
            )
        } else {
            values_before(lines, key, n - 1)
        }),
    decreases n,
{
    let after = lines.insert(at, line);
    let new_key = ConfigKey {
        section: owner(lines, at - 1)->0,
        name: downcased(written_name(line)),
    };
    if n > 0 {
        lemma_insert_values(lines, at, line, key, n - 1);
        if n <= at {
            lemma_owners(after, lines, n);
        } else if n == at + 1 {
            lemma_owners(after, lines, at);
            assert(header_before(after, at + 1) == header_before(after, at));
            lemma_header_before(after, at);
            assert(key_at(after, at) == Some(new_key));
            assert(values_between(lines, key, at, at) =~= Seq::<Value<Seq<u8>>>::empty());
            assert(values_before(lines, key, at).push(value_of(line)) + values_between(
                lines,
                key,
                at,
                at,
            ) =~= values_before(lines, key, at).push(value_of(line)));
        } else {
            lemma_shifted_owner(lines, at, line, n - 1);
            assert(after[n - 1] == lines[n - 2]);
            assert(key_at(after, n - 1) == key_at(lines, n - 2));
            let front = values_before(lines, key, at).push(value_of(line));
            if key_at(lines, n - 2) == Some(key) {
                assert(front + values_between(lines, key, at, n - 2).push(value_of(lines[n - 2]))
                    =~= (front + values_between(lines, key, at, n - 2)).push(
                    value_of(lines[n - 2]),
                ));
            }
        }
    }
}

/// The values that the lines from `from` to before `n` give a variable.
pub open spec fn values_between(
    lines: Seq<LineView>,
    key: ConfigKey<Seq<u8>>,
    from: int,
    n: int,
) -> Seq<Value<Seq<u8>>>
    decreases n - from,
{
    if n <= from {
        Seq::empty()
    } else if key_at(lines, n - 1) == Some(key) {
        values_between(lines, key, from, n - 1).push(value_of(lines[n - 1]))
    } else {
        values_between(lines, key, from, n - 1)
    }
}

/// Behind the header that follows, an inserted line changes nothing.
proof fn lemma_shifted_owner(lines: Seq<LineView>, at: int, line: LineView, i: int)
    requires
        0 < at < lines.len(),
        line.kind is Variable,
        lines[at].kind is Header,
        at < i <= lines.len(),
    ensures
        owner(lines.insert(at, line), i) == owner(lines, i - 1),
        header_before(lines, i) matches Some(h) && at <= h && header_before(
            lines.insert(at, line),
            i + 1,
        ) == Some(h + 1),
    decreases i,
{
    let after = lines.insert(at, line);
    assert(after[i] == lines[i - 1]);
    if !(lines[i - 1].kind is Header) {
        lemma_shifted_owner(lines, at, line, i - 1);
    }
}

/// No values among the first `n` lines, none between.
proof fn lemma_between(lines: Seq<LineView>, key: ConfigKey<Seq<u8>>, from: int, n: int)
    requires
        0 <= from <= n,
        values_before(lines, key, n).len() == 0,
    ensures
        values_between(lines, key, from, n).len() == 0,
        values_before(lines, key, from).len() == 0,
    decreases n - from,
{
    if n > from {
        lemma_between(lines, key, from, n - 1);
    }
}

/// The values after a variable was added.
proof fn lemma_inserted_values(
    lines: Seq<LineView>,
    key: ConfigKey<Seq<u8>>,
    value: Seq<u8>,
    other: ConfigKey<Seq<u8>>,
)
    requires
        lines_fit(lines),
        is_name(key.name),
        spec_is_alphabetic(key.name[0]),
        downcased(key.name) == key.name,
        downcased(key.section.name) == key.section.name,
        lines_fit(inserted(lines, key, value)),
        values_of(lines, key).len() == 0,
    ensures
        other == key ==> values_of(inserted(lines, key, value), other) == seq![Value::Bytes(value)],
        other != key ==> values_of(inserted(lines, key, value), other) == values_of(lines, other),
{
    let line = variable_line(key.name, value);
    lemma_block(lines, key.section);
    let n = lines.len() as int;
    match last_of(blocks_of(lines, key.section)) {
        Some(block) => {
            let at = block.end as int;
            assert(inserted(lines, key, value)[at] == line);
            lemma_variable_line(key.name, value);
            let base = newline_at(lines, at - 1);
            lemma_newline_meaning(lines[at - 1]);
            assert forall|i: int| 0 <= i < n implies same_meaning(#[trigger] base[i], lines[i]) by {
                if i != at - 1 {
                    assert(base[i] == lines[i]);
                }
            }
            lemma_owners(base, lines, at);
            lemma_block_owner(lines, block.start as int, at);
            lemma_same_values(base, lines, other, n);
            lemma_same_values(base, lines, key, n);
            assert(at < n ==> base[at].kind is Header) by {
                if at < n {
                    assert(same_meaning(base[at], lines[at]));
                }
            }
            lemma_insert_values(base, at, line, other, n + 1);
            if other == key {
                lemma_between(base, key, at, n);
                assert(values_of(inserted(lines, key, value), other) =~= seq![Value::Bytes(value)]);
            }
        },
        None => {
            let base = if n == 0 {
                lines
            } else {
                newline_at(lines, n - 1)
            };
            if n > 0 {
                lemma_newline_meaning(lines[n - 1]);
            }
            assert forall|i: int| 0 <= i < n implies same_meaning(#[trigger] base[i], lines[i]) by {
                if i != n - 1 {
                    assert(base[i] == lines[i]);
                }
            }
            let with_header = base.push(header_line(key.section));
            let after = with_header.push(line);
            assert forall|i: int| 0 <= i < n implies same_meaning(
                #[trigger] after[i],
                lines[i],
            ) by {
                assert(after[i] == base[i]);
            }
            lemma_same_values(after, lines, other, n);
            assert(after[n] == header_line(key.section));
            assert(after[n + 1] == line);
            assert(after == inserted(lines, key, value));
            lemma_variable_line(key.name, value);
            lemma_header_line(key.section);
            assert(key_at(after, n) is None);
            assert(values_before(after, other, n + 1) == values_before(after, other, n));
            assert(header_before(after, n + 1) == Some(n));
            assert(header_before(after, n + 2) == Some(n));
            assert(key_at(after, n + 1) == Some(key));
            if other == key {
                assert(values_of(after, other) =~= seq![Value::Bytes(value)]);
            }
        },
    }
}

/// The lines of a block belong to its section.
proof fn lemma_block_owner(lines: Seq<LineView>, start: int, end: int)
    requires
        0 <= start < end <= lines.len(),
        lines[start].kind is Header,
        forall|i: int| start < i < end ==> !((#[trigger] lines[i]).kind is Header),
    ensures
        header_before(lines, end) == Some(start),
    decreases end - start,
{
    if end > start + 1 {
        lemma_block_owner(lines, start, end - 1);
        assert(!(lines[end - 1].kind is Header));
    }
}

/// The line of a header starts the section it was written for.
proof fn lemma_header_line(key: SectionKey<Seq<u8>>)
    requires
        downcased(key.name) == key.name,
        header_line(key).bytes.len() <= usize::MAX,
    ensures
        section_of(header_line(key)) == key,
        header_line(key).kind is Header,
{
    lemma_literals();
    let b = header_line(key).bytes;
    let n = 1 + key.name.len() as int;
    assert(b.subrange(1, n) =~= key.name);
    if let Some(s) = key.subsection {
        assert(b.subrange(n + 2, n + 2 + s.len()) =~= s);
    }
}

/// The key of a name is in lowercase.
proof fn lemma_key_is_lower(name: Seq<u8>)
    ensures
        key_of_name(name) matches Some(key) ==> downcased(key.name) == key.name && downcased(
            key.section.name,
        ) == key.section.name,
{
    if let Some(key) = key_of_name(name) {
        assert(downcased(key.name) =~= key.name);
        assert(downcased(key.section.name) =~= key.section.name);
    }
}

/// Getting a variable gives back what it was set to, and what other variables are set to stays.
pub proof fn get_after_set(lines: Seq<LineView>, name: Seq<u8>, value: Seq<u8>, other: Seq<u8>)
    requires
        lines_fit(lines),
        with_set(lines, name, value) is Ok,
        lines_fit(with_set(lines, name, value)->Ok_0),
    ensures
        ({
            let after = with_set(lines, name, value)->Ok_0;
            &&& got(after, name) == Ok::<_, ConfigFileErrorKind<Seq<u8>>>(Value::Bytes(value))
            &&& key_of_name(other) != key_of_name(name) ==> got(after, other) == got(lines, other)
                && got_all(after, other) == got_all(lines, other)
        }),
{
    let key = key_of_name(name)->0;
    let after = with_set(lines, name, value)->Ok_0;
    lemma_key_of_name(name);
    lemma_key_is_lower(name);
    lemma_got(lines, name, key);
    lemma_positions(lines, key, lines.len() as int);
    match lookup(lines, name) {
        Ok((_, pos)) => {
            let p = pos.0 as int;
            assert(positions_of(lines, key)[0] == pos);
            assert(key_at(lines, p) == Some(key));
            assert(after[p].bytes == variable_bytes(written_name(lines[p]), value));
            lemma_replaced_values(lines, p, value, key, lines.len() as int);
            lemma_single_value(lines, p, value, key);
            lemma_got(after, name, key);
            if let Some(k) = key_of_name(other) {
                lemma_replaced_values(lines, p, value, k, lines.len() as int);
                lemma_got(after, other, k);
                lemma_got(lines, other, k);
            }
        },
        Err(_) => {
            lemma_inserted_values(lines, key, value, key);
            lemma_got(after, name, key);
            if let Some(k) = key_of_name(other) {
                lemma_inserted_values(lines, key, value, k);
                lemma_got(after, other, k);
                lemma_got(lines, other, k);
            }
        },
    }
}

/// A variable that was defined once has the value it was set to.
proof fn lemma_single_value(
    lines: Seq<LineView>,
    pos: int,
    value: Seq<u8>,
    key: ConfigKey<Seq<u8>>,
)
    requires
        lines_fit(lines),
        0 <= pos < lines.len(),
        key_at(lines, pos) == Some(key),
        variable_bytes(written_name(lines[pos]), value).len() <= usize::MAX,
        values_of(lines, key).len() == 1,
    ensures
        values_of(replaced(lines, pos, value), key) == seq![Value::Bytes(value)],
{
    let after = replaced(lines, pos, value);
    let n = lines.len() as int;
    assert(kind_fits(lines[pos].bytes, lines[pos].kind));
    lemma_variable_line(written_name(lines[pos]), value);
    lemma_replaced_values(lines, pos, value, key, n);
    lemma_replaced_values(lines, pos, value, key, pos);
    lemma_replaced_values(lines, pos, value, key, pos + 1);
    assert(key_at(after, pos) == Some(key));
    lemma_values_grow(lines, key, pos + 1, n);
    lemma_values_grow(after, key, pos + 1, n);
    assert(values_before(after, key, pos + 1) == values_before(after, key, pos).push(
        value_of(after[pos]),
    ));
    assert(values_before(lines, key, pos).len() == 0);
    assert(values_of(after, key)[0] == values_of(after, key).take(1)[0]);
    assert(values_of(after, key) =~= seq![Value::Bytes(value)]);
}

/// More lines give a variable no fewer values.
proof fn lemma_values_grow(lines: Seq<LineView>, key: ConfigKey<Seq<u8>>, m: int, n: int)
    requires
        0 <= m <= n,
    ensures
        values_before(lines, key, m).len() <= values_before(lines, key, n).len(),
        values_before(lines, key, n).take(values_before(lines, key, m).len() as int)
            == values_before(lines, key, m),
    decreases n - m,
{
    if m < n {
        lemma_values_grow(lines, key, m, n - 1);
        let v = values_before(lines, key, m);
        assert(values_before(lines, key, n).take(v.len() as int) =~= values_before(
            lines,
            key,
            n - 1,
        ).take(v.len() as int));
    } else {
        assert(values_before(lines, key, n).take(values_before(lines, key, m).len() as int)
            =~= values_before(lines, key, m));
    }
}

/// Adding a variable adds two lines at most.
pub proof fn lemma_inserted_len(lines: Seq<LineView>, key: ConfigKey<Seq<u8>>, value: Seq<u8>)
    requires
        lines.len() <= usize::MAX,
    ensures
        lines.len() < inserted(lines, key, value).len() <= lines.len() + 2,
{
    lemma_block(lines, key.section);
}

/// The lines after a variable was set at some of its places.
proof fn lemma_replaced_at(
    lines: Seq<LineView>,
    positions: Seq<VariablePos>,
    value: Seq<u8>,
    n: int,
)
    requires
        lines_fit(lines),
        0 <= n <= positions.len(),
        forall|k: int|
            0 <= k < positions.len() ==> (#[trigger] positions[k]).0 < lines.len()
                && lines[positions[k].0 as int].kind is Variable,
        forall|k: int|
            0 <= k < positions.len() ==> variable_bytes(
                written_name(lines[(#[trigger] positions[k]).0 as int]),
                value,
            ).len() <= usize::MAX,
    ensures
        ({
            let after = replaced_at(lines, positions, value, n);
            &&& after.len() == lines.len()
            &&& lines_fit(after)
            &&& forall|i: int|
                0 <= i < lines.len() ==> (#[trigger] after[i]).kind is Header
                    == lines[i].kind is Header && section_of(after[i]) == section_of(lines[i])
                    && after[i].kind is Variable == lines[i].kind is Variable && written_name(
                    after[i],
                ) == written_name(lines[i])
            &&& forall|k: int|
                0 <= k < n ==> value_of(after[(#[trigger] positions[k]).0 as int]) == Value::Bytes(
                    value,
                )
            &&& forall|i: int|
                0 <= i < lines.len() && (forall|k: int|
                    0 <= k < n ==> (#[trigger] positions[k]).0 != i) ==> #[trigger] after[i]
                    == lines[i]
        }),
    decreases n,
{
    if n > 0 {
        lemma_replaced_at(lines, positions, value, n - 1);
        let before = replaced_at(lines, positions, value, n - 1);
        let after = replaced_at(lines, positions, value, n);
        let p = positions[n - 1].0 as int;
        assert(before[p].kind is Variable);
        assert(kind_fits(before[p].bytes, before[p].kind));
        assert(written_name(before[p]) == written_name(lines[p]));
        lemma_variable_line(written_name(before[p]), value);
        assert(after =~= before.update(p, variable_line(written_name(before[p]), value)));
        assert forall|k: int| 0 <= k < n implies value_of(
            after[(#[trigger] positions[k]).0 as int],
        ) == Value::Bytes(value) by {
            if positions[k].0 != p {
                assert(after[positions[k].0 as int] == before[positions[k].0 as int]);
            }
        }
        assert forall|i: int|
            0 <= i < lines.len() && (forall|k: int| 0 <= k < n ==> (#[trigger] positions[k]).0 != i)
            implies #[trigger] after[i] == lines[i] by {
            assert(positions[n - 1].0 != i);
            assert(before[i] == lines[i]);
        }
        assert forall|i: int| 0 <= i < lines.len() implies (#[trigger] after[i]).kind is Header
            == lines[i].kind is Header && section_of(after[i]) == section_of(lines[i])
            && after[i].kind is Variable == lines[i].kind is Variable && written_name(after[i])
            == written_name(lines[i]) by {
            assert(before[i].kind is Header == lines[i].kind is Header);
        }
        assert forall|i: int| 0 <= i < after.len() implies kind_fits(
            (#[trigger] after[i]).bytes,
            after[i].kind,
        ) && after[i].bytes.len() <= usize::MAX by {
            assert(kind_fits(before[i].bytes, before[i].kind));
        }
    }
}

/// The bytes of the lines after a variable was set at some of its places, each of which is another
/// one.
proof fn lemma_replaced_bytes(
    lines: Seq<LineView>,
    positions: Seq<VariablePos>,
    value: Seq<u8>,
    n: int,
)
    requires
        0 <= n <= positions.len(),
        forall|k: int| 0 <= k < positions.len() ==> (#[trigger] positions[k]).0 < lines.len(),
        forall|j: int, k: int|
            0 <= j < k < positions.len() ==> (#[trigger] positions[j]).0 != (
            #[trigger] positions[k]).0,
    ensures
        ({
            let after = replaced_at(lines, positions, value, n);
            &&& after.len() == lines.len()
            &&& forall|k: int|
                0 <= k < n ==> after[(#[trigger] positions[k]).0 as int] == variable_line(
                    written_name(lines[positions[k].0 as int]),
                    value,
                )
            &&& forall|k: int|
                n <= k < positions.len() ==> after[(#[trigger] positions[k]).0 as int]
                    == lines[positions[k].0 as int]
        }),
    decreases n,
{
    if n > 0 {
        lemma_replaced_bytes(lines, positions, value, n - 1);
        assert(positions[n - 1].0 < lines.len());
    }
}

/// Lines that define the same variables.
proof fn lemma_same_places(a: Seq<LineView>, b: Seq<LineView>, key: ConfigKey<Seq<u8>>, n: int)
    requires
        0 <= n <= a.len(),
        a.len() == b.len(),
        forall|i: int|
            0 <= i < a.len() ==> (#[trigger] a[i]).kind is Header == b[i].kind is Header
                && section_of(a[i]) == section_of(b[i]) && a[i].kind is Variable
                == b[i].kind is Variable && written_name(a[i]) == written_name(b[i]),
    ensures
        positions_before(a, key, n) == positions_before(b, key, n),
        forall|i: int| 0 <= i < n ==> #[trigger] key_at(a, i) == key_at(b, i),
    decreases n,
{
    if n > 0 {
        lemma_same_places(a, b, key, n - 1);
        lemma_owners(a, b, n);
        assert(a[n - 1].kind is Header == b[n - 1].kind is Header);
        assert(key_at(a, n - 1) == key_at(b, n - 1));
    }
}

/// Setting all the definitions of a variable gives each of them the value; one that was not
/// defined is defined once. What other variables are set to stays.
pub proof fn get_after_set_all(lines: Seq<LineView>, name: Seq<u8>, value: Seq<u8>, other: Seq<u8>)
    requires
        lines_fit(lines),
        with_set_all(lines, name, value) is Ok,
        lines_fit(with_set_all(lines, name, value)->Ok_0),
    ensures
        ({
            let after = with_set_all(lines, name, value)->Ok_0;
            let n = positions_of(lines, key_of_name(name)->0).len();
            &&& got_all(after, name) == Ok::<_, ConfigFileErrorKind<Seq<u8>>>(
                Seq::new(if n == 0 { 1 } else { n }, |i: int| Value::Bytes(value)),
            )
            &&& key_of_name(other) != key_of_name(name) ==> got(after, other) == got(lines, other)
                && got_all(after, other) == got_all(lines, other)
        }),
{
    let key = key_of_name(name)->0;
    let after = with_set_all(lines, name, value)->Ok_0;
    let places = positions_of(lines, key);
    let len = lines.len() as int;
    lemma_key_of_name(name);
    lemma_key_is_lower(name);
    lemma_got(lines, name, key);
    lemma_positions(lines, key, len);
    if places.len() == 0 {
        lemma_inserted_values(lines, key, value, key);
        lemma_got(after, name, key);
        assert(seq![Value::Bytes(value)] =~= Seq::new(1, |i: int| Value::Bytes(value)));
        if let Some(k) = key_of_name(other) {
            lemma_inserted_values(lines, key, value, k);
            lemma_got(after, other, k);
            lemma_got(lines, other, k);
        }
    } else {
        assert forall|k: int| 0 <= k < places.len() implies (#[trigger] places[k]).0 < len
            && lines[places[k].0 as int].kind is Variable by {
            assert(key_at(lines, places[k].0 as int) == Some(key));
        }
        lemma_positions_ascend(lines, key, len);
        lemma_replaced_bytes(lines, places, value, places.len() as int);
        assert forall|k: int| 0 <= k < places.len() implies variable_bytes(
            written_name(lines[(#[trigger] places[k]).0 as int]),
            value,
        ).len() <= usize::MAX by {
            assert(after[places[k].0 as int].bytes.len() <= usize::MAX);
        }
        lemma_replaced_at(lines, places, value, places.len() as int);
        lemma_same_places(after, lines, key, len);
        lemma_values(after, key, len);
        lemma_got(after, name, key);
        assert(values_of(after, key) =~= Seq::new(places.len(), |i: int| Value::Bytes(value)));
        if let Some(k) = key_of_name(other) {
            lemma_same_places(after, lines, k, len);
            lemma_values(after, k, len);
            lemma_values(lines, k, len);
            lemma_positions(lines, k, len);
            if k != key {
                assert forall|j: int| 0 <= j < positions_of(lines, k).len() implies value_of(
                    after[(#[trigger] positions_of(lines, k)[j]).0 as int],
                ) == value_of(lines[positions_of(lines, k)[j].0 as int]) by {
                    let i = positions_of(lines, k)[j].0 as int;
                    assert(key_at(lines, i) == Some(k));
                    assert forall|m: int| 0 <= m < places.len() implies (#[trigger] places[m]).0
                        != i by {
                        assert(key_at(lines, places[m].0 as int) == Some(key));
                    }
                    assert(after[i] == lines[i]);
                }
                assert(values_of(after, k) =~= values_of(lines, k));
            }
            lemma_got(after, other, k);
            lemma_got(lines, other, k);
        }
    }
}

/// The values that those of the first `n` lines that are kept give a variable.
spec fn kept_values(
    lines: Seq<LineView>,
    keep: spec_fn(int) -> bool,
    key: ConfigKey<Seq<u8>>,
    n: int,
) -> Seq<Value<Seq<u8>>>
    decreases n,
{
    if n <= 0 {
        Seq::empty()
    } else if keep(n - 1) && key_at(lines, n - 1) == Some(key) {
        kept_values(lines, keep, key, n - 1).push(value_of(lines[n - 1]))
    } else {
        kept_values(lines, keep, key, n - 1)
    }
}

/// Where the header is kept, the lines behind it belong to the same section as before.
proof fn lemma_kept_owner(lines: Seq<LineView>, keep: spec_fn(int) -> bool, n: int)
    requires
        0 <= n <= lines.len(),
    ensures
        kept(lines, keep, n).len() <= n,
        ({
            let k = kept(lines, keep, n);
            match header_before(lines, n) {
                None => header_before(k, k.len() as int) is None,
                Some(h) => keep(h) ==> owner(k, k.len() - 1) == Some(section_of(lines[h])),
            }
        }),
    decreases n,
{
    if n > 0 {
        lemma_kept_owner(lines, keep, n - 1);
        let before = kept(lines, keep, n - 1);
        let after = kept(lines, keep, n);
        lemma_header_before(lines, n);
        if keep(n - 1) {
            assert(after.drop_last() =~= before);
            lemma_owners(after, before, before.len() as int);
            lemma_header_before(before, before.len() as int);
            lemma_header_before(after, before.len() as int);
        }
    }
}

/// The kept lines give a variable the values they gave it before, as long as no line is kept
/// without its header.
proof fn lemma_kept_values(
    lines: Seq<LineView>,
    keep: spec_fn(int) -> bool,
    key: ConfigKey<Seq<u8>>,
    n: int,
)
    requires
        0 <= n <= lines.len(),
        forall|i: int|
            0 <= i < n && #[trigger] keep(i) && lines[i].kind is Variable ==> (header_before(
                lines,
                i + 1,
            ) matches Some(h) ==> keep(h)),
    ensures
        values_of(kept(lines, keep, n), key) == kept_values(lines, keep, key, n),
    decreases n,
{
    if n > 0 {
        lemma_kept_values(lines, keep, key, n - 1);
        lemma_kept_owner(lines, keep, n - 1);
        let before = kept(lines, keep, n - 1);
        let after = kept(lines, keep, n);
        if keep(n - 1) {
            let m = before.len() as int;
            assert forall|i: int| 0 <= i < m implies same_meaning(
                #[trigger] after[i],
                before[i],
            ) by {
                assert(after[i] == before[i]);
            }
            lemma_same_values(after, before, key, m);
            lemma_owners(after, before, m);
            lemma_header_before(before, m);
            assert(after[m] == lines[n - 1]);
            if lines[n - 1].kind is Variable {
                assert(header_before(lines, n) == header_before(lines, n - 1));
                assert(header_before(after, m + 1) == header_before(after, m));
                assert(owner(after, m) == owner(before, m - 1));
                assert(key_at(after, m) == key_at(lines, n - 1));
            }
        }
    }
}

/// Removing all the definitions of a variable leaves none, and leaves what other variables are set
/// to.
pub proof fn get_after_unset_all(lines: Seq<LineView>, name: Seq<u8>, other: Seq<u8>)
    requires
        lines.len() <= usize::MAX,
        key_of_name(name) is Some,
    ensures
        with_unset_all(lines, name) is Ok,
        ({
            let after = with_unset_all(lines, name)->Ok_0;
            &&& got(after, name) == Err::<Value<Seq<u8>>, _>(ConfigFileErrorKind::NotFound(name))
            &&& key_of_name(other) != key_of_name(name) ==> got(after, other) == got(lines, other)
                && got_all(after, other) == got_all(lines, other)
        }),
{
    let key = key_of_name(name)->0;
    let n = lines.len() as int;
    let keep = |i: int| key_at(lines, i) != Some(key);
    let after = without_key(lines, key);
    lemma_kept_owner(lines, keep, n);
    lemma_kept_headers(lines, key, keep, n);
    lemma_kept_values(lines, keep, key, n);
    lemma_dropped_values(lines, keep, key, n);
    lemma_got(after, name, key);
    if let Some(k) = key_of_name(other) {
        lemma_kept_values(lines, keep, k, n);
        if k != key {
            lemma_all_kept_values(lines, keep, k, n);
        }
        lemma_got(after, other, k);
        lemma_got(lines, other, k);
    }
}

/// Headers define no variable.
proof fn lemma_kept_headers(
    lines: Seq<LineView>,
    key: ConfigKey<Seq<u8>>,
    keep: spec_fn(int) -> bool,
    n: int,
)
    requires
        0 <= n <= lines.len(),
        keep == (|i: int| key_at(lines, i) != Some(key)),
    ensures
        forall|i: int|
            0 <= i < n && #[trigger] keep(i) && lines[i].kind is Variable ==> (header_before(
                lines,
                i + 1,
            ) matches Some(h) ==> keep(h)),
{
    assert forall|i: int| 0 <= i < n && #[trigger] keep(i) && lines[i].kind is Variable implies (
    header_before(lines, i + 1) matches Some(h) ==> keep(h)) by {
        lemma_header_before(lines, i + 1);
    }
}

proof fn lemma_dropped_values(
    lines: Seq<LineView>,
    keep: spec_fn(int) -> bool,
    key: ConfigKey<Seq<u8>>,
    n: int,
)
    requires
        forall|i: int| 0 <= i < n && key_at(lines, i) == Some(key) ==> !#[trigger] keep(i),
    ensures
        kept_values(lines, keep, key, n).len() == 0,
    decreases n,
{
    if n > 0 {
        lemma_dropped_values(lines, keep, key, n - 1);
        assert(key_at(lines, n - 1) == Some(key) ==> !keep(n - 1));
    }
}

proof fn lemma_all_kept_values(
    lines: Seq<LineView>,
    keep: spec_fn(int) -> bool,
    key: ConfigKey<Seq<u8>>,
    n: int,
)
    requires
        forall|i: int| 0 <= i < n && key_at(lines, i) == Some(key) ==> #[trigger] keep(i),
    ensures
        kept_values(lines, keep, key, n) == values_before(lines, key, n),
    decreases n,
{
    if n > 0 {
        lemma_all_kept_values(lines, keep, key, n - 1);
        assert(key_at(lines, n - 1) == Some(key) ==> keep(n - 1));
    }
}

/// Removing the one definition of a variable leaves none, and leaves what other variables are set
/// to.
pub proof fn get_after_unset(lines: Seq<LineView>, name: Seq<u8>, other: Seq<u8>)
    requires
        lines.len() <= usize::MAX,
        with_unset(lines, name) is Ok,
    ensures
        ({
            let after = with_unset(lines, name)->Ok_0;
            &&& got(after, name) == Err::<Value<Seq<u8>>, _>(ConfigFileErrorKind::NotFound(name))
            &&& key_of_name(other) != key_of_name(name) ==> got(after, other) == got(lines, other)
                && got_all(after, other) == got_all(lines, other)
        }),
{
    let key = key_of_name(name)->0;
    let n = lines.len() as int;
    lemma_positions(lines, key, n);
    match lookup(lines, name) {
        Ok((_, pos)) => {
            let p = pos.0 as int;
            let keep = |i: int| key_at(lines, i) != Some(key);
            assert(positions_of(lines, key)[0] == pos);
            assert(key_at(lines, p) == Some(key));
            assert forall|i: int| 0 <= i < n implies #[trigger] keep(i) == (i != p) by {
                if key_at(lines, i) == Some(key) {
                    assert(positions_of(lines, key).contains(VariablePos(i as usize)));
                    let k = choose|k: int|
                        0 <= k < positions_of(lines, key).len() && positions_of(lines, key)[k]
                            == VariablePos(i as usize);
                    assert(k == 0);
                }
            }
            lemma_removed(lines, keep, p, n);
            assert(lines.take(n) =~= lines);
            get_after_unset_all(lines, name, other);
        },
        Err(_) => {},
    }
}

/// Keeping all lines but one removes it.
proof fn lemma_removed(lines: Seq<LineView>, keep: spec_fn(int) -> bool, p: int, n: int)
    requires
        0 <= p < lines.len(),
        0 <= n <= lines.len(),
        forall|i: int| 0 <= i < lines.len() ==> #[trigger] keep(i) == (i != p),
    ensures
        kept(lines, keep, n) == (if n <= p {
            lines.take(n)
        } else {
            lines.take(n).remove(p)
        }),
    decreases n,
{
    if n > 0 {
        lemma_removed(lines, keep, p, n - 1);
        assert(keep(n - 1) == (n - 1 != p));
        if n <= p {
            assert(kept(lines, keep, n) =~= lines.take(n));
        } else {
            assert(kept(lines, keep, n) =~= lines.take(n).remove(p));
        }
    } else {
        assert(kept(lines, keep, n) =~= lines.take(n));
    }
}

/// Removing a section removes its variables and all its headers, and leaves the variables of other
/// sections.
pub proof fn get_after_remove_section(
    lines: Seq<LineView>,
    section: SectionKey<Seq<u8>>,
    other: Seq<u8>,
)
    requires
        lines.len() <= usize::MAX,
    ensures
        ({
            let after = without_section(lines, section);
            &&& entries_of(after, section) is None
            &&& key_of_name(other) matches Some(k) ==> if k.section == section {
                got(after, other) == Err::<Value<Seq<u8>>, _>(ConfigFileErrorKind::NotFound(other))
            } else {
                got(after, other) == got(lines, other) && got_all(after, other) == got_all(
                    lines,
                    other,
                )
            }
        }),
{
    let n = lines.len() as int;
    let keep = |i: int| owner(lines, i) != Some(section);
    let after = without_section(lines, section);
    lemma_kept_owner(lines, keep, n);
    assert forall|i: int| 0 <= i < n && #[trigger] keep(i) && lines[i].kind is Variable implies (
    header_before(lines, i + 1) matches Some(h) ==> keep(h)) by {
        lemma_header_before(lines, i + 1);
        if let Some(h) = header_before(lines, i + 1) {
            assert(header_before(lines, h + 1) == Some(h));
        }
    }
    lemma_kept_from(lines, keep, n);
    assert(!has_section(after, section)) by {
        if has_section(after, section) {
            let j = choose|j: int|
                0 <= j < after.len() && (#[trigger] after[j]).kind is Header && section_of(after[j])
                    == section;
            assert(comes_from(lines, keep, n, after[j]));
            let i = choose|i: int| 0 <= i < n && #[trigger] keep(i) && after[j] == lines[i];
            assert(header_before(lines, i + 1) == Some(i));
        }
    }
    if let Some(k) = key_of_name(other) {
        lemma_kept_values(lines, keep, k, n);
        if k.section == section {
            lemma_dropped_values(lines, keep, k, n);
        } else {
            lemma_all_kept_values(lines, keep, k, n);
        }
        lemma_got(after, other, k);
        lemma_got(lines, other, k);
    }
}

/// The line is one of those of the first `n` that are to be kept.
spec fn comes_from(
    lines: Seq<LineView>,
    keep: spec_fn(int) -> bool,
    n: int,
    line: LineView,
) -> bool {
    exists|i: int| 0 <= i < n && #[trigger] keep(i) && line == lines[i]
}

/// What is kept comes from a line that is to be kept.
proof fn lemma_kept_from(lines: Seq<LineView>, keep: spec_fn(int) -> bool, n: int)
    requires
        0 <= n <= lines.len(),
    ensures
        forall|j: int|
            0 <= j < kept(lines, keep, n).len() ==> comes_from(
                lines,
                keep,
                n,
                #[trigger] kept(lines, keep, n)[j],
            ),
    decreases n,
{
    if n > 0 {
        lemma_kept_from(lines, keep, n - 1);
        let before = kept(lines, keep, n - 1);
        let after = kept(lines, keep, n);
        assert forall|j: int| 0 <= j < after.len() implies comes_from(
            lines,
            keep,
            n,
            #[trigger] after[j],
        ) by {
            if j < before.len() {
                assert(after[j] == before[j]);
                assert(comes_from(lines, keep, n - 1, before[j]));
                let i = choose|i: int| 0 <= i < n - 1 && #[trigger] keep(i) && before[j] == lines[i];
                assert(keep(i));
            } else {
                assert(keep(n - 1));
            }
        }
    }
}

/// The lines of every file that is held in memory fit, as the laws on edits ask for of a file before
/// and after an edit.
pub proof fn files_in_memory_fit(file: ConfigFile)
    requires
        file.wf(),
    ensures
        lines_fit(file@),
{
    let doc = file.doc;
    assert(doc.lines.len() == doc@.len());
    assert forall|i: int| 0 <= i < doc@.len() implies kind_fits(
        (#[trigger] doc@[i]).bytes,
        doc@[i].kind,
    ) && doc@[i].bytes.len() <= usize::MAX by {
        let line = doc.lines@[i];
        assert(line.wf(doc.buf@));
        match line.content {
            LineContent::Slice(s) => {},
            LineContent::Owned(bytes) => {
                assert(bytes.len() == bytes@.len());
            },
        }
    }
}

} // verus!
