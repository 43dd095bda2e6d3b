//! What reading a variable or a section gives, in terms of the lines that define it.

use crate::bytes::{decimal_value, lemma_ascii_text, text};
use crate::config::doc::{entries_before, entries_of, value_of, LineView, Value, VariablePos};
use crate::config::index::{
    key_at, lemma_positions, lemma_positions_ascend, owner, positions_before, positions_of,
    section_of, written_name,
};
use crate::config::key::{key_of_name, ConfigKey, SectionKey};
use crate::config::{got, got_all, got_bool, got_bytes, got_int, got_str, ConfigFileErrorKind};
use vstd::prelude::*;
use vstd::string::*;
use vstd::utf8::*;

verus! {

/// A variable that no line defines is not found, one that a single line defines has the value of
/// that line, and one that two lines define has no single value.
pub proof fn single_values_need_single_definitions(
    lines: Seq<LineView>,
    name: Seq<u8>,
    key: ConfigKey<Seq<u8>>,
    i: int,
    j: int,
)
    requires
        lines.len() <= usize::MAX,
        key_of_name(name) == Some(key),
        0 <= i < lines.len(),
        0 <= j < lines.len(),
    ensures
        (forall|k: int| 0 <= k < lines.len() ==> #[trigger] key_at(lines, k) != Some(key)) ==> got(
            lines,
            name,
        ) == Err::<Value<Seq<u8>>, _>(ConfigFileErrorKind::NotFound(name)) && got_all(lines, name)
            == Err::<Seq<Value<Seq<u8>>>, _>(ConfigFileErrorKind::NotFound(name)),
        key_at(lines, i) == Some(key) && (forall|k: int|
            0 <= k < lines.len() && k != i ==> #[trigger] key_at(lines, k) != Some(key)) ==> got(
            lines,
            name,
        ) == Ok::<_, ConfigFileErrorKind<Seq<u8>>>(value_of(lines[i])),
        i != j && key_at(lines, i) == Some(key) && key_at(lines, j) == Some(key) ==> got(lines, name)
            == Err::<Value<Seq<u8>>, _>(ConfigFileErrorKind::MultipleValues(name)),
{
    let n = lines.len() as int;
    let at = positions_of(lines, key);
    lemma_positions(lines, key, n);
    lemma_positions_ascend(lines, key, n);
    if forall|k: int| 0 <= k < n ==> #[trigger] key_at(lines, k) != Some(key) {
        if at.len() > 0 {
            assert(key_at(lines, at[0].0 as int) == Some(key));
        }
    }
    if key_at(lines, i) == Some(key) {
        let a = at.index_of(VariablePos(i as usize));
        assert(at.contains(VariablePos(i as usize)));
        if at.len() > 1 {
            assert(at[0].0 < at[1].0);
            assert(key_at(lines, at[0].0 as int) == Some(key));
            assert(key_at(lines, at[1].0 as int) == Some(key));
        } else {
            assert(at[0] == VariablePos(i as usize));
        }
        if i != j && key_at(lines, j) == Some(key) {
            assert(at.contains(VariablePos(j as usize)));
            let b = at.index_of(VariablePos(j as usize));
            assert(a != b);
        }
    }
}

/// These are the lines that define a variable, in order.
pub open spec fn define(at: Seq<int>, lines: Seq<LineView>, key: ConfigKey<Seq<u8>>) -> bool {
    &&& forall|j: int, k: int| 0 <= j < k < at.len() ==> #[trigger] at[j] < #[trigger] at[k]
    &&& forall|k: int|
        0 <= k < at.len() ==> 0 <= #[trigger] at[k] < lines.len() && key_at(lines, at[k]) == Some(
            key,
        )
    &&& forall|i: int|
        0 <= i < lines.len() && #[trigger] key_at(lines, i) == Some(key) ==> at.contains(i)
}

/// All the values of a variable are those of the lines that define it, in the order of the lines.
pub proof fn all_values_come_in_order(
    lines: Seq<LineView>,
    name: Seq<u8>,
    key: ConfigKey<Seq<u8>>,
    at: Seq<int>,
)
    requires
        lines.len() <= usize::MAX,
        key_of_name(name) == Some(key),
        define(at, lines, key),
        at.len() > 0,
    ensures
        got_all(lines, name) matches Ok(values) && values.len() == at.len() && forall|k: int|
            0 <= k < at.len() ==> #[trigger] values[k] == value_of(lines[at[k]]),
{
    lemma_defining_lines(lines, key, at, lines.len() as int, at.len() as int);
    assert(at.take(at.len() as int) =~= at);
}

proof fn lemma_defining_lines(
    lines: Seq<LineView>,
    key: ConfigKey<Seq<u8>>,
    at: Seq<int>,
    n: int,
    m: int,
)
    requires
        0 <= n <= lines.len() <= usize::MAX,
        0 <= m <= at.len(),
        define(at, lines, key),
        forall|k: int| 0 <= k < m ==> #[trigger] at[k] < n,
        forall|k: int| m <= k < at.len() ==> #[trigger] at[k] >= n,
    ensures
        positions_before(lines, key, n).len() == m,
        forall|k: int|
            0 <= k < m ==> (#[trigger] positions_before(lines, key, n)[k]).0 == at[k],
    decreases n,
{
    if n > 0 {
        if key_at(lines, n - 1) == Some(key) {
            assert(at.contains(n - 1));
            let k = at.index_of(n - 1);
            assert(at[k] == n - 1);
            assert(k == m - 1) by {
                if k < m - 1 {
                    assert(at[k] < at[m - 1]);
                }
            }
            lemma_defining_lines(lines, key, at, n - 1, m - 1);
        } else {
            lemma_defining_lines(lines, key, at, n - 1, m);
        }
    } else if m > 0 {
        assert(at[0] < 0);
    }
}

/// These are the lines that define the variables of a section, in order.
pub open spec fn are_within(at: Seq<int>, lines: Seq<LineView>, section: SectionKey<Seq<u8>>) -> bool {
    &&& forall|j: int, k: int| 0 <= j < k < at.len() ==> #[trigger] at[j] < #[trigger] at[k]
    &&& forall|k: int|
        0 <= k < at.len() ==> 0 <= #[trigger] at[k] < lines.len() && lines[at[k]].kind is Variable
            && owner(lines, at[k]) == Some(section)
    &&& forall|i: int|
        0 <= i < lines.len() && (#[trigger] lines[i]).kind is Variable && owner(lines, i) == Some(
            section,
        ) ==> at.contains(i)
}

/// The variables of a section are those of its lines, in the order of the lines, each with its name
/// as it is written and its value. A section that no header starts has none, not even no
/// variables.
pub proof fn sections_list_their_variables(
    lines: Seq<LineView>,
    section: SectionKey<Seq<u8>>,
    at: Seq<int>,
)
    requires
        are_within(at, lines, section),
    ensures
        entries_of(lines, section) is Some <==> exists|i: int|
            0 <= i < lines.len() && (#[trigger] lines[i]).kind is Header && section_of(lines[i])
                == section,
        entries_of(lines, section) matches Some(entries) ==> entries.len() == at.len() && forall|
            k: int,
        |
            0 <= k < at.len() ==> (#[trigger] entries[k]).name == written_name(lines[at[k]])
                && entries[k].value == value_of(lines[at[k]]),
{
    lemma_section_lines(lines, section, at, lines.len() as int, at.len() as int);
}

proof fn lemma_section_lines(
    lines: Seq<LineView>,
    section: SectionKey<Seq<u8>>,
    at: Seq<int>,
    n: int,
    m: int,
)
    requires
        0 <= n <= lines.len(),
        0 <= m <= at.len(),
        are_within(at, lines, section),
        forall|k: int| 0 <= k < m ==> #[trigger] at[k] < n,
        forall|k: int| m <= k < at.len() ==> #[trigger] at[k] >= n,
    ensures
        entries_before(lines, section, n).len() == m,
        forall|k: int|
            0 <= k < m ==> (#[trigger] entries_before(lines, section, n)[k]).name == written_name(
                lines[at[k]],
            ) && entries_before(lines, section, n)[k].value == value_of(lines[at[k]]),
    decreases n,
{
    if n > 0 {
        if lines[n - 1].kind is Variable && owner(lines, n - 1) == Some(section) {
            assert(at.contains(n - 1));
            let k = at.index_of(n - 1);
            assert(at[k] == n - 1);
            assert(k == m - 1) by {
                if k < m - 1 {
                    assert(at[k] < at[m - 1]);
                }
            }
            lemma_section_lines(lines, section, at, n - 1, m - 1);
        } else {
            if m > 0 && at[m - 1] == n - 1 {
                assert(lines[at[m - 1]].kind is Variable);
            }
            lemma_section_lines(lines, section, at, n - 1, m);
        }
    } else if m > 0 {
        assert(at[0] < 0);
    }
}

/// A value is a truth value if it is `true` or `false`, a number if it is made of digits and fits in
/// 64 bits, a text if it is UTF-8, and bytes in any case.
pub proof fn values_are_read_by_their_type(
    lines: Seq<LineView>,
    name: Seq<u8>,
    b: Seq<u8>,
    expected: &'static str,
)
    requires
        got(lines, name) == Ok::<_, ConfigFileErrorKind<Seq<u8>>>(Value::Bytes(b)),
    ensures
        got_bool(lines, name) == Ok::<bool, ConfigFileErrorKind<Seq<u8>>>(true) <==> b == seq![
            0x74u8,
            0x72,
            0x75,
            0x65,
        ],
        got_bool(lines, name) == Ok::<bool, ConfigFileErrorKind<Seq<u8>>>(false) <==> b == seq![
            0x66u8,
            0x61,
            0x6c,
            0x73,
            0x65,
        ],
        got_int(lines, name) is Ok <==> (forall|i: int|
            0 <= i < b.len() ==> 0x30 <= #[trigger] b[i] <= 0x39) && decimal_value(b)
            <= 0xffff_ffff_ffff_ffff,
        got_int(lines, name) matches Ok(n) ==> n == decimal_value(b),
        got_str(lines, name) is Ok <==> valid_utf8(b),
        got_str(lines, name) matches Ok(s) ==> s == b,
        got_bytes(lines, name, expected) == Ok::<_, ConfigFileErrorKind<Seq<u8>>>(b),
{
    reveal_strlit("true");
    reveal_strlit("false");
    lemma_ascii_text("true");
    lemma_ascii_text("false");
    assert(text("true") =~= seq![0x74u8, 0x72, 0x75, 0x65]);
    assert(text("false") =~= seq![0x66u8, 0x61, 0x6c, 0x73, 0x65]);
    assert(text("true").len() == 4 && text("false").len() == 5);
}

/// A variable without a value is true. It is no number, no text and no bytes.
pub proof fn names_alone_are_only_true(lines: Seq<LineView>, name: Seq<u8>, expected: &'static str)
    requires
        got(lines, name) == Ok::<_, ConfigFileErrorKind<Seq<u8>>>(Value::<Seq<u8>>::ImplicitlyTrue),
    ensures
        got_bool(lines, name) == Ok::<bool, ConfigFileErrorKind<Seq<u8>>>(true),
        got_int(lines, name) is Err,
        got_str(lines, name) is Err,
        got_bytes(lines, name, expected) is Err,
{
}

} // verus!
