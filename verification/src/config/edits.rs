//! What an edit does to the lines of a file.

use crate::bytes::{lemma_ascii_text, text};
use crate::config::doc::{
    kept, lemma_block, variable_line, with_newline, without_key, LineView, SectionBlock,
    VariablePos,
};
use crate::config::index::{
    blocks_of, ended_blocks, header_before, key_at, last_of, lemma_header_before, lemma_positions,
    owner, positions_before, positions_of, section_of, written_name,
};
use crate::config::key::{key_of_name, ConfigKey, SectionKey};
use crate::config::value::encoded;
use crate::config::{with_set, with_unset_all};
use vstd::prelude::*;
use vstd::string::*;

verus! {

/// How a definition is written: a tab, the name, ` = ` and the value.
pub open spec fn definition(name: Seq<u8>, value: Seq<u8>) -> Seq<u8> {
    seq![0x09u8] + name + seq![0x20u8, 0x3d, 0x20] + encoded(value) + seq![0x0au8]
}

proof fn lemma_definition(name: Seq<u8>, value: Seq<u8>)
    ensures
        variable_line(name, value).bytes == definition(name, value),
{
    reveal_strlit(" = ");
    lemma_ascii_text(" = ");
    assert(text(" = ") =~= seq![0x20u8, 0x3d, 0x20]);
}

proof fn lemma_positions_ascend(lines: Seq<LineView>, key: ConfigKey<Seq<u8>>, n: int)
    requires
        0 <= n <= lines.len() <= usize::MAX,
    ensures
        forall|k: int, l: int|
            0 <= k < l < positions_before(lines, key, n).len() ==> (#[trigger] positions_before(
                lines,
                key,
                n,
            )[k]).0 < (#[trigger] positions_before(lines, key, n)[l]).0,
    decreases n,
{
    if n > 0 {
        lemma_positions_ascend(lines, key, n - 1);
        lemma_positions(lines, key, n - 1);
    }
}

/// A variable that is set again is written anew in its place, under the name that it had. All other
/// lines stay as they are.
pub proof fn setting_again_changes_one_line(
    lines: Seq<LineView>,
    name: Seq<u8>,
    value: Seq<u8>,
    p: int,
)
    requires
        lines.len() <= usize::MAX,
        key_of_name(name) is Some,
        0 <= p < lines.len(),
        forall|i: int|
            0 <= i < lines.len() ==> (#[trigger] key_at(lines, i) == key_of_name(name) <==> i == p),
    ensures
        with_set(lines, name, value) matches Ok(after) && after.len() == lines.len() && (forall|
            i: int,
        |
            0 <= i < lines.len() && i != p ==> #[trigger] after[i] == lines[i]) && after[p].bytes
            == definition(written_name(lines[p]), value),
{
    let key = key_of_name(name)->0;
    let places = positions_of(lines, key);
    lemma_positions(lines, key, lines.len() as int);
    lemma_positions_ascend(lines, key, lines.len() as int);
    assert(key_at(lines, p) == Some(key));
    assert(places.contains(VariablePos(p as usize)));
    assert(places.len() == 1) by {
        let k = choose|k: int| 0 <= k < places.len() && places[k] == VariablePos(p as usize);
        if places.len() > 1 {
            let l: int = if k == 0 {
                1
            } else {
                0
            };
            assert(places[l].0 < lines.len());
            assert(key_at(lines, places[l].0 as int) == Some(key));
            assert(places[l] == places[k]);
        }
    }
    assert(places[0] == VariablePos(p as usize));
    lemma_definition(written_name(lines[p]), value);
}

proof fn lemma_last_block(
    lines: Seq<LineView>,
    section: SectionKey<Seq<u8>>,
    n: int,
    h: int,
    end: int,
)
    requires
        0 <= h < end < n <= lines.len() <= usize::MAX,
        lines[h].kind is Header,
        section_of(lines[h]) == section,
        forall|i: int| h < i < end ==> !((#[trigger] lines[i]).kind is Header),
        lines[end].kind is Header,
        forall|i: int|
            end <= i < lines.len() && (#[trigger] lines[i]).kind is Header ==> section_of(lines[i])
                != section,
    ensures
        last_of(ended_blocks(lines, section, n)) == Some(
            SectionBlock { start: h as usize, end: end as usize },
        ),
    decreases n,
{
    if n - 1 == end {
        lemma_header_before(lines, end);
        assert(header_before(lines, end) == Some(h)) by {
            let found = header_before(lines, end);
            if found is None {
                assert(!(lines[h].kind is Header));
            } else if found->0 < h {
                assert(!(lines[h].kind is Header));
            } else if found->0 > h {
                assert(!(lines[found->0].kind is Header));
            }
        }
    } else {
        lemma_last_block(lines, section, n - 1, h, end);
        lemma_header_before(lines, n - 1);
        if header_before(lines, n - 1) is None {
            assert(!(lines[end].kind is Header));
        } else {
            let found = header_before(lines, n - 1)->0;
            if found < end {
                assert(!(lines[end].kind is Header));
            }
            assert(section_of(lines[found]) != section);
        }
    }
}

/// A variable that is not defined yet is written at the end of the last occurrence of its section,
/// in front of the next header or at the end of the file. All lines stay as they are, but for a
/// newline that the last one may lack.
pub proof fn new_variables_join_their_section(
    lines: Seq<LineView>,
    name: Seq<u8>,
    value: Seq<u8>,
    h: int,
    end: int,
)
    requires
        lines.len() <= usize::MAX,
        key_of_name(name) is Some,
        forall|i: int| 0 <= i < lines.len() ==> #[trigger] key_at(lines, i) != key_of_name(name),
        0 <= h < end <= lines.len(),
        lines[h].kind is Header,
        section_of(lines[h]) == key_of_name(name)->0.section,
        forall|i: int| h < i < end ==> !((#[trigger] lines[i]).kind is Header),
        end < lines.len() ==> lines[end].kind is Header,
        forall|i: int|
            end <= i < lines.len() && (#[trigger] lines[i]).kind is Header ==> section_of(lines[i])
                != key_of_name(name)->0.section,
    ensures
        with_set(lines, name, value) matches Ok(after) && after.len() == lines.len() + 1 && (forall|
            i: int,
        |
            0 <= i < end - 1 ==> #[trigger] after[i] == lines[i]) && after[end - 1] == with_newline(
            lines[end - 1],
        ) && after[end].bytes == definition(key_of_name(name)->0.name, value) && (forall|i: int|
            end <= i < lines.len() ==> after[i + 1] == #[trigger] lines[i]),
{
    let key = key_of_name(name)->0;
    let n = lines.len() as int;
    lemma_undefined(lines, key);
    lemma_header_before(lines, n);
    let block = SectionBlock { start: h as usize, end: end as usize };
    if end < n {
        lemma_last_block(lines, key.section, n, h, end);
        assert(owner(lines, n - 1) != Some(key.section)) by {
            if header_before(lines, n) is Some {
                let found = header_before(lines, n)->0;
                if found < end {
                    assert(!(lines[end].kind is Header));
                }
            }
        }
    } else {
        assert(header_before(lines, n) == Some(h)) by {
            let found = header_before(lines, n);
            if found is None {
                assert(!(lines[h].kind is Header));
            } else if found->0 < h {
                assert(!(lines[h].kind is Header));
            } else if found->0 > h {
                assert(!(lines[found->0].kind is Header));
            }
        }
    }
    assert(last_of(blocks_of(lines, key.section)) == Some(block));
    lemma_definition(key.name, value);
}

proof fn lemma_undefined(lines: Seq<LineView>, key: ConfigKey<Seq<u8>>)
    requires
        lines.len() <= usize::MAX,
        forall|i: int| 0 <= i < lines.len() ==> #[trigger] key_at(lines, i) != Some(key),
    ensures
        positions_of(lines, key).len() == 0,
{
    lemma_positions(lines, key, lines.len() as int);
    let places = positions_of(lines, key);
    if places.len() > 0 {
        assert(places[0].0 < lines.len());
        assert(key_at(lines, places[0].0 as int) == Some(key));
    }
}

/// A variable of a section that the file does not have is written at the end, below a header of its
/// own.
pub proof fn new_sections_come_last(lines: Seq<LineView>, name: Seq<u8>, value: Seq<u8>)
    requires
        lines.len() <= usize::MAX,
        key_of_name(name) is Some,
        forall|i: int|
            0 <= i < lines.len() && (#[trigger] lines[i]).kind is Header ==> section_of(lines[i])
                != key_of_name(name)->0.section,
    ensures
        ({
            let key = key_of_name(name)->0;
            let n = lines.len() as int;
            with_set(lines, name, value) matches Ok(after) && after.len() == n + 2 && (forall|
                i: int,
            |
                0 <= i < n - 1 ==> #[trigger] after[i] == lines[i]) && (n > 0 ==> after[n - 1]
                == with_newline(lines[n - 1])) && after[n].bytes == seq![0x5bu8] + key.section.name
                + (match key.section.subsection {
                Some(s) => seq![0x20u8, 0x22] + s + seq![0x22u8],
                None => Seq::empty(),
            }) + seq![0x5du8, 0x0a] && after[n + 1].bytes == definition(key.name, value)
        }),
{
    let key = key_of_name(name)->0;
    let n = lines.len() as int;
    assert forall|i: int| 0 <= i < n implies #[trigger] key_at(lines, i) != Some(key) by {
        lemma_header_before(lines, i + 1);
    }
    lemma_undefined(lines, key);
    lemma_block(lines, key.section);
    assert(last_of(blocks_of(lines, key.section)) is None) by {
        if let Some(block) = last_of(blocks_of(lines, key.section)) {
            assert(lines[block.start as int].kind is Header);
        }
    }
    lemma_definition(key.name, value);
    reveal_strlit("]\n");
    reveal_strlit(" \"");
    lemma_ascii_text("]\n");
    lemma_ascii_text(" \"");
    assert(text("]\n") =~= seq![0x5du8, 0x0a]);
    assert(text(" \"") =~= seq![0x20u8, 0x22]);
    let after = with_set(lines, name, value)->Ok_0;
    assert(after[n].bytes =~= seq![0x5bu8] + key.section.name + (match key.section.subsection {
        Some(s) => seq![0x20u8, 0x22] + s + seq![0x22u8],
        None => Seq::empty(),
    }) + seq![0x5du8, 0x0a]);
}

/// A line gets a newline only if it has none.
pub proof fn newlines_are_added_once(line: LineView)
    ensures
        line.bytes.len() > 0 && line.bytes.last() == 0x0a ==> with_newline(line) == line,
        !(line.bytes.len() > 0 && line.bytes.last() == 0x0a) ==> with_newline(line) == (LineView {
            bytes: line.bytes + seq![0x0au8],
            kind: line.kind,
        }),
{
    assert(line.bytes.push(0x0a) =~= line.bytes + seq![0x0au8]);
}

proof fn lemma_kept(lines: Seq<LineView>, keep: spec_fn(int) -> bool, n: int, m: int)
    requires
        0 <= n <= m <= lines.len(),
    ensures
        kept(lines, keep, n).len() <= kept(lines, keep, m).len(),
        kept(lines, keep, m).take(kept(lines, keep, n).len() as int) == kept(lines, keep, n),
    decreases m,
{
    if n < m {
        lemma_kept(lines, keep, n, m - 1);
        let a = kept(lines, keep, n);
        assert(kept(lines, keep, m).take(a.len() as int) =~= kept(lines, keep, m - 1).take(
            a.len() as int,
        ));
    } else {
        assert(kept(lines, keep, n).take(kept(lines, keep, n).len() as int) =~= kept(
            lines,
            keep,
            n,
        ));
    }
}

/// Removing a variable removes the lines that define it and no others: the rest follow one another
/// as before, comments and all.
pub proof fn removing_keeps_the_other_lines(lines: Seq<LineView>, name: Seq<u8>, i: int)
    requires
        lines.len() <= usize::MAX,
        key_of_name(name) is Some,
        0 <= i < lines.len(),
    ensures
        ({
            let key = key_of_name(name);
            let after = with_unset_all(lines, name)->Ok_0;
            let keep = |j: int| key_at(lines, j) != key;
            let before = kept(lines, keep, i);
            &&& with_unset_all(lines, name) is Ok
            &&& after == kept(lines, keep, lines.len() as int)
            &&& key_at(lines, i) != key ==> after.len() > before.len() && after[before.len() as int]
                == lines[i] && kept(lines, keep, i + 1).len() == before.len() + 1
            &&& key_at(lines, i) == key ==> kept(lines, keep, i + 1) == before
            &&& kept(lines, keep, 0).len() == 0
        }),
{
    let key = key_of_name(name);
    let keep = |j: int| key_at(lines, j) != key;
    let after = without_key(lines, key->0);
    assert(after == kept(lines, keep, lines.len() as int));
    lemma_kept(lines, keep, i + 1, lines.len() as int);
    if key_at(lines, i) != key {
        let here = kept(lines, keep, i + 1);
        assert(after.take(here.len() as int)[here.len() - 1] == here.last());
    }
}

} // verus!
