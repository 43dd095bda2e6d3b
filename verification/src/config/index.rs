//! Where the variables and the sections of a configuration file are.

use crate::bytes::downcased;
use crate::config::doc::{Line, LineView, NonEmpty, SectionBlock, VariablePos};
use crate::config::key::{ConfigKey, SectionKey};
use crate::config::lines::{lines_view, lines_wf};
use crate::config::parse::{span_bytes, LineKind};
use vstd::prelude::*;

verus! {

/// The section that a header starts.
pub open spec fn section_of(line: LineView) -> SectionKey<Seq<u8>> {
    match line.kind {
        LineKind::Header(header) => SectionKey {
            name: downcased(span_bytes(line.bytes, header.name)),
            subsection: match header.subsection {
                Some(s) => Some(span_bytes(line.bytes, s)),
                None => None,
            },
        },
        _ => SectionKey { name: Seq::empty(), subsection: None },
    }
}

/// The line of the last header among the first `n` lines.
pub open spec fn header_before(lines: Seq<LineView>, n: int) -> Option<int>
    decreases n,
{
    if n <= 0 || n > lines.len() {
        None
    } else if lines[n - 1].kind is Header {
        Some(n - 1)
    } else {
        header_before(lines, n - 1)
    }
}

/// The section that line `i` belongs to. A header belongs to the section it starts.
pub open spec fn owner(lines: Seq<LineView>, i: int) -> Option<SectionKey<Seq<u8>>> {
    match header_before(lines, i + 1) {
        Some(h) => Some(section_of(lines[h])),
        None => None,
    }
}

/// The name of the variable that a line defines, as it is written.
pub open spec fn written_name(line: LineView) -> Seq<u8> {
    match line.kind {
        LineKind::Variable { name, value } => span_bytes(line.bytes, name),
        _ => Seq::empty(),
    }
}

/// The variable that line `i` defines.
pub open spec fn key_at(lines: Seq<LineView>, i: int) -> Option<ConfigKey<Seq<u8>>> {
    if lines[i].kind is Variable {
        match owner(lines, i) {
            Some(section) => Some(ConfigKey { section, name: downcased(written_name(lines[i])) }),
            None => None,
        }
    } else {
        None
    }
}

/// The places among the first `n` lines where a variable is defined, in order.
pub open spec fn positions_before(
    lines: Seq<LineView>,
    key: ConfigKey<Seq<u8>>,
    n: int,
) -> Seq<VariablePos>
    decreases n,
{
    if n <= 0 {
        Seq::empty()
    } else if key_at(lines, n - 1) == Some(key) {
        positions_before(lines, key, n - 1).push(VariablePos((n - 1) as usize))
    } else {
        positions_before(lines, key, n - 1)
    }
}

/// The places where a variable is defined, in order.
pub open spec fn positions_of(lines: Seq<LineView>, key: ConfigKey<Seq<u8>>) -> Seq<VariablePos> {
    positions_before(lines, key, lines.len() as int)
}

/// The occurrence of a section from its header to before line `end`.
pub open spec fn block_to(lines: Seq<LineView>, end: int) -> SectionBlock {
    SectionBlock { start: header_before(lines, end)->0 as usize, end: end as usize }
}

/// The occurrences of a section that ended among the first `n` lines, at the header of the next
/// one.
pub open spec fn ended_blocks(
    lines: Seq<LineView>,
    section: SectionKey<Seq<u8>>,
    n: int,
) -> Seq<SectionBlock>
    decreases n,
{
    if n <= 0 {
        Seq::empty()
    } else if lines[n - 1].kind is Header && owner(lines, n - 2) == Some(section) {
        ended_blocks(lines, section, n - 1).push(block_to(lines, n - 1))
    } else {
        ended_blocks(lines, section, n - 1)
    }
}

/// The occurrences of a section, in order. The last section ends with the file.
pub open spec fn blocks_of(lines: Seq<LineView>, section: SectionKey<Seq<u8>>) -> Seq<SectionBlock> {
    let n = lines.len() as int;
    if owner(lines, n - 1) == Some(section) {
        ended_blocks(lines, section, n).push(block_to(lines, n))
    } else {
        ended_blocks(lines, section, n)
    }
}

/// A place where a variable is defined is a line that defines it, and the other way round.
pub proof fn lemma_positions(lines: Seq<LineView>, key: ConfigKey<Seq<u8>>, n: int)
    requires
        0 <= n <= lines.len() <= usize::MAX,
    ensures
        forall|k: int|
            0 <= k < positions_before(lines, key, n).len() ==> {
                let p = (#[trigger] positions_before(lines, key, n)[k]).0;
                p < n && key_at(lines, p as int) == Some(key)
            },
        forall|i: int|
            0 <= i < n && #[trigger] key_at(lines, i) == Some(key) ==> positions_before(
                lines,
                key,
                n,
            ).contains(VariablePos(i as usize)),
        positions_before(lines, key, n).len() <= n,
    decreases n,
{
    if n > 0 {
        lemma_positions(lines, key, n - 1);
        let before = positions_before(lines, key, n - 1);
        let after = positions_before(lines, key, n);
        assert forall|i: int| 0 <= i < n && #[trigger] key_at(lines, i) == Some(
            key,
        ) implies after.contains(VariablePos(i as usize)) by {
            if i == n - 1 {
                assert(after[before.len() as int] == VariablePos(i as usize));
            } else {
                let k = choose|k: int| 0 <= k < before.len() && before[k] == VariablePos(i as usize);
                assert(after[k] == VariablePos(i as usize));
            }
        }
    }
}

/// The last header before a line is a header before it.
pub proof fn lemma_header_before(lines: Seq<LineView>, n: int)
    requires
        0 <= n <= lines.len(),
    ensures
        match header_before(lines, n) {
            Some(h) => {
                &&& 0 <= h < n
                &&& lines[h].kind is Header
                &&& forall|i: int| h < i < n ==> !((#[trigger] lines[i]).kind is Header)
            },
            None => forall|i: int| 0 <= i < n ==> !((#[trigger] lines[i]).kind is Header),
        },
    decreases n,
{
    if n > 0 && !(lines[n - 1].kind is Header) {
        lemma_header_before(lines, n - 1);
    }
}

/// The places of one variable.
#[derive(Debug)]
pub struct KeyEntry {
    pub key: ConfigKey,
    pub positions: NonEmpty<VariablePos>,
}

/// The occurrences of one section.
#[derive(Debug)]
pub struct SectionEntry {
    pub key: SectionKey,
    pub blocks: NonEmpty<SectionBlock>,
}

/// Each variable and each section of a file, with its places.
#[derive(Debug)]
pub struct DocIndex {
    pub keys: Vec<KeyEntry>,
    pub sections: Vec<SectionEntry>,
}

/// What the entries say of a variable.
pub open spec fn positions_in(keys: Seq<KeyEntry>, key: ConfigKey<Seq<u8>>) -> Seq<VariablePos>
    decreases keys.len(),
{
    if keys.len() == 0 {
        Seq::empty()
    } else if keys[0].key@ == key {
        keys[0].positions@
    } else {
        positions_in(keys.skip(1), key)
    }
}

/// What the entries say of a section.
pub open spec fn blocks_in(sections: Seq<SectionEntry>, key: SectionKey<Seq<u8>>) -> Seq<SectionBlock>
    decreases sections.len(),
{
    if sections.len() == 0 {
        Seq::empty()
    } else if sections[0].key@ == key {
        sections[0].blocks@
    } else {
        blocks_in(sections.skip(1), key)
    }
}

/// The places of a variable ascend.
pub proof fn lemma_positions_ascend(lines: Seq<LineView>, key: ConfigKey<Seq<u8>>, n: int)
    requires
        0 <= n <= lines.len() <= usize::MAX,
    ensures
        forall|j: int, k: int|
            0 <= j < k < positions_before(lines, key, n).len() ==> (
            #[trigger] positions_before(lines, key, n)[j]).0 < (
            #[trigger] positions_before(lines, key, n)[k]).0,
    decreases n,
{
    if n > 0 {
        lemma_positions_ascend(lines, key, n - 1);
        lemma_positions(lines, key, n - 1);
    }
}

proof fn lemma_positions_in(keys: Seq<KeyEntry>, key: ConfigKey<Seq<u8>>, k: int)
    requires
        0 <= k <= keys.len(),
        forall|j: int| 0 <= j < k ==> (#[trigger] keys[j]).key@ != key,
        k < keys.len() ==> keys[k].key@ == key,
    ensures
        positions_in(keys, key) == (if k < keys.len() {
            keys[k].positions@
        } else {
            Seq::empty()
        }),
    decreases keys.len(),
{
    if keys.len() > 0 && k > 0 {
        assert(keys[0].key@ != key);
        assert forall|j: int| 0 <= j < k - 1 implies (#[trigger] keys.skip(1)[j]).key@ != key by {
            assert(keys.skip(1)[j] == keys[j + 1]);
        }
        lemma_positions_in(keys.skip(1), key, k - 1);
    }
}

proof fn lemma_positions_update(
    keys: Seq<KeyEntry>,
    k: int,
    e: KeyEntry,
    other: ConfigKey<Seq<u8>>,
)
    requires
        0 <= k < keys.len(),
        e.key@ == keys[k].key@,
        other != e.key@,
    ensures
        positions_in(keys.update(k, e), other) == positions_in(keys, other),
    decreases keys.len(),
{
    if k > 0 {
        assert(keys.update(k, e).skip(1) =~= keys.skip(1).update(k - 1, e));
        lemma_positions_update(keys.skip(1), k - 1, e, other);
    } else {
        assert(keys.update(k, e).skip(1) =~= keys.skip(1));
    }
}

proof fn lemma_positions_push(keys: Seq<KeyEntry>, e: KeyEntry, other: ConfigKey<Seq<u8>>)
    requires
        other != e.key@,
    ensures
        positions_in(keys.push(e), other) == positions_in(keys, other),
    decreases keys.len(),
{
    reveal_with_fuel(positions_in, 2);
    if keys.len() > 0 {
        assert(keys.push(e).skip(1) =~= keys.skip(1).push(e));
        lemma_positions_push(keys.skip(1), e, other);
    } else {
        assert(keys.push(e).skip(1) =~= Seq::<KeyEntry>::empty());
    }
}

proof fn lemma_blocks_in(sections: Seq<SectionEntry>, key: SectionKey<Seq<u8>>, k: int)
    requires
        0 <= k <= sections.len(),
        forall|j: int| 0 <= j < k ==> (#[trigger] sections[j]).key@ != key,
        k < sections.len() ==> sections[k].key@ == key,
    ensures
        blocks_in(sections, key) == (if k < sections.len() {
            sections[k].blocks@
        } else {
            Seq::empty()
        }),
    decreases sections.len(),
{
    if sections.len() > 0 && k > 0 {
        assert(sections[0].key@ != key);
        assert forall|j: int| 0 <= j < k - 1 implies (#[trigger] sections.skip(1)[j]).key@
            != key by {
            assert(sections.skip(1)[j] == sections[j + 1]);
        }
        lemma_blocks_in(sections.skip(1), key, k - 1);
    }
}

proof fn lemma_blocks_update(
    sections: Seq<SectionEntry>,
    k: int,
    e: SectionEntry,
    other: SectionKey<Seq<u8>>,
)
    requires
        0 <= k < sections.len(),
        e.key@ == sections[k].key@,
        other != e.key@,
    ensures
        blocks_in(sections.update(k, e), other) == blocks_in(sections, other),
    decreases sections.len(),
{
    if k > 0 {
        assert(sections.update(k, e).skip(1) =~= sections.skip(1).update(k - 1, e));
        lemma_blocks_update(sections.skip(1), k - 1, e, other);
    } else {
        assert(sections.update(k, e).skip(1) =~= sections.skip(1));
    }
}

proof fn lemma_blocks_push(sections: Seq<SectionEntry>, e: SectionEntry, other: SectionKey<Seq<u8>>)
    requires
        other != e.key@,
    ensures
        blocks_in(sections.push(e), other) == blocks_in(sections, other),
    decreases sections.len(),
{
    reveal_with_fuel(blocks_in, 2);
    if sections.len() > 0 {
        assert(sections.push(e).skip(1) =~= sections.skip(1).push(e));
        lemma_blocks_push(sections.skip(1), e, other);
    } else {
        assert(sections.push(e).skip(1) =~= Seq::<SectionEntry>::empty());
    }
}

/// The entry of a variable, or the number of entries.
fn find_key(keys: &Vec<KeyEntry>, key: &ConfigKey) -> (k: usize)
    ensures
        k <= keys@.len(),
        forall|j: int| 0 <= j < k ==> (#[trigger] keys@[j]).key@ != key@,
        k < keys@.len() ==> keys@[k as int].key@ == key@,
{
    let mut k: usize = 0;
    while k < keys.len()
        invariant
            k <= keys@.len(),
            forall|j: int| 0 <= j < k ==> (#[trigger] keys@[j]).key@ != key@,
        decreases keys@.len() - k,
    {
        if keys[k].key.same_as(key) {
            return k;
        }
        k = k + 1;
    }
    k
}

/// The entry of a section, or the number of entries.
fn find_section(sections: &Vec<SectionEntry>, key: &SectionKey) -> (k: usize)
    ensures
        k <= sections@.len(),
        forall|j: int| 0 <= j < k ==> (#[trigger] sections@[j]).key@ != key@,
        k < sections@.len() ==> sections@[k as int].key@ == key@,
{
    let mut k: usize = 0;
    while k < sections.len()
        invariant
            k <= sections@.len(),
            forall|j: int| 0 <= j < k ==> (#[trigger] sections@[j]).key@ != key@,
        decreases sections@.len() - k,
    {
        if sections[k].key.same_as(key) {
            return k;
        }
        k = k + 1;
    }
    k
}

/// Notes one more place of a variable.
fn add_position(keys: &mut Vec<KeyEntry>, key: ConfigKey, pos: VariablePos)
    ensures
        forall|other: ConfigKey<Seq<u8>>| #[trigger]
            positions_in(final(keys)@, other) == (if other == key@ {
                positions_in(old(keys)@, other).push(pos)
            } else {
                positions_in(old(keys)@, other)
            }),
{
    let k: usize = find_key(keys, &key);
    let ghost before = keys@;
    let ghost name = key@;
    proof {
        lemma_positions_in(before, name, k as int);
    }
    if k < keys.len() {
        let mut entry = keys.remove(k);
        entry.positions.push(pos);
        let ghost e = entry;
        keys.insert(k, entry);
        proof {
            assert(keys@ =~= before.update(k as int, e));
            lemma_positions_in(keys@, name, k as int);
            assert forall|other: ConfigKey<Seq<u8>>| other != name implies #[trigger] positions_in(
                keys@,
                other,
            ) == positions_in(before, other) by {
                lemma_positions_update(before, k as int, e, other);
            }
        }
    } else {
        let entry = KeyEntry { key, positions: NonEmpty::new(pos) };
        let ghost e = entry;
        keys.push(entry);
        proof {
            lemma_positions_in(keys@, name, k as int);
            assert(seq![pos] =~= Seq::<VariablePos>::empty().push(pos));
            assert forall|other: ConfigKey<Seq<u8>>| other != name implies #[trigger] positions_in(
                keys@,
                other,
            ) == positions_in(before, other) by {
                lemma_positions_push(before, e, other);
            }
        }
    }
}

/// Notes one more occurrence of a section.
fn add_block(sections: &mut Vec<SectionEntry>, key: SectionKey, block: SectionBlock)
    ensures
        forall|other: SectionKey<Seq<u8>>| #[trigger]
            blocks_in(final(sections)@, other) == (if other == key@ {
                blocks_in(old(sections)@, other).push(block)
            } else {
                blocks_in(old(sections)@, other)
            }),
{
    let k: usize = find_section(sections, &key);
    let ghost before = sections@;
    let ghost name = key@;
    proof {
        lemma_blocks_in(before, name, k as int);
    }
    if k < sections.len() {
        let mut entry = sections.remove(k);
        entry.blocks.push(block);
        let ghost e = entry;
        sections.insert(k, entry);
        proof {
            assert(sections@ =~= before.update(k as int, e));
            lemma_blocks_in(sections@, name, k as int);
            assert forall|other: SectionKey<Seq<u8>>| other != name implies #[trigger] blocks_in(
                sections@,
                other,
            ) == blocks_in(before, other) by {
                lemma_blocks_update(before, k as int, e, other);
            }
        }
    } else {
        let entry = SectionEntry { key, blocks: NonEmpty::new(block) };
        let ghost e = entry;
        sections.push(entry);
        proof {
            lemma_blocks_in(sections@, name, k as int);
            assert(seq![block] =~= Seq::<SectionBlock>::empty().push(block));
            assert forall|other: SectionKey<Seq<u8>>| other != name implies #[trigger] blocks_in(
                sections@,
                other,
            ) == blocks_in(before, other) by {
                lemma_blocks_push(before, e, other);
            }
        }
    }
}

impl Line {
    /// The section that a header starts.
    pub fn section_key(&self, buf: &[u8]) -> (key: SectionKey)
        requires
            self.wf(buf@),
            self.kind is Header,
        ensures
            key@ == section_of(self.view_in(buf@)),
    {
        match &self.kind {
            LineKind::Header(header) => {
                let name = self.slice(buf, &header.name);
                let subsection = match &header.subsection {
                    Some(s) => Some(self.slice(buf, s)),
                    None => None,
                };
                SectionKey::new_unchecked(name, subsection)
            },
            _ => SectionKey { name: Vec::new(), subsection: None },
        }
    }
}

impl DocIndex {
    pub open spec fn wf(&self, lines: Seq<LineView>) -> bool {
        &&& forall|key: ConfigKey<Seq<u8>>| #[trigger]
            positions_in(self.keys@, key) == positions_of(lines, key)
        &&& forall|key: SectionKey<Seq<u8>>| #[trigger]
            blocks_in(self.sections@, key) == blocks_of(lines, key)
    }

    /// Goes through the lines. A variable belongs to the section whose header was last seen above
    /// it, and so do blank lines and comments.
    pub fn new(buf: &[u8], lines: &Vec<Line>) -> (index: Self)
        requires
            lines_wf(lines@, buf@),
        ensures
            index.wf(lines_view(lines@, buf@)),
    {
        let mut keys: Vec<KeyEntry> = Vec::new();
        let mut sections: Vec<SectionEntry> = Vec::new();
        let mut current: Option<(SectionKey, usize)> = None;
        let ghost all = lines_view(lines@, buf@);
        let mut i: usize = 0;
        while i < lines.len()
            invariant
                i <= lines@.len(),
                lines_wf(lines@, buf@),
                all == lines_view(lines@, buf@),
                forall|key: ConfigKey<Seq<u8>>| #[trigger]
                    positions_in(keys@, key) == positions_before(all, key, i as int),
                forall|key: SectionKey<Seq<u8>>| #[trigger]
                    blocks_in(sections@, key) == ended_blocks(all, key, i as int),
                match current {
                    None => header_before(all, i as int) is None,
                    Some((key, start)) => header_before(all, i as int) == Some(start as int)
                        && key@ == section_of(all[start as int]) && start < i,
                },
            decreases lines@.len() - i,
        {
            let line = &lines[i];
            assert(lines@[i as int].wf(buf@));
            assert(all[i as int] == line.view_in(buf@));
            assert(owner(all, i - 1) == (match current {
                Some((key, start)) => Some(key@),
                None => None,
            }));
            match &line.kind {
                LineKind::Header(header) => {
                    match current {
                        Some((key, start)) => {
                            add_block(&mut sections, key, SectionBlock { start, end: i });
                        },
                        None => {},
                    }
                    current = Some((line.section_key(buf), i));
                },
                LineKind::Variable { name, value } => {
                    match &current {
                        Some((section, start)) => {
                            let key = ConfigKey::new_unchecked(
                                section.copied(),
                                line.slice(buf, name),
                            );
                            assert(key_at(all, i as int) == Some(key@));
                            add_position(&mut keys, key, VariablePos(i));
                        },
                        None => {
                            assert(key_at(all, i as int) is None);
                        },
                    }
                },
                _ => {},
            }
            i = i + 1;
        }
        // the last section ends with the file
        match current {
            Some((key, start)) => {
                add_block(&mut sections, key, SectionBlock { start, end: lines.len() });
            },
            None => {},
        }
        Self { keys, sections }
    }

    /// The places where a variable is defined.
    pub fn key_positions(&self, key: &ConfigKey) -> (r: Option<&NonEmpty<VariablePos>>)
        ensures
            match r {
                Some(positions) => positions@ == positions_in(self.keys@, key@),
                None => positions_in(self.keys@, key@).len() == 0,
            },
    {
        let k: usize = find_key(&self.keys, key);
        proof {
            lemma_positions_in(self.keys@, key@, k as int);
        }
        if k < self.keys.len() {
            Some(&self.keys[k].positions)
        } else {
            None
        }
    }

    /// The place of the last line that defines a variable.
    pub fn key_last_pos(&self, key: &ConfigKey) -> (r: Option<VariablePos>)
        ensures
            r == last_of(positions_in(self.keys@, key@)),
    {
        match self.key_positions(key) {
            Some(positions) => Some(positions.last()),
            None => None,
        }
    }

    /// The last occurrence of a section, where a new variable goes.
    pub fn last_block(&self, section: &SectionKey) -> (r: Option<SectionBlock>)
        ensures
            r == last_of(blocks_in(self.sections@, section@)),
    {
        let k: usize = find_section(&self.sections, section);
        proof {
            lemma_blocks_in(self.sections@, section@, k as int);
        }
        if k < self.sections.len() {
            Some(self.sections[k].blocks.last())
        } else {
            None
        }
    }
}

/// The last element, if there is one.
pub open spec fn last_of<T>(s: Seq<T>) -> Option<T> {
    if s.len() == 0 {
        None
    } else {
        Some(s.last())
    }
}

} // verus!
