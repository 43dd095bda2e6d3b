//! A configuration file as the list of its lines. Nothing of the file is lost, so that what was
//! not edited is written back as it was read.

use crate::bytes::{
    append, append_text, copy_of, lemma_ascii_text, text, CLOSE_BRACKET, LF, OPEN_BRACKET, QUOTE,
    SPACE, TAB,
};
use crate::config::index::{
    blocks_of, ended_blocks, key_at, last_of, lemma_header_before, lemma_positions, owner,
    positions_of, section_of, written_name, DocIndex,
};
use crate::config::key::{ConfigKey, SectionKey};
use crate::config::lines::{lines_of, lines_view, lines_wf, read_lines, ConfigDocError};
use crate::config::parse::{
    is_name, kind_fits, line_span, span_bytes, span_fits, spec_is_alphabetic, Header, LineKind,
    LineSpan,
};
use crate::config::value::{
    encode_value, encoded, interpret_value, interpreted, interpreting_inverts_encoding,
};
use vstd::prelude::*;
use vstd::slice::slice_subrange;
use vstd::string::*;

verus! {

/// The place of a variable among the lines.
#[derive(Debug, Clone, Copy, PartialEq, Eq, Structural)]
pub struct VariablePos(pub usize);

impl VariablePos {
    pub fn get(&self) -> (r: usize)
        ensures
            r == self.0,
    {
        self.0
    }
}

/// A list with at least one element.
#[derive(Debug)]
pub struct NonEmpty<T> where T: Copy {
    pub head: T,
    pub rest: Vec<T>,
}

impl<T> View for NonEmpty<T> where T: Copy {
    type V = Seq<T>;

    open spec fn view(&self) -> Seq<T> {
        seq![self.head] + self.rest@
    }
}

impl<T> NonEmpty<T> where T: Copy {
    pub fn new(head: T) -> (r: Self)
        ensures
            r@ == seq![head],
    {
        let r = Self { head, rest: Vec::new() };
        assert(r@ =~= seq![head]);
        r
    }

    pub fn push(&mut self, val: T)
        ensures
            final(self)@ == old(self)@.push(val),
    {
        self.rest.push(val);
        assert(self@ =~= old(self)@.push(val));
    }

    pub fn first(&self) -> (r: T)
        ensures
            r == self@[0],
    {
        self.head
    }

    pub fn len(&self) -> (r: usize)
        requires
            self@.len() <= usize::MAX,
        ensures
            r == self@.len(),
    {
        1 + self.rest.len()
    }

    pub fn last(&self) -> (r: T)
        ensures
            r == self@.last(),
    {
        let n: usize = self.rest.len();
        if n == 0 {
            self.head
        } else {
            self.rest[n - 1]
        }
    }

    /// Is there just one element?
    pub fn single(&self) -> (r: bool)
        ensures
            r == (self@.len() == 1),
    {
        self.rest.len() == 0
    }

    /// The elements in order.
    pub fn to_vec(&self) -> (r: Vec<T>)
        ensures
            r@ == self@,
    {
        let mut out: Vec<T> = Vec::new();
        out.push(self.head);
        let mut i: usize = 0;
        assert(out@ =~= self@.take(1));
        while i < self.rest.len()
            invariant
                i <= self.rest@.len(),
                out@ == self@.take(i + 1),
            decreases self.rest@.len() - i,
        {
            out.push(self.rest[i]);
            i = i + 1;
            assert(out@ =~= self@.take(i + 1));
        }
        assert(out@ =~= self@);
        out
    }
}

/// Bytes of the file.
#[derive(Debug, Clone, Copy, PartialEq, Eq, Structural)]
pub struct BufferSpan {
    pub start: usize,
    pub end: usize,
}

/// The lines of one occurrence of a section, its header included.
#[derive(Debug, Clone, Copy, PartialEq, Eq, Structural)]
pub struct SectionBlock {
    pub start: usize,
    pub end: usize,
}

/// Where the bytes of a line are: in the file that was read, or in the line, if it was made here.
#[derive(Debug)]
pub enum LineContent {
    Slice(BufferSpan),
    Owned(Vec<u8>),
}

#[derive(Debug)]
pub struct Line {
    pub content: LineContent,
    pub kind: LineKind,
}

/// A line: its bytes, and what they are.
pub struct LineView {
    pub bytes: Seq<u8>,
    pub kind: LineKind,
}

/// The line that a variable is written as: a tab, the name, ` = ` and the value.
pub open spec fn variable_bytes(name: Seq<u8>, value: Seq<u8>) -> Seq<u8> {
    seq![TAB] + name + text(" = ") + encoded(value) + seq![LF]
}

pub open spec fn variable_line(name: Seq<u8>, value: Seq<u8>) -> LineView {
    let n = 1 + name.len() as int;
    LineView {
        bytes: variable_bytes(name, value),
        kind: LineKind::Variable {
            name: line_span(1, n),
            value: Some(line_span(n + 3, n + 3 + encoded(value).len())),
        },
    }
}

/// The line that a header is written as.
pub open spec fn header_bytes(key: SectionKey<Seq<u8>>) -> Seq<u8> {
    match key.subsection {
        None => seq![OPEN_BRACKET] + key.name + text("]\n"),
        Some(s) => seq![OPEN_BRACKET] + key.name + text(" \"") + s + seq![QUOTE] + text("]\n"),
    }
}

pub open spec fn header_line(key: SectionKey<Seq<u8>>) -> LineView {
    let n = 1 + key.name.len() as int;
    LineView {
        bytes: header_bytes(key),
        kind: LineKind::Header(
            Header {
                name: line_span(1, n),
                subsection: match key.subsection {
                    None => None,
                    Some(s) => Some(line_span(n + 2, n + 2 + s.len())),
                },
            },
        ),
    }
}

impl Line {
    pub open spec fn bytes_in(&self, buf: Seq<u8>) -> Seq<u8> {
        match self.content {
            LineContent::Slice(s) => buf.subrange(s.start as int, s.end as int),
            LineContent::Owned(bytes) => bytes@,
        }
    }

    pub open spec fn view_in(&self, buf: Seq<u8>) -> LineView {
        LineView { bytes: self.bytes_in(buf), kind: self.kind }
    }

    pub open spec fn wf(&self, buf: Seq<u8>) -> bool {
        &&& self.content matches LineContent::Slice(s) ==> s.start <= s.end <= buf.len()
        &&& kind_fits(self.bytes_in(buf), self.kind)
    }

    /// The line that a variable is written as.
    pub fn canonical_variable(name: &[u8], value: &[u8]) -> (line: Self)
        requires
            is_name(name@),
            spec_is_alphabetic(name@[0]),
        ensures
            line.content is Owned,
            forall|buf: Seq<u8>| #[trigger]
                line.view_in(buf) == variable_line(name@, value@) && line.wf(buf),
    {
        let encoded_value = encode_value(value);
        let mut bytes: Vec<u8> = Vec::new();
        bytes.push(TAB);
        append(&mut bytes, name);
        let name_end: usize = bytes.len();
        append_text(&mut bytes, " = ");
        let value_start: usize = bytes.len();
        append(&mut bytes, encoded_value.as_slice());
        let value_end: usize = bytes.len();
        bytes.push(LF);
        proof {
            lemma_literals();
            assert(bytes@ =~= variable_bytes(name@, value@));
            assert(bytes@.subrange(1, name_end as int) =~= name@);
            assert(bytes@.subrange(value_start as int, value_end as int) =~= encoded(value@));
            interpreting_inverts_encoding(value@);
            lemma_variable_line_fits(name@, value@, bytes.len());
        }
        Self {
            content: LineContent::Owned(bytes),
            kind: LineKind::Variable {
                name: LineSpan { start: 1, end: name_end },
                value: Some(LineSpan { start: value_start, end: value_end }),
            },
        }
    }

    /// The line that a header is written as.
    pub fn canonical_header(key: &SectionKey) -> (line: Self)
        requires
            is_name(key.name@),
        ensures
            line.content is Owned,
            forall|buf: Seq<u8>| #[trigger]
                line.view_in(buf) == header_line(key@) && line.wf(buf),
    {
        let mut bytes: Vec<u8> = Vec::new();
        bytes.push(OPEN_BRACKET);
        append(&mut bytes, key.name.as_slice());
        let name_end: usize = bytes.len();
        proof {
            lemma_literals();
        }
        let subsection = match &key.subsection {
            None => None,
            Some(s) => {
                append_text(&mut bytes, " \"");
                let start: usize = bytes.len();
                append(&mut bytes, s.as_slice());
                let end: usize = bytes.len();
                bytes.push(QUOTE);
                Some(LineSpan { start, end })
            },
        };
        append_text(&mut bytes, "]\n");
        proof {
            assert(bytes@ =~= header_bytes(key@));
            assert(bytes@.subrange(1, name_end as int) =~= key.name@);
        }
        Self {
            content: LineContent::Owned(bytes),
            kind: LineKind::Header(
                Header { name: LineSpan { start: 1, end: name_end }, subsection },
            ),
        }
    }

    /// The bytes of the line.
    pub fn bytes<'a>(&'a self, buf: &'a [u8]) -> (r: &'a [u8])
        requires
            self.wf(buf@),
        ensures
            r@ == self.bytes_in(buf@),
    {
        match &self.content {
            LineContent::Slice(s) => slice_subrange(buf, s.start, s.end),
            LineContent::Owned(bytes) => bytes.as_slice(),
        }
    }

    /// Bytes within the line.
    pub fn slice<'a>(&'a self, buf: &'a [u8], span: &LineSpan) -> (r: &'a [u8])
        requires
            self.wf(buf@),
            span_fits(self.bytes_in(buf@), *span),
        ensures
            r@ == span_bytes(self.bytes_in(buf@), *span),
    {
        slice_subrange(self.bytes(buf), span.start, span.end)
    }

    /// The name and the value of a variable.
    pub fn variable(&self) -> (r: Option<(LineSpan, Option<LineSpan>)>)
        ensures
            match self.kind {
                LineKind::Variable { name, value } => r == Some((name, value)),
                _ => r is None,
            },
    {
        match self.kind {
            LineKind::Variable { name, value } => Some((name, value)),
            _ => None,
        }
    }
}

pub proof fn lemma_literals()
    ensures
        text(" = ").len() == 3,
        text(" \"").len() == 2,
        text(" \"") == seq![SPACE, QUOTE],
        text(" = ") == seq![SPACE, crate::bytes::EQUALS, SPACE],
        text("]\n") == seq![CLOSE_BRACKET, LF],
{
    reveal_strlit(" = ");
    reveal_strlit(" \"");
    reveal_strlit("]\n");
    lemma_ascii_text(" = ");
    lemma_ascii_text(" \"");
    lemma_ascii_text("]\n");
    assert(text(" \"") =~= seq![SPACE, QUOTE]);
    assert(text(" = ") =~= seq![SPACE, crate::bytes::EQUALS, SPACE]);
    assert(text("]\n") =~= seq![CLOSE_BRACKET, LF]);
}

/// The line of a variable is what the parser promises of a line.
pub proof fn lemma_variable_line_fits(name: Seq<u8>, value: Seq<u8>, len: usize)
    requires
        is_name(name),
        spec_is_alphabetic(name[0]),
        variable_bytes(name, value).len() == len,
    ensures
        kind_fits(variable_line(name, value).bytes, variable_line(name, value).kind),
        span_bytes(
            variable_bytes(name, value),
            line_span(4 + name.len() as int, 4 + name.len() as int + encoded(value).len() as int),
        ) == encoded(value),
        span_bytes(variable_bytes(name, value), line_span(1, 1 + name.len() as int)) == name,
{
    lemma_literals();
    let b = variable_bytes(name, value);
    let n = 1 + name.len() as int;
    assert(b.subrange(1, n) =~= name);
    assert(b.subrange(n + 3, n + 3 + encoded(value).len()) =~= encoded(value));
    interpreting_inverts_encoding(value);
}

/// What a variable is set to. A variable without a value is true.
#[derive(Debug, PartialEq, Eq)]
pub enum Value<B = Vec<u8>> {
    ImplicitlyTrue,
    Bytes(B),
}

impl View for Value {
    type V = Value<Seq<u8>>;

    open spec fn view(&self) -> Value<Seq<u8>> {
        match *self {
            Value::ImplicitlyTrue => Value::ImplicitlyTrue,
            Value::Bytes(bytes) => Value::Bytes(bytes@),
        }
    }
}

/// A variable of a section: its name as it is written, and its value.
#[derive(Debug, PartialEq, Eq)]
pub struct VariableEntry<B = Vec<u8>> {
    pub name: B,
    pub value: Value<B>,
}

impl View for VariableEntry {
    type V = VariableEntry<Seq<u8>>;

    open spec fn view(&self) -> VariableEntry<Seq<u8>> {
        VariableEntry { name: self.name@, value: self.value@ }
    }
}

impl VariableEntry {
    pub fn name(&self) -> (r: &[u8])
        ensures
            r@ == self@.name,
    {
        self.name.as_slice()
    }

    pub fn value(&self) -> (r: &Value)
        ensures
            r@ == self@.value,
    {
        &self.value
    }

    pub fn into_value(self) -> (r: Value)
        ensures
            r@ == self@.value,
    {
        self.value
    }
}

/// The value of the variable that a line defines.
pub open spec fn value_of(line: LineView) -> Value<Seq<u8>> {
    match line.kind {
        LineKind::Variable { name, value: Some(value) } => Value::Bytes(
            interpreted(span_bytes(line.bytes, value)),
        ),
        _ => Value::ImplicitlyTrue,
    }
}

/// All the bytes of the lines.
pub open spec fn concat(lines: Seq<LineView>) -> Seq<u8>
    decreases lines.len(),
{
    if lines.len() == 0 {
        Seq::empty()
    } else {
        concat(lines.drop_last()) + lines.last().bytes
    }
}

/// The line with a newline at its end.
pub open spec fn with_newline(line: LineView) -> LineView {
    if line.bytes.len() > 0 && line.bytes.last() == LF {
        line
    } else {
        LineView { bytes: line.bytes.push(LF), kind: line.kind }
    }
}

/// Line `i` ended with a newline.
pub open spec fn newline_at(lines: Seq<LineView>, i: int) -> Seq<LineView> {
    lines.update(i, with_newline(lines[i]))
}

/// The lines with one more variable: at the end of the last occurrence of its section, or in a new
/// section at the end.
pub open spec fn inserted(
    lines: Seq<LineView>,
    key: ConfigKey<Seq<u8>>,
    value: Seq<u8>,
) -> Seq<LineView> {
    match last_of(blocks_of(lines, key.section)) {
        Some(block) => newline_at(lines, block.end - 1).insert(
            block.end as int,
            variable_line(key.name, value),
        ),
        None => (if lines.len() == 0 {
            lines
        } else {
            newline_at(lines, lines.len() - 1)
        }).push(header_line(key.section)).push(variable_line(key.name, value)),
    }
}

/// The lines with the variable of line `pos` set to a value. Its name stays as it is written.
pub open spec fn replaced(lines: Seq<LineView>, pos: int, value: Seq<u8>) -> Seq<LineView> {
    lines.update(pos, variable_line(written_name(lines[pos]), value))
}

/// The lines with the variables of the first `n` of the places set to a value.
pub open spec fn replaced_at(
    lines: Seq<LineView>,
    positions: Seq<VariablePos>,
    value: Seq<u8>,
    n: int,
) -> Seq<LineView>
    decreases n,
{
    if n <= 0 {
        lines
    } else {
        replaced(replaced_at(lines, positions, value, n - 1), positions[n - 1].0 as int, value)
    }
}

/// Those of the first `n` lines that are to be kept.
pub open spec fn kept(lines: Seq<LineView>, keep: spec_fn(int) -> bool, n: int) -> Seq<LineView>
    decreases n,
{
    if n <= 0 {
        Seq::empty()
    } else if keep(n - 1) {
        kept(lines, keep, n - 1).push(lines[n - 1])
    } else {
        kept(lines, keep, n - 1)
    }
}

/// The lines that do not define a variable.
pub open spec fn without_key(lines: Seq<LineView>, key: ConfigKey<Seq<u8>>) -> Seq<LineView> {
    kept(lines, |i: int| key_at(lines, i) != Some(key), lines.len() as int)
}

/// The lines outside a section.
pub open spec fn without_section(lines: Seq<LineView>, section: SectionKey<Seq<u8>>) -> Seq<
    LineView,
> {
    kept(lines, |i: int| owner(lines, i) != Some(section), lines.len() as int)
}

/// The variables that the first `n` lines define in a section, in order.
pub open spec fn entries_before(
    lines: Seq<LineView>,
    section: SectionKey<Seq<u8>>,
    n: int,
) -> Seq<VariableEntry<Seq<u8>>>
    decreases n,
{
    if n <= 0 {
        Seq::empty()
    } else if lines[n - 1].kind is Variable && owner(lines, n - 1) == Some(section) {
        entries_before(lines, section, n - 1).push(
            VariableEntry { name: written_name(lines[n - 1]), value: value_of(lines[n - 1]) },
        )
    } else {
        entries_before(lines, section, n - 1)
    }
}

/// Does a section occur?
pub open spec fn has_section(lines: Seq<LineView>, section: SectionKey<Seq<u8>>) -> bool {
    exists|i: int| 0 <= i < lines.len() && (#[trigger] lines[i]).kind is Header && section_of(
        lines[i],
    ) == section
}

/// The variables of a section, if it occurs.
pub open spec fn entries_of(lines: Seq<LineView>, section: SectionKey<Seq<u8>>) -> Option<
    Seq<VariableEntry<Seq<u8>>>,
> {
    if has_section(lines, section) {
        Some(entries_before(lines, section, lines.len() as int))
    } else {
        None
    }
}

/// A configuration file in memory.
#[derive(Debug)]
pub struct ConfigDoc {
    pub buf: Vec<u8>,
    pub lines: Vec<Line>,
    pub index: DocIndex,
}

impl View for ConfigDoc {
    type V = Seq<LineView>;

    open spec fn view(&self) -> Seq<LineView> {
        lines_view(self.lines@, self.buf@)
    }
}

/// The block of a section starts with its header, and ends with the file or at the next header.
pub proof fn lemma_block(lines: Seq<LineView>, section: SectionKey<Seq<u8>>)
    requires
        lines.len() <= usize::MAX,
    ensures
        last_of(blocks_of(lines, section)) matches Some(block) ==> {
            &&& block.start < block.end <= lines.len()
            &&& lines[block.start as int].kind is Header
            &&& section_of(lines[block.start as int]) == section
            &&& forall|i: int|
                block.start < i < block.end ==> !((#[trigger] lines[i]).kind is Header)
            &&& block.end < lines.len() ==> lines[block.end as int].kind is Header
        },
{
    let n = lines.len() as int;
    lemma_header_before(lines, n);
    if owner(lines, n - 1) != Some(section) {
        lemma_ended_block(lines, section, n);
    }
}

proof fn lemma_ended_block(lines: Seq<LineView>, section: SectionKey<Seq<u8>>, n: int)
    requires
        0 <= n <= lines.len() <= usize::MAX,
    ensures
        last_of(ended_blocks(lines, section, n)) matches Some(block) ==> {
            &&& block.start < block.end < n
            &&& lines[block.end as int].kind is Header
            &&& lines[block.start as int].kind is Header
            &&& section_of(lines[block.start as int]) == section
            &&& forall|i: int|
                block.start < i < block.end ==> !((#[trigger] lines[i]).kind is Header)
        },
    decreases n,
{
    if n > 0 {
        lemma_header_before(lines, n - 1);
        lemma_ended_block(lines, section, n - 1);
    }
}

proof fn lemma_newline_fits(b: Seq<u8>, kind: LineKind)
    requires
        kind_fits(b, kind),
    ensures
        kind_fits(b.push(LF), kind),
{
    assert forall|s: LineSpan| span_fits(b, s) implies span_bytes(b, s) == #[trigger] span_bytes(
        b.push(LF),
        s,
    ) by {
        assert(span_bytes(b, s) =~= span_bytes(b.push(LF), s));
    }
}

impl ConfigDoc {
    pub open spec fn wf(&self) -> bool {
        &&& lines_wf(self.lines@, self.buf@)
        &&& self.index.wf(self@)
    }

    /// The lines of a file, with their index.
    pub fn load(buf: Vec<u8>) -> (r: Result<Self, ConfigDocError>)
        ensures
            match lines_of(buf@) {
                Ok(lines) => r matches Ok(doc) && doc.wf() && doc@ == lines,
                Err(err) => r matches Err(e) && e == err,
            },
    {
        let lines = match read_lines(buf.as_slice()) {
            Ok(lines) => lines,
            Err(err) => {
                return Err(err);
            },
        };
        let index = DocIndex::new(buf.as_slice(), &lines);
        Ok(Self { buf, lines, index })
    }

    /// A file without lines.
    pub fn empty() -> (doc: Self)
        ensures
            doc.wf(),
            doc@ == Seq::<LineView>::empty(),
    {
        let buf: Vec<u8> = Vec::new();
        let lines: Vec<Line> = Vec::new();
        let index = DocIndex::new(buf.as_slice(), &lines);
        Self { buf, lines, index }
    }

    /// The file as it is written.
    pub fn serialize(&self) -> (bytes: Vec<u8>)
        requires
            self.wf(),
        ensures
            bytes@ == concat(self@),
    {
        let mut bytes: Vec<u8> = Vec::new();
        let mut i: usize = 0;
        assert(self@.take(0) =~= Seq::<LineView>::empty());
        while i < self.lines.len()
            invariant
                i <= self.lines@.len(),
                self.wf(),
                bytes@ == concat(self@.take(i as int)),
            decreases self.lines@.len() - i,
        {
            assert(self.lines@[i as int].wf(self.buf@));
            append(&mut bytes, self.lines[i].bytes(self.buf.as_slice()));
            assert(self@.take(i + 1).drop_last() =~= self@.take(i as int));
            i = i + 1;
        }
        assert(self@.take(i as int) =~= self@);
        bytes
    }

    /// The places where a variable is defined.
    pub fn key_positions(&self, key: &ConfigKey) -> (r: Option<&NonEmpty<VariablePos>>)
        requires
            self.wf(),
        ensures
            match r {
                Some(positions) => positions@ == positions_of(self@, key@),
                None => positions_of(self@, key@).len() == 0,
            },
    {
        self.index.key_positions(key)
    }

    /// The place of the last line that defines a variable.
    pub fn key_last_pos(&self, key: &ConfigKey) -> (r: Option<VariablePos>)
        requires
            self.wf(),
        ensures
            r == last_of(positions_of(self@, key@)),
    {
        self.index.key_last_pos(key)
    }

    /// The value of a variable.
    pub fn value_at(&self, pos: VariablePos) -> (r: Value)
        requires
            self.wf(),
            pos.0 < self@.len(),
            self@[pos.0 as int].kind is Variable,
        ensures
            r@ == value_of(self@[pos.0 as int]),
    {
        let line = &self.lines[pos.0];
        assert(line.wf(self.buf@));
        match line.variable() {
            Some((_, Some(span))) => Value::Bytes(
                interpret_value(line.slice(self.buf.as_slice(), &span)),
            ),
            _ => Value::ImplicitlyTrue,
        }
    }

    fn reindex(&mut self)
        requires
            lines_wf(old(self).lines@, old(self).buf@),
        ensures
            final(self).wf(),
            final(self)@ == old(self)@,
    {
        self.index = DocIndex::new(self.buf.as_slice(), &self.lines);
    }

    /// Ends a line with a newline: the last line of a file may lack it, and what is put behind it
    /// would be fused onto it.
    pub fn ensure_newline(&mut self, pos: usize)
        requires
            lines_wf(old(self).lines@, old(self).buf@),
            pos < old(self)@.len(),
        ensures
            lines_wf(final(self).lines@, final(self).buf@),
            final(self)@ == newline_at(old(self)@, pos as int),
            final(self).buf == old(self).buf,
    {
        let ghost before = self.lines@;
        let ghost buf = self.buf@;
        assert(self.lines@[pos as int].wf(self.buf@));
        let line = &self.lines[pos];
        let bytes = line.bytes(self.buf.as_slice());
        if bytes.len() > 0 && bytes[bytes.len() - 1] == LF {
            assert(self@ =~= newline_at(old(self)@, pos as int));
            return;
        }
        let kind = line.kind;
        let mut owned = copy_of(bytes);
        owned.push(LF);
        let line = Line { content: LineContent::Owned(owned), kind };
        proof {
            lemma_newline_fits(before[pos as int].bytes_in(buf), kind);
        }
        self.lines.set(pos, line);
        assert(self@ =~= newline_at(old(self)@, pos as int));
    }

    /// Adds a variable that is not defined yet: to the last occurrence of its section, or in a new
    /// section.
    pub fn insert_variable(&mut self, key: &ConfigKey, value: &[u8])
        requires
            old(self).wf(),
            is_name(key.name@),
            spec_is_alphabetic(key.name@[0]),
            is_name(key.section.name@),
            old(self)@.len() + 2 <= usize::MAX,
        ensures
            final(self).wf(),
            final(self)@ == inserted(old(self)@, key@, value@),
    {
        let variable = Line::canonical_variable(key.name.as_slice(), value);
        let ghost added = variable.view_in(self.buf@);
        assert(self.lines.len() == self@.len());
        proof {
            lemma_block(self@, key.section@);
        }
        match self.index.last_block(&key.section) {
            Some(block) => {
                let at: usize = block.end;
                self.ensure_newline(at - 1);
                let ghost before = self@;
                let ghost lines = self.lines@;
                assert(lines.len() == before.len());
                self.lines.insert(at, variable);
                assert(self@ =~= before.insert(at as int, added));
                assert(lines_wf(self.lines@, self.buf@)) by {
                    assert forall|i: int| 0 <= i < self.lines@.len() implies (
                    #[trigger] self.lines@[i]).wf(self.buf@) by {
                        if i < at {
                            assert(self.lines@[i] == lines[i]);
                        } else if i > at {
                            assert(self.lines@[i] == lines[i - 1]);
                        } else {
                            assert(variable.view_in(self.buf@) == added);
                        }
                    }
                }
            },
            None => {
                let n: usize = self.lines.len();
                if n > 0 {
                    self.ensure_newline(n - 1);
                }
                let ghost before = self@;
                let ghost lines = self.lines@;
                let header = Line::canonical_header(&key.section);
                let ghost head = header.view_in(self.buf@);
                self.lines.push(header);
                self.lines.push(variable);
                assert(self@ =~= before.push(head).push(added));
                assert(lines_wf(self.lines@, self.buf@)) by {
                    assert forall|i: int| 0 <= i < self.lines@.len() implies (
                    #[trigger] self.lines@[i]).wf(self.buf@) by {
                        if i < n {
                            assert(self.lines@[i] == lines[i]);
                        } else if i == n {
                            assert(header.view_in(self.buf@) == head);
                        } else {
                            assert(variable.view_in(self.buf@) == added);
                        }
                    }
                }
            },
        }
        self.reindex();
    }

    /// Sets the variable of a line. The line is written anew, whatever it held beside its name.
    pub fn replace_value(&mut self, pos: VariablePos, value: &[u8])
        requires
            old(self).wf(),
            pos.0 < old(self)@.len(),
            old(self)@[pos.0 as int].kind is Variable,
        ensures
            final(self).wf(),
            final(self)@ == replaced(old(self)@, pos.0 as int, value@),
    {
        self.set_line(pos, value);
        self.reindex();
    }

    fn set_line(&mut self, pos: VariablePos, value: &[u8])
        requires
            lines_wf(old(self).lines@, old(self).buf@),
            pos.0 < old(self)@.len(),
            old(self)@[pos.0 as int].kind is Variable,
        ensures
            lines_wf(final(self).lines@, final(self).buf@),
            final(self)@ == replaced(old(self)@, pos.0 as int, value@),
    {
        let ghost lines = self.lines@;
        assert(self.lines@[pos.0 as int].wf(self.buf@));
        let line = &self.lines[pos.0];
        match line.variable() {
            Some((name, _)) => {
                let new_line = Line::canonical_variable(
                    line.slice(self.buf.as_slice(), &name),
                    value,
                );
                let ghost added = new_line.view_in(self.buf@);
                self.lines.set(pos.0, new_line);
                assert(self@ =~= old(self)@.update(pos.0 as int, added));
                assert(lines_wf(self.lines@, self.buf@)) by {
                    assert(new_line.view_in(self.buf@) == added);
                }
            },
            None => {},
        }
    }

    /// Sets the variables of all these lines.
    pub fn replace_values(&mut self, positions: &Vec<VariablePos>, value: &[u8])
        requires
            old(self).wf(),
            forall|k: int|
                0 <= k < positions@.len() ==> (#[trigger] positions@[k]).0 < old(self)@.len()
                    && old(self)@[positions@[k].0 as int].kind is Variable,
        ensures
            final(self).wf(),
            final(self)@ == replaced_at(
                old(self)@,
                positions@,
                value@,
                positions@.len() as int,
            ),
    {
        let mut k: usize = 0;
        while k < positions.len()
            invariant
                k <= positions@.len(),
                lines_wf(self.lines@, self.buf@),
                self@.len() == old(self)@.len(),
                self@ == replaced_at(old(self)@, positions@, value@, k as int),
                forall|i: int|
                    0 <= i < self@.len() && old(self)@[i].kind is Variable
                        ==> (#[trigger] self@[i]).kind is Variable,
                forall|k: int|
                    0 <= k < positions@.len() ==> (#[trigger] positions@[k]).0 < old(self)@.len()
                        && old(self)@[positions@[k].0 as int].kind is Variable,
            decreases positions@.len() - k,
        {
            assert(positions@[k as int].0 < self@.len());
            self.set_line(positions[k], value);
            k = k + 1;
        }
        self.reindex();
    }

    /// Removes a line.
    pub fn remove_line(&mut self, pos: VariablePos)
        requires
            old(self).wf(),
            pos.0 < old(self)@.len(),
        ensures
            final(self).wf(),
            final(self)@ == old(self)@.remove(pos.0 as int),
    {
        let ghost lines = self.lines@;
        let _ = self.lines.remove(pos.0);
        assert(lines_wf(self.lines@, self.buf@)) by {
            assert forall|i: int| 0 <= i < self.lines@.len() implies (
            #[trigger] self.lines@[i]).wf(self.buf@) by {
                if i < pos.0 {
                    assert(self.lines@[i] == lines[i]);
                } else {
                    assert(self.lines@[i] == lines[i + 1]);
                }
            }
        }
        assert(self@ =~= old(self)@.remove(pos.0 as int));
        self.reindex();
    }

    /// Keeps the lines that are marked.
    fn retain(&mut self, keep: &Vec<bool>)
        requires
            old(self).wf(),
            keep@.len() == old(self)@.len(),
        ensures
            final(self).wf(),
            final(self)@ == kept(old(self)@, |i: int| keep@[i], keep@.len() as int),
    {
        let mut lines: Vec<Line> = Vec::new();
        core::mem::swap(&mut lines, &mut self.lines);
        let mut out: Vec<Line> = Vec::new();
        let ghost all = old(self)@;
        let ghost chosen = |i: int| keep@[i];
        let mut i: usize = 0;
        for line in it: lines
            invariant
                it.seq() == old(self).lines@,
                i == it.index(),
                i <= keep@.len(),
                keep@.len() == old(self).lines@.len(),
                all == lines_view(old(self).lines@, self.buf@),
                chosen == (|i: int| keep@[i]),
                lines_wf(old(self).lines@, self.buf@),
                lines_wf(out@, self.buf@),
                lines_view(out@, self.buf@) == kept(all, chosen, i as int),
        {
            let ghost so_far = lines_view(out@, self.buf@);
            assert(line == old(self).lines@[i as int]);
            assert(keep.len() == keep@.len());
            if keep[i] {
                out.push(line);
                assert(lines_view(out@, self.buf@) =~= so_far.push(all[i as int]));
            }
            i = i + 1;
        }
        self.lines = out;
        self.reindex();
    }

    /// Removes all the lines that define a variable.
    pub fn remove_lines(&mut self, key: &ConfigKey)
        requires
            old(self).wf(),
        ensures
            final(self).wf(),
            final(self)@ == without_key(old(self)@, key@),
    {
        let n: usize = self.lines.len();
        let mut keep: Vec<bool> = Vec::new();
        while keep.len() < n
            invariant
                keep@.len() <= n,
                forall|i: int| 0 <= i < keep@.len() ==> #[trigger] keep@[i],
            decreases n - keep@.len(),
        {
            keep.push(true);
        }
        let ghost places = positions_of(self@, key@);
        proof {
            lemma_positions(self@, key@, n as int);
        }
        match self.index.key_positions(key) {
            Some(positions) => {
                let all = positions.to_vec();
                let mut k: usize = 0;
                while k < all.len()
                    invariant
                        k <= all@.len(),
                        all@ == places,
                        keep@.len() == n,
                        forall|j: int|
                            0 <= j < places.len() ==> (#[trigger] places[j]).0 < n,
                        forall|i: int|
                            0 <= i < n ==> (#[trigger] keep@[i] <==> !places.take(
                                k as int,
                            ).contains(VariablePos(i as usize))),
                    decreases all@.len() - k,
                {
                    assert(places[k as int].0 < n);
                    keep.set(all[k].0, false);
                    proof {
                        let before = places.take(k as int);
                        let after = places.take(k + 1);
                        assert(after =~= before.push(places[k as int]));
                        assert forall|i: int| 0 <= i < n implies (#[trigger] keep@[i]
                            <==> !after.contains(VariablePos(i as usize))) by {
                            let p = VariablePos(i as usize);
                            if before.contains(p) {
                                let j = choose|j: int| 0 <= j < before.len() && before[j] == p;
                                assert(after[j] == p);
                            }
                            assert(after[k as int] == places[k as int]);
                        }
                    }
                    k = k + 1;
                }
                assert(places.take(k as int) =~= places);
            },
            None => {
                assert(places.take(0) =~= places);
            },
        }
        proof {
            assert forall|i: int| 0 <= i < n implies (#[trigger] keep@[i] <==> key_at(self@, i)
                != Some(key@)) by {
                let p = VariablePos(i as usize);
                if places.contains(p) {
                    let j = choose|j: int| 0 <= j < places.len() && places[j] == p;
                    assert(key_at(self@, places[j].0 as int) == Some(key@));
                }
            }
            lemma_kept(
                self@,
                |i: int| keep@[i],
                |i: int| key_at(self@, i) != Some(key@),
                n as int,
            );
        }
        self.retain(&keep);
    }

    /// Removes all the occurrences of a section.
    pub fn remove_section(&mut self, section: &SectionKey)
        requires
            old(self).wf(),
        ensures
            final(self).wf(),
            final(self)@ == without_section(old(self)@, section@),
    {
        let mut keep: Vec<bool> = Vec::new();
        let mut inside = false;
        let mut i: usize = 0;
        while i < self.lines.len()
            invariant
                i <= self.lines@.len(),
                keep@.len() == i,
                self.wf(),
                self == old(self),
                inside == (owner(self@, i - 1) == Some(section@)),
                forall|j: int|
                    0 <= j < i ==> (#[trigger] keep@[j] <==> owner(self@, j) != Some(section@)),
            decreases self.lines@.len() - i,
        {
            assert(self.lines@[i as int].wf(self.buf@));
            assert(self@[i as int] == self.lines@[i as int].view_in(self.buf@));
            match &self.lines[i].kind {
                LineKind::Header(_) => {
                    inside = self.lines[i].section_key(self.buf.as_slice()).same_as(section);
                },
                _ => {},
            }
            keep.push(!inside);
            i = i + 1;
        }
        proof {
            lemma_kept(
                self@,
                |i: int| keep@[i],
                |i: int| owner(self@, i) != Some(section@),
                i as int,
            );
        }
        self.retain(&keep);
    }

    /// The variables of a section, if it occurs.
    pub fn section_entries(&self, section: &SectionKey) -> (r: Option<Vec<VariableEntry>>)
        requires
            self.wf(),
        ensures
            match entries_of(self@, section@) {
                Some(entries) => r matches Some(v) && v@.map_values(|e: VariableEntry| e@)
                    == entries,
                None => r is None,
            },
    {
        let mut out: Vec<VariableEntry> = Vec::new();
        let mut found = false;
        let mut inside = false;
        let mut i: usize = 0;
        assert(out@.map_values(|e: VariableEntry| e@) =~= Seq::<VariableEntry<Seq<u8>>>::empty());
        while i < self.lines.len()
            invariant
                i <= self.lines@.len(),
                self.wf(),
                inside == (owner(self@, i - 1) == Some(section@)),
                found == (exists|j: int|
                    0 <= j < i && (#[trigger] self@[j]).kind is Header && section_of(self@[j])
                        == section@),
                out@.map_values(|e: VariableEntry| e@) == entries_before(
                    self@,
                    section@,
                    i as int,
                ),
            decreases self.lines@.len() - i,
        {
            let line = &self.lines[i];
            assert(line.wf(self.buf@));
            assert(self@[i as int] == line.view_in(self.buf@));
            match &line.kind {
                LineKind::Header(_) => {
                    inside = line.section_key(self.buf.as_slice()).same_as(section);
                    if inside {
                        found = true;
                        assert(self@[i as int].kind is Header);
                    }
                },
                LineKind::Variable { name, value } => {
                    if inside {
                        let entry = VariableEntry {
                            name: copy_of(line.slice(self.buf.as_slice(), name)),
                            value: self.value_at(VariablePos(i)),
                        };
                        let ghost so_far = out@.map_values(|e: VariableEntry| e@);
                        out.push(entry);
                        assert(out@.map_values(|e: VariableEntry| e@) =~= so_far.push(entry@));
                    }
                },
                _ => {},
            }
            i = i + 1;
        }
        if found {
            Some(out)
        } else {
            None
        }
    }
}

proof fn lemma_kept(
    lines: Seq<LineView>,
    a: spec_fn(int) -> bool,
    b: spec_fn(int) -> bool,
    n: int,
)
    requires
        forall|i: int| 0 <= i < n ==> #[trigger] a(i) == b(i),
    ensures
        kept(lines, a, n) == kept(lines, b, n),
    decreases n,
{
    if n > 0 {
        assert(a(n - 1) == b(n - 1));
        lemma_kept(lines, a, b, n - 1);
    }
}

} // verus!
