//! The report of `status`, as it is printed.

use crate::bytes::{
    append, append_text, byte_vecs, copy_of, lemma_lex_irreflexive, lemma_lex_total,
    lemma_lex_transitive, less_bytes, lex_less, text, LF, SLASH, SPACE, TAB,
};
use crate::os::FileKind;
use crate::print::{shown_path, stdout_path_bytes};
use crate::repo_path::RepoPath;
use crate::report::scan::untracked_view;
use crate::report::{Change, HeadIndexChange, Report, WorkspaceIndexChange};
use vstd::prelude::*;
use vstd::string::*;

verus! {

/// The width that labels are padded to.
pub const LABEL_WIDTH: usize = 12;

/// The byte that a control sequence of a terminal starts with.
pub const ESC: u8 = 0x1b;

#[derive(Debug, Clone, Copy, PartialEq, Eq, Structural)]
pub enum Color {
    Red,
    Green,
}

#[derive(Debug, Clone, Copy, PartialEq, Eq, Structural)]
pub enum Style {
    Plain,
    Colored(Color),
}

/// How much of a report is printed.
#[derive(Debug, Clone, Copy, PartialEq, Eq, Structural)]
pub enum Format {
    Short,
    Long,
}

pub open spec fn color_bytes(color: Color) -> Seq<u8> {
    match color {
        Color::Red => seq![ESC] + text("[31m"),
        Color::Green => seq![ESC] + text("[32m"),
    }
}

pub open spec fn begin_bytes(style: Style) -> Seq<u8> {
    match style {
        Style::Plain => Seq::empty(),
        Style::Colored(color) => color_bytes(color),
    }
}

pub open spec fn end_bytes(style: Style) -> Seq<u8> {
    match style {
        Style::Plain => Seq::empty(),
        Style::Colored(_) => seq![ESC] + text("[m"),
    }
}

/// Colors are for terminals: nothing else would understand the control sequences.
pub open spec fn style_for(color: Color, is_terminal: bool) -> Style {
    if is_terminal {
        Style::Colored(color)
    } else {
        Style::Plain
    }
}

/// A label with spaces behind it. An empty one takes no room.
pub open spec fn padded(label: &'static str) -> Seq<u8> {
    if label@.len() == 0 {
        Seq::empty()
    } else {
        text(label) + Seq::new(
            if label@.len() < LABEL_WIDTH {
                (LABEL_WIDTH - label@.len()) as nat
            } else {
                0
            },
            |i: int| SPACE,
        )
    }
}

pub open spec fn line_of(path: Seq<u8>, label: &'static str, style: Style) -> Seq<u8> {
    seq![TAB] + begin_bytes(style) + padded(label) + shown_path(path) + end_bytes(style) + seq![LF]
}

pub open spec fn lines_of(changes: Seq<(Seq<u8>, &'static str)>, style: Style) -> Seq<u8>
    decreases changes.len(),
{
    if changes.len() == 0 {
        Seq::empty()
    } else {
        lines_of(changes.drop_last(), style) + line_of(
            changes.last().0,
            changes.last().1,
            style,
        )
    }
}

/// A heading, a blank line, the changes and a blank line; nothing where there are no changes.
pub open spec fn section_of(
    heading: &'static str,
    changes: Seq<(Seq<u8>, &'static str)>,
    style: Style,
) -> Seq<u8> {
    if changes.len() == 0 {
        Seq::empty()
    } else {
        text(heading) + text(":\n\n") + lines_of(changes, style) + seq![LF]
    }
}

pub open spec fn head_label(change: HeadIndexChange) -> &'static str {
    match change {
        HeadIndexChange::Added => "new file:",
        HeadIndexChange::Modified => "modified:",
        HeadIndexChange::Deleted => "deleted:",
    }
}

pub open spec fn workspace_label(change: WorkspaceIndexChange) -> &'static str {
    match change {
        WorkspaceIndexChange::Modified => "modified:",
        WorkspaceIndexChange::Deleted => "deleted:",
    }
}

/// The paths with staged changes.
pub open spec fn staged_of(changes: Seq<(Seq<u8>, Change)>) -> Seq<(Seq<u8>, &'static str)>
    decreases changes.len(),
{
    if changes.len() == 0 {
        Seq::empty()
    } else {
        let before = staged_of(changes.drop_last());
        match changes.last().1.head_index {
            Some(change) => before.push((changes.last().0, head_label(change))),
            None => before,
        }
    }
}

/// The paths with changes that are not staged.
pub open spec fn unstaged_of(changes: Seq<(Seq<u8>, Change)>) -> Seq<(Seq<u8>, &'static str)>
    decreases changes.len(),
{
    if changes.len() == 0 {
        Seq::empty()
    } else {
        let before = unstaged_of(changes.drop_last());
        match changes.last().1.workspace_index {
            Some(change) => before.push((changes.last().0, workspace_label(change))),
            None => before,
        }
    }
}

/// The name that an untracked path is shown by: a directory has a slash behind it.
pub open spec fn name_of(path: Seq<u8>, kind: FileKind) -> Seq<u8> {
    if kind == FileKind::Directory {
        path.push(SLASH)
    } else {
        path
    }
}

pub open spec fn names_of(untracked: Seq<(Seq<u8>, FileKind)>) -> Seq<Seq<u8>> {
    Seq::new(untracked.len(), |i: int| name_of(untracked[i].0, untracked[i].1))
}

/// The same names, in ascending order.
pub open spec fn is_sorting_of(sorted: Seq<Seq<u8>>, names: Seq<Seq<u8>>) -> bool {
    &&& sorted.to_multiset() == names.to_multiset()
    &&& forall|i: int, j: int|
        0 <= i < j < sorted.len() ==> !lex_less(#[trigger] sorted[j], #[trigger] sorted[i])
}

pub open spec fn unlabeled(names: Seq<Seq<u8>>) -> Seq<(Seq<u8>, &'static str)> {
    Seq::new(names.len(), |i: int| (names[i], ""))
}

/// The whole report: what is staged, what is not, and what is untracked.
pub open spec fn long_report(
    changes: Seq<(Seq<u8>, Change)>,
    names: Seq<Seq<u8>>,
    is_terminal: bool,
) -> Seq<u8> {
    let green = style_for(Color::Green, is_terminal);
    let red = style_for(Color::Red, is_terminal);
    section_of("Changes to be committed", staged_of(changes), green) + section_of(
        "Changes not staged for commit",
        unstaged_of(changes),
        red,
    ) + section_of("Untracked files", unlabeled(names), red)
}

pub open spec fn lines_view(v: Seq<(Vec<u8>, &'static str)>) -> Seq<(Seq<u8>, &'static str)> {
    Seq::new(v.len(), |i: int| (v[i].0@, v[i].1))
}

impl Color {
    /// The control sequence that selects the color.
    pub fn sgr(&self) -> (r: Vec<u8>)
        ensures
            r@ == color_bytes(*self),
    {
        let mut bytes: Vec<u8> = Vec::new();
        bytes.push(ESC);
        match self {
            Color::Red => append_text(&mut bytes, "[31m"),
            Color::Green => append_text(&mut bytes, "[32m"),
        }
        assert(bytes@ =~= color_bytes(*self));
        bytes
    }
}

impl Style {
    /// The style for the standard output.
    pub fn for_stdout(color: Color, is_terminal: bool) -> (r: Self)
        ensures
            r == style_for(color, is_terminal),
    {
        if is_terminal {
            Style::Colored(color)
        } else {
            Style::Plain
        }
    }

    pub fn plain() -> (r: Self)
        ensures
            r == Style::Plain,
    {
        Style::Plain
    }

    pub fn begin(&self, out: &mut Vec<u8>)
        ensures
            final(out)@ == old(out)@ + begin_bytes(*self),
    {
        match self {
            Style::Plain => {},
            Style::Colored(color) => {
                let bytes = color.sgr();
                append(out, bytes.as_slice());
            },
        }
        assert(out@ =~= old(out)@ + begin_bytes(*self));
    }

    pub fn end(&self, out: &mut Vec<u8>)
        ensures
            final(out)@ == old(out)@ + end_bytes(*self),
    {
        match self {
            Style::Plain => {},
            Style::Colored(_) => {
                out.push(ESC);
                append_text(out, "[m");
            },
        }
        assert(out@ =~= old(out)@ + end_bytes(*self));
    }
}

/// Appends a label, padded.
fn append_label(out: &mut Vec<u8>, label: &'static str)
    ensures
        final(out)@ == old(out)@ + padded(label),
{
    let width: usize = label.unicode_len();
    if width > 0 {
        append_text(out, label);
        let ghost start = out@;
        let mut n: usize = width;
        while n < LABEL_WIDTH
            invariant
                width <= n,
                n <= LABEL_WIDTH || n == width,
                out@ =~= start + Seq::new((n - width) as nat, |i: int| SPACE),
            decreases LABEL_WIDTH - n,
        {
            out.push(SPACE);
            n = n + 1;
        }
    }
    assert(out@ =~= old(out)@ + padded(label));
}

/// Appends a section.
pub fn print_section(
    heading: &'static str,
    changes: &Vec<(Vec<u8>, &'static str)>,
    style: Style,
    out: &mut Vec<u8>,
)
    ensures
        final(out)@ == old(out)@ + section_of(heading, lines_view(changes@), style),
{
    if changes.len() == 0 {
        assert(out@ =~= old(out)@ + section_of(heading, lines_view(changes@), style));
        return;
    }
    append_text(out, heading);
    append_text(out, ":\n\n");
    let ghost start = out@;
    let ghost all = lines_view(changes@);
    let mut i: usize = 0;
    assert(out@ =~= start + lines_of(all.take(0), style));
    while i < changes.len()
        invariant
            i <= changes@.len(),
            all == lines_view(changes@),
            out@ == start + lines_of(all.take(i as int), style),
        decreases changes@.len() - i,
    {
        let ghost before = out@;
        let path = changes[i].0.as_slice();
        let label: &'static str = changes[i].1;
        out.push(TAB);
        style.begin(out);
        append_label(out, label);
        let shown = stdout_path_bytes(path);
        append(out, shown.as_slice());
        style.end(out);
        out.push(LF);
        proof {
            assert(all.take(i + 1).drop_last() =~= all.take(i as int));
            assert(all.take(i + 1).last() == (path@, label));
            assert(out@ =~= before + line_of(path@, label, style));
            assert(out@ =~= start + lines_of(all.take(i + 1), style));
        }
        i = i + 1;
    }
    assert(all.take(i as int) =~= all);
    out.push(LF);
    assert(out@ =~= old(out)@ + section_of(heading, all, style));
}

/// The name that an untracked path is shown by.
pub fn display_name(path: &RepoPath, kind: FileKind) -> (r: Vec<u8>)
    ensures
        r@ == name_of(path@, kind),
{
    let mut bytes = copy_of(path.as_bytes());
    if kind == FileKind::Directory {
        bytes.push(SLASH);
    }
    bytes
}

proof fn lemma_insert_multiset(s: Seq<Seq<u8>>, at: int, x: Seq<u8>)
    requires
        0 <= at <= s.len(),
    ensures
        s.insert(at, x).to_multiset() == s.to_multiset().insert(x),
{
    let t = s.insert(at, x);
    t.to_multiset_ensures();
    assert(t[at] == x);
    assert(t.remove(at) =~= s);
    assert(t.contains(x));
    assert(t.to_multiset() =~= s.to_multiset().insert(x));
}

/// The names, in ascending order.
fn sorted(names: &Vec<Vec<u8>>) -> (r: Vec<Vec<u8>>)
    ensures
        is_sorting_of(byte_vecs(r@), byte_vecs(names@)),
{
    let mut out: Vec<Vec<u8>> = Vec::new();
    let ghost all = byte_vecs(names@);
    let mut i: usize = 0;
    assert(byte_vecs(out@) =~= all.take(0));
    while i < names.len()
        invariant
            i <= names@.len(),
            all == byte_vecs(names@),
            is_sorting_of(byte_vecs(out@), all.take(i as int)),
        decreases names@.len() - i,
    {
        let name = names[i].as_slice();
        let ghost before = byte_vecs(out@);
        let mut at: usize = out.len();
        while at > 0 && less_bytes(name, out[at - 1].as_slice())
            invariant
                at <= out@.len(),
                before == byte_vecs(out@),
                forall|j: int| at <= j < before.len() ==> lex_less(name@, #[trigger] before[j]),
            decreases at,
        {
            assert(before[at - 1] == out@[at - 1]@);
            at = at - 1;
        }
        proof {
            if at > 0 {
                assert(before[at - 1] == out@[at - 1]@);
            }
        }
        out.insert(at, copy_of(name));
        proof {
            let after = byte_vecs(out@);
            assert(after =~= before.insert(at as int, name@));
            lemma_insert_multiset(before, at as int, name@);
            assert(all.take(i + 1) =~= all.take(i as int).push(name@));
            all.take(i as int).to_multiset_ensures();
            assert forall|a: int, b: int| 0 <= a < b < after.len() implies !lex_less(
                #[trigger] after[b],
                #[trigger] after[a],
            ) by {
                lemma_insert_keeps_order(before, at as int, name@, a, b);
            }
        }
        i = i + 1;
    }
    assert(all.take(i as int) =~= all);
    out
}

proof fn lemma_insert_keeps_order(s: Seq<Seq<u8>>, at: int, x: Seq<u8>, a: int, b: int)
    requires
        0 <= at <= s.len(),
        0 <= a < b < s.len() + 1,
        forall|i: int, j: int|
            0 <= i < j < s.len() ==> !lex_less(#[trigger] s[j], #[trigger] s[i]),
        forall|j: int| at <= j < s.len() ==> lex_less(x, #[trigger] s[j]),
        at > 0 ==> !lex_less(x, s[at - 1]),
    ensures
        !lex_less(s.insert(at, x)[b], s.insert(at, x)[a]),
{
    let t = s.insert(at, x);
    if a < at && b == at {
        if lex_less(x, s[a]) && a < at - 1 {
            assert(!lex_less(s[at - 1], s[a]));
            lemma_lex_total(s[at - 1], s[a]);
            if lex_less(s[a], s[at - 1]) {
                lemma_lex_transitive(x, s[a], s[at - 1]);
            }
        }
    } else if a == at {
        assert(t[b] == s[b - 1]);
        if lex_less(s[b - 1], x) {
            lemma_lex_transitive(x, s[b - 1], x);
            lemma_lex_irreflexive(x);
        }
    } else {
        let i = if a < at {
            a
        } else {
            a - 1
        };
        let j = if b < at {
            b
        } else {
            b - 1
        };
        assert(t[a] == s[i] && t[b] == s[j]);
    }
}

/// The names of what is untracked.
fn untracked_names(report: &Report) -> (r: Vec<Vec<u8>>)
    ensures
        byte_vecs(r@) == names_of(untracked_view(report.untracked@)),
{
    let mut names: Vec<Vec<u8>> = Vec::new();
    let mut i: usize = 0;
    while i < report.untracked.len()
        invariant
            i <= report.untracked@.len(),
            names@.len() == i,
            forall|j: int|
                0 <= j < i ==> (#[trigger] names@[j])@ == name_of(
                    report.untracked@[j].0@,
                    report.untracked@[j].1,
                ),
        decreases report.untracked@.len() - i,
    {
        names.push(display_name(&report.untracked[i].0, report.untracked[i].1));
        i = i + 1;
    }
    assert(byte_vecs(names@) =~= names_of(untracked_view(report.untracked@)));
    names
}

/// The paths with staged changes.
fn staged(report: &Report) -> (r: Vec<(Vec<u8>, &'static str)>)
    ensures
        lines_view(r@) == staged_of(report.changes@),
{
    let mut lines: Vec<(Vec<u8>, &'static str)> = Vec::new();
    let ghost all = report.changes@;
    let mut i: usize = 0;
    assert(lines_view(lines@) =~= staged_of(all.take(0)));
    while i < report.changes.len()
        invariant
            i <= all.len(),
            all == report.changes@,
            lines_view(lines@) == staged_of(all.take(i as int)),
        decreases all.len() - i,
    {
        proof {
            assert(all.take(i + 1).drop_last() =~= all.take(i as int));
            assert(all.take(i + 1).last() == all[i as int]);
        }
        if let Some(change) = report.changes.value(i).head_index {
            let label: &'static str = match change {
                HeadIndexChange::Added => "new file:",
                HeadIndexChange::Modified => "modified:",
                HeadIndexChange::Deleted => "deleted:",
            };
            let ghost before = lines@;
            let path = copy_of(report.changes.path(i).as_bytes());
            let ghost noted = (path@, label);
            lines.push((path, label));
            assert(lines_view(lines@) =~= lines_view(before).push(noted));
        }
        i = i + 1;
    }
    assert(all.take(i as int) =~= all);
    lines
}

/// The paths with changes that are not staged.
fn unstaged(report: &Report) -> (r: Vec<(Vec<u8>, &'static str)>)
    ensures
        lines_view(r@) == unstaged_of(report.changes@),
{
    let mut lines: Vec<(Vec<u8>, &'static str)> = Vec::new();
    let ghost all = report.changes@;
    let mut i: usize = 0;
    assert(lines_view(lines@) =~= unstaged_of(all.take(0)));
    while i < report.changes.len()
        invariant
            i <= all.len(),
            all == report.changes@,
            lines_view(lines@) == unstaged_of(all.take(i as int)),
        decreases all.len() - i,
    {
        proof {
            assert(all.take(i + 1).drop_last() =~= all.take(i as int));
            assert(all.take(i + 1).last() == all[i as int]);
        }
        if let Some(change) = report.changes.value(i).workspace_index {
            let label: &'static str = match change {
                WorkspaceIndexChange::Modified => "modified:",
                WorkspaceIndexChange::Deleted => "deleted:",
            };
            let ghost before = lines@;
            let path = copy_of(report.changes.path(i).as_bytes());
            let ghost noted = (path@, label);
            lines.push((path, label));
            assert(lines_view(lines@) =~= lines_view(before).push(noted));
        }
        i = i + 1;
    }
    assert(all.take(i as int) =~= all);
    lines
}

/// The short form has nothing to show yet.
pub fn print_short(_report: &Report) -> (out: Vec<u8>)
    ensures
        out@ == Seq::<u8>::empty(),
{
    Vec::new()
}

/// The long form: what is staged, what is not, and what is untracked.
pub fn print_long(report: &Report, is_terminal: bool) -> (out: Vec<u8>)
    ensures
        exists|names: Seq<Seq<u8>>| #[trigger]
            is_sorting_of(names, names_of(untracked_view(report.untracked@))) && out@
                == long_report(report.changes@, names, is_terminal),
{
    let names = untracked_names(report);
    let in_order = sorted(&names);
    let mut untracked: Vec<(Vec<u8>, &'static str)> = Vec::new();
    let mut i: usize = 0;
    while i < in_order.len()
        invariant
            i <= in_order@.len(),
            untracked@.len() == i,
            forall|j: int|
                0 <= j < i ==> (#[trigger] untracked@[j]).0@ == in_order@[j]@ && untracked@[j].1
                    == "",
        decreases in_order@.len() - i,
    {
        untracked.push((copy_of(in_order[i].as_slice()), ""));
        i = i + 1;
    }
    assert(lines_view(untracked@) =~= unlabeled(byte_vecs(in_order@)));
    let green = Style::for_stdout(Color::Green, is_terminal);
    let red = Style::for_stdout(Color::Red, is_terminal);
    let mut out: Vec<u8> = Vec::new();
    print_section("Changes to be committed", &staged(report), green, &mut out);
    print_section("Changes not staged for commit", &unstaged(report), red, &mut out);
    print_section("Untracked files", &untracked, red, &mut out);
    assert(out@ =~= long_report(report.changes@, byte_vecs(in_order@), is_terminal));
    assert(is_sorting_of(byte_vecs(in_order@), names_of(untracked_view(report.untracked@))));
    out
}

/// The report in this format.
pub fn print_report(format: Format, report: &Report, is_terminal: bool) -> (out: Vec<u8>)
    ensures
        match format {
            Format::Short => out@ == Seq::<u8>::empty(),
            Format::Long => exists|names: Seq<Seq<u8>>| #[trigger]
                is_sorting_of(names, names_of(untracked_view(report.untracked@))) && out@
                    == long_report(report.changes@, names, is_terminal),
        },
{
    match format {
        Format::Short => print_short(report),
        Format::Long => print_long(report, is_terminal),
    }
}

/// There is only one way to sort names, so a report is printed in one way only.
pub proof fn sorting_is_unique(a: Seq<Seq<u8>>, b: Seq<Seq<u8>>, names: Seq<Seq<u8>>)
    requires
        is_sorting_of(a, names),
        is_sorting_of(b, names),
    ensures
        a == b,
    decreases a.len(),
{
    a.to_multiset_ensures();
    b.to_multiset_ensures();
    assert(a.len() == b.len());
    if a.len() == 0 {
        assert(a =~= b);
    } else {
        assert(a.contains(a[0]) && b.contains(b[0]));
        assert(a.to_multiset().count(a[0]) > 0);
        assert(b.to_multiset().count(b[0]) > 0);
        assert(b.contains(a[0]) && a.contains(b[0]));
        let i = choose|i: int| 0 <= i < b.len() && b[i] == a[0];
        let j = choose|j: int| 0 <= j < a.len() && a[j] == b[0];
        assert(!lex_less(a[0], b[0])) by {
            if i == 0 {
                lemma_lex_irreflexive(a[0]);
            }
        }
        assert(!lex_less(b[0], a[0])) by {
            if j == 0 {
                lemma_lex_irreflexive(a[0]);
            }
        }
        lemma_lex_total(a[0], b[0]);
        let ra = a.remove(0);
        let rb = b.remove(0);
        assert(ra.to_multiset() == rb.to_multiset());
        assert forall|i: int, j: int| 0 <= i < j < ra.len() implies !lex_less(
            #[trigger] ra[j],
            #[trigger] ra[i],
        ) by {
            assert(ra[i] == a[i + 1] && ra[j] == a[j + 1]);
        }
        assert forall|i: int, j: int| 0 <= i < j < rb.len() implies !lex_less(
            #[trigger] rb[j],
            #[trigger] rb[i],
        ) by {
            assert(rb[i] == b[i + 1] && rb[j] == b[j + 1]);
        }
        sorting_is_unique(ra, rb, ra);
        assert(a =~= seq![a[0]] + ra);
        assert(b =~= seq![b[0]] + rb);
    }
}

} // verus!
