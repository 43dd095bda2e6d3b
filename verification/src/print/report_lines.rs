//! The report of `status`, line by line.

use crate::bytes::{lemma_ascii_text, text};
use crate::os::FileKind;
use crate::print::shown_path;
use crate::print::status::{
    head_label, line_of, lines_of, long_report, name_of, names_of, padded, staged_of, style_for,
    unlabeled, unstaged_of, workspace_label, Color,
};
use crate::report::{Change, HeadIndexChange, WorkspaceIndexChange};
use vstd::prelude::*;
use vstd::string::*;

verus! {

/// What a line of a section looks like: a tab, the color if it is for a terminal, the label, the
/// path, the end of the color, and the end of the line.
pub open spec fn section_line(
    color: &str,
    label: Seq<u8>,
    path: Seq<u8>,
    is_terminal: bool,
) -> Seq<u8> {
    if is_terminal {
        seq![0x09u8, 0x1b] + text(color) + label + shown_path(path) + seq![0x1bu8] + text("[m")
            + seq![0x0au8]
    } else {
        seq![0x09u8] + label + shown_path(path) + seq![0x0au8]
    }
}

proof fn lemma_labels()
    ensures
        text("new file:   ") == text("new file:") + seq![0x20u8, 0x20, 0x20],
        text("modified:   ") == text("modified:") + seq![0x20u8, 0x20, 0x20],
        text("deleted:    ") == text("deleted:") + seq![0x20u8, 0x20, 0x20, 0x20],
        "new file:"@.len() == 9,
        "modified:"@.len() == 9,
        "deleted:"@.len() == 8,
        ""@.len() == 0,
{
    reveal_strlit("new file:   ");
    reveal_strlit("modified:   ");
    reveal_strlit("deleted:    ");
    reveal_strlit("new file:");
    reveal_strlit("modified:");
    reveal_strlit("deleted:");
    reveal_strlit("");
    lemma_ascii_text("new file:   ");
    lemma_ascii_text("modified:   ");
    lemma_ascii_text("deleted:    ");
    lemma_ascii_text("new file:");
    lemma_ascii_text("modified:");
    lemma_ascii_text("deleted:");
    assert(text("new file:   ") =~= text("new file:") + seq![0x20u8, 0x20, 0x20]);
    assert(text("modified:   ") =~= text("modified:") + seq![0x20u8, 0x20, 0x20]);
    assert(text("deleted:    ") =~= text("deleted:") + seq![0x20u8, 0x20, 0x20, 0x20]);
}

/// A file with a staged change has a line, in green, that says whether it is new, modified or
/// deleted; one without has none. The lines come in the order of the paths.
pub proof fn staged_changes_have_lines(
    changes: Seq<(Seq<u8>, Change)>,
    path: Seq<u8>,
    change: Change,
    is_terminal: bool,
)
    ensures
        ({
            let green = style_for(Color::Green, is_terminal);
            let all = changes.push((path, change));
            &&& staged_of(Seq::empty()).len() == 0
            &&& staged_of(all).len() == staged_of(changes).len() + (if change.head_index is Some {
                1int
            } else {
                0
            })
            &&& lines_of(staged_of(all), green) == lines_of(staged_of(changes), green) + (
            match change.head_index {
                Some(HeadIndexChange::Added) => section_line(
                    "[32m",
                    text("new file:   "),
                    path,
                    is_terminal,
                ),
                Some(HeadIndexChange::Modified) => section_line(
                    "[32m",
                    text("modified:   "),
                    path,
                    is_terminal,
                ),
                Some(HeadIndexChange::Deleted) => section_line(
                    "[32m",
                    text("deleted:    "),
                    path,
                    is_terminal,
                ),
                None => Seq::empty(),
            })
        }),
{
    let green = style_for(Color::Green, is_terminal);
    let all = changes.push((path, change));
    assert(all.drop_last() =~= changes);
    lemma_labels();
    let before = lines_of(staged_of(changes), green);
    match change.head_index {
        Some(kind) => {
            let label = head_label(kind);
            let rows = staged_of(changes).push((path, label));
            assert(rows.drop_last() =~= staged_of(changes));
            lemma_line(path, label, Color::Green, is_terminal);
        },
        None => {
            assert(before + Seq::<u8>::empty() =~= before);
        },
    }
}

proof fn lemma_line(path: Seq<u8>, label: &'static str, color: Color, is_terminal: bool)
    requires
        label@.len() <= 12,
    ensures
        ({
            let code = match color {
                Color::Red => "[31m",
                Color::Green => "[32m",
            };
            let shown = if label@.len() == 0 {
                Seq::empty()
            } else {
                text(label) + Seq::new((12 - label@.len()) as nat, |i: int| 0x20u8)
            };
            line_of(path, label, style_for(color, is_terminal))
                == section_line(code, shown, path, is_terminal)
        }),
        label@.len() == 9 ==> Seq::new((12 - label@.len()) as nat, |i: int| 0x20u8) == seq![
            0x20u8,
            0x20,
            0x20,
        ],
        label@.len() == 8 ==> Seq::new((12 - label@.len()) as nat, |i: int| 0x20u8) == seq![
            0x20u8,
            0x20,
            0x20,
            0x20,
        ],
{
    let code = match color {
        Color::Red => "[31m",
        Color::Green => "[32m",
    };
    let shown = if label@.len() == 0 {
        Seq::empty()
    } else {
        text(label) + Seq::new((12 - label@.len()) as nat, |i: int| 0x20u8)
    };
    assert(padded(label) =~= shown);
    assert(line_of(path, label, style_for(color, is_terminal))
        =~= section_line(code, shown, path, is_terminal));
    assert(label@.len() == 9 ==> Seq::new((12 - label@.len()) as nat, |i: int| 0x20u8) =~= seq![
        0x20u8,
        0x20,
        0x20,
    ]);
    assert(label@.len() == 8 ==> Seq::new((12 - label@.len()) as nat, |i: int| 0x20u8) =~= seq![
        0x20u8,
        0x20,
        0x20,
        0x20,
    ]);
}

/// A file with a change that is not staged has a line, in red, that says whether it is modified or
/// deleted; one without has none. The lines come in the order of the paths.
pub proof fn unstaged_changes_have_lines(
    changes: Seq<(Seq<u8>, Change)>,
    path: Seq<u8>,
    change: Change,
    is_terminal: bool,
)
    ensures
        ({
            let red = style_for(Color::Red, is_terminal);
            let all = changes.push((path, change));
            &&& unstaged_of(Seq::empty()).len() == 0
            &&& unstaged_of(all).len() == unstaged_of(changes).len() + (
            if change.workspace_index is Some {
                1int
            } else {
                0
            })
            &&& lines_of(unstaged_of(all), red) == lines_of(unstaged_of(changes), red) + (
            match change.workspace_index {
                Some(WorkspaceIndexChange::Modified) => section_line(
                    "[31m",
                    text("modified:   "),
                    path,
                    is_terminal,
                ),
                Some(WorkspaceIndexChange::Deleted) => section_line(
                    "[31m",
                    text("deleted:    "),
                    path,
                    is_terminal,
                ),
                None => Seq::empty(),
            })
        }),
{
    let red = style_for(Color::Red, is_terminal);
    let all = changes.push((path, change));
    assert(all.drop_last() =~= changes);
    lemma_labels();
    let before = lines_of(unstaged_of(changes), red);
    match change.workspace_index {
        Some(kind) => {
            let label = workspace_label(kind);
            let rows = unstaged_of(changes).push((path, label));
            assert(rows.drop_last() =~= unstaged_of(changes));
            lemma_line(path, label, Color::Red, is_terminal);
        },
        None => {
            assert(before + Seq::<u8>::empty() =~= before);
        },
    }
}

/// What is untracked has a line without a label, in red. A directory has a slash behind its path.
pub proof fn untracked_names_have_lines(
    names: Seq<Seq<u8>>,
    path: Seq<u8>,
    kind: FileKind,
    is_terminal: bool,
)
    ensures
        ({
            let red = style_for(Color::Red, is_terminal);
            let name = name_of(path, kind);
            &&& name == (if kind == FileKind::Directory {
                path + seq![0x2fu8]
            } else {
                path
            })
            &&& lines_of(unlabeled(names.push(name)), red) == lines_of(unlabeled(names), red)
                + section_line("[31m", Seq::empty(), name, is_terminal)
        }),
{
    let red = style_for(Color::Red, is_terminal);
    let name = name_of(path, kind);
    lemma_labels();
    assert(path.push(0x2f) =~= path + seq![0x2fu8]);
    let rows = unlabeled(names.push(name));
    assert(rows.drop_last() =~= unlabeled(names));
    assert(rows.last() == (name, ""));
    lemma_line(name, "", Color::Red, is_terminal);
}

/// A report has three sections: what is staged, what is not, and what is untracked. Each has its
/// heading, a blank line, its lines and a blank line; a section without lines is left out.
pub proof fn reports_have_three_sections(
    changes: Seq<(Seq<u8>, Change)>,
    names: Seq<Seq<u8>>,
    is_terminal: bool,
)
    ensures
        ({
            let green = style_for(Color::Green, is_terminal);
            let red = style_for(Color::Red, is_terminal);
            let staged = if staged_of(changes).len() == 0 {
                Seq::empty()
            } else {
                text("Changes to be committed:\n\n") + lines_of(staged_of(changes), green) + seq![
                    0x0au8,
                ]
            };
            let unstaged = if unstaged_of(changes).len() == 0 {
                Seq::empty()
            } else {
                text("Changes not staged for commit:\n\n") + lines_of(unstaged_of(changes), red)
                    + seq![0x0au8]
            };
            let untracked = if names.len() == 0 {
                Seq::empty()
            } else {
                text("Untracked files:\n\n") + lines_of(unlabeled(names), red) + seq![0x0au8]
            };
            long_report(changes, names, is_terminal) == staged + unstaged + untracked
        }),
{
    reveal_strlit(":\n\n");
    reveal_strlit("Changes to be committed");
    reveal_strlit("Changes not staged for commit");
    reveal_strlit("Untracked files");
    reveal_strlit("Changes to be committed:\n\n");
    reveal_strlit("Changes not staged for commit:\n\n");
    reveal_strlit("Untracked files:\n\n");
    lemma_ascii_text(":\n\n");
    lemma_ascii_text("Changes to be committed");
    lemma_ascii_text("Changes not staged for commit");
    lemma_ascii_text("Untracked files");
    lemma_ascii_text("Changes to be committed:\n\n");
    lemma_ascii_text("Changes not staged for commit:\n\n");
    lemma_ascii_text("Untracked files:\n\n");
    assert(text("Changes to be committed:\n\n") =~= text("Changes to be committed") + text(":\n\n"));
    assert(text("Changes not staged for commit:\n\n") =~= text("Changes not staged for commit")
        + text(":\n\n"));
    assert(text("Untracked files:\n\n") =~= text("Untracked files") + text(":\n\n"));
}

/// There is a name for each untracked path, with a slash behind it if it is a directory.
pub proof fn every_untracked_path_has_a_name(untracked: Seq<(Seq<u8>, FileKind)>, i: int)
    requires
        0 <= i < untracked.len(),
    ensures
        names_of(untracked).len() == untracked.len(),
        names_of(untracked)[i] == (if untracked[i].1 == FileKind::Directory {
            untracked[i].0 + seq![0x2fu8]
        } else {
            untracked[i].0
        }),
{
    assert(untracked[i].0.push(0x2f) =~= untracked[i].0 + seq![0x2fu8]);
}

} // verus!
