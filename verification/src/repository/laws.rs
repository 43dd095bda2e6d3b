//! How a repository is found, question by question.

use crate::bytes::{lemma_ascii_text, text};
use crate::config::doc::LineView;
use crate::config::{got_bool, got_bytes};
use crate::hex::all_hex;
use crate::layout::laws::{is_no_path, seen_from};
use crate::litfile::target_of;
use crate::object::oid::{reads_hex, Oid, OidError};
use crate::path::parent_of;
use crate::repository::{
    answers, explicit_worktree_of, head_digits, objects_dir_of, probe_step, search_answers,
    search_step, worktree_of, Answer, EntryType, ProbeState, Question, RepositoryPaths,
    RepositoryProblem, SearchPhase, SearchView, StructureCheck,
};
use vstd::prelude::*;
use vstd::string::*;

verus! {

/// The objects are in the directory that the environment names, seen from the current directory, or
/// in `objects` of the metadata.
pub proof fn objects_are_where_the_environment_says(
    metadata_dir: Seq<u8>,
    cwd: Seq<u8>,
    object_directory: Option<Seq<u8>>,
)
    ensures
        match object_directory {
            None => objects_dir_of(metadata_dir, cwd, object_directory) matches Ok(dir) && dir
                == seen_from(metadata_dir, text("objects")),
            Some(named) => if is_no_path(named) {
                objects_dir_of(metadata_dir, cwd, object_directory) is Err
            } else {
                objects_dir_of(metadata_dir, cwd, object_directory) matches Ok(dir) && dir
                    == seen_from(cwd, named)
            },
        },
{
}

/// A bare repository has no worktree. Of any other, the worktree is what `core.worktree` names, seen
/// from the metadata directory, or else the one that was assumed.
pub proof fn worktrees_are_where_the_configuration_says(
    path: Seq<u8>,
    lines: Seq<LineView>,
    metadata_dir: Seq<u8>,
    fallback: Option<Seq<u8>>,
)
    ensures
        ({
            let r = worktree_of((path, lines), metadata_dir, fallback);
            let bare = got_bool(lines, text("core.bare"));
            let tree = got_bytes(lines, text("core.worktree"), "any byte");
            let not_bare = bare matches Ok(false) || (bare matches Err(err) && err is NotFound);
            &&& bare matches Ok(true) ==> (r matches Ok(None))
            &&& bare matches Err(err) ==> (!(err is NotFound) ==> r is Err)
            &&& not_bare ==> (tree matches Ok(dir) ==> if is_no_path(dir) {
                r is Err
            } else {
                r matches Ok(Some(found)) && found == seen_from(metadata_dir, dir)
            })
            &&& not_bare ==> (tree matches Err(err) ==> if err is NotFound {
                r matches Ok(found) && found == fallback
            } else {
                r is Err
            })
        }),
{
}

/// `LIT_WORK_TREE` comes before the configuration, even one that says `core.bare`; the current
/// directory comes last.
pub proof fn the_environment_names_the_worktree(
    path: Seq<u8>,
    lines: Seq<LineView>,
    metadata_dir: Seq<u8>,
    cwd: Seq<u8>,
    lit_work_tree: Option<Seq<u8>>,
)
    ensures
        ({
            let r = explicit_worktree_of((path, lines), metadata_dir, cwd, lit_work_tree);
            &&& lit_work_tree matches Some(dir) ==> if is_no_path(dir) {
                r is Err
            } else {
                r matches Ok(Some(found)) && found == seen_from(cwd, dir)
            }
            &&& lit_work_tree is None ==> r == worktree_of((path, lines), metadata_dir, Some(cwd))
        }),
{
}

/// A repository is found exactly where a look at its contents showed that they are as they have to
/// be, and its directories are those that were looked at.
pub proof fn only_whole_repositories_are_found(
    path: Seq<u8>,
    cwd: Seq<u8>,
    object_directory: Option<Seq<u8>>,
    explicit: bool,
    state: ProbeState<Seq<u8>>,
    answer: Answer,
    paths: RepositoryPaths<Seq<u8>>,
)
    requires
        answers(state, answer),
    ensures
        ({
            let (_, question) = probe_step(path, cwd, object_directory, explicit, state, answer);
            question == Question::<Seq<u8>, RepositoryProblem>::Found(paths) <==> state
                == ProbeState::Checking(paths) && answer == Answer::Structure(
                StructureCheck::Valid,
            )
        }),
{
}

/// What is looked at is the directory with its links resolved. Its objects are where the environment
/// says, or in `objects`: of that directory, where the path was named or a pointer file led to it,
/// and of the path that was come across, where it was. A pointer file that led there is noted.
pub proof fn contents_are_looked_at_where_the_path_leads(
    path: Seq<u8>,
    cwd: Seq<u8>,
    object_directory: Option<Seq<u8>>,
    explicit: bool,
    state: ProbeState<Seq<u8>>,
    answer: Answer,
)
    requires
        answers(state, answer),
        state is ResolvingDirectory || state is ResolvingTarget,
    ensures
        ({
            let (next, question) = probe_step(path, cwd, object_directory, explicit, state, answer);
            let bad = object_directory matches Some(dir) && is_no_path(dir);
            &&& answer matches Answer::Canonical(dir) ==> if bad {
                question is Refused
            } else {
                let base = if state is ResolvingTarget || explicit {
                    dir@
                } else {
                    path
                };
                let objects = match object_directory {
                    Some(named) => seen_from(cwd, named),
                    None => seen_from(base, text("objects")),
                };
                &&& question matches Question::CheckStructure { metadata_dir, objects_dir }
                    && metadata_dir == dir@ && objects_dir == objects
                &&& next matches ProbeState::Checking(paths) && paths.metadata_dir == dir@
                    && paths.objects_dir == objects && paths.pointer_file == (
                if state is ResolvingTarget {
                    Some(path)
                } else {
                    None
                })
            }
            &&& answer is Failed ==> if explicit || state is ResolvingTarget {
                question is PassOn
            } else {
                question is NotHere
            }
        }),
{
}

/// What is at a path decides how it is looked at: a directory is resolved, a file is read as a
/// pointer, and anything else is refused. Where nothing is, a path that was named is an error, and
/// one that was come across is passed over.
pub proof fn paths_are_looked_at_for_what_they_are(
    path: Seq<u8>,
    cwd: Seq<u8>,
    object_directory: Option<Seq<u8>>,
    explicit: bool,
    answer: Answer,
)
    requires
        answers(ProbeState::Looking, answer),
    ensures
        ({
            let (next, question) = probe_step(
                path,
                cwd,
                object_directory,
                explicit,
                ProbeState::Looking,
                answer,
            );
            match answer {
                Answer::Entry(EntryType::Directory) => next is ResolvingDirectory
                    && question == Question::<Seq<u8>, RepositoryProblem>::Canonicalize(path),
                Answer::Entry(EntryType::File) => next is ReadingPointer && question == Question::<
                    Seq<u8>,
                    RepositoryProblem,
                >::Read(path),
                Answer::Entry(entry) => question matches Question::Refused(
                    RepositoryProblem::UnexpectedEntry { path: p, entry: e },
                ) && p == path && e == entry,
                Answer::Missing => if explicit {
                    question is PassOn
                } else {
                    question is NotHere
                },
                _ => question is PassOn,
            }
        }),
{
}

/// A pointer file leads to the path that it names; one that names none is refused.
pub proof fn pointers_lead_to_what_they_name(
    path: Seq<u8>,
    cwd: Seq<u8>,
    object_directory: Option<Seq<u8>>,
    explicit: bool,
    bytes: Vec<u8>,
)
    ensures
        ({
            let (next, question) = probe_step(
                path,
                cwd,
                object_directory,
                explicit,
                ProbeState::ReadingPointer,
                Answer::Contents(bytes),
            );
            match target_of(bytes@) {
                Ok(target) => next is ResolvingTarget && question == Question::<
                    Seq<u8>,
                    RepositoryProblem,
                >::Canonicalize(target),
                Err(kind) => question matches Question::Refused(
                    RepositoryProblem::Litfile { path: p, kind: k },
                ) && p == path && k == kind,
            }
        }),
{
}

/// A path that was named explicitly is never passed over: it leads to a repository, or the look
/// fails.
pub proof fn named_paths_are_binding(
    path: Seq<u8>,
    cwd: Seq<u8>,
    object_directory: Option<Seq<u8>>,
    state: ProbeState<Seq<u8>>,
    answer: Answer,
)
    requires
        answers(state, answer),
    ensures
        !(probe_step(path, cwd, object_directory, true, state, answer).1 is NotHere),
{
}

/// A damaged repository that was named, or that a pointer file names, is an error, and a bad `HEAD`
/// is named; one that was come across is passed over.
pub proof fn damage_counts_where_a_repository_is_named(
    path: Seq<u8>,
    cwd: Seq<u8>,
    object_directory: Option<Seq<u8>>,
    explicit: bool,
    paths: RepositoryPaths<Seq<u8>>,
    check: StructureCheck,
)
    requires
        check != StructureCheck::Valid,
    ensures
        ({
            let (_, question) = probe_step(
                path,
                cwd,
                object_directory,
                explicit,
                ProbeState::Checking(paths),
                Answer::Structure(check),
            );
            if !explicit && paths.pointer_file is None {
                question is NotHere
            } else {
                match check {
                    StructureCheck::BadHead(err) => question matches Question::Refused(
                        RepositoryProblem::BadHeadOid { path: head, source },
                    ) && source == err && head == seen_from(paths.metadata_dir, text("HEAD")),
                    _ => question is PassOn,
                }
            }
        }),
{
}

/// A repository in `.lit` has the directory around it for its worktree. One that is a directory
/// itself has none, and comes second.
pub proof fn searches_end_with_the_worktree(
    cwd: Seq<u8>,
    object_directory: Option<Seq<u8>>,
    at: SearchView,
    answer: Answer,
)
    requires
        search_answers(at.phase, answer),
    ensures
        ({
            let (next, question) = search_step(cwd, object_directory, at, answer);
            &&& question is Found ==> (next.phase matches SearchPhase::Ended(tree) && tree == (
            if at.phase is Entry {
                Some(at.dir)
            } else {
                None
            }))
            &&& question is Found ==> answer == Answer::Structure(StructureCheck::Valid)
            &&& at.phase matches SearchPhase::Checking(paths) ==> (answer == Answer::Structure(
                StructureCheck::Valid,
            ) ==> question == Question::<Seq<u8>, RepositoryProblem>::Found(paths))
            &&& !(question is NotHere)
        }),
{
}

/// A search that finds nothing in a directory looks at the directory itself, and then at `.lit` in
/// the one above it. At the root it ends, and names the directory that it started from.
pub proof fn searches_go_up(
    cwd: Seq<u8>,
    object_directory: Option<Seq<u8>>,
    at: SearchView,
    answer: Answer,
)
    requires
        search_answers(at.phase, answer),
        at.phase is Checking && answer != Answer::Structure(StructureCheck::Valid) || at.phase
            is Resolving && answer is Failed,
    ensures
        ({
            let (next, question) = search_step(cwd, object_directory, at, answer);
            match parent_of(at.dir) {
                Some(parent) => next.dir == parent && next.phase == SearchPhase::<
                    Seq<u8>,
                    ProbeState<Seq<u8>>,
                >::Entry(ProbeState::Looking) && question == Question::<
                    Seq<u8>,
                    RepositoryProblem,
                >::Stat(seen_from(parent, text(".lit"))),
                None => question == Question::<Seq<u8>, RepositoryProblem>::Refused(
                    RepositoryProblem::NotRepository(cwd),
                ),
            }
        }),
{
}

/// What `.lit` in a directory is not, the directory itself may be: its links are resolved, and what
/// it holds is looked at.
pub proof fn directories_come_after_their_entries(
    cwd: Seq<u8>,
    object_directory: Option<Seq<u8>>,
    at: SearchView,
    answer: Answer,
)
    requires
        search_answers(at.phase, answer),
    ensures
        ({
            let (next, question) = search_step(cwd, object_directory, at, answer);
            &&& at.phase matches SearchPhase::Entry(state) ==> ({
                let (_, asked) = probe_step(
                    seen_from(at.dir, text(".lit")),
                    cwd,
                    object_directory,
                    false,
                    state,
                    answer,
                );
                &&& next.dir == at.dir
                &&& asked is NotHere ==> next.phase is Resolving && question == Question::<
                    Seq<u8>,
                    RepositoryProblem,
                >::Canonicalize(at.dir)
                &&& !(asked is NotHere) ==> question == asked
            })
            &&& at.phase is Resolving && !(object_directory matches Some(dir) && is_no_path(dir))
                ==> (answer matches Answer::Canonical(dir) ==> question == Question::<
                Seq<u8>,
                RepositoryProblem,
            >::CheckStructure {
                metadata_dir: dir@,
                objects_dir: match object_directory {
                    Some(named) => seen_from(cwd, named),
                    None => seen_from(at.dir, text("objects")),
                },
            })
        }),
{
}

/// `HEAD` is forty hexadecimal digits, and a newline, with or without a carriage return in front of
/// it, may stand behind them.
pub proof fn heads_are_forty_digits(digits: Seq<u8>, oid: Oid)
    requires
        forall|i: int| 0 <= i < digits.len() ==> #[trigger] digits[i] > 0x20,
    ensures
        head_digits(digits) == digits,
        head_digits(digits + seq![0x0au8]) == digits,
        head_digits(digits + seq![0x0du8, 0x0a]) == digits,
        reads_hex(digits, Ok::<Oid, OidError>(oid)) ==> digits.len() == 40 && all_hex(digits),
{
    reveal_strlit("\r\n");
    reveal_strlit("\n");
    lemma_ascii_text("\r\n");
    lemma_ascii_text("\n");
    let lf = digits + seq![0x0au8];
    let crlf = digits + seq![0x0du8, 0x0a];
    let n = digits.len() as int;
    assert(text("\r\n") =~= seq![0x0du8, 0x0a]);
    assert(text("\n") =~= seq![0x0au8]);
    assert(lf.skip(n) =~= seq![0x0au8]);
    assert(crlf.skip(n) =~= seq![0x0du8, 0x0a]);
    assert(lf.take(n) =~= digits);
    assert(crlf.take(n) =~= digits);
    if n > 0 {
        assert(digits.skip(n - 1)[0] == digits[n - 1]);
        assert(lf.skip(n - 1)[0] == digits[n - 1]);
    }
    if n > 1 {
        assert(digits.skip(n - 2)[1] == digits[n - 1]);
    }
}

} // verus!
