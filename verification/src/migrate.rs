//! Moving the metadata of a repository to a directory of its own, and leaving a pointer file in its
//! place.

use crate::bytes::text;
use crate::init::{InitError, InitProblem};
use crate::litfile::{self, pointer_bytes, target_of};
use crate::path::{components_of, OsPath};
use crate::repository::{Answer, EntryType};
use vstd::prelude::*;
use vstd::string::*;

verus! {

/// What has to be asked of the file system or done there.
#[derive(Debug)]
pub enum Task<P = OsPath, B = Vec<u8>, E = InitError> {
    /// What is at the path, symbolic links not followed?
    LinkStat(P),
    Canonicalize(P),
    /// What is at the path, symbolic links followed?
    Stat(P),
    /// Is the directory the metadata of a repository?
    Validate(P),
    Read(P),
    Rename { from: P, to: P },
    WritePointer { path: P, contents: B },
    /// The pointer file is written.
    Finished,
    /// Something was found that has to be refused.
    Refused(E),
    /// The failure of the last task is the outcome.
    PassOn,
}

impl View for Task {
    type V = Task<Seq<u8>, Seq<u8>, InitProblem>;

    open spec fn view(&self) -> Task<Seq<u8>, Seq<u8>, InitProblem> {
        match *self {
            Task::LinkStat(p) => Task::LinkStat(p@),
            Task::Canonicalize(p) => Task::Canonicalize(p@),
            Task::Stat(p) => Task::Stat(p@),
            Task::Validate(p) => Task::Validate(p@),
            Task::Read(p) => Task::Read(p@),
            Task::Rename { from, to } => Task::Rename { from: from@, to: to@ },
            Task::WritePointer { path, contents } => Task::WritePointer {
                path: path@,
                contents: contents@,
            },
            Task::Finished => Task::Finished,
            Task::Refused(err) => Task::Refused(err@),
            Task::PassOn => Task::PassOn,
        }
    }
}

#[derive(Debug)]
pub enum MigrationState<P = OsPath> {
    /// What stands at the entry was asked for.
    Looking,
    /// The entry is a symbolic link that is being resolved: a rename would move the link itself.
    Resolving,
    /// What stands at the resolved entry was asked for.
    Inspecting(P),
    /// The entry is a pointer file that is being read.
    Reading,
    /// The metadata at this path are being checked.
    Validating(P),
    Moving,
    Writing,
    Ended,
}

impl View for MigrationState {
    type V = MigrationState<Seq<u8>>;

    open spec fn view(&self) -> MigrationState<Seq<u8>> {
        match *self {
            MigrationState::Looking => MigrationState::Looking,
            MigrationState::Resolving => MigrationState::Resolving,
            MigrationState::Inspecting(p) => MigrationState::Inspecting(p@),
            MigrationState::Reading => MigrationState::Reading,
            MigrationState::Validating(p) => MigrationState::Validating(p@),
            MigrationState::Moving => MigrationState::Moving,
            MigrationState::Writing => MigrationState::Writing,
            MigrationState::Ended => MigrationState::Ended,
        }
    }
}

pub type MigrationTask = Task<Seq<u8>, Seq<u8>, InitProblem>;

/// Does an answer fit what a state asked for?
pub open spec fn fits(state: MigrationState<Seq<u8>>, answer: Answer) -> bool {
    match state {
        MigrationState::Looking => answer is Entry || answer is Missing || answer is Failed,
        MigrationState::Resolving => answer is Canonical || answer is Failed,
        MigrationState::Inspecting(_) => answer is Entry || answer is Failed,
        MigrationState::Reading => answer is Contents || answer is Entry || answer is Failed,
        MigrationState::Validating(_) => answer is Done || answer is Failed,
        MigrationState::Moving => answer is Done || answer is Failed,
        MigrationState::Writing => answer is Done || answer is Failed,
        MigrationState::Ended => false,
    }
}

/// The pointer file is written in the place of the entry.
pub open spec fn pointing(entry: Seq<u8>, destination: Seq<u8>) -> (
    MigrationState<Seq<u8>>,
    MigrationTask,
) {
    (
        MigrationState::Writing,
        Task::WritePointer { path: entry, contents: pointer_bytes(destination) },
    )
}

pub open spec fn migration_over(task: MigrationTask) -> (MigrationState<Seq<u8>>, MigrationTask) {
    (MigrationState::Ended, task)
}

/// What an answer leads to.
pub open spec fn migration_step(
    entry: Seq<u8>,
    destination: Seq<u8>,
    state: MigrationState<Seq<u8>>,
    answer: Answer,
) -> (MigrationState<Seq<u8>>, MigrationTask) {
    match (state, answer) {
        (MigrationState::Looking, Answer::Missing) => pointing(entry, destination),
        (MigrationState::Looking, Answer::Entry(EntryType::Symlink)) => (
            MigrationState::Resolving,
            Task::Canonicalize(entry),
        ),
        (MigrationState::Looking, Answer::Entry(_)) => (
            MigrationState::Inspecting(entry),
            Task::Stat(entry),
        ),
        (MigrationState::Resolving, Answer::Canonical(path)) => (
            MigrationState::Inspecting(path@),
            Task::Stat(path@),
        ),
        (MigrationState::Inspecting(path), Answer::Entry(EntryType::Directory)) => (
            MigrationState::Validating(path),
            Task::Validate(path),
        ),
        (MigrationState::Inspecting(_), Answer::Entry(EntryType::File)) => (
            MigrationState::Reading,
            Task::Read(entry),
        ),
        (MigrationState::Inspecting(path), Answer::Entry(kind)) => migration_over(
            Task::Refused(InitProblem::BadEntry { path, entry: kind }),
        ),
        (MigrationState::Reading, Answer::Entry(kind)) => migration_over(
            Task::Refused(InitProblem::BadEntry { path: entry, entry: kind }),
        ),
        (MigrationState::Reading, Answer::Contents(bytes)) => match target_of(bytes@) {
            Err(kind) => migration_over(
                Task::Refused(InitProblem::LitFile { path: entry, kind }),
            ),
            Ok(target) => (MigrationState::Validating(target), Task::Validate(target)),
        },
        (MigrationState::Validating(path), Answer::Done) => if components_of(path)
            == components_of(destination) {
            pointing(entry, destination)
        } else {
            (MigrationState::Moving, Task::Rename { from: path, to: destination })
        },
        (MigrationState::Moving, Answer::Done) => pointing(entry, destination),
        (MigrationState::Writing, Answer::Done) => migration_over(Task::Finished),
        _ => migration_over(Task::PassOn),
    }
}

/// The move of the metadata behind an entry, `<worktree>/.lit`, to another directory. Where there is
/// no entry yet, there is nothing to move.
#[derive(Debug)]
pub struct Migration {
    pub entry: OsPath,
    pub destination: OsPath,
    pub state: MigrationState,
}

impl Migration {
    /// Starts the move. The first task is to look at the entry.
    pub fn new(entry: OsPath, destination: OsPath) -> (r: (Self, Task))
        ensures
            r.0.entry@ == entry@,
            r.0.destination@ == destination@,
            r.0.state@ == MigrationState::<Seq<u8>>::Looking,
            r.1@ == Task::<Seq<u8>, Seq<u8>, InitProblem>::LinkStat(entry@),
    {
        let task = Task::LinkStat(entry.copied());
        (Migration { entry, destination, state: MigrationState::Looking }, task)
    }

    fn point(&mut self) -> (r: Task)
        ensures
            (final(self).state@, r@) == pointing(old(self).entry@, old(self).destination@),
            final(self).entry@ == old(self).entry@,
            final(self).destination@ == old(self).destination@,
    {
        self.state = MigrationState::Writing;
        Task::WritePointer {
            path: self.entry.copied(),
            contents: litfile::content(self.destination.as_bytes()),
        }
    }

    /// Takes an answer, and gives the next task.
    pub fn next(&mut self, answer: Answer) -> (r: Task)
        requires
            fits(old(self).state@, answer),
        ensures
            (final(self).state@, r@) == migration_step(
                old(self).entry@,
                old(self).destination@,
                old(self).state@,
                answer,
            ),
            final(self).entry@ == old(self).entry@,
            final(self).destination@ == old(self).destination@,
    {
        let mut state = MigrationState::Ended;
        core::mem::swap(&mut state, &mut self.state);
        match (state, answer) {
            (MigrationState::Looking, Answer::Missing) => self.point(),
            (MigrationState::Looking, Answer::Entry(kind)) => if kind == EntryType::Symlink {
                self.state = MigrationState::Resolving;
                Task::Canonicalize(self.entry.copied())
            } else {
                self.state = MigrationState::Inspecting(self.entry.copied());
                Task::Stat(self.entry.copied())
            },
            (MigrationState::Resolving, Answer::Canonical(path)) => {
                self.state = MigrationState::Inspecting(path.copied());
                Task::Stat(path)
            },
            (MigrationState::Inspecting(path), Answer::Entry(kind)) => match kind {
                EntryType::Directory => {
                    self.state = MigrationState::Validating(path.copied());
                    Task::Validate(path)
                },
                EntryType::File => {
                    self.state = MigrationState::Reading;
                    Task::Read(self.entry.copied())
                },
                _ => Task::Refused(InitError::BadEntry { path, entry: kind }),
            },
            (MigrationState::Reading, Answer::Entry(kind)) => Task::Refused(
                InitError::BadEntry { path: self.entry.copied(), entry: kind },
            ),
            (MigrationState::Reading, Answer::Contents(bytes)) => match litfile::read(
                bytes.as_slice(),
                &self.entry,
            ) {
                Ok(target) => {
                    self.state = MigrationState::Validating(target.copied());
                    Task::Validate(target)
                },
                Err(err) => Task::Refused(InitError::LitFile(err)),
            },
            (MigrationState::Validating(path), Answer::Done) => if path.same_path(
                &self.destination,
            ) {
                self.point()
            } else {
                self.state = MigrationState::Moving;
                Task::Rename { from: path, to: self.destination.copied() }
            },
            (MigrationState::Moving, Answer::Done) => self.point(),
            (MigrationState::Writing, Answer::Done) => Task::Finished,
            _ => Task::PassOn,
        }
    }
}

/// Nothing is renamed that was not checked to be the metadata of a repository, and the only place
/// it is moved to is the one that was asked for.
pub proof fn only_metadata_are_moved(
    entry: Seq<u8>,
    destination: Seq<u8>,
    state: MigrationState<Seq<u8>>,
    answer: Answer,
)
    ensures
        migration_step(entry, destination, state, answer).1 matches Task::Rename { from, to } ==> {
            &&& state == MigrationState::Validating(from)
            &&& answer is Done
            &&& to == destination
        },
{
}

/// What is written in the place of the entry leads a later look to the new directory.
pub proof fn pointer_leads_to_destination(entry: Seq<u8>, destination: Seq<u8>)
    requires
        destination.len() > 0,
        !destination.contains(crate::bytes::NUL),
        destination.last() != crate::bytes::CR,
        pointer_bytes(destination).len() <= litfile::FILE_MAX_SIZE,
    ensures
        ({
            let (_, task) = pointing(entry, destination);
            task matches Task::WritePointer { path, contents } && path == entry && target_of(
                contents,
            ) == Ok::<_, litfile::LitFileErrorKind<Seq<u8>>>(destination)
        }),
{
    litfile::reading_inverts_writing(destination);
}

/// A pointer file to the destination is written in the place of the entry exactly when nothing was
/// there, when the metadata that were found are at the destination already, and when they were moved
/// there. The move is over when it is written.
pub proof fn pointers_are_written_when_the_metadata_are_there(
    entry: Seq<u8>,
    destination: Seq<u8>,
    state: MigrationState<Seq<u8>>,
    answer: Answer,
)
    requires
        fits(state, answer),
    ensures
        ({
            let (next, task) = migration_step(entry, destination, state, answer);
            let there = state matches MigrationState::Validating(path) && components_of(path)
                == components_of(destination);
            &&& task is WritePointer <==> (state is Looking && answer is Missing) || (there
                && answer is Done) || (state is Moving && answer is Done)
            &&& task matches Task::WritePointer { path, contents } ==> path == entry && contents
                == text("litdir: ") + destination + seq![0x0au8] && next is Writing
            &&& task is Finished <==> state is Writing && answer is Done
            &&& state matches MigrationState::Validating(path) ==> (answer is Done && !there ==> (
            task matches Task::Rename { from, to } && from == path && to == destination && next
                is Moving))
            &&& answer is Failed ==> task is PassOn
        }),
{
}

/// What is at the entry decides what is taken for the metadata: a directory itself, with its links
/// resolved, or what a pointer file names. Anything else is refused.
pub proof fn metadata_are_found_behind_the_entry(
    entry: Seq<u8>,
    destination: Seq<u8>,
    state: MigrationState<Seq<u8>>,
    answer: Answer,
)
    requires
        fits(state, answer),
    ensures
        ({
            let (next, task) = migration_step(entry, destination, state, answer);
            &&& state is Looking ==> (answer matches Answer::Entry(kind) ==> if kind
                == EntryType::Symlink {
                next is Resolving && task == MigrationTask::Canonicalize(entry)
            } else {
                next == MigrationState::Inspecting(entry) && task == MigrationTask::Stat(entry)
            })
            &&& state is Resolving ==> (answer matches Answer::Canonical(path) ==> next
                == MigrationState::Inspecting(path@) && task == MigrationTask::Stat(path@))
            &&& state matches MigrationState::Inspecting(path) ==> (answer matches Answer::Entry(
                kind,
            ) ==> match kind {
                EntryType::Directory => next == MigrationState::Validating(path) && task
                    == MigrationTask::Validate(path),
                EntryType::File => next is Reading && task == MigrationTask::Read(entry),
                _ => task is Refused,
            })
            &&& state is Reading ==> (answer matches Answer::Contents(bytes) ==> match target_of(
                bytes@,
            ) {
                Ok(target) => next == MigrationState::Validating(target) && task
                    == MigrationTask::Validate(target),
                Err(_) => task is Refused,
            })
            &&& task is Refused ==> (state is Inspecting || state is Reading)
        }),
{
}

/// A task that failed ends the move with its failure. What is refused is told with its path: the
/// path that leads to something else than a directory or a file, or the entry, where it is no
/// pointer file after all or a broken one. Metadata that were checked and are elsewhere are moved.
pub proof fn moves_end_with_what_stopped_them(
    entry: Seq<u8>,
    destination: Seq<u8>,
    state: MigrationState<Seq<u8>>,
    answer: Answer,
)
    requires
        fits(state, answer),
    ensures
        ({
            let (next, task) = migration_step(entry, destination, state, answer);
            &&& answer is Failed <==> task is PassOn
            &&& next is Ended <==> (task is PassOn || task is Refused || task is Finished)
            &&& state matches MigrationState::Inspecting(path) ==> (answer matches Answer::Entry(
                kind,
            ) ==> (kind != EntryType::Directory && kind != EntryType::File ==> task
                == MigrationTask::Refused(InitProblem::BadEntry { path, entry: kind })))
            &&& state is Reading ==> (answer matches Answer::Entry(kind) ==> task
                == MigrationTask::Refused(InitProblem::BadEntry { path: entry, entry: kind }))
            &&& state is Reading ==> (answer matches Answer::Contents(bytes) ==> (target_of(
                bytes@,
            ) matches Err(kind) ==> task == MigrationTask::Refused(
                InitProblem::LitFile { path: entry, kind },
            )))
            &&& state matches MigrationState::Validating(path) ==> (answer is Done && components_of(
                path,
            ) != components_of(destination) ==> next is Moving && task == (MigrationTask::Rename {
                from: path,
                to: destination,
            }))
        }),
{
}

} // verus!
