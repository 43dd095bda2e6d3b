//! Finding a repository. What has to be looked up in the file system is asked for, one question at
//! a time; what is made of the answers is decided here.

use crate::bytes::{copy_of, text};
use crate::config::doc::LineView;
use crate::config::{got_bool, got_bytes, ConfigFile, ConfigFileError, ConfigFileErrorKind};
use crate::format::{
    format_of, plain_format, FormatProblem, FormatVersion, RepositoryFormat, RepositoryFormatError,
};
use crate::index::{Index, IndexEntry};
use crate::layout::{
    discovered_placement, optional_bytes, optional_path, optional_path_ref, Layout, LitEntry,
};
use crate::litfile::{
    self, strip_line_ending, target_of, without_line_ending, LitFileError, LitFileErrorKind,
};
use crate::object::oid::{reads_hex, Oid, OidError};
use crate::path::{joined, lemma_located, located, os_path_error, parent_of, OsPath, OsPathError};
use vstd::prelude::*;
use vstd::string::*;

pub mod laws;

verus! {

#[derive(Debug, Clone, Copy, PartialEq, Eq, Structural)]
pub enum EntryType {
    File,
    Directory,
    Symlink,
    Other,
}

impl EntryType {
    /// The type of a file, by what the system says of it.
    pub fn from_flags(is_file: bool, is_dir: bool, is_symlink: bool) -> (r: Self)
        ensures
            r == (if is_file {
                EntryType::File
            } else if is_dir {
                EntryType::Directory
            } else if is_symlink {
                EntryType::Symlink
            } else {
                EntryType::Other
            }),
    {
        if is_file {
            EntryType::File
        } else if is_dir {
            EntryType::Directory
        } else if is_symlink {
            EntryType::Symlink
        } else {
            EntryType::Other
        }
    }

    pub fn name(&self) -> (r: &'static str)
        ensures
            r == (match *self {
                EntryType::File => "file",
                EntryType::Directory => "directory",
                EntryType::Symlink => "symlink",
                EntryType::Other => "other",
            }),
    {
        match self {
            EntryType::File => "file",
            EntryType::Directory => "directory",
            EntryType::Symlink => "symlink",
            EntryType::Other => "other",
        }
    }
}

#[derive(Debug)]
pub enum RepositoryError {
    OsPath(OsPathError),
    Litfile(LitFileError),
    Config(ConfigFileError),
    RepositoryFormat(RepositoryFormatError),
    NotRepository(OsPath),
    /// What was found is neither a metadata directory nor a pointer file.
    UnexpectedEntry { path: OsPath, entry: EntryType },
    /// What was opened as a pointer file is no regular file.
    NotARegularFile(OsPath),
    BadHeadOid { path: OsPath, source: OidError },
}

/// What is wrong with a repository.
#[allow(inconsistent_fields)]
pub enum RepositoryProblem {
    OsPath(OsPathError<Seq<u8>>),
    Litfile { path: Seq<u8>, kind: LitFileErrorKind<Seq<u8>> },
    Config { path: Seq<u8>, kind: ConfigFileErrorKind<Seq<u8>> },
    RepositoryFormat(FormatProblem),
    NotRepository(Seq<u8>),
    UnexpectedEntry { path: Seq<u8>, entry: EntryType },
    NotARegularFile(Seq<u8>),
    BadHeadOid { path: Seq<u8>, source: OidError },
}

impl View for RepositoryError {
    type V = RepositoryProblem;

    open spec fn view(&self) -> RepositoryProblem {
        match *self {
            RepositoryError::OsPath(err) => RepositoryProblem::OsPath(err@),
            RepositoryError::Litfile(err) => RepositoryProblem::Litfile {
                path: err.path@,
                kind: err.kind@,
            },
            RepositoryError::Config(err) => RepositoryProblem::Config {
                path: err.path@,
                kind: err.kind@,
            },
            RepositoryError::RepositoryFormat(err) => RepositoryProblem::RepositoryFormat(err@),
            RepositoryError::NotRepository(path) => RepositoryProblem::NotRepository(path@),
            RepositoryError::UnexpectedEntry { path, entry } => RepositoryProblem::UnexpectedEntry {
                path: path@,
                entry,
            },
            RepositoryError::NotARegularFile(path) => RepositoryProblem::NotARegularFile(path@),
            RepositoryError::BadHeadOid { path, source } => RepositoryProblem::BadHeadOid {
                path: path@,
                source,
            },
        }
    }
}

/// The directories of a repository, as far as the file system tells.
#[derive(Debug)]
pub struct RepositoryPaths<P = OsPath> {
    /// Absolute, symbolic links resolved.
    pub metadata_dir: P,
    pub objects_dir: P,
    /// The file that led to the metadata directory.
    pub pointer_file: Option<P>,
}

impl View for RepositoryPaths {
    type V = RepositoryPaths<Seq<u8>>;

    open spec fn view(&self) -> RepositoryPaths<Seq<u8>> {
        RepositoryPaths {
            metadata_dir: self.metadata_dir@,
            objects_dir: self.objects_dir@,
            pointer_file: optional_path(self.pointer_file),
        }
    }
}

impl RepositoryPaths {
    pub fn metadata_dir(&self) -> (r: &OsPath)
        ensures
            r@ == self@.metadata_dir,
    {
        &self.metadata_dir
    }
}

/// The contents of `HEAD` without its line ending, if it has one.
pub open spec fn head_digits(b: Seq<u8>) -> Seq<u8> {
    match without_line_ending(b) {
        Some(rest) => rest,
        None => b,
    }
}

/// Checks that `HEAD` names an object.
pub fn validate_head(bytes: &[u8]) -> (r: Result<(), OidError>)
    ensures
        match r {
            Ok(()) => exists|oid: Oid| reads_hex(head_digits(bytes@), Ok::<Oid, OidError>(oid)),
            Err(err) => reads_hex(head_digits(bytes@), Err::<Oid, OidError>(err)),
        },
{
    let digits = match strip_line_ending(bytes) {
        Some(rest) => rest,
        None => bytes,
    };
    match Oid::from_hex_bytes(digits) {
        Ok(oid) => {
            assert(reads_hex(head_digits(bytes@), Ok::<Oid, OidError>(oid)));
            Ok(())
        },
        Err(err) => Err(err),
    }
}

/// Where the objects are: in the directory that the environment names, or in `objects`.
pub open spec fn objects_dir_of(
    metadata_dir: Seq<u8>,
    cwd: Seq<u8>,
    object_directory: Option<Seq<u8>>,
) -> Result<Seq<u8>, OsPathError<Seq<u8>>> {
    match object_directory {
        Some(dir) => match os_path_error(dir) {
            Some(err) => Err(err),
            None => Ok(joined(cwd, dir)),
        },
        None => Ok(joined(metadata_dir, text("objects"))),
    }
}

/// The directory of the objects. `object_directory` is the variable `LIT_OBJECT_DIRECTORY`.
pub fn resolve_objects_dir(
    metadata_dir: &OsPath,
    cwd: &OsPath,
    object_directory: Option<&[u8]>,
) -> (r: Result<OsPath, OsPathError>)
    ensures
        match objects_dir_of(metadata_dir@, cwd@, optional_bytes(object_directory)) {
            Ok(dir) => r matches Ok(d) && d@ == dir,
            Err(err) => r matches Err(e) && e@ == err,
        },
{
    match object_directory {
        Some(dir) => cwd.join(dir),
        None => Ok(metadata_dir.join_text("objects")),
    }
}

/// The worktree that a configuration names: none if it says `core.bare`, else `core.worktree` seen
/// from the metadata directory, else the default.
pub open spec fn worktree_of(
    cfg: (Seq<u8>, Seq<LineView>),
    metadata_dir: Seq<u8>,
    fallback: Option<Seq<u8>>,
) -> Result<Option<Seq<u8>>, RepositoryProblem> {
    let (path, lines) = cfg;
    match got_bool(lines, text("core.bare")) {
        Ok(true) => Ok(None),
        Err(kind) if !(kind is NotFound) => Err(RepositoryProblem::Config { path, kind }),
        _ => match got_bytes(lines, text("core.worktree"), "any byte") {
            Ok(dir) => match os_path_error(dir) {
                Some(err) => Err(RepositoryProblem::OsPath(err)),
                None => Ok(Some(joined(metadata_dir, dir))),
            },
            Err(ConfigFileErrorKind::NotFound(_)) => Ok(fallback),
            Err(kind) => Err(RepositoryProblem::Config { path, kind }),
        },
    }
}

/// The worktree that a configuration names, if it names one or the default is one.
pub fn resolve_worktree_dir(
    cfg: &ConfigFile,
    metadata_dir: &OsPath,
    fallback: Option<OsPath>,
) -> (r: Result<Option<OsPath>, RepositoryError>)
    requires
        cfg.wf(),
    ensures
        match worktree_of((cfg.path@, cfg@), metadata_dir@, optional_path(fallback)) {
            Ok(dir) => r matches Ok(d) && optional_path(d) == dir,
            Err(err) => r matches Err(e) && e@ == err,
        },
{
    let bare = match cfg.get_bool("core.bare".as_bytes()) {
        Ok(bare) => bare,
        Err(err) => {
            if err.is_key_not_found() {
                false
            } else {
                return Err(RepositoryError::Config(err));
            }
        },
    };
    if bare {
        return Ok(None);
    }
    match cfg.get_bytes("core.worktree".as_bytes()) {
        Ok(path) => match metadata_dir.join(path.as_slice()) {
            Ok(dir) => Ok(Some(dir)),
            Err(err) => Err(RepositoryError::OsPath(err)),
        },
        Err(err) => {
            if err.is_key_not_found() {
                Ok(fallback)
            } else {
                Err(RepositoryError::Config(err))
            }
        },
    }
}

/// The worktree of a repository whose metadata the environment names: the environment's, else the
/// configuration's, else the current directory.
pub open spec fn explicit_worktree_of(
    cfg: (Seq<u8>, Seq<LineView>),
    metadata_dir: Seq<u8>,
    cwd: Seq<u8>,
    lit_work_tree: Option<Seq<u8>>,
) -> Result<Option<Seq<u8>>, RepositoryProblem> {
    match lit_work_tree {
        Some(dir) => match os_path_error(dir) {
            Some(err) => Err(RepositoryProblem::OsPath(err)),
            None => Ok(Some(joined(cwd, dir))),
        },
        None => worktree_of(cfg, metadata_dir, Some(cwd)),
    }
}

/// The worktree of a repository whose metadata the environment names. `lit_work_tree` is the
/// variable `LIT_WORK_TREE`.
pub fn resolve_explicit_worktree_dir(
    cfg: &ConfigFile,
    metadata_dir: &OsPath,
    cwd: &OsPath,
    lit_work_tree: Option<&[u8]>,
) -> (r: Result<Option<OsPath>, RepositoryError>)
    requires
        cfg.wf(),
    ensures
        match explicit_worktree_of(
            (cfg.path@, cfg@),
            metadata_dir@,
            cwd@,
            optional_bytes(lit_work_tree),
        ) {
            Ok(dir) => r matches Ok(d) && optional_path(d) == dir,
            Err(err) => r matches Err(e) && e@ == err,
        },
{
    match lit_work_tree {
        Some(dir) => match cwd.join(dir) {
            Ok(dir) => Ok(Some(dir)),
            Err(err) => Err(RepositoryError::OsPath(err)),
        },
        None => resolve_worktree_dir(cfg, metadata_dir, Some(cwd.copied())),
    }
}

/// What a look at the contents of a metadata directory showed.
#[derive(Debug, Clone, Copy, PartialEq, Eq, Structural)]
pub enum StructureCheck {
    /// The directory, `HEAD`, the objects and `refs` are as they have to be.
    Valid,
    /// One of them could not be read.
    Unreadable,
    BadHead(OidError),
}

/// The answer to a question about the file system.
#[derive(Debug)]
pub enum Answer {
    /// The path leads to a file of this type.
    Entry(EntryType),
    /// The path leads to nothing, or through something that is no directory.
    Missing,
    /// The path with its symbolic links resolved.
    Canonical(OsPath),
    /// The contents of the file, as far as a pointer file may go.
    Contents(Vec<u8>),
    /// What was opened is no regular file.
    NotRegular,
    Structure(StructureCheck),
    /// What was asked to be done is done.
    Done,
    /// The question could not be answered.
    Failed,
}

/// A question about the file system, or the end of the questions.
#[derive(Debug)]
pub enum Question<P = OsPath, E = RepositoryError> {
    /// What is at the path, symbolic links followed?
    Stat(P),
    Canonicalize(P),
    Read(P),
    CheckStructure { metadata_dir: P, objects_dir: P },
    /// A repository was found.
    Found(RepositoryPaths<P>),
    /// There is no repository here.
    NotHere,
    /// Something was found that has to be refused.
    Refused(E),
    /// The failure of the last question is the outcome.
    PassOn,
}

impl View for Question {
    type V = Question<Seq<u8>, RepositoryProblem>;

    open spec fn view(&self) -> Question<Seq<u8>, RepositoryProblem> {
        match *self {
            Question::Stat(p) => Question::Stat(p@),
            Question::Canonicalize(p) => Question::Canonicalize(p@),
            Question::Read(p) => Question::Read(p@),
            Question::CheckStructure { metadata_dir, objects_dir } => Question::CheckStructure {
                metadata_dir: metadata_dir@,
                objects_dir: objects_dir@,
            },
            Question::Found(paths) => Question::Found(paths@),
            Question::NotHere => Question::NotHere,
            Question::Refused(err) => Question::Refused(err@),
            Question::PassOn => Question::PassOn,
        }
    }
}

#[derive(Debug)]
pub enum ProbeState<P = OsPath> {
    /// What is at the path was asked for.
    Looking,
    /// The directory at the path is being resolved.
    ResolvingDirectory,
    /// The pointer file at the path is being read.
    ReadingPointer,
    /// The directory that the pointer file names is being resolved.
    ResolvingTarget,
    /// The contents of a directory are being checked.
    Checking(RepositoryPaths<P>),
    Ended,
}

impl View for ProbeState {
    type V = ProbeState<Seq<u8>>;

    open spec fn view(&self) -> ProbeState<Seq<u8>> {
        match *self {
            ProbeState::Looking => ProbeState::Looking,
            ProbeState::ResolvingDirectory => ProbeState::ResolvingDirectory,
            ProbeState::ReadingPointer => ProbeState::ReadingPointer,
            ProbeState::ResolvingTarget => ProbeState::ResolvingTarget,
            ProbeState::Checking(paths) => ProbeState::Checking(paths@),
            ProbeState::Ended => ProbeState::Ended,
        }
    }
}

/// A look for a repository at one path. A path that was named explicitly has to lead to a
/// repository. One that was only come across need not, unless it is a pointer file.
#[derive(Debug)]
pub struct Probe {
    pub path: OsPath,
    pub cwd: OsPath,
    /// The variable `LIT_OBJECT_DIRECTORY`.
    pub object_directory: Option<Vec<u8>>,
    pub explicit: bool,
    pub state: ProbeState,
}

pub open spec fn optional_vec(b: Option<Vec<u8>>) -> Option<Seq<u8>> {
    match b {
        Some(b) => Some(b@),
        None => None,
    }
}

/// Does an answer fit the question that a state asked?
pub open spec fn answers(state: ProbeState<Seq<u8>>, answer: Answer) -> bool {
    match state {
        ProbeState::Looking => answer is Entry || answer is Missing || answer is Failed,
        ProbeState::ResolvingDirectory => answer is Canonical || answer is Failed,
        ProbeState::ReadingPointer => answer is Contents || answer is NotRegular
            || answer is Failed,
        ProbeState::ResolvingTarget => answer is Canonical || answer is Failed,
        ProbeState::Checking(_) => answer is Structure,
        ProbeState::Ended => false,
    }
}

pub open spec fn ended(question: Question<Seq<u8>, RepositoryProblem>) -> (
    ProbeState<Seq<u8>>,
    Question<Seq<u8>, RepositoryProblem>,
) {
    (ProbeState::Ended, question)
}

/// Asks for the contents of a metadata directory. The objects are looked for from `base`, unless
/// the environment names their directory.
pub open spec fn check_of(
    metadata_dir: Seq<u8>,
    base: Seq<u8>,
    cwd: Seq<u8>,
    object_directory: Option<Seq<u8>>,
    pointer_file: Option<Seq<u8>>,
) -> (ProbeState<Seq<u8>>, Question<Seq<u8>, RepositoryProblem>) {
    match objects_dir_of(base, cwd, object_directory) {
        Err(err) => ended(Question::Refused(RepositoryProblem::OsPath(err))),
        Ok(objects_dir) => (
            ProbeState::Checking(RepositoryPaths { metadata_dir, objects_dir, pointer_file }),
            Question::CheckStructure { metadata_dir, objects_dir },
        ),
    }
}

/// What an answer leads to.
pub open spec fn probe_step(
    path: Seq<u8>,
    cwd: Seq<u8>,
    object_directory: Option<Seq<u8>>,
    explicit: bool,
    state: ProbeState<Seq<u8>>,
    answer: Answer,
) -> (ProbeState<Seq<u8>>, Question<Seq<u8>, RepositoryProblem>) {
    let nothing_here = if explicit {
        ended(Question::PassOn)
    } else {
        ended(Question::NotHere)
    };
    match (state, answer) {
        (ProbeState::Looking, Answer::Missing) => nothing_here,
        (ProbeState::Looking, Answer::Entry(EntryType::Directory)) => (
            ProbeState::ResolvingDirectory,
            Question::Canonicalize(path),
        ),
        (ProbeState::Looking, Answer::Entry(EntryType::File)) => (
            ProbeState::ReadingPointer,
            Question::Read(path),
        ),
        (ProbeState::Looking, Answer::Entry(entry)) => ended(
            Question::Refused(RepositoryProblem::UnexpectedEntry { path, entry }),
        ),
        (ProbeState::ResolvingDirectory, Answer::Canonical(dir)) => check_of(
            dir@,
            if explicit {
                dir@
            } else {
                path
            },
            cwd,
            object_directory,
            None,
        ),
        (ProbeState::ResolvingDirectory, Answer::Failed) => nothing_here,
        (ProbeState::ReadingPointer, Answer::NotRegular) => ended(
            Question::Refused(RepositoryProblem::NotARegularFile(path)),
        ),
        (ProbeState::ReadingPointer, Answer::Contents(bytes)) => match target_of(bytes@) {
            Err(kind) => ended(Question::Refused(RepositoryProblem::Litfile { path, kind })),
            Ok(target) => (ProbeState::ResolvingTarget, Question::Canonicalize(target)),
        },
        (ProbeState::ResolvingTarget, Answer::Canonical(dir)) => check_of(
            dir@,
            dir@,
            cwd,
            object_directory,
            Some(path),
        ),
        (ProbeState::Checking(paths), Answer::Structure(check)) => match check {
            StructureCheck::Valid => ended(Question::Found(paths)),
            StructureCheck::Unreadable => if explicit || paths.pointer_file is Some {
                ended(Question::PassOn)
            } else {
                ended(Question::NotHere)
            },
            StructureCheck::BadHead(source) => if explicit || paths.pointer_file is Some {
                ended(
                    Question::Refused(
                        RepositoryProblem::BadHeadOid {
                            path: joined(paths.metadata_dir, text("HEAD")),
                            source,
                        },
                    ),
                )
            } else {
                ended(Question::NotHere)
            },
        },
        _ => ended(Question::PassOn),
    }
}

impl Probe {
    /// Starts to look for a repository at a path. The first question is what is there.
    pub fn new(
        path: OsPath,
        cwd: OsPath,
        object_directory: Option<Vec<u8>>,
        explicit: bool,
    ) -> (r: (Self, Question))
        ensures
            r.0.path@ == path@,
            r.0.cwd@ == cwd@,
            optional_vec(r.0.object_directory) == optional_vec(object_directory),
            r.0.explicit == explicit,
            r.0.state@ == ProbeState::<Seq<u8>>::Looking,
            r.1@ == Question::<Seq<u8>, RepositoryProblem>::Stat(path@),
    {
        let question = Question::Stat(path.copied());
        (Probe { path, cwd, object_directory, explicit, state: ProbeState::Looking }, question)
    }

    fn check(&mut self, metadata_dir: OsPath, from_path: bool, pointer_file: Option<OsPath>) -> (r:
        Question)
        ensures
            (final(self).state@, r@) == check_of(
                metadata_dir@,
                if from_path {
                    old(self).path@
                } else {
                    metadata_dir@
                },
                old(self).cwd@,
                optional_vec(old(self).object_directory),
                optional_path(pointer_file),
            ),
            final(self).path@ == old(self).path@,
            final(self).cwd@ == old(self).cwd@,
            final(self).object_directory == old(self).object_directory,
            final(self).explicit == old(self).explicit,
    {
        let object_directory = match &self.object_directory {
            Some(dir) => Some(dir.as_slice()),
            None => None,
        };
        let objects_dir = if from_path {
            resolve_objects_dir(&self.path, &self.cwd, object_directory)
        } else {
            resolve_objects_dir(&metadata_dir, &self.cwd, object_directory)
        };
        match objects_dir {
            Err(err) => {
                self.state = ProbeState::Ended;
                Question::Refused(RepositoryError::OsPath(err))
            },
            Ok(objects_dir) => {
                let question = Question::CheckStructure {
                    metadata_dir: metadata_dir.copied(),
                    objects_dir: objects_dir.copied(),
                };
                self.state = ProbeState::Checking(
                    RepositoryPaths { metadata_dir, objects_dir, pointer_file },
                );
                question
            },
        }
    }

    /// Takes an answer, and asks the next question.
    pub fn next(&mut self, answer: Answer) -> (r: Question)
        requires
            answers(old(self).state@, answer),
        ensures
            (final(self).state@, r@) == probe_step(
                old(self).path@,
                old(self).cwd@,
                optional_vec(old(self).object_directory),
                old(self).explicit,
                old(self).state@,
                answer,
            ),
            final(self).path@ == old(self).path@,
            final(self).cwd@ == old(self).cwd@,
            final(self).object_directory == old(self).object_directory,
            final(self).explicit == old(self).explicit,
    {
        let mut state = ProbeState::Ended;
        core::mem::swap(&mut state, &mut self.state);
        match (state, answer) {
            (ProbeState::Looking, Answer::Missing) => self.nothing_here(),
            (ProbeState::Looking, Answer::Entry(entry)) => match entry {
                EntryType::Directory => {
                    self.state = ProbeState::ResolvingDirectory;
                    Question::Canonicalize(self.path.copied())
                },
                EntryType::File => {
                    self.state = ProbeState::ReadingPointer;
                    Question::Read(self.path.copied())
                },
                _ => Question::Refused(
                    RepositoryError::UnexpectedEntry { path: self.path.copied(), entry },
                ),
            },
            (ProbeState::ResolvingDirectory, Answer::Canonical(dir)) => {
                let from_path = !self.explicit;
                self.check(dir, from_path, None)
            },
            (ProbeState::ResolvingDirectory, Answer::Failed) => self.nothing_here(),
            (ProbeState::ReadingPointer, Answer::NotRegular) => Question::Refused(
                RepositoryError::NotARegularFile(self.path.copied()),
            ),
            (ProbeState::ReadingPointer, Answer::Contents(bytes)) => match litfile::read(
                bytes.as_slice(),
                &self.path,
            ) {
                Ok(target) => {
                    self.state = ProbeState::ResolvingTarget;
                    Question::Canonicalize(target)
                },
                Err(err) => Question::Refused(RepositoryError::Litfile(err)),
            },
            (ProbeState::ResolvingTarget, Answer::Canonical(dir)) => {
                let pointer_file = self.path.copied();
                self.check(dir, false, Some(pointer_file))
            },
            (ProbeState::Checking(paths), Answer::Structure(check)) => match check {
                StructureCheck::Valid => Question::Found(paths),
                StructureCheck::Unreadable => if self.explicit || paths.pointer_file.is_some() {
                    Question::PassOn
                } else {
                    Question::NotHere
                },
                StructureCheck::BadHead(source) => if self.explicit
                    || paths.pointer_file.is_some() {
                    Question::Refused(
                        RepositoryError::BadHeadOid {
                            path: paths.metadata_dir.join_text("HEAD"),
                            source,
                        },
                    )
                } else {
                    Question::NotHere
                },
            },
            _ => Question::PassOn,
        }
    }

    fn nothing_here(&self) -> (r: Question)
        ensures
            r@ == (if self.explicit {
                Question::<Seq<u8>, RepositoryProblem>::PassOn
            } else {
                Question::NotHere
            }),
    {
        if self.explicit {
            Question::PassOn
        } else {
            Question::NotHere
        }
    }
}

/// How far the search has come at one directory.
#[derive(Debug)]
pub enum SearchPhase<P = OsPath, Q = Probe> {
    /// `.lit` in the directory is being looked at.
    Entry(Q),
    /// The directory itself is being resolved.
    Resolving,
    /// The contents of the directory itself are being checked.
    Checking(RepositoryPaths<P>),
    /// The search is over; the worktree that it led to.
    Ended(Option<P>),
}

impl View for SearchPhase {
    type V = SearchPhase<Seq<u8>, ProbeState<Seq<u8>>>;

    open spec fn view(&self) -> SearchPhase<Seq<u8>, ProbeState<Seq<u8>>> {
        match *self {
            SearchPhase::Entry(probe) => SearchPhase::Entry(probe.state@),
            SearchPhase::Resolving => SearchPhase::Resolving,
            SearchPhase::Checking(paths) => SearchPhase::Checking(paths@),
            SearchPhase::Ended(worktree) => SearchPhase::Ended(optional_path(worktree)),
        }
    }
}

/// A search for a repository, in a directory and then in those above it. In each directory, `.lit`
/// comes first, then the directory itself, which may be a bare repository.
#[derive(Debug)]
pub struct Search {
    pub cwd: OsPath,
    /// The variable `LIT_OBJECT_DIRECTORY`.
    pub object_directory: Option<Vec<u8>>,
    pub dir: OsPath,
    pub phase: SearchPhase,
}

/// Where a search stands.
pub struct SearchView {
    pub dir: Seq<u8>,
    pub phase: SearchPhase<Seq<u8>, ProbeState<Seq<u8>>>,
}

impl View for Search {
    type V = SearchView;

    open spec fn view(&self) -> SearchView {
        SearchView { dir: self.dir@, phase: self.phase@ }
    }
}

/// Does an answer fit the question that a phase asked?
pub open spec fn search_answers(
    phase: SearchPhase<Seq<u8>, ProbeState<Seq<u8>>>,
    answer: Answer,
) -> bool {
    match phase {
        SearchPhase::Entry(state) => answers(state, answer),
        SearchPhase::Resolving => answer is Canonical || answer is Failed,
        SearchPhase::Checking(_) => answer is Structure,
        SearchPhase::Ended(_) => false,
    }
}

/// The search goes on in the directory above, or ends at the root.
pub open spec fn ascended(cwd: Seq<u8>, dir: Seq<u8>) -> (
    SearchView,
    Question<Seq<u8>, RepositoryProblem>,
) {
    match parent_of(dir) {
        None => (
            SearchView { dir, phase: SearchPhase::Ended(None) },
            Question::Refused(RepositoryProblem::NotRepository(cwd)),
        ),
        Some(parent) => (
            SearchView { dir: parent, phase: SearchPhase::Entry(ProbeState::Looking) },
            Question::Stat(joined(parent, text(".lit"))),
        ),
    }
}

/// What an answer leads to.
pub open spec fn search_step(
    cwd: Seq<u8>,
    object_directory: Option<Seq<u8>>,
    at: SearchView,
    answer: Answer,
) -> (SearchView, Question<Seq<u8>, RepositoryProblem>) {
    let dir = at.dir;
    let over = SearchView { dir, phase: SearchPhase::Ended(None) };
    match at.phase {
        SearchPhase::Entry(state) => {
            let (next, question) = probe_step(
                joined(dir, text(".lit")),
                cwd,
                object_directory,
                false,
                state,
                answer,
            );
            match question {
                Question::Found(_) => (
                    SearchView { dir, phase: SearchPhase::Ended(Some(dir)) },
                    question,
                ),
                Question::NotHere => (
                    SearchView { dir, phase: SearchPhase::Resolving },
                    Question::Canonicalize(dir),
                ),
                Question::Refused(_) => (over, question),
                Question::PassOn => (over, question),
                _ => (SearchView { dir, phase: SearchPhase::Entry(next) }, question),
            }
        },
        SearchPhase::Resolving => match answer {
            Answer::Canonical(metadata_dir) => match objects_dir_of(dir, cwd, object_directory) {
                Err(err) => (over, Question::Refused(RepositoryProblem::OsPath(err))),
                Ok(objects_dir) => (
                    SearchView {
                        dir,
                        phase: SearchPhase::Checking(
                            RepositoryPaths {
                                metadata_dir: metadata_dir@,
                                objects_dir,
                                pointer_file: None,
                            },
                        ),
                    },
                    Question::CheckStructure { metadata_dir: metadata_dir@, objects_dir },
                ),
            },
            _ => ascended(cwd, dir),
        },
        SearchPhase::Checking(paths) => if answer == Answer::Structure(StructureCheck::Valid) {
            (over, Question::Found(paths))
        } else {
            ascended(cwd, dir)
        },
        SearchPhase::Ended(_) => (over, Question::PassOn),
    }
}

impl Search {
    /// The probe that is under way looks at `.lit` in the directory.
    pub open spec fn wf(&self) -> bool {
        self.phase matches SearchPhase::Entry(probe) ==> {
            &&& probe.path@ == joined(self.dir@, text(".lit"))
            &&& probe.cwd@ == self.cwd@
            &&& optional_vec(probe.object_directory) == optional_vec(self.object_directory)
            &&& !probe.explicit
        }
    }

    fn copied_object_directory(&self) -> (r: Option<Vec<u8>>)
        ensures
            optional_vec(r) == optional_vec(self.object_directory),
    {
        match &self.object_directory {
            Some(dir) => Some(copy_of(dir.as_slice())),
            None => None,
        }
    }

    /// Starts a search in the current directory.
    pub fn new(cwd: OsPath, object_directory: Option<Vec<u8>>) -> (r: (Self, Question))
        ensures
            r.0.wf(),
            r.0.cwd@ == cwd@,
            optional_vec(r.0.object_directory) == optional_vec(object_directory),
            r.0@ == (SearchView {
                dir: cwd@,
                phase: SearchPhase::Entry(ProbeState::Looking),
            }),
            r.1@ == Question::<Seq<u8>, RepositoryProblem>::Stat(joined(cwd@, text(".lit"))),
    {
        let dir = cwd.copied();
        let for_probe = match &object_directory {
            Some(dir) => Some(copy_of(dir.as_slice())),
            None => None,
        };
        let (probe, question) = Probe::new(dir.join_text(".lit"), cwd.copied(), for_probe, false);
        (Search { cwd, object_directory, dir, phase: SearchPhase::Entry(probe) }, question)
    }

    fn ascend(&mut self) -> (r: Question)
        ensures
            final(self).wf(),
            (final(self)@, r@) == ascended(old(self).cwd@, old(self).dir@),
            final(self).cwd@ == old(self).cwd@,
            optional_vec(final(self).object_directory) == optional_vec(old(self).object_directory),
    {
        match self.dir.parent() {
            None => {
                self.phase = SearchPhase::Ended(None);
                Question::Refused(RepositoryError::NotRepository(self.cwd.copied()))
            },
            Some(parent) => {
                let (probe, question) = Probe::new(
                    parent.join_text(".lit"),
                    self.cwd.copied(),
                    self.copied_object_directory(),
                    false,
                );
                self.dir = parent;
                self.phase = SearchPhase::Entry(probe);
                question
            },
        }
    }

    /// Takes an answer, and asks the next question.
    pub fn next(&mut self, answer: Answer) -> (r: Question)
        requires
            old(self).wf(),
            search_answers(old(self)@.phase, answer),
        ensures
            final(self).wf(),
            (final(self)@, r@) == search_step(
                old(self).cwd@,
                optional_vec(old(self).object_directory),
                old(self)@,
                answer,
            ),
            final(self).cwd@ == old(self).cwd@,
            optional_vec(final(self).object_directory) == optional_vec(old(self).object_directory),
    {
        let mut phase = SearchPhase::Ended(None);
        core::mem::swap(&mut phase, &mut self.phase);
        match phase {
            SearchPhase::Entry(probe) => {
                let mut probe = probe;
                let question = probe.next(answer);
                match question {
                    Question::Found(paths) => {
                        self.phase = SearchPhase::Ended(Some(self.dir.copied()));
                        Question::Found(paths)
                    },
                    Question::NotHere => {
                        self.phase = SearchPhase::Resolving;
                        Question::Canonicalize(self.dir.copied())
                    },
                    Question::Refused(err) => Question::Refused(err),
                    Question::PassOn => Question::PassOn,
                    other => {
                        self.phase = SearchPhase::Entry(probe);
                        other
                    },
                }
            },
            SearchPhase::Resolving => match answer {
                Answer::Canonical(metadata_dir) => {
                    let object_directory = match &self.object_directory {
                        Some(dir) => Some(dir.as_slice()),
                        None => None,
                    };
                    match resolve_objects_dir(&self.dir, &self.cwd, object_directory) {
                        Err(err) => Question::Refused(RepositoryError::OsPath(err)),
                        Ok(objects_dir) => {
                            let question = Question::CheckStructure {
                                metadata_dir: metadata_dir.copied(),
                                objects_dir: objects_dir.copied(),
                            };
                            self.phase = SearchPhase::Checking(
                                RepositoryPaths { metadata_dir, objects_dir, pointer_file: None },
                            );
                            question
                        },
                    }
                },
                _ => self.ascend(),
            },
            SearchPhase::Checking(paths) => match answer {
                Answer::Structure(StructureCheck::Valid) => Question::Found(paths),
                _ => self.ascend(),
            },
            SearchPhase::Ended(_) => Question::PassOn,
        }
    }
}

/// A probe of a path that was not named explicitly never fails because of a directory: only what
/// is neither a directory nor a file, a pointer file, or a bad object directory is refused.
pub proof fn directories_are_skipped(
    path: Seq<u8>,
    cwd: Seq<u8>,
    object_directory: Option<Seq<u8>>,
    state: ProbeState<Seq<u8>>,
    answer: Answer,
)
    requires
        answers(state, answer),
        state matches ProbeState::Checking(paths) && paths.pointer_file is None,
    ensures
        ({
            let (_, question) = probe_step(path, cwd, object_directory, false, state, answer);
            question is Found || question is NotHere
        }),
{
}

/// What a pointer file names has to be a repository: it is found, or the look fails.
pub proof fn pointers_are_binding(
    path: Seq<u8>,
    cwd: Seq<u8>,
    object_directory: Option<Seq<u8>>,
    explicit: bool,
    state: ProbeState<Seq<u8>>,
    answer: Answer,
)
    requires
        answers(state, answer),
        state is ReadingPointer || state is ResolvingTarget || (state matches ProbeState::Checking(
            paths,
        ) && paths.pointer_file is Some),
    ensures
        ({
            let (_, question) = probe_step(path, cwd, object_directory, explicit, state, answer);
            !(question is NotHere)
        }),
{
}

/// The search comes to an end: each directory above is a shorter path.
pub proof fn search_ascends(dir: Seq<u8>)
    requires
        dir.len() <= usize::MAX,
    ensures
        parent_of(dir) matches Some(parent) ==> parent.len() < dir.len(),
{
    let parts = located(dir);
    let n = parts.len() as int;
    lemma_located(dir);
    if n > 1 {
        assert(parts[n - 2].end <= parts[n - 1].start < parts[n - 1].end <= dir.len());
    } else if n == 1 {
        assert(parts[0].start < parts[0].end <= dir.len());
    }
}

/// A repository that was found.
#[derive(Debug)]
pub struct Repository {
    pub layout: Layout,
    pub format: RepositoryFormat,
    /// The objects may be stored outside the metadata directory.
    pub objects_dir: OsPath,
}

impl Repository {
    /// The repository at these paths, with the format that its configuration declares. What
    /// `<worktree>/.lit` is, and whether it is the same file as its counterpart, was looked up.
    pub fn from_discovery(
        paths: RepositoryPaths,
        worktree_dir: Option<OsPath>,
        cfg: &ConfigFile,
        entry: LitEntry,
        same: bool,
    ) -> (r: Result<Self, RepositoryError>)
        requires
            cfg.wf(),
        ensures
            match format_of(cfg@) {
                Err(err) => r matches Err(e) && e@ == RepositoryProblem::RepositoryFormat(err),
                Ok(format) => r matches Ok(repo) && repo.format@ == (match format {
                    Some(f) => f,
                    None => plain_format(FormatVersion::V0),
                }) && repo.objects_dir@ == paths@.objects_dir && repo.layout@ == (Layout {
                    metadata_dir: paths@.metadata_dir,
                    worktree_dir: optional_path(worktree_dir),
                    placement: discovered_placement(
                        worktree_dir is Some,
                        paths@.pointer_file,
                        entry,
                        same,
                    ),
                }),
            },
            r matches Err(RepositoryError::RepositoryFormat(RepositoryFormatError::Config(e)))
                ==> e.path@ == cfg.path@,
    {
        let RepositoryPaths { metadata_dir, objects_dir, pointer_file } = paths;
        let layout = Layout::from_discovery(metadata_dir, worktree_dir, pointer_file, entry, same);
        let format = match RepositoryFormat::from_config(cfg) {
            Ok(Some(format)) => format,
            Ok(None) => RepositoryFormat::default(),
            Err(err) => {
                return Err(RepositoryError::RepositoryFormat(err));
            },
        };
        Ok(Self { layout, format, objects_dir })
    }

    pub fn metadata_dir(&self) -> (r: &OsPath)
        ensures
            r@ == self.layout@.metadata_dir,
    {
        self.layout.metadata_dir()
    }

    pub fn worktree_dir(&self) -> (r: Option<&OsPath>)
        ensures
            optional_path_ref(r) == self.layout@.worktree_dir,
    {
        self.layout.worktree_dir()
    }

    pub fn objects_dir(&self) -> (r: &OsPath)
        ensures
            r@ == self.objects_dir@,
    {
        &self.objects_dir
    }

    pub fn is_bare(&self) -> (r: bool)
        ensures
            r == (self.layout@.worktree_dir is None),
    {
        self.layout.is_bare()
    }

    pub fn objects_path(&self) -> (r: OsPath)
        ensures
            r@ == self.objects_dir@,
    {
        self.objects_dir.copied()
    }

    pub fn index_path(&self) -> (r: OsPath)
        ensures
            r@ == joined(self.layout@.metadata_dir, text("index")),
    {
        self.metadata_dir().join_text("index")
    }

    pub fn config_path(&self) -> (r: OsPath)
        ensures
            r@ == joined(self.layout@.metadata_dir, text("config")),
    {
        self.metadata_dir().join_text("config")
    }

    pub fn head_path(&self) -> (r: OsPath)
        ensures
            r@ == joined(self.layout@.metadata_dir, text("HEAD")),
    {
        self.metadata_dir().join_text("HEAD")
    }

    pub fn refs_path(&self) -> (r: OsPath)
        ensures
            r@ == joined(self.layout@.metadata_dir, text("refs")),
    {
        self.metadata_dir().join_text("refs")
    }

    /// The index, with nothing read yet.
    pub fn index(&self) -> (r: Index)
        ensures
            r.path@ == joined(self.layout@.metadata_dir, text("index")),
            r@ == Seq::<IndexEntry<Seq<u8>>>::empty(),
            r.wf(),
            !r.modified,
    {
        Index::new(self.index_path())
    }
}

} // verus!
