//! Setting up a repository, or setting it up again.

use crate::bytes::{append, append_text, copy_of, text};
use crate::config::doc::{kept, replaced_at, LineView, VariablePos};
use crate::config::index::{key_at, lemma_positions, positions_of};
use crate::config::key::key_of_name;
use crate::config::laws::{files_in_memory_fit, lemma_inserted_len, lines_fit};
use crate::config::{
    got_bool, got_str, with_set, with_set_all, with_unset_all, ConfigFile, ConfigFileError,
    ConfigFileErrorKind,
};
use crate::format::{
    default_ref_storage, format_of, object_format_name, object_format_of, plain_format,
    ref_format_name, ref_format_of, ref_storage_of, version_name, FormatProblem, FormatVersion,
    ObjectFormat, ObjectFormatError, RefFormat, RefStorage, RefStorageError, RepositoryFormat,
    RepositoryFormatError,
};
use crate::init::laws::{declared_storage_reads_back, edits_fit, is_declared};
use crate::init::settings::{
    declaration_tells, declarations_read_back, settings_read_back, settings_tell,
};
use crate::layout::optional_bytes;
use crate::litfile::{LitFileError, LitFileErrorKind};
use crate::path::{joined, OsPath};
use crate::repository::EntryType;
use vstd::prelude::*;
use vstd::string::*;
use vstd::utf8::*;

pub mod choices;
pub mod laws;
pub mod settings;

verus! {

#[derive(Debug)]
pub enum InitError {
    /// Something else stands where a directory has to be.
    BadEntry { path: OsPath, entry: EntryType },
    LitFile(LitFileError),
    Config(ConfigFileError),
    RepositoryFormat(RepositoryFormatError),
    UnknownRefStorage(RefStorageError),
    UnknownObjectFormat(ObjectFormatError),
    /// A repository keeps its hash.
    HashMismatch,
    /// A repository keeps the way it stores references.
    RefStorageMisMatch,
}

/// What stops a repository from being set up.
#[allow(inconsistent_fields)]
pub enum InitProblem {
    BadEntry { path: Seq<u8>, entry: EntryType },
    LitFile { path: Seq<u8>, kind: LitFileErrorKind<Seq<u8>> },
    Config { path: Seq<u8>, kind: ConfigFileErrorKind<Seq<u8>> },
    RepositoryFormat(FormatProblem),
    UnknownRefStorage(Seq<u8>),
    UnknownObjectFormat(Seq<u8>),
    HashMismatch,
    RefStorageMisMatch,
}

impl View for InitError {
    type V = InitProblem;

    open spec fn view(&self) -> InitProblem {
        match *self {
            InitError::BadEntry { path, entry } => InitProblem::BadEntry { path: path@, entry },
            InitError::LitFile(err) => InitProblem::LitFile { path: err.path@, kind: err.kind@ },
            InitError::Config(err) => InitProblem::Config { path: err.path@, kind: err.kind@ },
            InitError::RepositoryFormat(err) => InitProblem::RepositoryFormat(err@),
            InitError::UnknownRefStorage(err) => InitProblem::UnknownRefStorage(err.0.0@),
            InitError::UnknownObjectFormat(err) => InitProblem::UnknownObjectFormat(err.0@),
            InitError::HashMismatch => InitProblem::HashMismatch,
            InitError::RefStorageMisMatch => InitProblem::RefStorageMisMatch,
        }
    }
}

/// A configuration file: its path and its lines.
pub type Config = (Seq<u8>, Seq<LineView>);

pub open spec fn optional_config(cfg: Option<&ConfigFile>) -> Option<Config> {
    match cfg {
        Some(cfg) => Some((cfg.path@, cfg@)),
        None => None,
    }
}

/// The hash of a new repository: the flag, else the environment, else the configuration, else
/// SHA-1.
pub open spec fn chosen_object_format(
    flag: Option<ObjectFormat>,
    default_hash: Option<Seq<u8>>,
    cfg: Option<Config>,
) -> Result<ObjectFormat, InitProblem> {
    match (flag, default_hash, cfg) {
        (Some(format), _, _) => Ok(format),
        (None, Some(name), _) => match object_format_of(name) {
            Ok(format) => Ok(format),
            Err(err) => Err(InitProblem::UnknownObjectFormat(err.0)),
        },
        (None, None, Some((path, lines))) => match got_str(
            lines,
            text("init.defaultObjectFormat"),
        ) {
            Ok(name) => match object_format_of(name) {
                Ok(format) => Ok(format),
                Err(err) => Err(InitProblem::UnknownObjectFormat(err.0)),
            },
            Err(ConfigFileErrorKind::NotFound(_)) => Ok(ObjectFormat::Sha1),
            Err(kind) => Err(InitProblem::Config { path, kind }),
        },
        (None, None, None) => Ok(ObjectFormat::Sha1),
    }
}

fn object_format_from(name: &[u8]) -> (r: Result<ObjectFormat, InitError>)
    ensures
        match object_format_of(name@) {
            Ok(format) => r matches Ok(f) && f == format,
            Err(err) => r matches Err(e) && e@ == InitProblem::UnknownObjectFormat(err.0),
        },
{
    match ObjectFormat::try_from_bytes(name) {
        Ok(format) => Ok(format),
        Err(err) => Err(InitError::UnknownObjectFormat(err)),
    }
}

/// The hash of a new repository. `default_hash` is the variable `LIT_DEFAULT_HASH`.
pub fn resolve_object_format(
    flag: Option<ObjectFormat>,
    default_hash: Option<&[u8]>,
    cfg: Option<&ConfigFile>,
) -> (r: Result<ObjectFormat, InitError>)
    requires
        cfg matches Some(cfg) ==> cfg.wf(),
    ensures
        match chosen_object_format(flag, optional_bytes(default_hash), optional_config(cfg)) {
            Ok(format) => r matches Ok(f) && f == format,
            Err(err) => r matches Err(e) && e@ == err,
        },
{
    if let Some(format) = flag {
        return Ok(format);
    }
    if let Some(name) = default_hash {
        return object_format_from(name);
    }
    if let Some(cfg) = cfg {
        return match cfg.get_str("init.defaultObjectFormat".as_bytes()) {
            Ok(name) => object_format_from(name.as_str().as_bytes()),
            Err(err) => if err.is_key_not_found() {
                Ok(ObjectFormat::default())
            } else {
                Err(InitError::Config(err))
            },
        };
    }
    Ok(ObjectFormat::default())
}

pub open spec fn storage_with(format: RefFormat) -> RefStorage<Seq<u8>> {
    RefStorage { ref_format: format, payload: None }
}

/// How a new repository stores references: the environment's backend, else the flag, else the
/// environment's format, else the configuration, else in files.
pub open spec fn chosen_ref_storage(
    flag: Option<RefFormat>,
    backend: Option<Seq<u8>>,
    default_format: Option<Seq<u8>>,
    cfg: Option<Config>,
) -> Result<RefStorage<Seq<u8>>, InitProblem> {
    match (backend, flag, default_format, cfg) {
        (Some(uri), _, _, _) => match ref_storage_of(uri) {
            Ok(storage) => Ok(storage),
            Err(err) => Err(InitProblem::UnknownRefStorage(err.0.0)),
        },
        (None, Some(format), _, _) => Ok(storage_with(format)),
        (None, None, Some(name), _) => match ref_format_of(name) {
            Ok(format) => Ok(storage_with(format)),
            Err(err) => Err(InitProblem::UnknownRefStorage(err.0)),
        },
        (None, None, None, Some((path, lines))) => match got_str(
            lines,
            text("init.defaultRefFormat"),
        ) {
            Ok(name) => match ref_format_of(name) {
                Ok(format) => Ok(storage_with(format)),
                Err(err) => Err(InitProblem::UnknownRefStorage(err.0)),
            },
            Err(ConfigFileErrorKind::NotFound(_)) => Ok(default_ref_storage()),
            Err(kind) => Err(InitProblem::Config { path, kind }),
        },
        (None, None, None, None) => Ok(default_ref_storage()),
    }
}

fn ref_storage_from(name: &[u8]) -> (r: Result<RefStorage, InitError>)
    ensures
        match ref_format_of(name@) {
            Ok(format) => r matches Ok(s) && s@ == storage_with(format),
            Err(err) => r matches Err(e) && e@ == InitProblem::UnknownRefStorage(err.0),
        },
{
    match RefFormat::try_from_bytes(name) {
        Ok(ref_format) => Ok(RefStorage { ref_format, payload: None }),
        Err(err) => Err(InitError::UnknownRefStorage(RefStorageError(err))),
    }
}

/// How a new repository stores references. `backend` and `default_format` are the variables
/// `LIT_REFERENCE_BACKEND` and `LIT_DEFAULT_REF_FORMAT`.
pub fn resolve_ref_storage(
    flag: Option<RefFormat>,
    backend: Option<&[u8]>,
    default_format: Option<&[u8]>,
    cfg: Option<&ConfigFile>,
) -> (r: Result<RefStorage, InitError>)
    requires
        cfg matches Some(cfg) ==> cfg.wf(),
    ensures
        match chosen_ref_storage(
            flag,
            optional_bytes(backend),
            optional_bytes(default_format),
            optional_config(cfg),
        ) {
            Ok(storage) => r matches Ok(s) && s@ == storage,
            Err(err) => r matches Err(e) && e@ == err,
        },
{
    if let Some(uri) = backend {
        return match RefStorage::try_from_bytes(uri) {
            Ok(storage) => Ok(storage),
            Err(err) => Err(InitError::UnknownRefStorage(err)),
        };
    }
    if let Some(format) = flag {
        let mut storage = RefStorage::default();
        *storage.format_mut() = format;
        return Ok(storage);
    }
    if let Some(name) = default_format {
        return ref_storage_from(name);
    }
    if let Some(cfg) = cfg {
        return match cfg.get_str("init.defaultRefFormat".as_bytes()) {
            Ok(name) => ref_storage_from(name.as_str().as_bytes()),
            Err(err) => if err.is_key_not_found() {
                Ok(RefStorage::default())
            } else {
                Err(InitError::Config(err))
            },
        };
    }
    Ok(RefStorage::default())
}

/// What the user and the environment ask of the format.
pub struct FormatRequest<B> {
    pub object_format: Option<ObjectFormat>,
    pub ref_format: Option<RefFormat>,
    /// The variable `LIT_DEFAULT_HASH`.
    pub default_hash: Option<B>,
    /// The variable `LIT_REFERENCE_BACKEND`.
    pub reference_backend: Option<B>,
    /// The variable `LIT_DEFAULT_REF_FORMAT`.
    pub default_ref_format: Option<B>,
}

impl<'a> View for FormatRequest<&'a [u8]> {
    type V = FormatRequest<Seq<u8>>;

    open spec fn view(&self) -> FormatRequest<Seq<u8>> {
        FormatRequest {
            object_format: self.object_format,
            ref_format: self.ref_format,
            default_hash: optional_bytes(self.default_hash),
            reference_backend: optional_bytes(self.reference_backend),
            default_ref_format: optional_bytes(self.default_ref_format),
        }
    }
}

/// The format of the repository: the one it has, which must not be asked to change, or the one that
/// is asked for.
pub open spec fn chosen_format(
    request: FormatRequest<Seq<u8>>,
    cfg: Option<Config>,
) -> Result<RepositoryFormat<Seq<u8>>, InitProblem> {
    let existing = match cfg {
        Some((_, lines)) => format_of(lines),
        None => Ok(None),
    };
    match existing {
        Err(err) => Err(InitProblem::RepositoryFormat(err)),
        Ok(Some(format)) => if request.object_format is Some && request.object_format
            != Some(format.object_format) {
            Err(InitProblem::HashMismatch)
        } else if request.ref_format is Some && request.ref_format != Some(
            format.ref_storage.ref_format,
        ) {
            Err(InitProblem::RefStorageMisMatch)
        } else {
            Ok(format)
        },
        Ok(None) => match chosen_object_format(request.object_format, request.default_hash, cfg) {
            Err(err) => Err(err),
            Ok(object_format) => match chosen_ref_storage(
                request.ref_format,
                request.reference_backend,
                request.default_ref_format,
                cfg,
            ) {
                Err(err) => Err(err),
                Ok(ref_storage) => Ok(
                    RepositoryFormat {
                        object_format,
                        ref_storage,
                        ..plain_format(FormatVersion::V0)
                    },
                ),
            },
        },
    }
}

/// The format of the repository that is set up. `cfg` is the configuration, if there is one yet.
pub fn resolve_format(request: &FormatRequest<&[u8]>, cfg: Option<&ConfigFile>) -> (r: Result<
    RepositoryFormat,
    InitError,
>)
    requires
        cfg matches Some(cfg) ==> cfg.wf(),
    ensures
        match chosen_format(request@, optional_config(cfg)) {
            Ok(format) => r matches Ok(f) && f@ == format,
            Err(err) => r matches Err(e) && e@ == err,
        },
        r matches Err(InitError::RepositoryFormat(RepositoryFormatError::Config(e))) ==> (
        cfg matches Some(c) && e.path@ == c.path@),
{
    let existing = match cfg {
        Some(cfg) => match RepositoryFormat::from_config(cfg) {
            Ok(format) => format,
            Err(err) => {
                return Err(InitError::RepositoryFormat(err));
            },
        },
        None => None,
    };
    match existing {
        Some(format) => {
            if let Some(asked) = request.object_format {
                if asked != *format.object_format() {
                    return Err(InitError::HashMismatch);
                }
            }
            if let Some(asked) = request.ref_format {
                if asked != *format.ref_storage().format() {
                    return Err(InitError::RefStorageMisMatch);
                }
            }
            Ok(format)
        },
        None => {
            let object_format = match resolve_object_format(
                request.object_format,
                request.default_hash,
                cfg,
            ) {
                Ok(format) => format,
                Err(err) => {
                    return Err(err);
                },
            };
            let ref_storage = match resolve_ref_storage(
                request.ref_format,
                request.reference_backend,
                request.default_ref_format,
                cfg,
            ) {
                Ok(storage) => storage,
                Err(err) => {
                    return Err(err);
                },
            };
            let mut format = RepositoryFormat::default();
            *format.object_format_mut() = object_format;
            *format.ref_storage_mut() = ref_storage;
            Ok(format)
        },
    }
}

/// A repository that was set up with one hash or one way to store references is not set up again
/// with another.
pub proof fn formats_are_kept(request: FormatRequest<Seq<u8>>, path: Seq<u8>, lines: Seq<LineView>)
    requires
        format_of(lines) matches Ok(Some(_)),
    ensures
        match chosen_format(request, Some((path, lines))) {
            Ok(format) => format == format_of(lines)->Ok_0->0,
            Err(err) => err is HashMismatch || err is RefStorageMisMatch,
        },
{
}

/// One change to the configuration.
pub enum EditAction<B = Vec<u8>> {
    /// Sets the one definition, or adds one.
    SetOne(B),
    /// Sets all the definitions, or adds one.
    SetAll(B),
    /// Removes all the definitions.
    UnsetAll,
}

pub struct Edit<B = Vec<u8>> {
    pub key: &'static str,
    pub action: EditAction<B>,
}

impl View for Edit {
    type V = Edit<Seq<u8>>;

    open spec fn view(&self) -> Edit<Seq<u8>> {
        Edit {
            key: self.key,
            action: match self.action {
                EditAction::SetOne(value) => EditAction::SetOne(value@),
                EditAction::SetAll(value) => EditAction::SetAll(value@),
                EditAction::UnsetAll => EditAction::UnsetAll,
            },
        }
    }
}

pub open spec fn edits_view(edits: Seq<Edit>) -> Seq<Edit<Seq<u8>>> {
    edits.map_values(|e: Edit| e@)
}

/// The configuration after a change, or why the change is refused.
pub open spec fn edited(lines: Seq<LineView>, edit: Edit<Seq<u8>>) -> Result<
    Seq<LineView>,
    ConfigFileErrorKind<Seq<u8>>,
> {
    match edit.action {
        EditAction::SetOne(value) => with_set(lines, text(edit.key), value),
        EditAction::SetAll(value) => with_set_all(lines, text(edit.key), value),
        EditAction::UnsetAll => with_unset_all(lines, text(edit.key)),
    }
}

/// The configuration after the first `n` changes. The first change that is refused is the last one
/// that is tried.
pub open spec fn after_edits(lines: Seq<LineView>, edits: Seq<Edit<Seq<u8>>>, n: int) -> (
    Seq<LineView>,
    Option<ConfigFileErrorKind<Seq<u8>>>,
)
    decreases n,
{
    if n <= 0 {
        (lines, None)
    } else {
        let (before, error) = after_edits(lines, edits, n - 1);
        if error is Some {
            (before, error)
        } else {
            match edited(before, edits[n - 1]) {
                Ok(after) => (after, None),
                Err(err) => (before, Some(err)),
            }
        }
    }
}

/// The configuration after all the changes.
pub open spec fn after_all(lines: Seq<LineView>, edits: Seq<Edit<Seq<u8>>>) -> (
    Seq<LineView>,
    Option<ConfigFileErrorKind<Seq<u8>>>,
) {
    after_edits(lines, edits, edits.len() as int)
}

proof fn lemma_replaced_len(
    lines: Seq<LineView>,
    positions: Seq<VariablePos>,
    value: Seq<u8>,
    n: int,
)
    requires
        n <= positions.len(),
        forall|k: int| 0 <= k < positions.len() ==> (#[trigger] positions[k]).0 < lines.len(),
    ensures
        replaced_at(lines, positions, value, n).len() == lines.len(),
    decreases n,
{
    if n > 0 {
        lemma_replaced_len(lines, positions, value, n - 1);
        assert(positions[n - 1].0 < lines.len());
    }
}

proof fn lemma_kept_len(lines: Seq<LineView>, keep: spec_fn(int) -> bool, n: int)
    requires
        0 <= n,
    ensures
        kept(lines, keep, n).len() <= n,
    decreases n,
{
    if n > 0 {
        lemma_kept_len(lines, keep, n - 1);
    }
}

/// A change adds two lines at most.
proof fn lemma_edited_len(lines: Seq<LineView>, edit: Edit<Seq<u8>>)
    requires
        lines.len() <= usize::MAX,
    ensures
        edited(lines, edit) matches Ok(after) ==> after.len() <= lines.len() + 2,
{
    let name = text(edit.key);
    if let Some(key) = key_of_name(name) {
        let p = positions_of(lines, key);
        lemma_positions(lines, key, lines.len() as int);
        assert forall|k: int| 0 <= k < p.len() implies (#[trigger] p[k]).0 < lines.len() by {}
        match edit.action {
            EditAction::SetOne(value) => {
                lemma_inserted_len(lines, key, value);
            },
            EditAction::SetAll(value) => {
                lemma_inserted_len(lines, key, value);
                lemma_replaced_len(lines, p, value, p.len() as int);
            },
            EditAction::UnsetAll => {
                lemma_kept_len(
                    lines,
                    |i: int| key_at(lines, i) != Some(key),
                    lines.len() as int,
                );
            },
        }
    }
}

proof fn lemma_after_edits(lines: Seq<LineView>, edits: Seq<Edit<Seq<u8>>>, n: int, m: int)
    requires
        n <= m,
        after_edits(lines, edits, n).1 is Some,
    ensures
        after_edits(lines, edits, m) == after_edits(lines, edits, n),
    decreases m - n,
{
    if n < m {
        lemma_after_edits(lines, edits, n, m - 1);
    }
}

/// Makes the changes, one after the other, up to the first that is refused.
pub fn apply_edits(cfg: &mut ConfigFile, edits: &Vec<Edit>) -> (r: Result<(), ConfigFileError>)
    requires
        old(cfg).wf(),
        old(cfg)@.len() + 2 * edits@.len() <= usize::MAX,
    ensures
        final(cfg).wf(),
        final(cfg).path@ == old(cfg).path@,
        final(cfg)@ == after_all(old(cfg)@, edits_view(edits@)).0,
        final(cfg)@.len() <= old(cfg)@.len() + 2 * edits@.len(),
        match after_all(old(cfg)@, edits_view(edits@)).1 {
            None => r is Ok,
            Some(err) => r matches Err(e) && e.path@ == old(cfg).path@ && e.kind@ == err,
        },
        edits_fit(old(cfg)@, edits_view(edits@)),
{
    let ghost all = edits_view(edits@);
    let ghost start = cfg@;
    let mut i: usize = 0;
    proof {
        files_in_memory_fit(*cfg);
    }
    while i < edits.len()
        invariant
            i <= edits@.len(),
            all == edits_view(edits@),
            start == old(cfg)@,
            cfg.wf(),
            cfg.path@ == old(cfg).path@,
            start.len() + 2 * edits@.len() <= usize::MAX,
            cfg@.len() <= start.len() + 2 * i,
            after_edits(start, all, i as int) == (cfg@, None::<ConfigFileErrorKind<Seq<u8>>>),
            forall|n: int|
                0 <= n <= i ==> lines_fit(#[trigger] after_edits(start, all, n).0),
        decreases edits@.len() - i,
    {
        let edit = &edits[i];
        proof {
            assert(all[i as int] == edit@);
            lemma_edited_len(cfg@, edit@);
        }
        let done = match &edit.action {
            EditAction::SetOne(value) => cfg.set(edit.key.as_bytes(), value.as_slice()),
            EditAction::SetAll(value) => cfg.set_all(edit.key.as_bytes(), value.as_slice()),
            EditAction::UnsetAll => cfg.unset_all(edit.key.as_bytes()),
        };
        match done {
            Ok(()) => {},
            Err(err) => {
                proof {
                    lemma_after_edits(start, all, i + 1, all.len() as int);
                    assert forall|n: int| 0 <= n <= all.len() implies lines_fit(
                        #[trigger] after_edits(start, all, n).0,
                    ) by {
                        if n > i {
                            lemma_after_edits(start, all, i + 1, n);
                        }
                    }
                }
                return Err(err);
            },
        }
        proof {
            files_in_memory_fit(*cfg);
        }
        i = i + 1;
    }
    Ok(())
}

fn set_all(key: &'static str, value: &str) -> (r: Edit)
    ensures
        r@ == (Edit { key, action: EditAction::SetAll(text(value)) }),
{
    Edit { key, action: EditAction::SetAll(copy_of(value.as_bytes())) }
}

pub open spec fn spec_set_all(key: &'static str, value: &str) -> Edit<Seq<u8>> {
    Edit { key, action: EditAction::SetAll(text(value)) }
}

pub open spec fn spec_unset_all(key: &'static str) -> Edit<Seq<u8>> {
    Edit { key, action: EditAction::UnsetAll }
}

/// The version that a format needs: SHA-256 and any other storage of references than in files
/// need version 1.
pub open spec fn needed_version(format: RepositoryFormat<Seq<u8>>) -> FormatVersion {
    if format.object_format == ObjectFormat::Sha256 || format.ref_storage != default_ref_storage() {
        FormatVersion::V1
    } else {
        format.version
    }
}

/// `<format>`, or `<format>://<payload>`.
pub open spec fn ref_storage_bytes(storage: RefStorage<Seq<u8>>) -> Seq<u8> {
    match storage.payload {
        Some(payload) => text(ref_format_name(storage.ref_format)) + text("://") + payload,
        None => text(ref_format_name(storage.ref_format)),
    }
}

/// The changes that declare a format. What is the default is not declared.
pub open spec fn format_edits(format: RepositoryFormat<Seq<u8>>) -> Seq<Edit<Seq<u8>>> {
    let hash = if format.object_format == ObjectFormat::Sha256 {
        spec_set_all("extensions.objectformat", object_format_name(format.object_format))
    } else {
        spec_unset_all("extensions.objectformat")
    };
    let refs = if format.ref_storage == default_ref_storage() {
        spec_unset_all("extensions.refstorage")
    } else {
        Edit {
            key: "extensions.refstorage",
            action: EditAction::SetAll(ref_storage_bytes(format.ref_storage)),
        }
    };
    let version = Edit {
        key: "core.repositoryformatversion",
        action: EditAction::SetOne(text(version_name(needed_version(format)))),
    };
    seq![hash, refs, version]
}

fn ref_storage_text(storage: &RefStorage) -> (r: Vec<u8>)
    ensures
        r@ == ref_storage_bytes(storage@),
{
    let mut out = copy_of(storage.format().name().as_bytes());
    if let Some(payload) = storage.payload() {
        append_text(&mut out, "://");
        append(&mut out, payload);
    }
    out
}

/// Declares the format in the configuration, in the version that it needs.
pub fn finalize_format_version(cfg: &mut ConfigFile, format: &mut RepositoryFormat) -> (r: Result<
    (),
    ConfigFileError,
>)
    requires
        old(cfg).wf(),
        old(cfg)@.len() + 6 <= usize::MAX,
    ensures
        final(cfg).wf(),
        final(cfg).path@ == old(cfg).path@,
        final(format)@ == (RepositoryFormat {
            version: needed_version(old(format)@),
            ..old(format)@
        }),
        final(cfg)@ == after_all(old(cfg)@, format_edits(old(format)@)).0,
        final(cfg)@.len() <= old(cfg)@.len() + 6,
        match after_all(old(cfg)@, format_edits(old(format)@)).1 {
            None => r is Ok,
            Some(err) => r matches Err(e) && e.path@ == old(cfg).path@ && e.kind@ == err,
        },
        r is Ok ==> is_declared(final(cfg)@, old(format)@),
        r is Ok ==> declaration_tells(old(cfg)@, final(cfg)@, old(format)@),
        old(format)@.ref_storage.payload is Some ==> final(format)@.version == FormatVersion::V1,
{
    let sha256 = *format.object_format() == ObjectFormat::Sha256;
    let storage = format.ref_storage();
    let plain_refs = *storage.format() == RefFormat::Files && !storage.has_payload();
    let mut edits: Vec<Edit> = Vec::new();
    if sha256 {
        edits.push(set_all("extensions.objectformat", format.object_format().name()));
    } else {
        edits.push(Edit { key: "extensions.objectformat", action: EditAction::UnsetAll });
    }
    if plain_refs {
        edits.push(Edit { key: "extensions.refstorage", action: EditAction::UnsetAll });
    } else {
        edits.push(
            Edit {
                key: "extensions.refstorage",
                action: EditAction::SetAll(ref_storage_text(storage)),
            },
        );
    }
    if sha256 || !plain_refs {
        *format.version_mut() = FormatVersion::V1;
    }
    edits.push(
        Edit {
            key: "core.repositoryformatversion",
            action: EditAction::SetOne(copy_of(format.version().as_str().as_bytes())),
        },
    );
    assert(edits_view(edits@) =~= format_edits(old(format)@));
    let done = apply_edits(cfg, &edits);
    proof {
        if done is Ok {
            declared_storage_reads_back(old(cfg)@, old(format)@);
            declarations_read_back(old(cfg)@, old(format)@);
        }
    }
    done
}

/// Declares the format in the configuration, and checks that the extensions it holds go with it.
pub fn update_config(cfg: &mut ConfigFile, format: &mut RepositoryFormat) -> (r: Result<
    (),
    InitError,
>)
    requires
        old(cfg).wf(),
        old(cfg)@.len() + 6 <= usize::MAX,
    ensures
        final(cfg).wf(),
        final(cfg).path@ == old(cfg).path@,
        final(format)@ == (RepositoryFormat {
            version: needed_version(old(format)@),
            ..old(format)@
        }),
        final(cfg)@ == after_all(old(cfg)@, format_edits(old(format)@)).0,
        match (after_all(old(cfg)@, format_edits(old(format)@)).1, format_of(final(cfg)@)) {
            (Some(kind), _) => r matches Err(e) && e@ == (InitProblem::Config {
                path: old(cfg).path@,
                kind,
            }),
            (None, Err(err)) => r matches Err(e) && e@ == InitProblem::RepositoryFormat(err),
            (None, Ok(_)) => r is Ok,
        },
        r matches Err(InitError::RepositoryFormat(RepositoryFormatError::Config(e))) ==> e.path@
            == old(cfg).path@,
        r is Ok ==> is_declared(final(cfg)@, old(format)@),
        r is Ok ==> declaration_tells(old(cfg)@, final(cfg)@, old(format)@),
{
    match finalize_format_version(cfg, format) {
        Ok(()) => {},
        Err(err) => {
            return Err(InitError::Config(err));
        },
    }
    match RepositoryFormat::from_config(cfg) {
        Ok(_) => Ok(()),
        Err(err) => Err(InitError::RepositoryFormat(err)),
    }
}

/// What was found out about the place of the repository.
pub struct InitFacts<B> {
    pub bare: bool,
    /// The worktree, where the configuration has to name it.
    pub worktree: Option<B>,
    pub trust_filemode: bool,
    /// The repository was set up before.
    pub reinit: bool,
    pub symlinks: bool,
    pub case_sensitive: bool,
}

impl<'a> View for InitFacts<&'a [u8]> {
    type V = InitFacts<Seq<u8>>;

    open spec fn view(&self) -> InitFacts<Seq<u8>> {
        InitFacts {
            bare: self.bare,
            worktree: optional_bytes(self.worktree),
            trust_filemode: self.trust_filemode,
            reinit: self.reinit,
            symlinks: self.symlinks,
            case_sensitive: self.case_sensitive,
        }
    }
}

pub open spec fn bool_text(b: bool) -> &'static str {
    if b {
        "true"
    } else {
        "false"
    }
}

fn bool_name(b: bool) -> (r: &'static str)
    ensures
        r == bool_text(b),
{
    if b {
        "true"
    } else {
        "false"
    }
}

/// The settings that every repository gets. A bare one has no worktree.
pub open spec fn basic_edits(facts: InitFacts<Seq<u8>>) -> Seq<Edit<Seq<u8>>> {
    let filemode = spec_set_all("core.filemode", bool_text(facts.trust_filemode));
    let bare = spec_set_all("core.bare", bool_text(facts.bare));
    if facts.bare {
        seq![filemode, spec_unset_all("core.worktree"), bare]
    } else {
        seq![filemode, bare]
    }
}

/// The settings that depend on the place. What a new repository does not find is the exception and
/// is written down.
pub open spec fn place_edits(facts: InitFacts<Seq<u8>>) -> Seq<Edit<Seq<u8>>> {
    let worktree = match facts.worktree {
        Some(dir) if !facts.bare => seq![
            Edit { key: "core.worktree", action: EditAction::SetAll(dir) },
        ],
        _ => Seq::empty(),
    };
    let symlinks = if !facts.reinit && !facts.symlinks {
        seq![spec_set_all("core.symlinks", "false")]
    } else {
        Seq::empty()
    };
    let ignorecase = if !facts.reinit && !facts.case_sensitive {
        seq![spec_set_all("core.ignorecase", "true")]
    } else {
        Seq::empty()
    };
    worktree + symlinks + ignorecase
}

/// The configuration of a repository with a worktree logs all updates of references, unless it
/// says otherwise.
pub open spec fn with_logging(lines: Seq<LineView>, bare: bool) -> (
    Seq<LineView>,
    Option<ConfigFileErrorKind<Seq<u8>>>,
) {
    if bare {
        (lines, None)
    } else {
        match got_bool(lines, text("core.logallrefupdates")) {
            Ok(_) => (lines, None),
            Err(ConfigFileErrorKind::NotFound(_)) => match with_set(
                lines,
                text("core.logallrefupdates"),
                text("true"),
            ) {
                Ok(after) => (after, None),
                Err(err) => (lines, Some(err)),
            },
            Err(err) => (lines, Some(err)),
        }
    }
}

/// The configuration with the settings of the repository.
pub open spec fn configured(lines: Seq<LineView>, facts: InitFacts<Seq<u8>>) -> (
    Seq<LineView>,
    Option<ConfigFileErrorKind<Seq<u8>>>,
) {
    let basic = after_all(lines, basic_edits(facts));
    if basic.1 is Some {
        basic
    } else {
        let logging = with_logging(basic.0, facts.bare);
        if logging.1 is Some {
            logging
        } else {
            after_all(logging.0, place_edits(facts))
        }
    }
}

/// The result of a change that was made.
spec fn outcome(r: Result<(), InitError>, path: Seq<u8>, error: Option<
    ConfigFileErrorKind<Seq<u8>>,
>) -> bool {
    match error {
        None => r is Ok,
        Some(kind) => r matches Err(e) && e@ == (InitProblem::Config { path, kind }),
    }
}

fn apply(cfg: &mut ConfigFile, edits: &Vec<Edit>) -> (r: Result<(), InitError>)
    requires
        old(cfg).wf(),
        old(cfg)@.len() + 2 * edits@.len() <= usize::MAX,
    ensures
        final(cfg).wf(),
        final(cfg).path@ == old(cfg).path@,
        final(cfg)@ == after_all(old(cfg)@, edits_view(edits@)).0,
        final(cfg)@.len() <= old(cfg)@.len() + 2 * edits@.len(),
        outcome(r, old(cfg).path@, after_all(old(cfg)@, edits_view(edits@)).1),
        edits_fit(old(cfg)@, edits_view(edits@)),
{
    match apply_edits(cfg, edits) {
        Ok(()) => Ok(()),
        Err(err) => Err(InitError::Config(err)),
    }
}

fn configure_basics(cfg: &mut ConfigFile, facts: &InitFacts<&[u8]>) -> (r: Result<(), InitError>)
    requires
        old(cfg).wf(),
        old(cfg)@.len() + 6 <= usize::MAX,
    ensures
        final(cfg).wf(),
        final(cfg).path@ == old(cfg).path@,
        final(cfg)@ == after_all(old(cfg)@, basic_edits(facts@)).0,
        final(cfg)@.len() <= old(cfg)@.len() + 6,
        outcome(r, old(cfg).path@, after_all(old(cfg)@, basic_edits(facts@)).1),
        edits_fit(old(cfg)@, basic_edits(facts@)),
{
    let mut edits: Vec<Edit> = Vec::new();
    edits.push(set_all("core.filemode", bool_name(facts.trust_filemode)));
    if facts.bare {
        edits.push(Edit { key: "core.worktree", action: EditAction::UnsetAll });
    }
    edits.push(set_all("core.bare", bool_name(facts.bare)));
    assert(edits_view(edits@) =~= basic_edits(facts@));
    apply(cfg, &edits)
}

fn configure_logging(cfg: &mut ConfigFile, bare: bool) -> (r: Result<(), InitError>)
    requires
        old(cfg).wf(),
        old(cfg)@.len() + 2 <= usize::MAX,
    ensures
        final(cfg).wf(),
        final(cfg).path@ == old(cfg).path@,
        final(cfg)@ == with_logging(old(cfg)@, bare).0,
        final(cfg)@.len() <= old(cfg)@.len() + 2,
        outcome(r, old(cfg).path@, with_logging(old(cfg)@, bare).1),
{
    if bare {
        return Ok(());
    }
    match cfg.get_bool("core.logallrefupdates".as_bytes()) {
        Ok(_) => Ok(()),
        Err(err) => {
            if !err.is_key_not_found() {
                return Err(InitError::Config(err));
            }
            proof {
                lemma_edited_len(
                    cfg@,
                    Edit {
                        key: "core.logallrefupdates",
                        action: EditAction::SetOne(text("true")),
                    },
                );
            }
            match cfg.set("core.logallrefupdates".as_bytes(), "true".as_bytes()) {
                Ok(()) => Ok(()),
                Err(err) => Err(InitError::Config(err)),
            }
        },
    }
}

fn configure_place(cfg: &mut ConfigFile, facts: &InitFacts<&[u8]>) -> (r: Result<(), InitError>)
    requires
        old(cfg).wf(),
        old(cfg)@.len() + 6 <= usize::MAX,
    ensures
        final(cfg).wf(),
        final(cfg).path@ == old(cfg).path@,
        final(cfg)@ == after_all(old(cfg)@, place_edits(facts@)).0,
        outcome(r, old(cfg).path@, after_all(old(cfg)@, place_edits(facts@)).1),
        edits_fit(old(cfg)@, place_edits(facts@)),
{
    let mut edits: Vec<Edit> = Vec::new();
    if let Some(dir) = facts.worktree {
        if !facts.bare {
            edits.push(Edit { key: "core.worktree", action: EditAction::SetAll(copy_of(dir)) });
        }
    }
    if !facts.reinit && !facts.symlinks {
        edits.push(set_all("core.symlinks", "false"));
    }
    if !facts.reinit && !facts.case_sensitive {
        edits.push(set_all("core.ignorecase", "true"));
    }
    assert(edits_view(edits@) =~= place_edits(facts@));
    apply(cfg, &edits)
}

/// Writes the settings of the repository into the configuration.
pub fn configure(cfg: &mut ConfigFile, facts: &InitFacts<&[u8]>) -> (r: Result<(), InitError>)
    requires
        old(cfg).wf(),
        old(cfg)@.len() + 14 <= usize::MAX,
    ensures
        final(cfg).wf(),
        final(cfg).path@ == old(cfg).path@,
        final(cfg)@ == configured(old(cfg)@, facts@).0,
        match configured(old(cfg)@, facts@).1 {
            None => r is Ok,
            Some(kind) => r matches Err(e) && e@ == (InitProblem::Config {
                path: old(cfg).path@,
                kind,
            }),
        },
        r is Ok ==> settings_tell(old(cfg)@, final(cfg)@, facts@),
{
    match configure_basics(cfg, facts) {
        Ok(()) => {},
        Err(err) => {
            return Err(err);
        },
    }
    match configure_logging(cfg, facts.bare) {
        Ok(()) => {},
        Err(err) => {
            return Err(err);
        },
    }
    proof {
        files_in_memory_fit(*cfg);
    }
    let done = configure_place(cfg, facts);
    proof {
        if done is Ok {
            settings_read_back(old(cfg)@, facts@);
        }
    }
    done
}

/// Checks that what stands where a directory has to be is one.
pub fn check_existing_dir(path: &OsPath, entry: EntryType) -> (r: Result<(), InitError>)
    ensures
        match r {
            Ok(()) => entry == EntryType::Directory,
            Err(err) => entry != EntryType::Directory && err@ == (InitProblem::BadEntry {
                path: path@,
                entry,
            }),
        },
{
    if entry == EntryType::Directory {
        Ok(())
    } else {
        Err(InitError::BadEntry { path: path.copied(), entry })
    }
}

/// The directories that the objects need, in the order in which they are made.
pub fn object_db_dirs(objects: &OsPath) -> (r: Vec<OsPath>)
    ensures
        r@.map_values(|p: OsPath| p@) == seq![
            objects@,
            joined(objects@, text("info")),
            joined(objects@, text("pack")),
        ],
{
    let mut dirs: Vec<OsPath> = Vec::new();
    dirs.push(objects.copied());
    dirs.push(objects.join_text("info"));
    dirs.push(objects.join_text("pack"));
    assert(dirs@.map_values(|p: OsPath| p@) =~= seq![
        objects@,
        joined(objects@, text("info")),
        joined(objects@, text("pack")),
    ]);
    dirs
}

} // verus!
