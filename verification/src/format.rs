//! The format of a repository: its version, and the extensions that the configuration declares.

use crate::bytes::{
    copy_of, downcase, downcased, first, from, is_text, lemma_ascii_text, lemma_until_is,
    memmem_find, occurs_at, text, DOT,
};
use crate::config::doc::{entries_of, LineView, Value, VariableEntry};
use crate::config::key::{all_name_bytes, section_of_name, SectionKey};
use crate::config::parse::spec_is_name_byte;
use crate::config::{bool_of, got_int, ConfigFile, ConfigFileError, ConfigFileErrorKind};
use vstd::prelude::*;
use vstd::string::*;

pub mod laws;

verus! {

/// The extensions of a repository. The first four are known to version 0 as well.
#[derive(Debug, Clone, Copy, PartialEq, Eq, Structural)]
pub enum Extension {
    Noop,
    PreciousObjects,
    PartialClone,
    WorktreeConfig,
    NoopV1,
    ObjectFormat,
    CompatObjectFormat,
    RefStorage,
    RelativeWorktrees,
    SubmodulePathConfig,
    Unknown,
}

/// The extension with this name, in whatever case it is written.
pub open spec fn extension_of(name: Seq<u8>) -> Extension {
    let lower = downcased(name);
    if lower == text("noop") {
        Extension::Noop
    } else if lower == text("preciousobjects") {
        Extension::PreciousObjects
    } else if lower == text("partialclone") {
        Extension::PartialClone
    } else if lower == text("worktreeconfig") {
        Extension::WorktreeConfig
    } else if lower == text("noop-v1") {
        Extension::NoopV1
    } else if lower == text("objectformat") {
        Extension::ObjectFormat
    } else if lower == text("compatobjectformat") {
        Extension::CompatObjectFormat
    } else if lower == text("refstorage") {
        Extension::RefStorage
    } else if lower == text("relativeworktrees") {
        Extension::RelativeWorktrees
    } else if lower == text("submodulepathconfig") {
        Extension::SubmodulePathConfig
    } else {
        Extension::Unknown
    }
}

pub open spec fn extension_name(extension: Extension) -> &'static str {
    match extension {
        Extension::Noop => "noop",
        Extension::PreciousObjects => "preciousObjects",
        Extension::PartialClone => "partialClone",
        Extension::WorktreeConfig => "worktreeConfig",
        Extension::NoopV1 => "noop-v1",
        Extension::ObjectFormat => "objectFormat",
        Extension::CompatObjectFormat => "compatObjectFormat",
        Extension::RefStorage => "refStorage",
        Extension::RelativeWorktrees => "relativeWorktrees",
        Extension::SubmodulePathConfig => "submodulePathConfig",
        Extension::Unknown => "unknown",
    }
}

/// May a repository of version 0 declare the extension? Those it does not know are ignored.
pub open spec fn allowed_in_v0(extension: Extension) -> bool {
    match extension {
        Extension::Noop => true,
        Extension::PreciousObjects => true,
        Extension::WorktreeConfig => true,
        Extension::PartialClone => true,
        Extension::Unknown => true,
        _ => false,
    }
}

impl Extension {
    pub fn name(&self) -> (r: &'static str)
        ensures
            r == extension_name(*self),
    {
        match self {
            Extension::Noop => "noop",
            Extension::PreciousObjects => "preciousObjects",
            Extension::PartialClone => "partialClone",
            Extension::WorktreeConfig => "worktreeConfig",
            Extension::NoopV1 => "noop-v1",
            Extension::ObjectFormat => "objectFormat",
            Extension::CompatObjectFormat => "compatObjectFormat",
            Extension::RefStorage => "refStorage",
            Extension::RelativeWorktrees => "relativeWorktrees",
            Extension::SubmodulePathConfig => "submodulePathConfig",
            Extension::Unknown => "unknown",
        }
    }

    pub fn is_v0_compatible(&self) -> (r: bool)
        ensures
            r == allowed_in_v0(*self),
    {
        match self {
            Extension::Noop => true,
            Extension::PreciousObjects => true,
            Extension::WorktreeConfig => true,
            Extension::PartialClone => true,
            Extension::Unknown => true,
            _ => false,
        }
    }

    /// The extension that a variable declares.
    pub fn from_name(name: &[u8]) -> (r: Self)
        ensures
            r == extension_of(name@),
    {
        let lower = downcase(name);
        let lower = lower.as_slice();
        if is_text(lower, "noop") {
            Extension::Noop
        } else if is_text(lower, "preciousobjects") {
            Extension::PreciousObjects
        } else if is_text(lower, "partialclone") {
            Extension::PartialClone
        } else if is_text(lower, "worktreeconfig") {
            Extension::WorktreeConfig
        } else if is_text(lower, "noop-v1") {
            Extension::NoopV1
        } else if is_text(lower, "objectformat") {
            Extension::ObjectFormat
        } else if is_text(lower, "compatobjectformat") {
            Extension::CompatObjectFormat
        } else if is_text(lower, "refstorage") {
            Extension::RefStorage
        } else if is_text(lower, "relativeworktrees") {
            Extension::RelativeWorktrees
        } else if is_text(lower, "submodulepathconfig") {
            Extension::SubmodulePathConfig
        } else {
            Extension::Unknown
        }
    }
}

#[derive(Debug, Clone, Copy, PartialEq, Eq, Structural)]
pub enum FormatVersion {
    V0,
    V1,
}

/// A version that is neither 0 nor 1.
#[derive(Debug, Clone, Copy, PartialEq, Eq, Structural)]
pub struct FormatVersionError(pub u64);

pub open spec fn version_of(n: nat) -> Result<FormatVersion, FormatVersionError> {
    if n == 0 {
        Ok(FormatVersion::V0)
    } else if n == 1 {
        Ok(FormatVersion::V1)
    } else {
        Err(FormatVersionError(n as u64))
    }
}

pub open spec fn version_name(version: FormatVersion) -> &'static str {
    match version {
        FormatVersion::V0 => "0",
        FormatVersion::V1 => "1",
    }
}

impl FormatVersion {
    pub fn try_from_number(version: u64) -> (r: Result<Self, FormatVersionError>)
        ensures
            r == version_of(version as nat),
    {
        match version {
            0 => Ok(FormatVersion::V0),
            1 => Ok(FormatVersion::V1),
            _ => Err(FormatVersionError(version)),
        }
    }

    pub fn as_str(&self) -> (r: &'static str)
        ensures
            r == version_name(*self),
    {
        match self {
            FormatVersion::V0 => "0",
            FormatVersion::V1 => "1",
        }
    }
}

/// How references are stored.
#[derive(Debug, Clone, Copy, PartialEq, Eq, Structural)]
pub enum RefFormat {
    Files,
    RefTable,
}

impl Default for RefFormat {
    fn default() -> (r: Self)
        ensures
            r == RefFormat::Files,
    {
        RefFormat::Files
    }
}

/// A reference format that is not known.
#[derive(Debug, PartialEq, Eq)]
pub struct RefFormatError<B = Vec<u8>>(pub B);

pub open spec fn ref_format_of(b: Seq<u8>) -> Result<RefFormat, RefFormatError<Seq<u8>>> {
    if b == text("files") {
        Ok(RefFormat::Files)
    } else if b == text("reftable") {
        Ok(RefFormat::RefTable)
    } else {
        Err(RefFormatError(b))
    }
}

pub open spec fn ref_format_name(format: RefFormat) -> &'static str {
    match format {
        RefFormat::Files => "files",
        RefFormat::RefTable => "reftable",
    }
}

impl RefFormat {
    pub fn name(&self) -> (r: &'static str)
        ensures
            r == ref_format_name(*self),
    {
        match self {
            RefFormat::Files => "files",
            RefFormat::RefTable => "reftable",
        }
    }

    pub fn try_from_bytes(value: &[u8]) -> (r: Result<Self, RefFormatError>)
        ensures
            match ref_format_of(value@) {
                Ok(format) => r matches Ok(f) && f == format,
                Err(err) => r matches Err(e) && e.0@ == err.0,
            },
    {
        if is_text(value, "files") {
            Ok(RefFormat::Files)
        } else if is_text(value, "reftable") {
            Ok(RefFormat::RefTable)
        } else {
            Err(RefFormatError(copy_of(value)))
        }
    }
}

/// How and where references are stored.
#[derive(Debug, PartialEq, Eq)]
pub struct RefStorage<B = Vec<u8>> {
    pub ref_format: RefFormat,
    pub payload: Option<B>,
}

impl View for RefStorage {
    type V = RefStorage<Seq<u8>>;

    open spec fn view(&self) -> RefStorage<Seq<u8>> {
        RefStorage {
            ref_format: self.ref_format,
            payload: match self.payload {
                Some(p) => Some(p@),
                None => None,
            },
        }
    }
}

pub open spec fn default_ref_storage() -> RefStorage<Seq<u8>> {
    RefStorage { ref_format: RefFormat::Files, payload: None }
}

/// The storage is not known.
#[derive(Debug, PartialEq, Eq)]
pub struct RefStorageError<B = Vec<u8>>(pub RefFormatError<B>);

/// The index of the first `://`.
pub open spec fn separator_at(b: Seq<u8>, i: int) -> bool {
    occurs_at(b, text("://"), i) && forall|j: int| 0 <= j < i ==> !occurs_at(b, text("://"), j)
}

/// `<format>`, or `<format>://<payload>`.
pub open spec fn ref_storage_of(b: Seq<u8>) -> Result<
    RefStorage<Seq<u8>>,
    RefStorageError<Seq<u8>>,
> {
    let i = choose|i: int| separator_at(b, i);
    let (backend, payload) = if exists|i: int| separator_at(b, i) {
        (b.take(i), Some(b.skip(i + 3)))
    } else {
        (b, None)
    };
    match ref_format_of(backend) {
        Ok(ref_format) => Ok(RefStorage { ref_format, payload }),
        Err(err) => Err(RefStorageError(err)),
    }
}

impl Default for RefStorage {
    fn default() -> (r: Self)
        ensures
            r@ == default_ref_storage(),
    {
        RefStorage { ref_format: RefFormat::Files, payload: None }
    }
}

impl RefStorage {
    pub fn format(&self) -> (r: &RefFormat)
        ensures
            *r == self@.ref_format,
    {
        &self.ref_format
    }

    pub fn format_mut(&mut self) -> (r: &mut RefFormat)
        ensures
            *r == old(self).ref_format,
            *final(self) == (RefStorage {
                ref_format: *final(r),
                payload: old(self).payload,
            }),
    {
        &mut self.ref_format
    }

    pub fn payload(&self) -> (r: Option<&[u8]>)
        ensures
            match r {
                Some(p) => self@.payload == Some(p@),
                None => self@.payload is None,
            },
    {
        match &self.payload {
            Some(p) => Some(p.as_slice()),
            None => None,
        }
    }

    pub fn has_payload(&self) -> (r: bool)
        ensures
            r == (self@.payload is Some),
    {
        self.payload.is_some()
    }

    /// Reads `<format>` or `<format>://<payload>`.
    pub fn try_from_bytes(value: &[u8]) -> (r: Result<Self, RefStorageError>)
        ensures
            match ref_storage_of(value@) {
                Ok(storage) => r matches Ok(s) && s@ == storage,
                Err(err) => r matches Err(e) && e.0.0@ == err.0.0,
            },
    {
        proof {
            reveal_strlit("://");
            lemma_ascii_text("://");
        }
        let (backend, payload) = match memmem_find(value, "://".as_bytes()) {
            Some(pos) => {
                proof {
                    assert(separator_at(value@, pos as int));
                    let i = choose|i: int| separator_at(value@, i);
                    if i < pos {
                        assert(!occurs_at(value@, text("://"), i));
                    } else if i > pos {
                        assert(!occurs_at(value@, text("://"), pos as int));
                    }
                }
                assert(value.len() == value@.len());
                (first(value, pos), Some(from(value, pos + 3)))
            },
            None => (value, None),
        };
        match RefFormat::try_from_bytes(backend) {
            Ok(ref_format) => Ok(
                RefStorage {
                    ref_format,
                    payload: match payload {
                        Some(p) => Some(copy_of(p)),
                        None => None,
                    },
                },
            ),
            Err(err) => Err(RefStorageError(err)),
        }
    }
}

/// The hash that names objects.
#[derive(Debug, Clone, Copy, PartialEq, Eq, Structural)]
pub enum ObjectFormat {
    Sha1,
    Sha256,
}

impl Default for ObjectFormat {
    fn default() -> (r: Self)
        ensures
            r == ObjectFormat::Sha1,
    {
        ObjectFormat::Sha1
    }
}

/// A hash that is not known.
#[derive(Debug, PartialEq, Eq)]
pub struct ObjectFormatError<B = Vec<u8>>(pub B);

pub open spec fn object_format_of(b: Seq<u8>) -> Result<ObjectFormat, ObjectFormatError<Seq<u8>>> {
    if b == text("sha1") {
        Ok(ObjectFormat::Sha1)
    } else if b == text("sha256") {
        Ok(ObjectFormat::Sha256)
    } else {
        Err(ObjectFormatError(b))
    }
}

pub open spec fn object_format_name(format: ObjectFormat) -> &'static str {
    match format {
        ObjectFormat::Sha1 => "sha1",
        ObjectFormat::Sha256 => "sha256",
    }
}

impl ObjectFormat {
    pub fn name(&self) -> (r: &'static str)
        ensures
            r == object_format_name(*self),
    {
        match self {
            ObjectFormat::Sha1 => "sha1",
            ObjectFormat::Sha256 => "sha256",
        }
    }

    pub fn try_from_bytes(value: &[u8]) -> (r: Result<Self, ObjectFormatError>)
        ensures
            match object_format_of(value@) {
                Ok(format) => r matches Ok(f) && f == format,
                Err(err) => r matches Err(e) && e.0@ == err.0,
            },
    {
        if is_text(value, "sha1") {
            Ok(ObjectFormat::Sha1)
        } else if is_text(value, "sha256") {
            Ok(ObjectFormat::Sha256)
        } else {
            Err(ObjectFormatError(copy_of(value)))
        }
    }
}

#[derive(Debug)]
pub enum RepositoryFormatError<B = Vec<u8>, C = ConfigFileError> {
    Config(C),
    UnsupportedVersion(FormatVersionError),
    V1ExtensionInV0(Extension),
    UnknownExtensionValue(Extension),
    UnknownV1Extension(Extension),
    ObjectFormat { extension: Extension, source: ObjectFormatError<B> },
    RefStorage(RefStorageError<B>),
    DuplicateCompatObjectFormatExtension,
    SamePrimaryAndCompatObjectFormat(ObjectFormat),
}

impl View for RepositoryFormatError {
    type V = RepositoryFormatError<Seq<u8>, ConfigFileErrorKind<Seq<u8>>>;

    open spec fn view(&self) -> RepositoryFormatError<Seq<u8>, ConfigFileErrorKind<Seq<u8>>> {
        match *self {
            RepositoryFormatError::Config(err) => RepositoryFormatError::Config(err.kind@),
            RepositoryFormatError::UnsupportedVersion(err) =>
                RepositoryFormatError::UnsupportedVersion(err),
            RepositoryFormatError::V1ExtensionInV0(e) => RepositoryFormatError::V1ExtensionInV0(e),
            RepositoryFormatError::UnknownExtensionValue(e) =>
                RepositoryFormatError::UnknownExtensionValue(e),
            RepositoryFormatError::UnknownV1Extension(e) =>
                RepositoryFormatError::UnknownV1Extension(e),
            RepositoryFormatError::ObjectFormat { extension, source } =>
                RepositoryFormatError::ObjectFormat {
                extension,
                source: ObjectFormatError(source.0@),
            },
            RepositoryFormatError::RefStorage(err) => RepositoryFormatError::RefStorage(
                RefStorageError(RefFormatError(err.0.0@)),
            ),
            RepositoryFormatError::DuplicateCompatObjectFormatExtension =>
                RepositoryFormatError::DuplicateCompatObjectFormatExtension,
            RepositoryFormatError::SamePrimaryAndCompatObjectFormat(f) =>
                RepositoryFormatError::SamePrimaryAndCompatObjectFormat(f),
        }
    }
}

/// What is wrong with the format that a configuration declares.
pub type FormatProblem = RepositoryFormatError<Seq<u8>, ConfigFileErrorKind<Seq<u8>>>;

#[derive(Debug)]
pub struct RepositoryFormat<B = Vec<u8>> {
    pub version: FormatVersion,
    pub ref_storage: RefStorage<B>,
    pub object_format: ObjectFormat,
    pub compat_object_format: Option<ObjectFormat>,
    pub precious_objects: bool,
    pub partial_clone: Option<B>,
    pub worktree_config: bool,
    pub relative_worktree: bool,
    pub submodule_path_config: bool,
}

impl View for RepositoryFormat {
    type V = RepositoryFormat<Seq<u8>>;

    open spec fn view(&self) -> RepositoryFormat<Seq<u8>> {
        RepositoryFormat {
            version: self.version,
            ref_storage: self.ref_storage@,
            object_format: self.object_format,
            compat_object_format: self.compat_object_format,
            precious_objects: self.precious_objects,
            partial_clone: match self.partial_clone {
                Some(p) => Some(p@),
                None => None,
            },
            worktree_config: self.worktree_config,
            relative_worktree: self.relative_worktree,
            submodule_path_config: self.submodule_path_config,
        }
    }
}

/// The format of a version without extensions.
pub open spec fn plain_format(version: FormatVersion) -> RepositoryFormat<Seq<u8>> {
    RepositoryFormat {
        version,
        ref_storage: default_ref_storage(),
        object_format: ObjectFormat::Sha1,
        compat_object_format: None,
        precious_objects: false,
        partial_clone: None,
        worktree_config: false,
        relative_worktree: false,
        submodule_path_config: false,
    }
}

/// The format with an extension that both versions know.
pub open spec fn with_common(
    f: RepositoryFormat<Seq<u8>>,
    entry: VariableEntry<Seq<u8>>,
) -> Result<RepositoryFormat<Seq<u8>>, FormatProblem> {
    let extension = extension_of(entry.name);
    let unknown_value: FormatProblem = RepositoryFormatError::UnknownExtensionValue(extension);
    match extension {
        Extension::PreciousObjects => match bool_of(entry.value) {
            Some(b) => Ok(RepositoryFormat { precious_objects: b, ..f }),
            None => Err(unknown_value),
        },
        Extension::WorktreeConfig => match bool_of(entry.value) {
            Some(b) => Ok(RepositoryFormat { worktree_config: b, ..f }),
            None => Err(unknown_value),
        },
        Extension::PartialClone => match entry.value {
            Value::ImplicitlyTrue => Err(unknown_value),
            Value::Bytes(b) => Ok(RepositoryFormat { partial_clone: Some(b), ..f }),
        },
        _ => Ok(f),
    }
}

/// The format with an extension, in a repository of version 0.
pub open spec fn with_v0(f: RepositoryFormat<Seq<u8>>, entry: VariableEntry<Seq<u8>>) -> Result<
    RepositoryFormat<Seq<u8>>,
    FormatProblem,
> {
    let extension = extension_of(entry.name);
    if allowed_in_v0(extension) {
        with_common(f, entry)
    } else {
        Err(RepositoryFormatError::V1ExtensionInV0(extension))
    }
}

/// The format with an extension, in a repository of version 1.
pub open spec fn with_v1(f: RepositoryFormat<Seq<u8>>, entry: VariableEntry<Seq<u8>>) -> Result<
    RepositoryFormat<Seq<u8>>,
    FormatProblem,
> {
    let extension = extension_of(entry.name);
    let unknown_value: FormatProblem = RepositoryFormatError::UnknownExtensionValue(extension);
    match extension {
        Extension::NoopV1 => Ok(f),
        Extension::ObjectFormat => match entry.value {
            Value::ImplicitlyTrue => Err(unknown_value),
            Value::Bytes(b) => match object_format_of(b) {
                Ok(object_format) => Ok(RepositoryFormat { object_format, ..f }),
                Err(source) => Err(RepositoryFormatError::ObjectFormat { extension, source }),
            },
        },
        Extension::CompatObjectFormat => match entry.value {
            Value::ImplicitlyTrue => Err(unknown_value),
            Value::Bytes(b) => match object_format_of(b) {
                Ok(format) => if f.compat_object_format is Some {
                    Err(RepositoryFormatError::DuplicateCompatObjectFormatExtension)
                } else {
                    Ok(RepositoryFormat { compat_object_format: Some(format), ..f })
                },
                Err(source) => Err(RepositoryFormatError::ObjectFormat { extension, source }),
            },
        },
        Extension::RefStorage => match entry.value {
            Value::ImplicitlyTrue => Err(unknown_value),
            Value::Bytes(b) => match ref_storage_of(b) {
                Ok(ref_storage) => Ok(RepositoryFormat { ref_storage, ..f }),
                Err(source) => Err(RepositoryFormatError::RefStorage(source)),
            },
        },
        Extension::RelativeWorktrees => match bool_of(entry.value) {
            Some(b) => Ok(RepositoryFormat { relative_worktree: b, ..f }),
            None => Err(unknown_value),
        },
        Extension::SubmodulePathConfig => match bool_of(entry.value) {
            Some(b) => Ok(RepositoryFormat { submodule_path_config: b, ..f }),
            None => Err(unknown_value),
        },
        Extension::Unknown => Err(RepositoryFormatError::UnknownV1Extension(extension)),
        _ => with_common(f, entry),
    }
}

/// The format with an extension.
pub open spec fn with_extension(
    f: RepositoryFormat<Seq<u8>>,
    entry: VariableEntry<Seq<u8>>,
) -> Result<RepositoryFormat<Seq<u8>>, FormatProblem> {
    match f.version {
        FormatVersion::V0 => with_v0(f, entry),
        FormatVersion::V1 => with_v1(f, entry),
    }
}

/// The format with the first `n` extensions, or the first problem with one of them.
pub open spec fn with_extensions(
    f: RepositoryFormat<Seq<u8>>,
    entries: Seq<VariableEntry<Seq<u8>>>,
    n: int,
) -> Result<RepositoryFormat<Seq<u8>>, FormatProblem>
    decreases n,
{
    if n <= 0 {
        Ok(f)
    } else {
        match with_extensions(f, entries, n - 1) {
            Err(err) => Err(err),
            Ok(f) => with_extension(f, entries[n - 1]),
        }
    }
}

pub open spec fn extensions_section() -> SectionKey<Seq<u8>> {
    SectionKey { name: text("extensions"), subsection: None }
}

/// The extensions that a configuration declares.
pub open spec fn declared_extensions(lines: Seq<LineView>) -> Seq<VariableEntry<Seq<u8>>> {
    match entries_of(lines, extensions_section()) {
        Some(entries) => entries,
        None => Seq::empty(),
    }
}

pub open spec fn version_key() -> Seq<u8> {
    text("core.repositoryformatversion")
}

/// The format that a configuration declares. Without a version, the extensions are not read.
pub open spec fn format_of(lines: Seq<LineView>) -> Result<
    Option<RepositoryFormat<Seq<u8>>>,
    FormatProblem,
> {
    match got_int(lines, version_key()) {
        Err(ConfigFileErrorKind::NotFound(_)) => Ok(None),
        Err(err) => Err(RepositoryFormatError::Config(err)),
        Ok(n) => match version_of(n) {
            Err(err) => Err(RepositoryFormatError::UnsupportedVersion(err)),
            Ok(version) => {
                let entries = declared_extensions(lines);
                match with_extensions(plain_format(version), entries, entries.len() as int) {
                    Err(err) => Err(err),
                    Ok(f) => if f.compat_object_format == Some(f.object_format) {
                        Err(
                            RepositoryFormatError::SamePrimaryAndCompatObjectFormat(
                                f.object_format,
                            ),
                        )
                    } else {
                        Ok(Some(f))
                    },
                }
            },
        },
    }
}

proof fn lemma_extensions_section()
    ensures
        section_of_name(text("extensions")) == Some(extensions_section()),
{
    reveal_strlit("extensions");
    lemma_ascii_text("extensions");
    let b = text("extensions");
    assert(b.len() == 10);
    lemma_until_is(b, DOT, 10);
    assert(b.take(10) =~= b);
    assert(all_name_bytes(b)) by {
        assert forall|i: int| 0 <= i < b.len() implies spec_is_name_byte(#[trigger] b[i]) by {}
    }
    assert(downcased(b) =~= b);
}

impl Default for RepositoryFormat {
    fn default() -> (r: Self)
        ensures
            r@ == plain_format(FormatVersion::V0),
    {
        Self::v0()
    }
}

impl RepositoryFormat {
    /// The format that a configuration declares, if it declares a version.
    pub fn from_config(cfg: &ConfigFile) -> (r: Result<Option<Self>, RepositoryFormatError>)
        requires
            cfg.wf(),
        ensures
            match format_of(cfg@) {
                Ok(Some(f)) => r matches Ok(Some(format)) && format@ == f,
                Ok(None) => r matches Ok(None),
                Err(err) => r matches Err(e) && e@ == err && (e matches
                    RepositoryFormatError::Config(c) ==> c.path@ == cfg.path@),
            },
    {
        let version: u64 = match cfg.get_int("core.repositoryformatversion".as_bytes()) {
            Ok(version) => version,
            Err(err) => {
                if err.is_key_not_found() {
                    return Ok(None);
                }
                return Err(RepositoryFormatError::Config(err));
            },
        };
        let version = match FormatVersion::try_from_number(version) {
            Ok(version) => version,
            Err(err) => {
                return Err(RepositoryFormatError::UnsupportedVersion(err));
            },
        };
        let mut format = RepositoryFormat::with_version(version);
        proof {
            lemma_extensions_section();
        }
        let ghost entries = declared_extensions(cfg@);
        let ghost plain = format@;
        match cfg.section_entries("extensions".as_bytes()) {
            Err(err) => {
                return Err(RepositoryFormatError::Config(err));
            },
            Ok(None) => {},
            Ok(Some(found)) => {
                let ghost all = found@;
                let ghost mut n: int = 0;
                for entry in it: found
                    invariant
                        it.seq() == all,
                        n == it.index(),
                        entries == all.map_values(|e: VariableEntry| e@),
                        with_extensions(plain, entries, n) == Ok::<_, FormatProblem>(format@),
                        format_of(cfg@) == (match with_extensions(
                            plain,
                            entries,
                            entries.len() as int,
                        ) {
                            Err(err) => Err(err),
                            Ok(f) => if f.compat_object_format == Some(f.object_format) {
                                Err(
                                    RepositoryFormatError::SamePrimaryAndCompatObjectFormat(
                                        f.object_format,
                                    ),
                                )
                            } else {
                                Ok(Some(f))
                            },
                        }),
                {
                    assert(entries[n] == entry@);
                    match format.apply_extension(entry) {
                        Ok(()) => {},
                        Err(err) => {
                            proof {
                                lemma_stuck(plain, entries, n + 1, entries.len() as int);
                            }
                            return Err(err);
                        },
                    }
                    proof {
                        n = n + 1;
                    }
                }
            },
        }
        if let Some(compat) = &format.compat_object_format {
            if *compat == format.object_format {
                return Err(RepositoryFormatError::SamePrimaryAndCompatObjectFormat(*compat));
            }
        }
        Ok(Some(format))
    }

    pub fn version(&self) -> (r: &FormatVersion)
        ensures
            *r == self@.version,
    {
        &self.version
    }

    pub fn version_mut(&mut self) -> (r: &mut FormatVersion)
        ensures
            *r == old(self).version,
            *final(self) == (RepositoryFormat { version: *final(r), ..*old(self) }),
    {
        &mut self.version
    }

    pub fn object_format(&self) -> (r: &ObjectFormat)
        ensures
            *r == self@.object_format,
    {
        &self.object_format
    }

    pub fn object_format_mut(&mut self) -> (r: &mut ObjectFormat)
        ensures
            *r == old(self).object_format,
            *final(self) == (RepositoryFormat { object_format: *final(r), ..*old(self) }),
    {
        &mut self.object_format
    }

    pub fn ref_storage(&self) -> (r: &RefStorage)
        ensures
            r@ == self@.ref_storage,
    {
        &self.ref_storage
    }

    pub fn ref_storage_mut(&mut self) -> (r: &mut RefStorage)
        ensures
            *r == old(self).ref_storage,
            *final(self) == (RepositoryFormat { ref_storage: *final(r), ..*old(self) }),
    {
        &mut self.ref_storage
    }

    pub fn with_version(version: FormatVersion) -> (r: Self)
        ensures
            r@ == plain_format(version),
    {
        Self {
            version,
            ref_storage: RefStorage::default(),
            object_format: ObjectFormat::default(),
            compat_object_format: None,
            precious_objects: false,
            partial_clone: None,
            worktree_config: false,
            relative_worktree: false,
            submodule_path_config: false,
        }
    }

    pub fn v0() -> (r: Self)
        ensures
            r@ == plain_format(FormatVersion::V0),
    {
        Self::with_version(FormatVersion::V0)
    }

    /// Takes up an extension. The format stays as it is where the extension is refused.
    pub fn apply_extension(&mut self, entry: VariableEntry) -> (r: Result<
        (),
        RepositoryFormatError,
    >)
        ensures
            match with_extension(old(self)@, entry@) {
                Ok(f) => r is Ok && final(self)@ == f,
                Err(err) => r matches Err(e) && e@ == err && e !is Config && final(self)@ == old(
                    self,
                )@,
            },
    {
        match self.version {
            FormatVersion::V0 => self.apply_v0_extension(entry),
            FormatVersion::V1 => self.apply_v1_extension(entry),
        }
    }

    pub fn apply_v0_extension(&mut self, entry: VariableEntry) -> (r: Result<
        (),
        RepositoryFormatError,
    >)
        ensures
            match with_v0(old(self)@, entry@) {
                Ok(f) => r is Ok && final(self)@ == f,
                Err(err) => r matches Err(e) && e@ == err && e !is Config && final(self)@ == old(
                    self,
                )@,
            },
    {
        let extension = Extension::from_name(entry.name());
        if !extension.is_v0_compatible() {
            return Err(RepositoryFormatError::V1ExtensionInV0(extension));
        }
        self.apply_common_extension(entry)
    }

    pub fn apply_v1_extension(&mut self, entry: VariableEntry) -> (r: Result<
        (),
        RepositoryFormatError,
    >)
        ensures
            match with_v1(old(self)@, entry@) {
                Ok(f) => r is Ok && final(self)@ == f,
                Err(err) => r matches Err(e) && e@ == err && e !is Config && final(self)@ == old(
                    self,
                )@,
            },
    {
        let extension = Extension::from_name(entry.name());
        match extension {
            Extension::NoopV1 => {},
            Extension::ObjectFormat => match entry.value() {
                Value::ImplicitlyTrue => {
                    return Err(RepositoryFormatError::UnknownExtensionValue(extension));
                },
                Value::Bytes(bytes) => match ObjectFormat::try_from_bytes(bytes.as_slice()) {
                    Ok(format) => {
                        self.object_format = format;
                    },
                    Err(source) => {
                        return Err(RepositoryFormatError::ObjectFormat { extension, source });
                    },
                },
            },
            Extension::CompatObjectFormat => match entry.value() {
                Value::ImplicitlyTrue => {
                    return Err(RepositoryFormatError::UnknownExtensionValue(extension));
                },
                Value::Bytes(bytes) => match ObjectFormat::try_from_bytes(bytes.as_slice()) {
                    Ok(format) => {
                        if self.compat_object_format.is_some() {
                            return Err(
                                RepositoryFormatError::DuplicateCompatObjectFormatExtension,
                            );
                        }
                        self.compat_object_format = Some(format);
                    },
                    Err(source) => {
                        return Err(RepositoryFormatError::ObjectFormat { extension, source });
                    },
                },
            },
            Extension::RefStorage => match entry.value() {
                Value::ImplicitlyTrue => {
                    return Err(RepositoryFormatError::UnknownExtensionValue(extension));
                },
                Value::Bytes(bytes) => match RefStorage::try_from_bytes(bytes.as_slice()) {
                    Ok(storage) => {
                        self.ref_storage = storage;
                    },
                    Err(source) => {
                        return Err(RepositoryFormatError::RefStorage(source));
                    },
                },
            },
            Extension::RelativeWorktrees => match entry.value().to_bool() {
                Some(b) => {
                    self.relative_worktree = b;
                },
                None => {
                    return Err(RepositoryFormatError::UnknownExtensionValue(extension));
                },
            },
            Extension::SubmodulePathConfig => match entry.value().to_bool() {
                Some(b) => {
                    self.submodule_path_config = b;
                },
                None => {
                    return Err(RepositoryFormatError::UnknownExtensionValue(extension));
                },
            },
            Extension::Unknown => {
                return Err(RepositoryFormatError::UnknownV1Extension(extension));
            },
            _ => {
                return self.apply_common_extension(entry);
            },
        }
        Ok(())
    }

    pub fn apply_common_extension(&mut self, entry: VariableEntry) -> (r: Result<
        (),
        RepositoryFormatError,
    >)
        ensures
            match with_common(old(self)@, entry@) {
                Ok(f) => r is Ok && final(self)@ == f,
                Err(err) => r matches Err(e) && e@ == err && e !is Config && final(self)@ == old(
                    self,
                )@,
            },
    {
        let extension = Extension::from_name(entry.name());
        match extension {
            Extension::PreciousObjects => match entry.value().to_bool() {
                Some(b) => {
                    self.precious_objects = b;
                },
                None => {
                    return Err(RepositoryFormatError::UnknownExtensionValue(extension));
                },
            },
            Extension::WorktreeConfig => match entry.value().to_bool() {
                Some(b) => {
                    self.worktree_config = b;
                },
                None => {
                    return Err(RepositoryFormatError::UnknownExtensionValue(extension));
                },
            },
            Extension::PartialClone => match entry.into_value() {
                Value::ImplicitlyTrue => {
                    return Err(RepositoryFormatError::UnknownExtensionValue(extension));
                },
                Value::Bytes(bytes) => {
                    self.partial_clone = Some(bytes);
                },
            },
            _ => {},
        }
        Ok(())
    }
}

/// Once an extension is refused, the rest changes nothing.
proof fn lemma_stuck(
    f: RepositoryFormat<Seq<u8>>,
    entries: Seq<VariableEntry<Seq<u8>>>,
    n: int,
    m: int,
)
    requires
        n <= m,
        with_extensions(f, entries, n) is Err,
    ensures
        with_extensions(f, entries, m) == with_extensions(f, entries, n),
    decreases m - n,
{
    if n < m {
        lemma_stuck(f, entries, n, m - 1);
    }
}

/// Is the value one that the extension takes?
pub open spec fn value_is_known(extension: Extension, value: Value<Seq<u8>>) -> bool {
    match extension {
        Extension::PreciousObjects => bool_of(value) is Some,
        Extension::WorktreeConfig => bool_of(value) is Some,
        Extension::RelativeWorktrees => bool_of(value) is Some,
        Extension::SubmodulePathConfig => bool_of(value) is Some,
        Extension::PartialClone => value is Bytes,
        Extension::ObjectFormat => value matches Value::Bytes(b) && object_format_of(b) is Ok,
        Extension::CompatObjectFormat => value matches Value::Bytes(b) && object_format_of(
            b,
        ) is Ok,
        Extension::RefStorage => value matches Value::Bytes(b) && ref_storage_of(b) is Ok,
        _ => true,
    }
}

proof fn lemma_accepted(
    f: RepositoryFormat<Seq<u8>>,
    entries: Seq<VariableEntry<Seq<u8>>>,
    n: int,
)
    requires
        0 <= n <= entries.len(),
        with_extensions(f, entries, n) is Ok,
    ensures
        with_extensions(f, entries, n)->Ok_0.version == f.version,
        forall|i: int|
            0 <= i < n ==> value_is_known(
                extension_of((#[trigger] entries[i]).name),
                entries[i].value,
            ) && (f.version == FormatVersion::V1 ==> extension_of(entries[i].name)
                != Extension::Unknown) && (f.version == FormatVersion::V0 ==> allowed_in_v0(
                extension_of(entries[i].name),
            )),
    decreases n,
{
    if n > 0 {
        lemma_accepted(f, entries, n - 1);
    }
}

/// A format that is accepted is of version 0 or 1. Its extensions are known, or, in version 0,
/// ignored; none of them needs a later version; each known one has a value that it takes. The two
/// hashes that it names differ.
pub proof fn accepted_formats_are_consistent(lines: Seq<LineView>)
    requires
        format_of(lines) matches Ok(Some(_)),
    ensures
        ({
            let f = format_of(lines)->Ok_0->0;
            let entries = declared_extensions(lines);
            &&& got_int(lines, version_key()) is Ok
            &&& f.version == version_of(got_int(lines, version_key())->Ok_0)->Ok_0
            &&& f.compat_object_format != Some(f.object_format)
            &&& forall|i: int|
                0 <= i < entries.len() ==> {
                    let extension = extension_of((#[trigger] entries[i]).name);
                    &&& f.version == FormatVersion::V0 ==> allowed_in_v0(extension)
                    &&& f.version == FormatVersion::V1 ==> extension != Extension::Unknown
                    &&& value_is_known(extension, entries[i].value)
                }
        }),
{
    let entries = declared_extensions(lines);
    let version = version_of(got_int(lines, version_key())->Ok_0)->Ok_0;
    lemma_accepted(plain_format(version), entries, entries.len() as int);
}

} // verus!
