//! Repository formats.

use lit::config::doc::{Value, VariableEntry};
use lit::config::ConfigFile;
use lit::format::{
    Extension, FormatVersion, FormatVersionError, ObjectFormat, RefFormat, RefStorage,
    RepositoryFormat, RepositoryFormatError,
};
use lit::messages::escape_ascii;
use lit::path::OsPath;

fn declared(text: &str) -> Result<Option<RepositoryFormat>, RepositoryFormatError> {
    let cfg = ConfigFile::new(OsPath::from_text("config"), text.as_bytes().to_vec()).unwrap();
    RepositoryFormat::from_config(&cfg)
}

fn v1(extensions: &str) -> Result<RepositoryFormat, RepositoryFormatError> {
    declared(&format!("[core]\nrepositoryformatversion = 1\n[extensions]\n{extensions}"))
        .map(|format| format.unwrap())
}

fn v0(extensions: &str) -> Result<RepositoryFormat, RepositoryFormatError> {
    declared(&format!("[core]\nrepositoryformatversion = 0\n[extensions]\n{extensions}"))
        .map(|format| format.unwrap())
}

#[test]
fn without_a_version_nothing_is_declared() {
    assert!(declared("").unwrap().is_none());
    assert!(declared("[extensions]\nobjectformat = what\n").unwrap().is_none());
}

#[test]
fn known_extensions() {
    let format = v1("objectFormat = sha256\ncompatObjectFormat = sha1\nrefStorage = reftable://x/y\nnoop-v1\nrelativeWorktrees\nsubmodulePathConfig = false\npreciousObjects = true\npartialClone = origin\nworktreeConfig\n").unwrap();
    assert_eq!(*format.version(), FormatVersion::V1);
    assert_eq!(*format.object_format(), ObjectFormat::Sha256);
    assert_eq!(*format.ref_storage().format(), RefFormat::RefTable);
    assert_eq!(format.ref_storage().payload(), Some(&b"x/y"[..]));
    assert!(format.precious_objects && format.worktree_config && format.relative_worktree);
    assert!(!format.submodule_path_config);
    assert_eq!(format.partial_clone.as_deref(), Some(&b"origin"[..]));
    let format = v0("preciousObjects\nsomething = else\nnoop\n").unwrap();
    assert!(format.precious_objects);
    assert_eq!(*format.object_format(), ObjectFormat::Sha1);
    assert_eq!(*RepositoryFormat::default().version(), FormatVersion::V0);
}

#[test]
fn refused_formats() {
    let err = declared("[core]\nrepositoryformatversion = 2\n").unwrap_err();
    assert!(matches!(err, RepositoryFormatError::UnsupportedVersion(FormatVersionError(2))));
    assert_eq!(err.message(), "unsupported format version: 2");

    let err = declared("[core]\nrepositoryformatversion = x\n").unwrap_err();
    assert!(matches!(err, RepositoryFormatError::Config(_)));
    assert_eq!(
        err.message(),
        "config: bad numeric config value '' for 'core.repositoryformatversion'"
    );

    let err = v0("objectFormat = sha1\n").unwrap_err();
    assert!(matches!(err, RepositoryFormatError::V1ExtensionInV0(Extension::ObjectFormat)));
    assert_eq!(
        err.message(),
        "extension 'extensions.objectFormat' requires format version 1 but the repository uses v0"
    );

    let err = v1("something\n").unwrap_err();
    assert!(matches!(err, RepositoryFormatError::UnknownV1Extension(_)));
    assert_eq!(
        err.message(),
        "unknown extension 'extensions.unknown' in repository format version 1"
    );

    let err = v1("objectformat = md5\n").unwrap_err();
    assert_eq!(
        err.message(),
        "invalid value for 'extensions.objectFormat': unknown hash algorithm: md5"
    );

    let err = v1("refstorage = \"da\\tta\"\n").unwrap_err();
    assert!(matches!(err, RepositoryFormatError::RefStorage(_)));
    assert_eq!(
        err.message(),
        "unknown reference backend 'da\\tta', expected 'files' or 'reftable'"
    );

    let err = v1("compatobjectformat = sha256\ncompatobjectformat = sha256\n").unwrap_err();
    assert_eq!(
        err.message(),
        "'extensions.compatObjectFormat' must not be specified more than once"
    );

    let err = v1("compatobjectformat = sha1\n").unwrap_err();
    assert_eq!(
        err.message(),
        "'extensions.compatObjectFormat' must differ from 'extensions.objectFormat'. Both were: sha1"
    );

    let err = v1("preciousobjects = maybe\n").unwrap_err();
    assert!(matches!(
        err,
        RepositoryFormatError::UnknownExtensionValue(Extension::PreciousObjects)
    ));
    assert_eq!(err.message(), "unknown extension value for 'extensions.preciousObjects'");
}

#[test]
fn single_extensions() {
    let entry = |name: &str, value: &str| VariableEntry {
        name: name.as_bytes().to_vec(),
        value: Value::Bytes(value.as_bytes().to_vec()),
    };
    let mut format = RepositoryFormat::with_version(FormatVersion::V1);
    format.apply_extension(entry("objectformat", "sha256")).unwrap();
    assert_eq!(*format.object_format(), ObjectFormat::Sha256);
    format.apply_v1_extension(entry("refstorage", "files")).unwrap();
    format.apply_common_extension(entry("partialclone", "x")).unwrap();
    assert!(RepositoryFormat::v0().apply_v0_extension(entry("refstorage", "files")).is_err());
    *format.version_mut() = FormatVersion::V0;
    *format.object_format_mut() = ObjectFormat::Sha1;
    *format.ref_storage_mut() = RefStorage::default();
    assert_eq!(format.version().as_str(), "0");
}

#[test]
fn names_and_storages() {
    assert_eq!(Extension::from_name(b"NOOP-V1"), Extension::NoopV1);
    assert_eq!(Extension::from_name(b"x").name(), "unknown");
    assert!(Extension::Unknown.is_v0_compatible() && !Extension::RefStorage.is_v0_compatible());
    assert_eq!(FormatVersion::try_from_number(1), Ok(FormatVersion::V1));
    let mut storage = RefStorage::try_from_bytes(b"files://a://b").unwrap();
    assert_eq!(storage.payload(), Some(&b"a://b"[..]));
    assert!(storage.has_payload());
    *storage.format_mut() = RefFormat::RefTable;
    assert_eq!(storage.format().name(), "reftable");
    assert_eq!(RefFormat::try_from_bytes(b"Files").unwrap_err().0, b"Files");
    assert_eq!(ObjectFormat::try_from_bytes(b"sha1"), Ok(ObjectFormat::Sha1));
    assert_eq!(escape_ascii(b"a'\"\\\r\n\x01\xffz"), "a\\'\\\"\\\\\\r\\n\\x01\\xffz");
}
