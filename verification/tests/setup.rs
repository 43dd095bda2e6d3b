//! Setting up a repository and finding one.

use lit::config::doc::Value;
use lit::config::ConfigFile;
use lit::format::{FormatVersion, ObjectFormat, RefFormat, RefStorage, RepositoryFormat};
use lit::init::{
    check_existing_dir, configure, finalize_format_version, object_db_dirs, resolve_format,
    resolve_object_format, resolve_ref_storage, update_config, FormatRequest, InitError, InitFacts,
};
use lit::layout::{Layout, LitEntry, MetadataPlacement};
use lit::litfile::{content, read, strip_line_ending, LitFileErrorKind, FILE_MAX_SIZE};
use lit::migrate::{Migration, Task};
use lit::object::oid::OidError;
use lit::path::OsPath;
use lit::repository::{
    resolve_explicit_worktree_dir, resolve_objects_dir, resolve_worktree_dir, validate_head,
    Answer, EntryType, Probe, Question, Repository, RepositoryError, RepositoryPaths, Search,
    StructureCheck,
};

fn os(path: &str) -> OsPath {
    OsPath::new_unchecked(path.as_bytes())
}

fn text(path: &OsPath) -> &str {
    std::str::from_utf8(path.as_bytes()).unwrap()
}

fn config(text: &str) -> ConfigFile {
    ConfigFile::new(os("/r/.lit/config"), text.as_bytes().to_vec()).unwrap()
}

fn request<'a>() -> FormatRequest<&'a [u8]> {
    FormatRequest {
        object_format: None,
        ref_format: None,
        default_hash: None,
        reference_backend: None,
        default_ref_format: None,
    }
}

#[test]
fn the_hash_of_a_new_repository() {
    let cfg = config("[init]\ndefaultObjectFormat = sha256\n");
    assert_eq!(resolve_object_format(None, None, None).unwrap(), ObjectFormat::Sha1);
    assert_eq!(resolve_object_format(None, None, Some(&cfg)).unwrap(), ObjectFormat::Sha256);
    assert_eq!(resolve_object_format(None, None, Some(&config(""))).unwrap(), ObjectFormat::Sha1);
    assert_eq!(
        resolve_object_format(None, Some(b"sha1"), Some(&cfg)).unwrap(),
        ObjectFormat::Sha1
    );
    assert_eq!(
        resolve_object_format(Some(ObjectFormat::Sha256), Some(b"what"), None).unwrap(),
        ObjectFormat::Sha256
    );
    let err = resolve_object_format(None, Some(b"what"), None).unwrap_err();
    assert!(matches!(err, InitError::UnknownObjectFormat(_)));
    assert_eq!(err.message(), "unknown hash algorithm: what");
    let err = resolve_object_format(
        None,
        None,
        Some(&config("[init]\ndefaultObjectFormat\n")),
    )
    .unwrap_err();
    assert!(matches!(err, InitError::Config(_)));
}

#[test]
fn the_references_of_a_new_repository() {
    let format = |storage: RefStorage| *storage.format();
    assert_eq!(format(resolve_ref_storage(None, None, None, None).unwrap()), RefFormat::Files);
    // the backend of the environment comes first
    let storage = resolve_ref_storage(
        Some(RefFormat::Files),
        Some(b"reftable://where"),
        Some(b"files"),
        None,
    )
    .unwrap();
    assert_eq!(storage.payload(), Some(&b"where"[..]));
    assert_eq!(format(storage), RefFormat::RefTable);
    assert_eq!(
        format(
            resolve_ref_storage(Some(RefFormat::RefTable), None, Some(b"files"), None).unwrap()
        ),
        RefFormat::RefTable
    );
    let cfg = config("[init]\ndefaultRefFormat = reftable\n");
    assert_eq!(
        format(resolve_ref_storage(None, None, Some(b"files"), Some(&cfg)).unwrap()),
        RefFormat::Files
    );
    assert_eq!(
        format(resolve_ref_storage(None, None, None, Some(&cfg)).unwrap()),
        RefFormat::RefTable
    );
    let err = resolve_ref_storage(None, Some(b"x"), None, None).unwrap_err();
    assert!(matches!(err, InitError::UnknownRefStorage(_)));
}

#[test]
fn a_repository_keeps_its_format() {
    let cfg = config("[core]\nrepositoryformatversion = 1\n[extensions]\nobjectformat = sha256\n");
    let format = resolve_format(&request(), Some(&cfg)).unwrap();
    assert_eq!(*format.object_format(), ObjectFormat::Sha256);
    let mut other = request();
    other.object_format = Some(ObjectFormat::Sha1);
    let err = resolve_format(&other, Some(&cfg)).unwrap_err();
    assert!(matches!(err, InitError::HashMismatch));
    assert_eq!(err.message(), "attempted to reinitialize repository with different hash");
    let mut other = request();
    other.ref_format = Some(RefFormat::RefTable);
    let err = resolve_format(&other, Some(&cfg)).unwrap_err();
    assert!(matches!(err, InitError::RefStorageMisMatch));
    assert_eq!(
        err.message(),
        "attempted to reinitialize repository with different storage format"
    );
    let err = resolve_format(
        &request(),
        Some(&config("[core]\nrepositoryformatversion = 9\n")),
    )
    .unwrap_err();
    assert!(matches!(err, InitError::RepositoryFormat(_)));
    assert_eq!(err.message(), "unsupported format version: 9");
}

fn facts<'a>(bare: bool) -> InitFacts<&'a [u8]> {
    InitFacts {
        bare,
        worktree: None,
        trust_filemode: true,
        reinit: false,
        symlinks: true,
        case_sensitive: true,
    }
}

#[test]
fn settings_of_a_new_repository() {
    let mut cfg = ConfigFile::empty(os("/r/.lit/config"));
    configure(&mut cfg, &facts(false)).unwrap();
    update_config(&mut cfg, &mut RepositoryFormat::default()).unwrap();
    assert_eq!(
        String::from_utf8(cfg.serialize()).unwrap(),
        "[core]\n\tfilemode = true\n\tbare = false\n\tlogallrefupdates = true\n\trepositoryformatversion = 0\n"
    );

    let mut cfg = config("[core]\nworktree = /elsewhere\n");
    let mut bare = facts(true);
    bare.symlinks = false;
    bare.case_sensitive = false;
    bare.worktree = Some(b"/ignored");
    configure(&mut cfg, &bare).unwrap();
    assert!(cfg.get_bool(b"core.bare").unwrap());
    assert!(cfg.get(b"core.worktree").unwrap_err().is_key_not_found());
    assert!(cfg.get(b"core.logallrefupdates").unwrap_err().is_key_not_found());
    assert!(!cfg.get_bool(b"core.symlinks").unwrap());
    assert!(cfg.get_bool(b"core.ignorecase").unwrap());

    // what was chosen before stays, and a place that was known is not looked at again
    let mut cfg = config("[core]\nlogallrefupdates = false\n");
    let mut again = facts(false);
    again.reinit = true;
    again.symlinks = false;
    again.worktree = Some(b"/r");
    configure(&mut cfg, &again).unwrap();
    assert!(!cfg.get_bool(b"core.logallrefupdates").unwrap());
    assert!(cfg.get(b"core.symlinks").is_err());
    assert_eq!(cfg.get_str(b"core.worktree").unwrap(), "/r");

    let mut cfg = config("[core]\nlogallrefupdates = maybe\n");
    assert!(matches!(configure(&mut cfg, &facts(false)), Err(InitError::Config(_))));
}

#[test]
fn declared_formats() {
    let mut cfg = ConfigFile::empty(os("/c"));
    let mut format = RepositoryFormat::default();
    *format.object_format_mut() = ObjectFormat::Sha256;
    *format.ref_storage_mut() = RefStorage::try_from_bytes(b"files://x").unwrap();
    update_config(&mut cfg, &mut format).unwrap();
    assert_eq!(*format.version(), FormatVersion::V1);
    assert_eq!(cfg.get_str(b"extensions.objectformat").unwrap(), "sha256");
    assert_eq!(cfg.get_str(b"extensions.refstorage").unwrap(), "files://x");
    assert_eq!(cfg.get_int(b"core.repositoryformatversion").unwrap(), 1);
    let back = RepositoryFormat::from_config(&cfg).unwrap().unwrap();
    assert_eq!(*back.object_format(), ObjectFormat::Sha256);
    assert_eq!(back.ref_storage().payload(), Some(&b"x"[..]));
}

#[test]
fn declared_storages_read_back() {
    for storage in [&b"files:///srv/refs"[..], b"reftable://", b"reftable", b"files://a://b"] {
        let mut cfg = config("[extensions]\nrefStorage = files\nrefStorage = reftable\n");
        let mut format = RepositoryFormat::default();
        *format.ref_storage_mut() = RefStorage::try_from_bytes(storage).unwrap();
        finalize_format_version(&mut cfg, &mut format).unwrap();
        assert_eq!(*format.version(), FormatVersion::V1);
        let values = cfg.get_all(b"extensions.refstorage").unwrap();
        assert_eq!(values.len(), 2);
        for value in values {
            match value {
                Value::Bytes(value) => {
                    assert_eq!(value, storage);
                    assert_eq!(RefStorage::try_from_bytes(&value).unwrap(), *format.ref_storage());
                }
                other => panic!("{other:?}"),
            }
        }
    }
}

#[test]
fn places_of_a_new_repository() {
    assert!(check_existing_dir(&os("/r"), EntryType::Directory).is_ok());
    let err = check_existing_dir(&os("/r"), EntryType::File).unwrap_err();
    assert_eq!(err.message(), "/r already exists and is not a file");
    let dirs: Vec<String> =
        object_db_dirs(&os("/r/objects")).iter().map(|d| text(d).to_string()).collect();
    assert!(dirs.iter().all(|d| d.starts_with("/r/objects")));
    assert!(!dirs.is_empty());
}

#[test]
fn pointer_files() {
    let file = os("/r/.lit");
    for ending in ["\n", "\r\n"] {
        let bytes = format!("litdir: /meta{ending}");
        assert_eq!(text(&read(bytes.as_bytes(), &file).unwrap()), "/meta");
    }
    // what is written is read
    assert_eq!(content(b"/a b"), b"litdir: /a b\n");
    assert_eq!(text(&read(&content(b"/a b"), &file).unwrap()), "/a b");
    let kind = |bytes: &[u8]| read(bytes, &file).unwrap_err().kind;
    assert_eq!(kind(b"/meta\n"), LitFileErrorKind::MissingPrefix);
    assert_eq!(kind(b"litdir: \n"), LitFileErrorKind::Empty);
    assert_eq!(kind(b"litdir: /meta"), LitFileErrorKind::MissingLineEnding);
    assert!(matches!(kind(b"litdir: a\0b\n"), LitFileErrorKind::OsPath(_)));
    assert_eq!(kind(&vec![b'x'; FILE_MAX_SIZE + 1]), LitFileErrorKind::TooLarge);
    assert_eq!(
        read(b"litdir: \n", &file).unwrap_err().message(),
        "/r/.lit: invalid litfile format: empty path"
    );
    assert_eq!(LitFileErrorKind::<Vec<u8>>::TooLarge.message(), "litfile exceeds maximum size: 65536");
    assert_eq!(strip_line_ending(b"a\r\n"), Some(&b"a"[..]));
    assert_eq!(strip_line_ending(b"a"), None);
}

#[test]
fn heads() {
    let hex = "0123456789abcdef0123456789abcdef01234567";
    assert_eq!(validate_head(hex.as_bytes()), Ok(()));
    assert_eq!(validate_head(format!("{hex}\n").as_bytes()), Ok(()));
    assert_eq!(validate_head(b"ref: refs/heads/master\n"), Err(OidError::BadLength));
}

#[test]
fn directories_of_a_repository() {
    let meta = os("/r/.lit");
    assert_eq!(text(&resolve_objects_dir(&meta, &os("/w"), None).unwrap()), "/r/.lit/objects");
    assert_eq!(text(&resolve_objects_dir(&meta, &os("/w"), Some(b"o")).unwrap()), "/w/o");
    assert!(resolve_objects_dir(&meta, &os("/w"), Some(b"")).is_err());

    let dir = |cfg: &str| {
        resolve_worktree_dir(&config(cfg), &meta, Some(os("/r")))
            .map(|d| d.map(|d| text(&d).to_string()))
    };
    assert_eq!(dir("").unwrap().as_deref(), Some("/r"));
    assert_eq!(dir("[core]\nbare = true\nworktree = x\n").unwrap(), None);
    assert_eq!(dir("[core]\nworktree = ../x\n").unwrap().as_deref(), Some("/r/.lit/../x"));
    assert!(matches!(dir("[core]\nbare = 1\n").unwrap_err(), RepositoryError::Config(_)));
    assert!(matches!(dir("[core]\nworktree =\n").unwrap_err(), RepositoryError::OsPath(_)));

    let explicit = |tree: Option<&[u8]>| {
        let cfg = config("[core]\nworktree = /c\n");
        text(&resolve_explicit_worktree_dir(&cfg, &meta, &os("/w"), tree).unwrap().unwrap())
            .to_string()
    };
    assert_eq!(explicit(Some(b"t")), "/w/t");
    assert_eq!(explicit(None), "/c");
}

fn stat_of(question: &Question) -> &str {
    match question {
        Question::Stat(path) => text(path),
        other => panic!("{other:?}"),
    }
}

#[test]
fn a_repository_in_a_directory() {
    let (mut probe, question) = Probe::new(os("/r/.lit"), os("/w"), None, true);
    assert_eq!(stat_of(&question), "/r/.lit");
    let question = probe.next(Answer::Entry(EntryType::Directory));
    assert!(matches!(question, Question::Canonicalize(p) if text(&p) == "/r/.lit"));
    match probe.next(Answer::Canonical(os("/real/.lit"))) {
        Question::CheckStructure { metadata_dir, objects_dir } => {
            assert_eq!(text(&metadata_dir), "/real/.lit");
            assert_eq!(text(&objects_dir), "/real/.lit/objects");
        }
        other => panic!("{other:?}"),
    }
    match probe.next(Answer::Structure(StructureCheck::Valid)) {
        Question::Found(paths) => {
            assert_eq!(text(paths.metadata_dir()), "/real/.lit");
            assert!(paths.pointer_file.is_none());
        }
        other => panic!("{other:?}"),
    }
}

#[test]
fn a_repository_behind_a_pointer() {
    let start = || {
        let (mut probe, _) = Probe::new(os("/r/.lit"), os("/w"), Some(b"obj".to_vec()), false);
        probe.next(Answer::Entry(EntryType::File));
        probe
    };
    let mut probe = start();
    let question = probe.next(Answer::Contents(b"litdir: /meta\n".to_vec()));
    assert!(matches!(question, Question::Canonicalize(p) if text(&p) == "/meta"));
    probe.next(Answer::Canonical(os("/meta")));
    match probe.next(Answer::Structure(StructureCheck::BadHead(OidError::BadLength))) {
        Question::Refused(err) => {
            assert_eq!(err.message(), "bad object id in HEAD at /meta/HEAD");
        }
        other => panic!("{other:?}"),
    }
    let question = start().next(Answer::Contents(b"nonsense".to_vec()));
    match question {
        Question::Refused(err) => assert_eq!(err.message(), "could not read metadata pointer"),
        other => panic!("{other:?}"),
    }
    match start().next(Answer::NotRegular) {
        Question::Refused(err) => assert_eq!(err.message(), "not a regular file: /r/.lit"),
        other => panic!("{other:?}"),
    }
    let (mut probe, _) = Probe::new(os("/r/.lit"), os("/w"), None, false);
    match probe.next(Answer::Entry(EntryType::Other)) {
        Question::Refused(err) => assert_eq!(
            err.message(),
            "expected a metadata directory or a regular pointer file at /r/.lit, found other"
        ),
        other => panic!("{other:?}"),
    }
}

#[test]
fn the_search_goes_up() {
    let (mut search, question) = Search::new(os("/a/b"), None);
    assert_eq!(stat_of(&question), "/a/b/.lit");
    let question = search.next(Answer::Missing);
    assert!(matches!(question, Question::Canonicalize(p) if text(&p) == "/a/b"));
    let question = search.next(Answer::Failed);
    assert_eq!(stat_of(&question), "/a/.lit");
    // a directory of that name that holds no repository is passed over
    search.next(Answer::Entry(EntryType::Directory));
    search.next(Answer::Canonical(os("/a/.lit")));
    let question = search.next(Answer::Structure(StructureCheck::Unreadable));
    assert!(matches!(question, Question::Canonicalize(p) if text(&p) == "/a"));
    // so is a directory that is no bare repository
    search.next(Answer::Canonical(os("/a")));
    let question = search.next(Answer::Structure(StructureCheck::Unreadable));
    assert_eq!(stat_of(&question), "/.lit");
    search.next(Answer::Missing);
    match search.next(Answer::Failed) {
        Question::Refused(err) => {
            assert!(matches!(err, RepositoryError::NotRepository(_)));
            assert_eq!(err.message(), "not a lit repository: /a/b");
        }
        other => panic!("{other:?}"),
    }
}

#[test]
fn a_bare_repository_is_found_from_inside() {
    let (mut search, _) = Search::new(os("/a/b"), None);
    search.next(Answer::Missing);
    search.next(Answer::Canonical(os("/a/b")));
    match search.next(Answer::Structure(StructureCheck::Valid)) {
        Question::Found(paths) => assert_eq!(text(&paths.objects_dir), "/a/b/objects"),
        other => panic!("{other:?}"),
    }
}

#[test]
fn repositories() {
    let paths = RepositoryPaths {
        metadata_dir: os("/r/.lit"),
        objects_dir: os("/r/.lit/objects"),
        pointer_file: None,
    };
    let repo = Repository::from_discovery(
        paths,
        Some(os("/r")),
        &config(""),
        LitEntry::Directory,
        true,
    )
    .unwrap();
    assert!(!repo.is_bare());
    assert_eq!(text(repo.worktree_dir().unwrap()), "/r");
    assert_eq!(text(&repo.index_path()), "/r/.lit/index");
    assert_eq!(text(&repo.config_path()), "/r/.lit/config");
    assert_eq!(text(&repo.head_path()), "/r/.lit/HEAD");
    assert_eq!(text(&repo.refs_path()), "/r/.lit/refs");
    assert_eq!(text(repo.objects_dir()), "/r/.lit/objects");
    assert_eq!(text(&repo.index().path), "/r/.lit/index");
    assert_eq!(repo.layout.placement, MetadataPlacement::Embedded);
    assert!(!repo.layout.needs_worktree_config());
    assert_eq!(text(repo.layout.root()), "/r");
    let layout = Layout::from_discovery(
        os("/meta"),
        Some(os("/r")),
        Some(os("/r/.lit")),
        LitEntry::File,
        true,
    );
    assert_eq!(text(layout.pointer_file().unwrap()), "/r/.lit");
}

#[test]
fn metadata_are_moved() {
    let (mut migration, task) = Migration::new(os("/r/.lit"), os("/meta"));
    assert!(matches!(task, Task::LinkStat(p) if text(&p) == "/r/.lit"));
    // a link is followed, so that not the link is moved
    let task = migration.next(Answer::Entry(EntryType::Symlink));
    assert!(matches!(task, Task::Canonicalize(p) if text(&p) == "/r/.lit"));
    let task = migration.next(Answer::Canonical(os("/real")));
    assert!(matches!(task, Task::Stat(p) if text(&p) == "/real"));
    let task = migration.next(Answer::Entry(EntryType::Directory));
    assert!(matches!(task, Task::Validate(p) if text(&p) == "/real"));
    match migration.next(Answer::Done) {
        Task::Rename { from, to } => assert_eq!((text(&from), text(&to)), ("/real", "/meta")),
        other => panic!("{other:?}"),
    }
    match migration.next(Answer::Done) {
        Task::WritePointer { path, contents } => {
            assert_eq!(text(&path), "/r/.lit");
            assert_eq!(contents, b"litdir: /meta\n");
        }
        other => panic!("{other:?}"),
    }
    assert!(matches!(migration.next(Answer::Done), Task::Finished));
}

#[test]
fn metadata_stay_where_they_belong() {
    // nothing there yet
    let (mut migration, _) = Migration::new(os("/r/.lit"), os("/meta"));
    assert!(matches!(migration.next(Answer::Missing), Task::WritePointer { .. }));
    // already there
    let (mut migration, _) = Migration::new(os("/r/.lit"), os("/meta"));
    migration.next(Answer::Entry(EntryType::File));
    migration.next(Answer::Entry(EntryType::File));
    migration.next(Answer::Contents(b"litdir: /meta/\n".to_vec()));
    assert!(matches!(migration.next(Answer::Done), Task::WritePointer { .. }));
    // nothing that could be moved
    let (mut migration, _) = Migration::new(os("/r/.lit"), os("/meta"));
    migration.next(Answer::Entry(EntryType::Other));
    match migration.next(Answer::Entry(EntryType::Other)) {
        Task::Refused(err) => {
            assert_eq!(err.message(), "/r/.lit already exists and is not a other");
        }
        other => panic!("{other:?}"),
    }
    let (mut migration, _) = Migration::new(os("/r/.lit"), os("/meta"));
    migration.next(Answer::Entry(EntryType::Directory));
    migration.next(Answer::Entry(EntryType::Directory));
    assert!(matches!(migration.next(Answer::Failed), Task::PassOn));
}
