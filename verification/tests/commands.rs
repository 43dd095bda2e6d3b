//! `add`, `commit`, `status` and `cat-file`.

use lit::add::{Add, AddError, CollectStep, EntryCollector};
use lit::cat_file::{resolve_oid_prefix, CatFile, CatFileError, ObjectName, PrefixError};
use lit::commit::{content_wanted, index_background_refreshing, refresh, Commit};
use lit::config::ConfigFile;
use lit::digest::hash;
use lit::index::{Index, IndexEntry};
use lit::names::{generate, with_prefix, with_prefix_and_len, with_suffix, with_suffix_and_len};
use lit::object::identity::{get_with_fallback, EnvVar, SignatureError};
use lit::object::mode::Mode;
use lit::object::oid::Oid;
use lit::object::{frame, Entry, Object, ObjectType, Signature};
use lit::os::{
    file_kind, is_executable, probe_filemode, stat, to_unix_time, to_unix_time_nsec, toggled_mode,
    FileKind, FileStat, Metadata, StatNode,
};
use lit::path::OsPath;
use lit::print::cat_file::{print, write_mode};
use lit::print::status::{
    display_name, print_long, print_report, print_section, print_short, Color, Format, Style,
};
use lit::refs::Refs;
use lit::repo_path::RepoPath;
use lit::report::head::{head_id, head_tree, ReportError};
use lit::report::scan::{Scan, ScanStep};
use lit::report::tree_files::TreeFiles;
use lit::report::{
    compare_stat, Change, Comparison, HeadIndexChange, Report, WorkspaceIndexChange,
};
use lit::timestamp::Timestamp;
use lit::tree_builder::InMemTree;
use lit::utf8::{check_sequence, char_width, is_bom_present, read_char, Utf8Error};
use lit::workspace::{SearchStep, Workspace};

const HEX: &str = "0123456789abcdef0123456789abcdef01234567";

fn path(name: &str) -> RepoPath {
    RepoPath::from_bytes(name.as_bytes()).unwrap()
}

fn file_stat(n: u32, size: u32) -> FileStat {
    FileStat {
        ctime: n,
        ctime_nsec: 0,
        mtime: n,
        mtime_nsec: 0,
        dev: 1,
        ino: 2,
        uid: 3,
        gid: 4,
        file_size: size,
    }
}

fn node(kind: FileKind, n: u32, size: u32) -> StatNode {
    StatNode { kind, stat: file_stat(n, size) }
}

fn regular(n: u32, content: &str) -> StatNode {
    node(FileKind::Regular(false), n, content.len() as u32)
}

fn blob(content: &str) -> Oid {
    hash(ObjectType::Blob, content.as_bytes())
}

fn staged(name: &str, content: &str) -> IndexEntry {
    IndexEntry::new(path(name), blob(content), Mode::Regular, file_stat(10, content.len() as u32))
}

fn index_of(entries: Vec<IndexEntry>) -> Index {
    let mut index = Index::new(OsPath::from_text("index"));
    index.add_entries(entries).unwrap();
    index
}

fn names(index: &Index) -> Vec<String> {
    index
        .entries
        .iter()
        .map(|e| String::from_utf8(e.path.as_bytes().to_vec()).unwrap())
        .collect()
}

#[test]
fn collecting_a_directory() {
    let index = index_of(vec![]);
    let dir = node(FileKind::Directory, 1, 0);
    let mut collector = EntryCollector::new(&path("d"), dir);
    assert!(matches!(collector.collect(&index), Ok(CollectStep::List(p)) if p == path("d")));
    let listing = vec![
        (b"a".to_vec(), regular(5, "one")),
        (b"target".to_vec(), dir),
        (b"link".to_vec(), node(FileKind::Symlink, 6, 1)),
        (b"pipe".to_vec(), node(FileKind::Other, 7, 0)),
        (b"x".to_vec(), node(FileKind::Regular(true), 8, 3)),
    ];
    collector.collect_entries(&Workspace::dir_entries(&path("d"), &listing));
    assert!(matches!(collector.collect(&index), Ok(CollectStep::ReadFile(p)) if p == path("d/a")));
    assert_eq!(collector.take_content(b"one"), blob("one"));
    assert!(
        matches!(collector.collect(&index), Ok(CollectStep::ReadLink(p)) if p == path("d/link"))
    );
    collector.take_content(b"t");
    assert!(matches!(collector.collect(&index), Ok(CollectStep::ReadFile(p)) if p == path("d/x")));
    collector.take_content(b"two");
    assert!(matches!(collector.collect(&index), Ok(CollectStep::Done)));
    let entries = collector.finish();
    assert_eq!(entries.len(), 3);
    assert!(entries[0].same_as(&IndexEntry::new(
        path("d/a"),
        blob("one"),
        Mode::Regular,
        file_stat(5, 3)
    )));
    assert_eq!(entries[1].mode, Mode::Symlink);
    assert_eq!(entries[2].mode, Mode::Executable);
}

#[test]
fn a_tracked_file_of_another_kind_is_refused() {
    let index = index_of(vec![staged("f", "x")]);
    let other = node(FileKind::Other, 1, 0);
    let err = EntryCollector::new(&path("f"), other).collect(&index).unwrap_err();
    assert!(matches!(&err, AddError::UnsupportedFileType { path } if path == b"f"));
    assert_eq!(err.message().unwrap(), "unsupported file type at 'f'");
    let mut untracked = EntryCollector::new(&path("g"), other);
    assert!(matches!(untracked.collect(&index), Ok(CollectStep::Done)));
}

#[test]
fn staging() {
    let workspace = Workspace { root: OsPath::from_text("/repo") };
    let cwd = OsPath::from_text("/repo/src");
    let spec = Add::resolve(b"main.rs", &workspace, &cwd).unwrap();
    assert_eq!(spec.pattern, path("src/main.rs"));
    // an absolute path does not depend on the current directory
    let away = OsPath::from_text("/away");
    assert_eq!(Add::resolve(b"/repo/a", &workspace, &away).unwrap().pattern, path("a"));
    assert!(matches!(
        Add::resolve(b"a", &workspace, &away).unwrap_err(),
        AddError::OutsideRepository { path } if path == b"/away"
    ));
    assert!(matches!(
        Add::resolve(b"..", &workspace, &OsPath::from_text("/repo")).unwrap_err(),
        AddError::Pathspec(_)
    ));

    let mut index = index_of(vec![staged("a", "1"), staged("src/main.rs", "2")]);
    Add::execute(&mut index, &spec, Some(vec![staged("src/main.rs", "3")])).unwrap();
    assert_eq!(index.entries[1].oid, blob("3"));
    // a path that is gone is dropped
    Add::execute(&mut index, &spec, None).unwrap();
    assert_eq!(names(&index), ["a"]);
    let err = Add::execute(&mut index, &spec, None).unwrap_err();
    assert!(matches!(&err, AddError::FoundNoMatch { path } if path == b"main.rs"));
    assert_eq!(err.message().unwrap(), "path 'main.rs' did not match any files");
}

#[test]
fn looking_for_something_to_track() {
    let mut search = Workspace::contains_trackable_file(&path("d"), FileKind::Directory);
    assert!(matches!(search.next(), SearchStep::List(p) if p == path("d")));
    search.listed(&vec![
        (path("d/pipe"), node(FileKind::Other, 1, 0)),
        (path("d/e"), node(FileKind::Directory, 1, 0)),
    ]);
    assert!(matches!(search.next(), SearchStep::List(p) if p == path("d/e")));
    search.listed(&vec![]);
    assert!(matches!(search.next(), SearchStep::NotFound));
    let mut search = Workspace::contains_trackable_file(&path("f"), FileKind::Regular(false));
    assert!(matches!(search.next(), SearchStep::Found));
}

#[test]
fn trees() {
    let index = index_of(vec![
        staged("foo-bar.txt", "A"),
        staged("foo/a.txt", "B"),
        staged("main.rs", "C"),
        staged("src/bar/test.rs", "D"),
        staged("src/foo/hello.rs", "E"),
    ]);
    let mut contents = Vec::new();
    let root = InMemTree::from_index(&index).write(&mut contents);
    // `foo`, `src/bar`, `src/foo`, `src` and the root
    assert_eq!(contents.len(), 5);
    let ids: Vec<Oid> = contents.iter().map(|c| hash(ObjectType::Tree, c)).collect();
    assert_eq!(ids[4], root);
    let line = |mode: &str, name: &str, id: Oid| {
        let mut line = format!("{mode} {name}\0").into_bytes();
        line.extend_from_slice(id.as_bytes());
        line
    };
    assert_eq!(contents[0], line("100644", "a.txt", blob("B")));
    assert_eq!(
        contents[3],
        [line("040000", "bar", ids[1]), line("040000", "foo", ids[2])].concat()
    );
    // `foo-bar.txt` stands before the directory `foo`
    assert_eq!(
        contents[4],
        [
            line("100644", "foo-bar.txt", blob("A")),
            line("040000", "foo", ids[0]),
            line("100644", "main.rs", blob("C")),
            line("040000", "src", ids[3]),
        ]
        .concat()
    );
    let mut none = Vec::new();
    assert_eq!(
        InMemTree::from_index(&index_of(vec![])).write(&mut none).to_hex(),
        "4b825dc642cb6eb9a060e54bf8d69288fbee4904"
    );
    let mut tree = InMemTree::new();
    tree.insert(&path("a/b"), blob("1"), Mode::Regular);
    tree.insert(&path("a/b"), blob("2"), Mode::Executable);
    let mut contents = Vec::new();
    tree.write(&mut contents);
    assert_eq!(contents[0], line("100755", "b", blob("2")));
}

#[test]
fn refreshing() {
    let mut index = index_of(vec![
        staged("changed", "old"),
        staged("gone", "x"),
        staged("longer", "x"),
        staged("same", "x"),
        staged("touched", "x"),
    ]);
    let nodes = vec![
        Some(regular(11, "new")),
        None,
        Some(regular(10, "xyz")),
        Some(regular(10, "x")),
        Some(regular(12, "x")),
    ];
    let wanted: Vec<bool> =
        index.entries.iter().zip(&nodes).map(|(e, n)| content_wanted(e, *n)).collect();
    assert_eq!(wanted, [true, false, false, false, true]);
    let ids = vec![Some(blob("new")), None, None, None, Some(blob("x"))];
    let refreshes = index_background_refreshing(&index, &nodes, &ids);
    assert_eq!(refreshes, vec![(4, regular(12, "x"))]);
    let mut before = Vec::new();
    let tree = InMemTree::from_index(&index).write(&mut before);
    refresh(&mut index, &refreshes);
    assert_eq!(index.entries[4].stat, file_stat(12, 1));
    assert_eq!(index.entries[4].oid, blob("x"));
    // the tree does not depend on the statistics
    let mut after = Vec::new();
    assert_eq!(InMemTree::from_index(&index).write(&mut after), tree);
}

fn config(text: &str) -> ConfigFile {
    ConfigFile::new(OsPath::from_text("config"), text.as_bytes().to_vec()).unwrap()
}

fn at(unix: i64) -> Timestamp {
    Timestamp { unix, timezone: *b"+0000" }
}

#[test]
fn who_commits() {
    let cfg = config("[user]\nname = U\nemail = u@x\n[author]\nname = A\n");
    let author = Signature::author_at(&cfg, EnvVar::NotPresent, EnvVar::NotPresent, at(9)).unwrap();
    assert_eq!((&author.name[..], &author.email[..]), ("A", "u@x"));
    assert_eq!(author.timestamp.unix, 9);
    let committer = Signature::committer_at(
        &cfg,
        EnvVar::NotPresent,
        EnvVar::Value("env@x".to_string()),
        at(9),
    )
    .unwrap();
    assert_eq!((&committer.name[..], &committer.email[..]), ("U", "env@x"));
    let err = Signature::author(&cfg, EnvVar::NotUnicode(b"\xff".to_vec()), EnvVar::NotPresent)
        .unwrap_err();
    assert!(matches!(
        err,
        SignatureError::EnvNotUnicode { var: "GIT_AUTHOR_NAME", value } if value == b"\xff"
    ));
    let none = config("");
    let err =
        Signature::committer(&none, EnvVar::Value("C".to_string()), EnvVar::NotPresent).unwrap_err();
    assert!(matches!(err, SignatureError::NotFound("committer email")));
    let twice = config("[user]\nname = a\nname = b\n");
    let err = get_with_fallback(&twice, "author.name", "user.name", "author name").unwrap_err();
    assert!(matches!(err, SignatureError::ConfigError(e) if e.path == twice.path));
    let now = Signature::author(&cfg, EnvVar::NotPresent, EnvVar::NotPresent).unwrap();
    assert!(now.timestamp.unix > 1_600_000_000);
}

#[test]
fn the_next_commit() {
    let cfg = config("[user]\nname = U\nemail = u@x\n");
    let sign = || Signature::author_at(&cfg, EnvVar::NotPresent, EnvVar::NotPresent, at(1)).unwrap();
    let parent = Oid::from_hex(HEX).unwrap();
    let commit = Commit::execute(sign(), sign(), vec![parent], blob("root"));
    assert_eq!(commit.message, "hey");
    assert_eq!(commit.parents, vec![parent]);
    assert_eq!(commit.root_id, blob("root"));
}

#[test]
fn heads_and_parents() {
    let refs = Refs::new(&OsPath::from_text("/r/.lit"));
    assert_eq!(refs.head.as_bytes(), b"/r/.lit/HEAD");
    assert_eq!(refs.refs.as_bytes(), b"/r/.lit/refs");
    assert_eq!(Refs::parents(None).unwrap(), vec![]);
    // the commit that was written is the parent of the next one
    let id = blob("commit");
    let head = String::from_utf8(Refs::update_head(id)).unwrap();
    assert_eq!(Refs::parents(Some(&head)).unwrap(), vec![id]);
    assert!(Refs::parents(Some("ref: refs/heads/master\n")).is_err());
    assert_eq!(Refs::new_unborn_branch(), b"ref: refs/heads/master\n");
}

#[test]
fn the_commit_in_head() {
    assert_eq!(head_id(HEX).unwrap().to_hex(), HEX);
    let err = head_id("xyz").unwrap_err();
    assert!(matches!(err, ReportError::HeadBadOid(_)));
    assert_eq!(
        err.message(),
        "invalid object id in HEAD: object id must be 40 hexadecimal characters"
    );
    let err = head_tree(HEX, None).unwrap_err();
    assert_eq!(err.message(), format!("HEAD points to missing commit {HEX}"));
    let err = head_tree(HEX, Some(&Object::Blob(vec![]))).unwrap_err();
    assert_eq!(err.message(), format!("HEAD points to object {HEX}, which is not a commit"));
}

#[test]
fn comparing_statistics() {
    let entry = staged("f", "abc");
    assert_eq!(compare_stat(&entry, &regular(10, "abc")), Comparison::Same);
    assert_eq!(compare_stat(&entry, &regular(11, "abc")), Comparison::Unknown);
    assert_eq!(compare_stat(&entry, &regular(10, "abcd")), Comparison::Modified);
    assert_eq!(
        compare_stat(&entry, &node(FileKind::Regular(true), 10, 3)),
        Comparison::Modified
    );
    assert_eq!(compare_stat(&entry, &node(FileKind::Other, 10, 3)), Comparison::Modified);
}

fn change(
    head_index: Option<HeadIndexChange>,
    workspace_index: Option<WorkspaceIndexChange>,
) -> Option<Change> {
    Some(Change { head_index, workspace_index })
}

fn sample_report() -> Report {
    let index = index_of(vec![
        staged("added", "1"),
        staged("clean", "2"),
        staged("edited", "3"),
        staged("gone", "4"),
        staged("restaged", "5"),
        staged("touched", "6"),
    ]);
    let mut report = Report::new();
    report.load_head_entries(&vec![
        (path("clean"), (blob("2"), Mode::Regular)),
        (path("edited"), (blob("3"), Mode::Regular)),
        (path("gone"), (blob("4"), Mode::Regular)),
        (path("removed"), (blob("7"), Mode::Regular)),
        (path("restaged"), (blob("0"), Mode::Regular)),
        (path("touched"), (blob("6"), Mode::Regular)),
    ]);
    let dir = node(FileKind::Directory, 1, 0);
    let mut scan = Scan::new(&vec![
        (path("added"), regular(10, "1")),
        (path("clean"), regular(10, "2")),
        (path("edited"), regular(11, "!")),
        (path("restaged"), regular(10, "55")),
        (path("touched"), regular(12, "6")),
        (path("new"), regular(1, "")),
        (path("empty"), dir),
        (path("full"), dir),
    ]);
    assert!(matches!(report.scan_workspace(&mut scan, &index), ScanStep::List(p) if p == path("empty")));
    scan.listed(&vec![]);
    assert!(matches!(report.scan_workspace(&mut scan, &index), ScanStep::List(p) if p == path("full")));
    scan.listed(&vec![(path("full/x"), regular(1, ""))]);
    assert!(matches!(report.scan_workspace(&mut scan, &index), ScanStep::Done));

    let wanted: Vec<bool> = index.entries.iter().map(|e| report.content_wanted(e)).collect();
    assert_eq!(wanted, [false, false, true, false, false, true]);
    let ids = vec![None, None, Some(blob("!")), None, None, Some(blob("6"))];
    report.generate(&index, &ids);
    report
}

#[test]
fn reporting() {
    let report = sample_report();
    let change_of = |name: &str| report.changes.get(&path(name));
    assert_eq!(change_of("added"), change(Some(HeadIndexChange::Added), None));
    assert_eq!(change_of("clean"), None);
    assert_eq!(change_of("touched"), None);
    assert_eq!(change_of("edited"), change(None, Some(WorkspaceIndexChange::Modified)));
    assert_eq!(change_of("gone"), change(None, Some(WorkspaceIndexChange::Deleted)));
    assert_eq!(change_of("removed"), change(Some(HeadIndexChange::Deleted), None));
    assert_eq!(
        change_of("restaged"),
        change(Some(HeadIndexChange::Modified), Some(WorkspaceIndexChange::Modified))
    );
    assert_eq!(report.refreshes, vec![(5, regular(12, "6"))]);
    let untracked: Vec<&[u8]> = report.untracked.iter().map(|(p, _)| p.as_bytes()).collect();
    assert_eq!(untracked, vec![&b"new"[..], b"full"]);
}

#[test]
fn a_directory_of_the_index_is_gone_through() {
    let index = index_of(vec![staged("d/a", "1")]);
    let mut report = Report::new();
    let mut scan = Scan::new(&vec![(path("d"), node(FileKind::Directory, 1, 0))]);
    assert!(matches!(report.scan_workspace(&mut scan, &index), ScanStep::List(p) if p == path("d")));
    scan.listed(&vec![(path("d/a"), regular(1, "1")), (path("d/b"), regular(2, ""))]);
    assert!(matches!(report.scan_workspace(&mut scan, &index), ScanStep::Done));
    assert_eq!(report.stats.get(&path("d/a")), Some(regular(1, "1")));
    assert_eq!(report.untracked.len(), 1);
}

#[test]
fn single_comparisons() {
    let index = index_of(vec![staged("a", "1")]);
    let mut report = Report::new();
    report.check_against_head(&index.entries[0]);
    report.check_against_workspace(0, &index.entries[0], None);
    report.check_staged_deletions(&index);
    assert_eq!(
        report.changes.get(&path("a")),
        change(Some(HeadIndexChange::Added), Some(WorkspaceIndexChange::Deleted))
    );
    let mut report = Report::new();
    report.check_index_against(&index, &vec![None]);
    assert_eq!(report.changes.len(), 1);
}

#[test]
fn printed_reports() {
    let report = sample_report();
    let expected = "Changes to be committed:\n\n\tnew file:   added\n\tdeleted:    removed\n\tmodified:   restaged\n\nChanges not staged for commit:\n\n\tmodified:   edited\n\tdeleted:    gone\n\tmodified:   restaged\n\nUntracked files:\n\n\tfull/\n\tnew\n\n";
    assert_eq!(String::from_utf8(print_long(&report, false)).unwrap(), expected);
    let colored = String::from_utf8(print_long(&report, true)).unwrap();
    assert!(colored.contains("\t\x1b[32mnew file:   added\x1b[m\n"));
    assert!(colored.contains("\t\x1b[31mfull/\x1b[m\n"));
    assert_eq!(print_short(&report), b"");
    assert_eq!(print_report(Format::Short, &report, false), b"");
    assert_eq!(print_report(Format::Long, &report, false), expected.as_bytes());
    // nothing to tell
    assert_eq!(print_long(&Report::new(), true), b"");
}

#[test]
fn parts_of_a_report() {
    assert_eq!(Color::Red.sgr(), b"\x1b[31m");
    assert_eq!(Style::for_stdout(Color::Green, false), Style::plain());
    let mut out = Vec::new();
    Style::Colored(Color::Green).begin(&mut out);
    Style::Colored(Color::Green).end(&mut out);
    Style::plain().begin(&mut out);
    assert_eq!(out, b"\x1b[32m\x1b[m");
    let mut out = Vec::new();
    print_section("H", &vec![(b"a\tb".to_vec(), "")], Style::plain(), &mut out);
    assert_eq!(out, b"H:\n\n\t\"a\\tb\"\n\n");
    assert_eq!(display_name(&path("d"), FileKind::Directory), b"d/");
    assert_eq!(display_name(&path("d"), FileKind::Symlink), b"d");
}

#[test]
fn naming_objects() {
    assert!(matches!(CatFile::object_name(b"abc"), Ok(ObjectName::Prefix(p)) if p == "abc"));
    assert!(
        matches!(CatFile::object_name(HEX.as_bytes()), Ok(ObjectName::Id(id)) if id.to_hex() == HEX)
    );
    let err = CatFile::object_name(&[b'z'; 40]).unwrap_err();
    assert!(matches!(&err, CatFileError::BadOid(_)));
    assert_eq!(err.message(), format!("invalid object id '{}'", "z".repeat(40)));
    assert!(matches!(CatFile::object_name(b"\xff"), Err(CatFileError::BadOid(_))));
    assert_eq!(CatFile::object_type(b"tree").unwrap(), ObjectType::Tree);
    let err = CatFile::object_type(b"\xfftag").unwrap_err();
    assert_eq!(err.message(), "unknown object type '\u{fffd}tag'");
    assert!(matches!(CatFile::object_type(b"tag"), Err(CatFileError::UnknownType(_))));
}

#[test]
fn showing_objects() {
    let id = Oid::from_hex(HEX).unwrap();
    let object = Object::Blob(b"content\n".to_vec());
    assert_eq!(CatFile::execute(ObjectType::Blob, id, Some(&object)).unwrap(), b"content\n");
    let err = CatFile::execute(ObjectType::Tree, id, Some(&object)).unwrap_err();
    assert_eq!(err.message(), "object type mismatch: expected blob, got tree");
    let err = CatFile::execute(ObjectType::Tree, id, None).unwrap_err();
    assert_eq!(err.message(), format!("object {HEX} not found"));
    let tree = Object::Tree(vec![Entry { mode: Mode::Regular, name: b"a b".to_vec(), oid: id }]);
    assert_eq!(print(&tree), format!("100644 blob {HEX} a b\n").into_bytes());
    assert_eq!((write_mode(&Mode::Regular), write_mode(&Mode::Directory)), ("blob", "tree"));
    let cfg = config("[user]\nname = U\nemail = u@x\n");
    let sign = || Signature::author_at(&cfg, EnvVar::NotPresent, EnvVar::NotPresent, at(1)).unwrap();
    let commit = Object::Commit(Commit::execute(sign(), sign(), vec![], id));
    assert_eq!(
        String::from_utf8(print(&commit)).unwrap(),
        format!("tree {HEX}\nauthor U <u@x> 1 +0000\ncommitter U <u@x> 1 +0000\n\nhey")
    );
}

fn metadata() -> Metadata {
    Metadata {
        is_symlink: false,
        is_file: true,
        is_dir: false,
        mode: 0o100755,
        ctime: 0x1_0000_0005,
        ctime_nsec: 6,
        mtime: -1,
        mtime_nsec: 8,
        dev: 9,
        ino: 0x2_0000_0007,
        uid: 11,
        gid: 12,
        size: 13,
    }
}

#[test]
fn statistics_of_files() {
    let meta = metadata();
    let node = stat(&meta);
    assert_eq!(node.kind, FileKind::Regular(true));
    // each number is cut to 32 bits
    assert_eq!((node.stat.ctime, node.stat.mtime, node.stat.ino), (5, u32::MAX, 7));
    assert!(is_executable(&meta));
    assert_eq!(file_kind(&Metadata { is_symlink: true, ..meta }), FileKind::Symlink);
    let dir = Metadata { is_file: false, is_dir: true, ..meta };
    assert_eq!(file_kind(&dir), FileKind::Directory);
    assert_eq!(file_kind(&Metadata { is_dir: false, ..dir }), FileKind::Other);
    assert_eq!(file_kind(&Metadata { mode: 0o100655, ..meta }), FileKind::Regular(false));
    assert_eq!(toggled_mode(0o644), 0o744);
    assert!(probe_filemode(0o644, Some(0o744)));
    assert!(!probe_filemode(0o644, Some(0o644)) && !probe_filemode(0o644, None));
}

#[test]
fn windows_times() {
    assert_eq!(to_unix_time(0), 0);
    assert_eq!(to_unix_time(11_644_473_001 * 10_000_000), 1);
    assert_eq!(to_unix_time_nsec(10_000_003), 300);
}

#[test]
fn random_names() {
    for len in [0u8, 1, 8, 255] {
        let name = generate(len);
        assert_eq!(name.len(), len as usize);
        assert!(name.bytes().all(|b| b.is_ascii_alphanumeric()));
    }
    assert!(with_prefix("tmp").starts_with("tmp_") && with_prefix("tmp").len() == 12);
    assert!(with_suffix("tmp").ends_with("_tmp") && with_suffix("tmp").len() == 12);
    assert_eq!(with_prefix_and_len("a", 0), "a_");
    assert_eq!(with_suffix_and_len("a", 3).len(), 5);
    assert_ne!(generate(32), generate(32));
}

#[test]
fn characters() {
    assert_eq!(char_width(b'a'), 1);
    assert_eq!(char_width(0xe2), 3);
    assert_eq!(check_sequence("\u{20ac}".as_bytes(), 0), Ok(()));
    assert_eq!(check_sequence(b"x\xe2\x82", 1), Err(Utf8Error { len: 3, pos: 1 }));
    assert!(check_sequence(b"\xc0\x80", 0).is_err());
    assert!(check_sequence(b"\xed\xa0\x80", 0).is_err());
    assert!(is_bom_present(b"\xef\xbb\xbfx") && !is_bom_present(b"x"));
    assert_eq!(read_char("a\u{1f600}".as_bytes(), 1), '\u{1f600}');
}

#[test]
fn walking_a_tree() {
    let root = blob("root");
    let below = blob("below");
    let entry = |mode: Mode, name: &str, oid: Oid| Entry { mode, name: name.as_bytes().to_vec(), oid };
    let mut walk = TreeFiles::new(root);
    let (dir, oid) = walk.next().unwrap();
    assert_eq!(dir.as_bytes(), b"");
    assert_eq!(oid, root);
    walk.loaded(
        &dir,
        &vec![
            entry(Mode::Regular, "a", blob("one")),
            entry(Mode::Directory, "d", below),
            entry(Mode::Executable, "z", blob("two")),
        ],
    );
    let (dir, oid) = walk.next().unwrap();
    assert_eq!(dir.as_bytes(), b"d");
    assert_eq!(oid, below);
    walk.loaded(&dir, &vec![entry(Mode::Symlink, "x", blob("three"))]);
    assert!(walk.next().is_none());
    let files = walk.finish();
    assert_eq!(files.len(), 3);
    assert_eq!(files[0], (path("a"), (blob("one"), Mode::Regular)));
    assert_eq!(files[1], (path("z"), (blob("two"), Mode::Executable)));
    assert_eq!(files[2], (path("d/x"), (blob("three"), Mode::Symlink)));
}

#[test]
fn messages_of_commands() {
    let error = Utf8Error { len: 2, pos: 10 };
    assert_eq!(error.message(), "invalid 2 byte utf-8 sequence from index 10");
    let error = SignatureError::NotFound("author name");
    assert_eq!(error.message().unwrap(), "author name is not set");
    let error = SignatureError::EnvNotUnicode { var: "V", value: vec![255] };
    assert!(error.message().is_none());
    let workspace = Workspace { root: OsPath::from_text("/repo") };
    let cwd = OsPath::from_text("/repo");
    let error = Add::resolve(b"../x", &workspace, &cwd).unwrap_err();
    assert_eq!(error.message().unwrap(), "path '../x' is outside the repository");
}

#[test]
fn a_written_tree_reads_back() {
    let index = index_of(vec![
        staged("a", "one"),
        staged("d/e/f", "two"),
        staged("d/x", "three"),
        staged("d.txt", "four"),
    ]);
    let mut contents = Vec::new();
    let root = InMemTree::from_index(&index).write(&mut contents);
    let load = |id: Oid| {
        let content = contents.iter().find(|content| hash(ObjectType::Tree, content) == id).unwrap();
        match Object::deserialize(&frame(ObjectType::Tree, content)).unwrap() {
            Object::Tree(entries) => entries,
            other => panic!("{other:?}"),
        }
    };
    let mut walk = TreeFiles::new(root);
    while let Some((dir, id)) = walk.next() {
        walk.loaded(&dir, &load(id));
    }
    let mut report = Report::new();
    report.load_head_entries(&walk.finish());
    assert_eq!(report.head_entries.len(), 4);
    for entry in &index.entries {
        assert_eq!(report.head_entries.get(&entry.path), Some((entry.oid, entry.mode)));
    }
}

#[test]
fn prefixes_of_ids() {
    let other = HEX.replace("0123", "01ff");
    let names: Vec<Vec<u8>> =
        [HEX, other.as_str(), "0123", "packs"].iter().map(|name| name.as_bytes().to_vec()).collect();
    assert_eq!(resolve_oid_prefix(b"0123", &names), Ok(Oid::from_hex(HEX).unwrap()));
    assert_eq!(resolve_oid_prefix(b"01f", &names), Ok(Oid::from_hex(&other).unwrap()));
    assert_eq!(resolve_oid_prefix(b"01", &names), Err(PrefixError::Ambiguous));
    assert_eq!(resolve_oid_prefix(b"p", &names), Err(PrefixError::NotFound));
}
