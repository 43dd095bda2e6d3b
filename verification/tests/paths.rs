//! Paths of the file system and paths inside a repository.

use lit::path::{Component, OsPath, OsPathError};
use lit::path_map::PathMap;
use lit::print::{needs_quoting, stdout_path_bytes, ReadableByte};
use lit::repo_path::{
    is_parent_path, path_to_bytes, split_bytes, validate_path, RepoPath, RepoPathErrorKind,
};
use lit::workspace::{skips, Workspace};

fn os(path: &str) -> OsPath {
    OsPath::new_unchecked(path.as_bytes())
}

fn text(path: &OsPath) -> &str {
    std::str::from_utf8(path.as_bytes()).unwrap()
}

fn repo(path: &str) -> RepoPath {
    RepoPath::from_bytes(path.as_bytes()).unwrap()
}

#[test]
fn checked_paths() {
    assert_eq!(OsPath::new(b""), Err(OsPathError::Empty));
    assert_eq!(OsPath::new(b"a\0"), Err(OsPathError::ContainsNul(b"a\0".to_vec())));
    assert_eq!(OsPath::new(b"a/b").unwrap().as_bytes(), b"a/b");
    assert_eq!(os("a").join(b""), Err(OsPathError::Empty));
    assert_eq!(os("a").join(b"b").unwrap().as_bytes(), b"a/b");
    assert!(os("/a").is_absolute() && os("a").is_relative());
}

#[test]
fn components() {
    let path = os("//a/./b//../c/");
    assert_eq!(
        path.components(),
        vec![
            Component::RootDir,
            Component::Normal(&b"a"[..]),
            Component::Normal(&b"b"[..]),
            Component::ParentDir,
            Component::Normal(&b"c"[..]),
        ]
    );
    assert_eq!(os("./a").components(), vec![Component::CurDir, Component::Normal(&b"a"[..])]);
    assert!(os("a/b/").same_path(&os("a//b")));
    assert!(!os("a/b").same_path(&os("/a/b")));
}

#[test]
fn joining_and_stripping() {
    assert_eq!(text(&os("a").join_unchecked(b"b")), "a/b");
    assert_eq!(text(&os("a/").join_unchecked(b"b")), "a/b");
    assert_eq!(text(&os("a").join_unchecked(b"/b")), "/b");
    assert_eq!(text(&os("a").join_unchecked(b"")), "a/");
    assert_eq!(text(&os("/a").join_text("HEAD")), "/a/HEAD");
    assert_eq!(text(&OsPath::from_text("a").with_suffix_unchecked(b".lock")), "a.lock");
    assert_eq!(os("/a/b/c").strip_prefix(b"/a").unwrap(), b"b/c");
    assert_eq!(os("/a").strip_prefix(b"/a/").unwrap(), b"");
    assert_eq!(os("/ab").strip_prefix(b"/a"), Err(OsPathError::StripPrefix));
    assert_eq!(OsPathError::<Vec<u8>>::StripPrefix.message(), "prefix not found");
    assert_eq!(text(&os("/a/b").parent().unwrap()), "/a");
    assert_eq!(text(&os("/a").parent().unwrap()), "/");
    assert!(os("/").parent().is_none());
}

#[test]
fn normalizing() {
    for (path, normal) in [
        ("./src/./main.rs", "src/main.rs"),
        ("src/..", "."),
        ("/..", "/"),
        ("../a", "../a"),
        ("a/../../b", "../b"),
        ("/a/b/../c", "/a/c"),
    ] {
        let once = os(path).normalize_lexically();
        assert!(once.same_path(&os(normal)), "{path}: {once:?}");
        // once is enough
        assert!(once.normalize_lexically().same_path(&once));
    }
}

#[test]
fn repository_paths() {
    for (bytes, kind) in [
        (&b""[..], RepoPathErrorKind::Empty),
        (b"/a", RepoPathErrorKind::LeadingSlash),
        (b"a/", RepoPathErrorKind::TrailingSlash),
        (b"a//b", RepoPathErrorKind::EmptyComponent),
        (b"a/../b", RepoPathErrorKind::ReservedComponent),
        (b".", RepoPathErrorKind::ReservedComponent),
        (b".lit/config", RepoPathErrorKind::ReservedComponent),
        (b"a/b\0c", RepoPathErrorKind::ContainsNul),
    ] {
        assert_eq!(validate_path(bytes), Err(kind));
        let err = RepoPath::from_bytes(bytes).unwrap_err();
        assert_eq!((err.kind, &err.path[..]), (kind, bytes));
    }
    assert_eq!(validate_path(b"a/.git/b"), Ok(()));
    let path = RepoPath::new().join(b"src").unwrap().join(b"main.rs").unwrap();
    assert_eq!(path.as_bytes(), b"src/main.rs");
    assert_eq!(path.components(), vec![&b"src"[..], b"main.rs"]);
    assert!(path.join(b"/x").is_err());
    assert_eq!(path.len(), 11);
    assert!(RepoPath::new().is_empty());
}

#[test]
fn parents() {
    assert!(is_parent_path(b"lib", b"lib/doc"));
    assert!(!is_parent_path(b"lib", b"library/doc"));
    assert!(!is_parent_path(b"lib", b"lib"));
    assert!(repo("a").is_parent_of(&repo("a/b/c")));
    assert_eq!(split_bytes(b"a//b", b'/'), vec![&b"a"[..], b"", b"b"]);
    assert_eq!(path_to_bytes(&os("a//b/./c")), b"a/b/c");
}

#[test]
fn path_maps() {
    let mut map: PathMap<u8> = PathMap::new();
    for (path, value) in [("b", 1u8), ("a/x", 2), ("a", 3), ("b", 4), ("a-x", 5)] {
        map.insert(&repo(path), value);
    }
    let listed: Vec<(&[u8], u8)> =
        (0..map.len()).map(|i| (map.path(i).as_bytes(), map.value(i))).collect();
    assert_eq!(listed, vec![(&b"a"[..], 3), (b"a-x", 5), (b"a/x", 2), (b"b", 4)]);
    assert_eq!(map.get(&repo("b")), Some(4));
    assert_eq!(map.get(&repo("a/y")), None);
}

#[test]
fn shown_paths() {
    assert_eq!(stdout_path_bytes(b"plain name.txt"), b"plain name.txt");
    assert_eq!(stdout_path_bytes(b"tab\there"), b"\"tab\\there\"");
    assert_eq!(stdout_path_bytes(b"quote\"\\"), b"\"quote\\\"\\\\\"");
    assert_eq!(stdout_path_bytes("\u{e9}".as_bytes()), b"\"\\303\\251\"");
    assert_eq!(stdout_path_bytes(b"\x01\x7f"), b"\"\\001\\177\"");
    assert!(needs_quoting(b'\n') && !needs_quoting(b' '));
    assert_eq!(ReadableByte(b'@').to_bytes(), b"@");
    assert_eq!(ReadableByte(b' ').to_bytes(), b"0x20");
}

#[test]
fn workspaces() {
    let workspace = Workspace { root: os("/repo") };
    assert_eq!(workspace.prefix(&os("/repo/src")).unwrap(), b"src");
    assert_eq!(workspace.prefix(&os("/repo")).unwrap(), b"");
    assert_eq!(text(&workspace.prefix(&os("/elsewhere")).unwrap_err().path), "/elsewhere");
    assert_eq!(text(&workspace.to_absolute(&repo("a/b"))), "/repo/a/b");
    assert!(skips(b".lit") && skips(b".git") && skips(b"target") && !skips(b"targets"));
}
