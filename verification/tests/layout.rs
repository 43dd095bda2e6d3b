//! Where the metadata and the worktree of a new repository are.

use lit::layout::{Layout, LayoutError, MetadataPlacement};
use lit::path::OsPath;

fn at(path: &str) -> OsPath {
    OsPath::new_unchecked(path.as_bytes())
}

fn cwd() -> OsPath {
    at("/work/here")
}

fn bytes(path: &OsPath) -> Option<&[u8]> {
    Some(path.as_bytes())
}

fn same(a: &OsPath, b: &OsPath) {
    assert!(a.same_path(b), "{a:?} and {b:?}");
}

// a separate directory: the worktree is the current directory, which the pointer file lies in
#[test]
fn l01() {
    let path = at("/foo/bar");
    let layout = Layout::resolve(None, true, bytes(&path), &cwd(), None, None).unwrap();

    same(layout.metadata_dir(), &path);
    same(layout.worktree_dir().unwrap(), &cwd());
    assert_eq!(
        layout.placement,
        MetadataPlacement::Separate { pointer_file: cwd().join_unchecked(b".lit") }
    );
}

// a separate directory and a path: the pointer file lies in the path
#[test]
fn l02() {
    let path = at("/projects/lit");
    let separate_lit_dir = at("/foo/bar");
    let layout =
        Layout::resolve(bytes(&path), true, bytes(&separate_lit_dir), &cwd(), None, None).unwrap();

    same(layout.metadata_dir(), &separate_lit_dir);
    same(layout.worktree_dir().unwrap(), &path);
    assert_eq!(
        layout.placement,
        MetadataPlacement::Separate { pointer_file: path.join_unchecked(b".lit") }
    );
}

// `LIT_DIR` yields to a separate directory
#[test]
fn l03() {
    let path = at("/foo/bar");
    let layout = Layout::resolve(
        None,
        true,
        bytes(&path),
        &cwd(),
        Some(b"/home/user/storage"),
        None,
    )
    .unwrap();

    same(layout.metadata_dir(), &path);
    same(layout.worktree_dir().unwrap(), &cwd());
    assert_eq!(
        layout.placement,
        MetadataPlacement::Separate { pointer_file: cwd().join_unchecked(b".lit") }
    );
}

// a path alone
#[test]
fn l04() {
    let path = at("/foo");
    let layout = Layout::resolve(bytes(&path), false, None, &cwd(), None, None).unwrap();

    same(layout.metadata_dir(), &path.join_unchecked(b".lit"));
    same(layout.worktree_dir().unwrap(), &at("/foo"));
    assert_eq!(layout.placement, MetadataPlacement::Embedded);
}

// a path of a bare repository
#[test]
fn l05() {
    let path = at("/foo");
    let layout = Layout::resolve(bytes(&path), true, None, &cwd(), None, None).unwrap();

    same(layout.metadata_dir(), &path);
    assert_eq!(layout.worktree_dir(), None);
    assert_eq!(layout.placement, MetadataPlacement::Direct);
}

// the environment yields to a path
#[test]
fn l06() {
    let path = at("/foo/bar");
    let layout = Layout::resolve(
        bytes(&path),
        true,
        None,
        &cwd(),
        Some(b"/home/user/storage"),
        Some(b"/projects/jolt"),
    )
    .unwrap();

    same(layout.metadata_dir(), &path);
    assert_eq!(layout.worktree_dir(), None);
    assert_eq!(layout.placement, MetadataPlacement::Direct);
}

// `LIT_DIR` of a bare repository
#[test]
fn l07() {
    let layout = Layout::resolve(None, true, None, &cwd(), Some(b"/foo/bar/"), None).unwrap();

    same(layout.metadata_dir(), &at("/foo/bar/"));
    assert_eq!(layout.worktree_dir(), None);
    assert_eq!(layout.placement, MetadataPlacement::Direct);
}

// with `LIT_DIR` the worktree is the current directory
#[test]
fn l08() {
    let layout = Layout::resolve(None, false, None, &cwd(), Some(b"/foo/bar/.."), None).unwrap();

    same(layout.metadata_dir(), &at("/foo/bar/.."));
    same(layout.worktree_dir().unwrap(), &cwd());
    assert_eq!(layout.placement, MetadataPlacement::Direct);
}

// a relative `LIT_WORK_TREE` is taken from the current directory
#[test]
fn l09() {
    let layout = Layout::resolve(
        None,
        false,
        None,
        &cwd(),
        Some(b"/home/user/metadata"),
        Some(b"projects/lit"),
    )
    .unwrap();

    same(layout.metadata_dir(), &at("/home/user/metadata"));
    same(layout.worktree_dir().unwrap(), &cwd().join_unchecked(b"projects/lit"));
    assert_eq!(layout.placement, MetadataPlacement::Direct);
}

// the environment alone
#[test]
fn l10() {
    let layout = Layout::resolve(
        None,
        false,
        None,
        &cwd(),
        Some(b"/home/user/storage"),
        Some(b"/projects/jolt"),
    )
    .unwrap();

    same(layout.metadata_dir(), &at("/home/user/storage"));
    same(layout.worktree_dir().unwrap(), &at("/projects/jolt"));
    assert_eq!(layout.placement, MetadataPlacement::Direct);
}

// a bare repository
#[test]
fn l11() {
    let layout = Layout::resolve(None, true, None, &cwd(), None, None).unwrap();

    same(layout.metadata_dir(), &cwd());
    assert_eq!(layout.worktree_dir(), None);
    assert_eq!(layout.placement, MetadataPlacement::Direct);
}

// nothing is set
#[test]
fn l12() {
    let layout = Layout::resolve(None, false, None, &cwd(), None, None).unwrap();

    same(layout.metadata_dir(), &cwd().join_unchecked(b".lit"));
    same(layout.worktree_dir().unwrap(), &cwd());
    assert_eq!(layout.placement, MetadataPlacement::Embedded);
}

// without `LIT_DIR` a bare repository ignores `LIT_WORK_TREE`
#[test]
fn l13() {
    let layout =
        Layout::resolve(None, true, None, &cwd(), None, Some(b"/projects/jolt")).unwrap();

    same(layout.metadata_dir(), &cwd());
    assert_eq!(layout.worktree_dir(), None);
    assert_eq!(layout.placement, MetadataPlacement::Direct);
}

// with `LIT_DIR` it conflicts with it
#[test]
fn l14() {
    let error = Layout::resolve(
        None,
        true,
        None,
        &cwd(),
        Some(b"/home/user/storage"),
        Some(b"/projects/jolt"),
    )
    .unwrap_err();
    assert!(matches!(error, LayoutError::LitWorkTreeWithBare));
    assert_eq!(error.message(), "LIT_WORK_TREE not allowed with --bare option");
}

#[test]
fn bad_paths_are_refused() {
    let error = Layout::resolve(Some(b""), false, None, &cwd(), None, None).unwrap_err();
    assert!(matches!(error, LayoutError::OsPath(_)));
    assert_eq!(error.message(), "bad path");
    let error = Layout::resolve(Some(b"a\0"), false, None, &cwd(), None, None).unwrap_err();
    assert!(matches!(error, LayoutError::OsPath(_)));
}
