//! Paths that a user writes.

use lit::pathspec::{Pathspec, PathspecError};

#[derive(Debug)]
struct GoodPath {
    arg: String,
    prefix: String,
    pattern: String,
}

impl GoodPath {
    fn new(arg: &str, prefix: &str, pattern: &str) -> Self {
        GoodPath { arg: arg.to_string(), prefix: prefix.to_string(), pattern: pattern.to_string() }
    }
}

#[derive(Debug)]
struct BadPath {
    arg: String,
    prefix: String,
    err: PathspecError,
}

impl BadPath {
    fn new(arg: &str, prefix: &str, err: PathspecError) -> Self {
        BadPath { arg: arg.to_string(), prefix: prefix.to_string(), err }
    }
}

fn root() -> &'static str {
    "/repo"
}

fn good_paths() -> Vec<GoodPath> {
    vec![
        GoodPath::new("main.rs", "src", "src/main.rs"),
        GoodPath::new("./main.rs", "src", "src/main.rs"),
        GoodPath::new("src/./main.rs", "", "src/main.rs"),
        GoodPath::new(".", "src", "src"),
        GoodPath::new(".", "", ""),
        GoodPath::new("../README.md", "src", "README.md"),
        GoodPath::new("..", "src", ""),
        GoodPath::new("src/../lib.rs", "", "lib.rs"),
        GoodPath::new("../d", "a/b/c", "a/b/d"),
        // a trailing slash is dropped
        GoodPath::new("src/", "", "src"),
        // absolute paths: the prefix is ignored, the path is taken below the root
        GoodPath::new("/repo/README.md", "src", "README.md"),
        GoodPath::new("/repo/src/main.rs", "", "src/main.rs"),
        GoodPath::new("/repo/src/../README.md", "ignore", "README.md"),
        GoodPath::new("/repo", "src", ""),
    ]
}

fn bad_paths() -> Vec<BadPath> {
    vec![
        // a relative path that leads above the root
        BadPath::new("..", "", PathspecError::OutsideRepository { path: b"..".to_vec() }),
        // the metadata
        BadPath::new(
            ".lit",
            "",
            PathspecError::ReservedComponent { path: b".lit".to_vec(), component: b".lit".to_vec() },
        ),
        // an absolute path outside the repository
        BadPath::new(
            "/outside/file.txt",
            "",
            PathspecError::OutsideRepository { path: b"/outside/file.txt".to_vec() },
        ),
        // an absolute path that is the root of the file system
        BadPath::new("/../..", "src", PathspecError::OutsideRepository { path: b"/../..".to_vec() }),
        BadPath::new(
            "/repo/.lit/HEAD",
            "src",
            PathspecError::ReservedComponent {
                path: b"/repo/.lit/HEAD".to_vec(),
                component: b".lit".to_vec(),
            },
        ),
    ]
}

#[test]
fn valid_paths() {
    for gc in good_paths() {
        let pathspec = Pathspec::new(gc.arg.as_bytes(), gc.prefix.as_bytes(), root().as_bytes())
            .unwrap_or_else(|err| panic!("case failed: {gc:?}, error: {err:?}"));
        assert_eq!(pathspec.pattern.as_bytes(), gc.pattern.as_bytes(), "{gc:?}");
        assert_eq!(pathspec.original, gc.arg.as_bytes());
    }
}

#[test]
fn invalid_paths() {
    for gc in bad_paths() {
        let err = Pathspec::new(gc.arg.as_bytes(), gc.prefix.as_bytes(), root().as_bytes())
            .unwrap_err();
        assert_eq!(err, gc.err);
    }
}

#[test]
fn patterns_with_nul_are_refused() {
    let err = Pathspec::new(b"a\0b", b"", b"/repo").unwrap_err();
    assert!(matches!(err, PathspecError::OsPath(_)));
    assert_eq!(err.message(), "path a\0b contains NUL byte");
    let err = Pathspec::new(b"", b"", b"/repo").unwrap_err();
    assert_eq!(err.message(), "path is empty");
}

#[test]
fn pathspec_messages() {
    let err = Pathspec::new(b"..", b"", b"/repo").unwrap_err();
    assert_eq!(err.message(), "path '..' is outside the repository");
    let err = Pathspec::new(b".lit", b"", b"/repo").unwrap_err();
    assert_eq!(err.message(), "path '.lit' contains reserved component '.lit'");
    // what is no text is replaced
    let err = Pathspec::new(b"../\xff", b"", b"/repo").unwrap_err();
    assert_eq!(err.message(), "path '../\u{fffd}' is outside the repository");
}
