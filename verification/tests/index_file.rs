//! The index: its order, its conflicts and its file.

use lit::digest::hash;
use lit::index::parse::Parser;
use lit::index::{FormatError, FormatErrorKind, Index, IndexEntry, IndexError};
use lit::object::mode::Mode;
use lit::object::oid::Oid;
use lit::object::ObjectType;
use lit::os::FileStat;
use lit::path::OsPath;
use lit::repo_path::{RepoPath, RepoPathErrorKind};
use sha1::{Digest, Sha1};

fn stat(n: u32) -> FileStat {
    FileStat {
        ctime: n,
        ctime_nsec: 1,
        mtime: n + 1,
        mtime_nsec: 2,
        dev: 3,
        ino: 4,
        uid: 5,
        gid: 6,
        file_size: 7,
    }
}

fn path(name: &str) -> RepoPath {
    RepoPath::from_bytes(name.as_bytes()).unwrap()
}

fn blob(content: &str) -> Oid {
    hash(ObjectType::Blob, content.as_bytes())
}

fn entry(name: &str, n: u32) -> IndexEntry {
    IndexEntry::new(path(name), blob(name), Mode::Regular, stat(n))
}

fn index(names: &[&str]) -> Index {
    let mut index = Index::new(OsPath::from_text("index"));
    index.add_entries(names.iter().map(|name| entry(name, 10)).collect()).unwrap();
    index
}

fn names(index: &Index) -> Vec<String> {
    index
        .entries
        .iter()
        .map(|e| String::from_utf8(e.path.as_bytes().to_vec()).unwrap())
        .collect()
}

#[test]
fn entries_stay_sorted() {
    let index = index(&["b", "a/b", "a-b", "a.txt"]);
    assert_eq!(names(&index), ["a-b", "a.txt", "a/b", "b"]);
    assert!(index.modified && index.is_conflict_free());
    assert_eq!(index.lower_bound(b"a0"), 3);
}

#[test]
fn adding_again_changes_nothing() {
    let mut index = index(&["a", "b"]);
    index.modified = false;
    index.add_entries(vec![entry("a", 10)]).unwrap();
    assert!(!index.modified);
    index.add_entries(vec![entry("a", 11)]).unwrap();
    assert!(index.modified);
    assert_eq!(names(&index), ["a", "b"]);
    assert_eq!(index.entries[0].stat.ctime, 11);
}

#[test]
fn conflicts_are_resolved() {
    // a file in the place of a directory
    let mut some = index(&["a/b", "a/c/d", "b"]);
    some.add_entries(vec![entry("a", 1)]).unwrap();
    assert_eq!(names(&some), ["a", "b"]);
    // a directory in the place of a file
    let mut some = index(&["a", "ab"]);
    some.add_entries(vec![entry("a/b/c", 1)]).unwrap();
    assert_eq!(names(&some), ["a/b/c", "ab"]);
    let mut some = index(&["a/b", "c"]);
    some.resolve_conflicts(&path("a"));
    assert_eq!(names(&some), ["c"]);
}

#[test]
fn lookups() {
    let mut index = index(&["src/a.rs", "src.txt", "z"]);
    assert!(index.contains(&path("z")) && !index.contains(&path("src")));
    assert!(index.is_tracked(&path("src")) && index.is_tracked(&path("src/a.rs")));
    assert!(!index.is_tracked(&path("sr")) && !index.is_tracked(&path("z/a")));
    assert!(index.has_below(&path("src")) && !index.has_below(&path("z")));
    index.modified = false;
    assert!(index.remove(&path("src")).is_none());
    assert!(!index.modified);
    assert!(index.remove(&path("z")).unwrap().same_as(&entry("z", 10)));
    assert!(index.modified);
    assert_eq!(names(&index), ["src.txt", "src/a.rs"]);
    index.refresh_entry_stat(0, stat(99));
    assert_eq!(index.entries[0].stat, stat(99));
    assert!(index.entries[0].times_match(&stat(99)) && !index.entries[1].times_match(&stat(99)));
}

#[test]
fn files_round_trip() {
    let long = "d/".to_string() + &"x".repeat(5000);
    for names_in in [vec![], vec!["a"], vec!["a/b", "c", "1234567", "12345678"], vec![&long[..], "e"]] {
        let index = index(&names_in);
        let bytes = index.serialize();
        let mut back = Index::new(OsPath::from_text("index"));
        back.load(Some(&bytes)).unwrap();
        assert_eq!(names(&back), names(&index));
        for (a, b) in back.entries.iter().zip(&index.entries) {
            assert!(a.same_as(b));
        }
        assert_eq!(back.serialize(), bytes);
    }
    let mut none = Index::new(OsPath::from_text("index"));
    none.load(None).unwrap();
    assert!(none.entries.is_empty());
}

#[test]
fn the_bytes_of_an_index() {
    let bytes = index(&["ab"]).serialize();
    assert_eq!(bytes[..12], *b"DIRC\0\0\0\x02\0\0\0\x01");
    // times, place, mode, owner and size
    assert_eq!(bytes[12..16], 10u32.to_be_bytes());
    assert_eq!(bytes[36..40], 0o100644u32.to_be_bytes());
    assert_eq!(bytes[48..52], 7u32.to_be_bytes());
    assert_eq!(bytes[52..72], *blob("ab").as_bytes());
    assert_eq!(bytes[72..76], *b"\0\x02ab");
    // at least one NUL, up to a multiple of eight
    assert_eq!(bytes.len(), 12 + 72 + 20);
    assert_eq!(bytes[76..84], [0u8; 8]);
    assert_eq!(bytes[84..], Sha1::digest(&bytes[..84])[..]);
    assert_eq!(entry("ab", 10).serialize(), bytes[12..84]);
}

fn sealed(mut bytes: Vec<u8>) -> Vec<u8> {
    let sum = Sha1::digest(&bytes);
    bytes.extend_from_slice(&sum);
    bytes
}

fn error_of(bytes: &[u8]) -> IndexError {
    Index::new(OsPath::from_text("index")).load(Some(bytes)).unwrap_err()
}

fn changed(at: usize, byte: u8) -> IndexError {
    let bytes = index(&["ab"]).serialize();
    let mut body = bytes[..bytes.len() - 20].to_vec();
    body[at] = byte;
    error_of(&sealed(body))
}

fn format_kind(err: IndexError) -> FormatErrorKind {
    match err {
        IndexError::InvalidFormat(err) => err.kind,
        other => panic!("{other:?}"),
    }
}

#[test]
fn bad_index_files_are_refused() {
    assert_eq!(
        error_of(b"short"),
        IndexError::InvalidFormat(FormatError::at(
            0,
            FormatErrorKind::Eof { needed: 20, remaining: 5 }
        ))
    );
    let mut bytes = index(&["ab"]).serialize();
    bytes[20] ^= 1;
    assert_eq!(error_of(&bytes), IndexError::InvalidChecksum);
    assert_eq!(format_kind(changed(0, b'X')), FormatErrorKind::InvalidSignature);
    assert_eq!(changed(7, 3), IndexError::UnsupportedVersion(3));
    assert_eq!(format_kind(error_of(&sealed(b"DI".to_vec()))), FormatErrorKind::Eof { needed: 4, remaining: 2 });
    assert_eq!(
        error_of(&sealed(b"DIRC\0\0".to_vec())),
        IndexError::InvalidFormat(FormatError::at(4, FormatErrorKind::Eof { needed: 4, remaining: 2 }))
    );
    // one entry more than there is
    assert!(matches!(format_kind(changed(11, 2)), FormatErrorKind::Eof { .. }));
    // the mode
    assert_eq!(format_kind(changed(39, 0)), FormatErrorKind::InvalidMode(0o100400));
    // nanoseconds of a second and more
    assert_eq!(format_kind(changed(16, 0xff)), FormatErrorKind::InvalidNanoseconds);
    // the path
    assert_eq!(
        format_kind(changed(74, b'/')),
        FormatErrorKind::InvalidPathSyntax(RepoPathErrorKind::LeadingSlash)
    );
    assert_eq!(format_kind(changed(76, 1)), FormatErrorKind::MissingNulTerminator);
    assert_eq!(format_kind(changed(80, 1)), FormatErrorKind::InvalidPadding);
    // a path that says it is long, but is not
    let bytes = index(&["ab"]).serialize();
    let mut body = bytes[..bytes.len() - 20].to_vec();
    body[72] = 0x0f;
    body[73] = 0xff;
    assert_eq!(format_kind(error_of(&sealed(body))), FormatErrorKind::LongPathLenMissMatch);
}

#[test]
fn unsorted_files_are_refused() {
    let one = entry("b", 1).serialize();
    let two = entry("a", 1).serialize();
    let mut body = b"DIRC\0\0\0\x02\0\0\0\x02".to_vec();
    body.extend_from_slice(&one);
    body.extend_from_slice(&two);
    assert_eq!(
        error_of(&sealed(body)),
        IndexError::InvalidFormat(FormatError::at(
            12 + one.len(),
            FormatErrorKind::EntriesNotSorted
        ))
    );
}

#[test]
fn counts_have_to_fit() {
    // what was there before counts as well
    let mut some = index(&["a"]);
    let err = some.load(Some(&index(&["b"]).serialize())).unwrap_err();
    assert_eq!(format_kind(err), FormatErrorKind::EntriesCountMissMatch { actual: 2, expected: 1 });
}

#[test]
fn parsing_fields() {
    let mut parser = Parser::new(b"\0\0\x01\x02abc");
    assert_eq!(parser.read_u32().unwrap(), 258);
    assert_eq!((parser.offset(), parser.remaining()), (4, 3));
    assert_eq!(
        parser.read_u32().unwrap_err(),
        FormatError::at(4, FormatErrorKind::Eof { needed: 4, remaining: 3 })
    );
    parser.advance(3);
    assert!(parser.is_empty());
}

#[test]
fn bytes_left_over_are_refused() {
    let body = b"DIRC\0\0\0\x02\0\0\0\0\0".to_vec();
    assert_eq!(
        error_of(&sealed(body)),
        IndexError::InvalidFormat(FormatError::at(
            12,
            FormatErrorKind::TrailingBytes { remaining: 1 }
        ))
    );
    let bytes = index(&["ab"]).serialize();
    let mut body = bytes[..bytes.len() - 20].to_vec();
    body.extend_from_slice(b"more");
    assert_eq!(format_kind(error_of(&sealed(body))), FormatErrorKind::TrailingBytes { remaining: 4 });
    // with the count of one entry less, the entry itself is left over
    assert_eq!(format_kind(changed(11, 0)), FormatErrorKind::TrailingBytes { remaining: 72 });
}

#[test]
fn an_entry_reads_back_with_more_behind_it() {
    let e = entry("d/ab", 10);
    let mut bytes = e.serialize();
    let len = bytes.len();
    bytes.extend_from_slice(b"rest");
    let mut parser = Parser::new(&bytes);
    assert!(parser.next().unwrap().same_as(&e));
    assert_eq!((parser.offset(), parser.remaining()), (len, 4));
}

#[test]
fn paths_of_a_given_length() {
    let long = "a".repeat(5000);
    let bytes = format!("{long}\0x");
    let mut parser = Parser::new(bytes.as_bytes());
    assert_eq!(parser.read_path(5000).unwrap(), path(&long));
    assert_eq!(parser.offset(), 5001);
    let error = |len: usize| Parser::new(b"ab\0c").read_path(len).unwrap_err().kind;
    assert_eq!(error(1), FormatErrorKind::MissingNulTerminator);
    assert_eq!(error(3), FormatErrorKind::InvalidPathSyntax(RepoPathErrorKind::ContainsNul));
    assert_eq!(error(4), FormatErrorKind::Eof { needed: 4, remaining: 4 });
}

#[test]
fn adding_leaves_the_rest_alone() {
    let mut some = index(&["a", "b/c", "b/d", "e"]);
    some.modified = false;
    some.add_entries(vec![entry("a", 10), entry("e", 10)]).unwrap();
    assert!(!some.modified);
    assert_eq!(names(&some), ["a", "b/c", "b/d", "e"]);
    some.add_entries(vec![entry("b", 1), entry("e", 2)]).unwrap();
    assert!(some.modified);
    assert_eq!(names(&some), ["a", "b", "e"]);
    assert!(some.entries[0].same_as(&entry("a", 10)));
    assert!(some.entries[2].same_as(&entry("e", 2)));
}
