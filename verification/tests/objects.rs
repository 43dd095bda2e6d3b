//! Objects, their ids and the bytes they are stored as.

use lit::digest::hash;
use lit::hex::{is_hex_digit, pair_to_u8, parse_hex, to_base10_digit, HexError};
use lit::object::mode::{Mode, UnsupportedFileType};
use lit::object::oid::{Oid, OidError};
use lit::object::parse::{
    parse_oid, parse_signature, Cursor, CursorErrorKind, ParseErrorKind, SignatureErrorKind,
    TreeEntryErrorKind,
};
use lit::object::{frame, Commit, Entry, Object, ObjectType, Signature};
use lit::os::FileKind;
use lit::timestamp::{normalize_fws, Timestamp, TimestampError};

const HEX: &str = "0123456789abcdef0123456789abcdef01234567";

fn oid(hex: &str) -> Oid {
    Oid::from_hex(hex).unwrap()
}

fn signature(name: &str, email: &str, unix: i64) -> Signature {
    Signature {
        email: email.to_string(),
        name: name.to_string(),
        timestamp: Timestamp { unix, timezone: *b"+0200" },
    }
}

fn commit(parents: Vec<Oid>) -> Commit {
    Commit {
        author: signature("Ann", "ann@example.org", 1_700_000_000),
        committer: signature("Bo B", "bo@example.org", -5),
        parents,
        message: "a message\n\nwith more\n".to_string(),
        root_id: oid(HEX),
    }
}

#[test]
fn ids_are_hashes_of_header_and_content() {
    assert_eq!(hash(ObjectType::Blob, b"").to_hex(), "e69de29bb2d1d6434b8b29ae775ad8c2e48c5391");
    assert_eq!(hash(ObjectType::Tree, b"").to_hex(), "4b825dc642cb6eb9a060e54bf8d69288fbee4904");
    assert_eq!(
        hash(ObjectType::Blob, b"hello world\n").to_hex(),
        "3b18e512dba79e4c8300dd08aeb37f8e728b8dad"
    );
    assert_eq!(frame(ObjectType::Blob, b"hello"), b"blob 5\0hello");
    assert_eq!(frame(ObjectType::Commit, b""), b"commit 0\0");
}

#[test]
fn hexadecimal_round_trip() {
    let id = oid(HEX);
    assert_eq!(id.to_hex(), HEX);
    assert_eq!(id.as_bytes()[..3], [0x01, 0x23, 0x45]);
    assert_eq!(Oid::from_hex_bytes(HEX.as_bytes()).unwrap().inner(), id.inner());
    assert_eq!(Oid::from_hex_bytes_unchecked(HEX.as_bytes()).inner(), id.inner());
    assert!(Oid::from_slice(id.as_bytes()).same_as(&Oid::from_bytes(id.inner())));
    // upper case is read as well
    assert_eq!(oid(&HEX.to_uppercase()).to_hex(), HEX);
    assert_eq!(parse_hex(HEX.as_bytes().try_into().unwrap()).unwrap(), HEX);
    let mut bad: [u8; 40] = HEX.as_bytes().try_into().unwrap();
    bad[7] = b'z';
    assert_eq!(parse_hex(&bad), Err(HexError { digit: b'z', pos: 7 }));
}

#[test]
fn bad_ids_are_refused() {
    assert_eq!(Oid::from_hex("abc").unwrap_err(), OidError::BadLength);
    assert_eq!(Oid::from_hex("").unwrap_err(), OidError::BadLength);
    let bad = format!("012g{}", &HEX[4..]);
    let err = Oid::from_hex(&bad).unwrap_err();
    assert_eq!(err, OidError::BadDigit { pos: 2, digit: b'g' });
    assert_eq!(err.message(), "invalid hexadecimal digit 'g' at position 2");
    assert_eq!(OidError::BadLength.message(), "object id must be 40 hexadecimal characters");
    // a letter whose lowercase form is an ASCII one counts as that
    let kelvin = format!("{}\u{212a}", &HEX[..37]);
    assert_eq!(Oid::from_hex(&kelvin).unwrap_err(), OidError::BadLength);
    let dotted = format!("{}\u{130}", &HEX[..37]);
    assert_eq!(Oid::from_hex(&dotted).unwrap_err(), OidError::BadDigit { pos: 19, digit: b'i' });
}

#[test]
fn digits() {
    assert!(is_hex_digit(b'a') && is_hex_digit(b'9') && !is_hex_digit(b'g'));
    assert_eq!(to_base10_digit(b'f'), 15);
    assert_eq!(pair_to_u8(b"ff"), Ok(255));
    assert_eq!(pair_to_u8(b"0x"), Err(HexError { digit: b'x', pos: 1 }));
    assert_eq!(pair_to_u8(b"x0"), Err(HexError { digit: b'x', pos: 0 }));
}

#[test]
fn modes() {
    for mode in [Mode::Regular, Mode::Executable, Mode::Symlink, Mode::Directory] {
        assert_eq!(Mode::from_raw(mode.to_raw()), Some(mode));
    }
    assert_eq!(Mode::Executable.to_raw(), 0o100755);
    assert_eq!(Mode::from_raw(0o100600), None);
    assert_eq!(Mode::Directory.as_octal_bytes(), b"040000");
    assert_eq!(Mode::try_from_kind(FileKind::Regular(true)), Ok(Mode::Executable));
    assert_eq!(Mode::try_from_kind(FileKind::Other), Err(UnsupportedFileType));
}

#[test]
fn blobs_round_trip() {
    let bytes = frame(ObjectType::Blob, b"any \0 bytes \xff");
    match Object::deserialize(&bytes).unwrap() {
        Object::Blob(content) => assert_eq!(content, b"any \0 bytes \xff"),
        other => panic!("{other:?}"),
    }
}

#[test]
fn trees_round_trip() {
    let id = oid(HEX);
    let tree = Object::Tree(vec![
        Entry { mode: Mode::Regular, name: b"a.txt".to_vec(), oid: id },
        Entry { mode: Mode::Directory, name: b"dir".to_vec(), oid: id },
    ]);
    let mut expected = b"100644 a.txt\0".to_vec();
    expected.extend_from_slice(id.as_bytes());
    expected.extend_from_slice(b"040000 dir\0");
    expected.extend_from_slice(id.as_bytes());
    let content = tree.serialize();
    assert_eq!(content, expected);
    match Object::deserialize(&frame(ObjectType::Tree, &content)).unwrap() {
        Object::Tree(entries) => {
            assert_eq!(entries.len(), 2);
            assert_eq!(entries[1].name, b"dir");
            assert_eq!(entries[1].mode, Mode::Directory);
            assert_eq!(entries[0].oid, id);
        }
        other => panic!("{other:?}"),
    }
}

#[test]
fn commits_round_trip() {
    for parents in [vec![], vec![oid(HEX)], vec![oid(HEX), oid(&HEX.to_uppercase())]] {
        let n = parents.len();
        let object = Object::Commit(commit(parents));
        assert_eq!(object.obj_type(), ObjectType::Commit);
        let content = object.serialize();
        let mut expected = format!("tree {HEX}\n");
        for _ in 0..n {
            expected.push_str(&format!("parent {HEX}\n"));
        }
        expected.push_str("author Ann <ann@example.org> 1700000000 +0200\n");
        expected.push_str("committer Bo B <bo@example.org> -5 +0200\n\na message\n\nwith more\n");
        assert_eq!(content, expected.as_bytes());
        match Object::deserialize(&frame(ObjectType::Commit, &content)).unwrap() {
            Object::Commit(back) => {
                assert_eq!(back.parents.len(), n);
                assert_eq!(back.author.email, "ann@example.org");
                assert_eq!(back.committer.name, "Bo B");
                assert_eq!(back.committer.timestamp.unix, -5);
                assert_eq!(back.message, "a message\n\nwith more\n");
                assert_eq!(back.root_id, oid(HEX));
            }
            other => panic!("{other:?}"),
        }
    }
}

fn kind_of(bytes: &[u8]) -> ParseErrorKind {
    Object::deserialize(bytes).unwrap_err().kind
}

#[test]
fn bad_headers_are_refused() {
    assert_eq!(kind_of(b"blob"), ParseErrorKind::MissingHeaderSpace);
    assert_eq!(kind_of(b"blob 12"), ParseErrorKind::MissingHeaderNul);
    assert_eq!(kind_of(b"blob x\0"), ParseErrorKind::InvalidSizeHeader);
    assert_eq!(kind_of(b"blob 3\0ab"), ParseErrorKind::SizeMisMatch { expected: 3, actual: 2 });
    assert_eq!(kind_of(b"tag 0\0"), ParseErrorKind::UnknownType { got: b"tag".to_vec() });
}

#[test]
fn bad_trees_are_refused() {
    let tree = |content: &[u8]| kind_of(&frame(ObjectType::Tree, content));
    assert_eq!(
        tree(b"100644"),
        ParseErrorKind::InvalidTreeEntry(TreeEntryErrorKind::MissingSpace)
    );
    assert_eq!(
        tree(b"100644 name"),
        ParseErrorKind::InvalidTreeEntry(TreeEntryErrorKind::MissingNul)
    );
    assert_eq!(
        tree(b"100644 name\0short"),
        ParseErrorKind::InvalidTreeEntry(TreeEntryErrorKind::TruncatedOid)
    );
    let with_id = |head: &[u8]| {
        let mut content = head.to_vec();
        content.extend_from_slice(&[7u8; 20]);
        tree(&content)
    };
    assert_eq!(
        with_id(b"100600 name\0"),
        ParseErrorKind::InvalidTreeEntry(TreeEntryErrorKind::UnknownMode { mode: b"100600".to_vec() })
    );
    assert_eq!(
        with_id(b"100644 a/b\0"),
        ParseErrorKind::InvalidTreeEntry(TreeEntryErrorKind::BadPathName { name: b"a/b".to_vec() })
    );
}

fn commit_kind(text: &str) -> ParseErrorKind {
    kind_of(&frame(ObjectType::Commit, text.as_bytes()))
}

#[test]
fn bad_commits_are_refused() {
    let tree = format!("tree {HEX}\n");
    let author = "author A <a@b> 1 +0000\n";
    let committer = "committer A <a@b> 1 +0000\n";
    assert_eq!(commit_kind(""), ParseErrorKind::MissingNewLine);
    assert_eq!(commit_kind("tree\n"), ParseErrorKind::MissingHeaderSpace);
    assert_eq!(
        commit_kind(&format!("{author}{tree}")),
        ParseErrorKind::UnexpectedHeader { expected: b"tree".to_vec(), got: b"author".to_vec() }
    );
    assert_eq!(
        commit_kind(&format!("{tree}{committer}")),
        ParseErrorKind::UnexpectedHeader { expected: b"author".to_vec(), got: b"committer".to_vec() }
    );
    assert_eq!(
        commit_kind(&format!("{tree}{author}{author}")),
        ParseErrorKind::UnexpectedHeader { expected: b"committer".to_vec(), got: b"author".to_vec() }
    );
    assert_eq!(
        commit_kind("tree 12\nauthor"),
        ParseErrorKind::BadOid(lit::object::parse::OidError::WrongLen { offset: 0, len: 2 })
    );
    let bad = format!("tree {}\n", HEX.replace('a', "x"));
    let err = Object::deserialize(&frame(ObjectType::Commit, bad.as_bytes())).unwrap_err();
    assert_eq!(
        err.kind,
        ParseErrorKind::BadOid(lit::object::parse::OidError::BadDigit(HexError {
            digit: b'x',
            pos: 10
        }))
    );
    // behind "commit 46", a NUL and "tree "
    assert_eq!(err.offset, 10 + 5 + 10);
    assert_eq!(
        commit_kind(&format!("{tree}author A a@b 1 +0000\n{committer}\nm")),
        ParseErrorKind::BadSignature(SignatureErrorKind::MissingAngleBracket)
    );
    assert_eq!(
        commit_kind(&format!("{tree}{author}{committer}message\n")),
        ParseErrorKind::MissingBlankLine
    );
    assert_eq!(
        commit_kind(&format!("{tree}{author}{committer}message")),
        ParseErrorKind::MissingNewLine
    );
    assert!(Object::deserialize(&frame(
        ObjectType::Commit,
        format!("{tree}{author}{committer}\n").as_bytes()
    ))
    .is_ok());
    let mut bytes = format!("{tree}{author}{committer}\n").into_bytes();
    bytes.push(0xff);
    assert_eq!(kind_of(&frame(ObjectType::Commit, &bytes)), ParseErrorKind::InvalidUtf8);
}

#[test]
fn signatures() {
    let s = parse_signature(b"Ann Other <ann@x> 12 -0330").unwrap();
    assert_eq!(s.name, "Ann Other");
    assert_eq!(s.email, "ann@x");
    assert_eq!(s.timestamp.unix, 12);
    assert_eq!(s.timestamp.timezone, *b"-0330");
    let mut out = Vec::new();
    s.write_to(&mut out);
    assert_eq!(out, b"Ann Other <ann@x> 12 -0330");

    let kind = |b: &[u8]| parse_signature(b).unwrap_err().kind;
    assert_eq!(kind(b"Ann ann@x> 12 +0000"), SignatureErrorKind::MissingAngleBracket);
    assert_eq!(kind(b"Ann <ann@x 12 +0000"), SignatureErrorKind::MissingAngleBracket);
    assert_eq!(kind(b"Ann<ann@x> 12 +0000"), SignatureErrorKind::MissingSpace);
    assert_eq!(kind(b"Ann <ann@x>12 +0000"), SignatureErrorKind::MissingSpace);
    assert_eq!(kind(b"Ann <ann@x> 12"), SignatureErrorKind::MissingSpace);
    assert_eq!(kind(b" <ann@x> 12 +0000"), SignatureErrorKind::MissingName);
    assert_eq!(kind(b"Ann <> 12 +0000"), SignatureErrorKind::MissingEmail);
    assert_eq!(kind(b"\xff <ann@x> 12 +0000"), SignatureErrorKind::InvalidUtf8);
    let err = parse_signature(b"Ann <ann\xff@x> 12 +0000").unwrap_err();
    assert_eq!((err.offset, err.kind), (8, SignatureErrorKind::InvalidUtf8));
    assert_eq!(
        kind(b"Ann <ann@x> x +0000"),
        SignatureErrorKind::BadTimestamp(TimestampError::BadUnixTimeStamp)
    );
    assert_eq!(
        kind(b"Ann <ann@x> 1 0000"),
        SignatureErrorKind::BadTimestamp(TimestampError::BadTimezone)
    );
}

#[test]
fn cursors() {
    let mut cursor = Cursor::new(b"ab:cd");
    assert_eq!(cursor.read_until(b':').unwrap(), b"ab");
    assert_eq!(cursor.rest(), b"cd");
    let err = cursor.read_until(b':').unwrap_err();
    assert_eq!(err.kind, CursorErrorKind::MissingDelimiter { delimiter: b':' });
    cursor.advance(2);
    assert!(cursor.is_empty());
    assert!(parse_oid(HEX.as_bytes()).is_ok());
    assert_eq!(parse_oid(b"12").unwrap_err().offset(), 0);
}

#[test]
fn object_types() {
    for t in [ObjectType::Blob, ObjectType::Tree, ObjectType::Commit] {
        assert_eq!(ObjectType::try_from_str(t.name()), Some(t));
    }
    assert_eq!(ObjectType::try_from_str("Blob"), None);
}

#[test]
fn timestamps() {
    let t = Timestamp::from_bytes(b"-42", b"-0330").unwrap();
    assert_eq!(t.to_string(), "-42 -0330");
    assert_eq!(Timestamp::at(7, 7200).to_string(), "7 +0200");
    assert_eq!(Timestamp::at(7, -7200).to_string(), "7 -0200");
    // zones need not be whole hours
    assert_eq!(Timestamp::at(7, 19800).to_string(), "7 +0530");
    assert_eq!(Timestamp::at(7, -12600).to_string(), "7 -0330");
    assert_eq!(Timestamp::at(7, 20700).to_string(), "7 +0545");
    assert_eq!(Timestamp::at(7, 86399).to_string(), "7 +2359");
    for (unix, zone) in [(&b""[..], &b"+0000"[..]), (b"1x", b"+0000"), (b"9223372036854775808", b"+0000")] {
        assert_eq!(Timestamp::from_bytes(unix, zone).unwrap_err(), TimestampError::BadUnixTimeStamp);
    }
    for zone in [&b"0000"[..], b"+000", b"+00a0", b""] {
        assert_eq!(Timestamp::from_bytes(b"1", zone).unwrap_err(), TimestampError::BadTimezone);
    }
    // what is written now can be read back
    let now = Timestamp::now();
    let text = now.to_string();
    let (unix, zone) = text.split_once(' ').unwrap();
    let back = Timestamp::from_bytes(unix.as_bytes(), zone.as_bytes()).unwrap();
    assert_eq!(back.unix, now.unix);
    assert!(now.unix > 1_600_000_000);
}

#[test]
fn folded_whitespace() {
    // a line break with the blanks behind it is one space
    assert_eq!(normalize_fws("a\r\n \tb"), "a b");
    assert_eq!(normalize_fws("a \r\n b\r\n"), "a  b\r\n");
    assert_eq!(normalize_fws(""), "");
}
