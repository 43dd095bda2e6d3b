//! Small parts on their own.

use lit::config::doc::{BufferSpan, Line, VariableEntry, Value};
use lit::config::key::SectionKey;
use lit::config::lines::{classify, read_lines};
use lit::config::parse::{LineKind, LineParser, LineSpan};
use lit::hex::{bytes_as_hex, pair_to_u8_unchecked};
use lit::index::parse::Parser;
use lit::layout::{LitEntry, MetadataPlacement};
use lit::object::mode::Mode;
use lit::object::parse::{parse_size, parse_tree_entry, Cursor, CursorErrorKind};
use lit::path::{join_bytes, strip_prefix_bytes, OsPath};
use lit::print::cat_file::write_signature;
use lit::object::Signature;
use lit::repository::EntryType;
use lit::timestamp::Timestamp;

#[test]
fn lines_in_canonical_form() {
    let line = Line::canonical_variable(b"name", b"a value; quoted");
    assert_eq!(line.bytes(b""), b"\tname = \"a value; quoted\"\n");
    let (name, value) = line.variable().unwrap();
    assert_eq!(line.slice(b"", &name), b"name");
    assert_eq!(line.slice(b"", &value.unwrap()), b"\"a value; quoted\"");
    let key = SectionKey { name: b"remote".to_vec(), subsection: Some(b"origin".to_vec()) };
    let line = Line::canonical_header(&key);
    assert_eq!(line.bytes(b""), b"[remote \"origin\"]\n");
    assert!(line.section_key(b"").same_as(&key));
}

#[test]
fn lines_one_by_one() {
    let text = b"# x\n[core]\n\tbare\n";
    let lines = read_lines(text).unwrap();
    assert_eq!(lines.len(), 3);
    assert_eq!(lines[1].bytes(text), b"[core]\n");
    let kind = classify(text, &BufferSpan { start: 11, end: 17 }).unwrap();
    match kind {
        LineKind::Variable { name, value } => {
            assert_eq!((name.start, name.end), (1, 5));
            assert!(value.is_none());
        }
        other => panic!("{other:?}"),
    }
    let mut parser = LineParser::new(b" \t= v");
    parser.skip_ws();
    assert_eq!(parser.peek(), Some(b'='));
    parser.expect(b'=').unwrap();
    assert!(parser.expect(b'=').is_err());
    parser.skip_ws();
    assert!(!parser.eol());
    let LineSpan { start, end } = parser.parse_value().unwrap();
    assert_eq!((start, end), (4, 5));
    assert!(parser.eol());
    assert!(parser.check_trailing_comment().is_ok());
}

#[test]
fn values_leave_their_entries() {
    let entry = VariableEntry { name: b"n".to_vec(), value: Value::Bytes(b"v".to_vec()) };
    assert_eq!(entry.name(), b"n");
    assert!(matches!(entry.into_value(), Value::Bytes(v) if v == b"v"));
}

#[test]
fn cursors_stop_at_the_end() {
    let mut cursor = Cursor::new(b"100644 a\0xyz");
    let err = cursor.take::<20>().unwrap_err();
    assert!(matches!(err.kind, CursorErrorKind::Truncated { needed: 20, available: 12 }));
    assert_eq!(cursor.take::<3>().unwrap(), b"100");
    let mut cursor = Cursor::new(b"40000 dir\0aaaaaaaaaaaaaaaaaaaarest");
    let entry = parse_tree_entry(&mut cursor).unwrap();
    assert_eq!(entry.mode, Mode::Directory);
    assert_eq!(entry.name, b"dir");
    assert_eq!(entry.oid.as_bytes(), &[b'a'; 20]);
    assert_eq!(cursor.rest(), b"rest");
    let mut cursor = Cursor::new(b"12\0x");
    assert_eq!(parse_size(&mut cursor).unwrap(), 12);
    let mut parser = Parser::new(&[0, 0, 1, 2, 0, 0, 0, 7]);
    assert_eq!(parser.u32_array::<2>().unwrap(), vec![258, 7]);
    assert!(parser.take::<1>().is_err());
}

#[test]
fn digits_of_a_pair() {
    assert_eq!(pair_to_u8_unchecked(b"fE"), 0xfe);
    let hex = bytes_as_hex(&[0xab; 20]);
    assert_eq!(hex, "ab".repeat(20));
}

#[test]
fn modes_are_told_apart() {
    assert!(Mode::Regular.is_regular() && !Mode::Executable.is_regular());
    assert!(Mode::Directory.is_directory() && !Mode::Symlink.is_directory());
}

#[test]
fn placements() {
    let worktree = OsPath::from_text("/w");
    let metadata = OsPath::from_text("/meta");
    let pointer = OsPath::from_text("/w/.lit");
    let entry = MetadataPlacement::entry_path(Some(&worktree)).unwrap();
    assert!(entry.same_path(&pointer));
    assert!(MetadataPlacement::entry_path(None).is_none());
    let other =
        MetadataPlacement::counterpart_of(&metadata, Some(&pointer), LitEntry::File).unwrap();
    assert!(other.same_path(&pointer));
    let other = MetadataPlacement::counterpart_of(&metadata, None, LitEntry::Directory).unwrap();
    assert!(other.same_path(&metadata));
    assert!(MetadataPlacement::counterpart_of(&metadata, None, LitEntry::File).is_none());
    assert_eq!(EntryType::from_flags(false, true, false), EntryType::Directory);
    assert_eq!(EntryType::from_flags(false, false, false), EntryType::Other);
}

#[test]
fn joining_bytes() {
    assert_eq!(join_bytes(b"/a", b"b"), b"/a/b");
    assert_eq!(join_bytes(b"/a", b"/b"), b"/b");
    assert_eq!(strip_prefix_bytes(b"/a/b/c", b"/a"), Some(b"b/c".to_vec()));
    assert_eq!(strip_prefix_bytes(b"/ab", b"/a"), None);
}

#[test]
fn signature_lines() {
    let signature = Signature {
        name: "A B".to_string(),
        email: "a@b".to_string(),
        timestamp: Timestamp::at(7, 3600),
    };
    let mut out = Vec::new();
    write_signature(&mut out, "author", &signature);
    assert_eq!(out, b"author A B <a@b> 7 +0100\n");
}
