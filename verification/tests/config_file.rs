//! Reading and editing configuration files.

use lit::config::doc::{ConfigDoc, NonEmpty, Value};
use lit::config::key::{try_downcase, ConfigKey, SectionKey};
use lit::config::lines::{ends_with_continuation, should_fold, ConfigDocError};
use lit::config::parse::{ParseError, ParseErrorKind};
use lit::config::value::{encode_value, interpret_value};
use lit::config::{parse_decimal, ConfigFile, ConfigFileErrorKind};
use lit::path::OsPath;

fn file(text: &str) -> ConfigFile {
    ConfigFile::new(OsPath::from_text("config"), text.as_bytes().to_vec()).unwrap()
}

fn written(cfg: &ConfigFile) -> String {
    String::from_utf8(cfg.serialize()).unwrap()
}

const SAMPLE: &str = "# a comment\n[core]\n\tbare = false\n\tFileMode\n[remote \"origin\"]\n\turl = \"a b\" ; where\n\tfetch = one\n\tfetch = two\n";

#[test]
fn loading_keeps_every_byte() {
    for text in [SAMPLE, "", "\n\n", "[a]", "[a]\r\nb = c \\\n d\r\n", "  ; only a comment"] {
        assert_eq!(written(&file(text)), text);
    }
}

#[test]
fn values() {
    let cfg = file(SAMPLE);
    assert!(!cfg.get_bool(b"core.bare").unwrap());
    // the section and the name in any case, the subsection as it is written
    assert!(cfg.get_bool(b"CORE.filemode").unwrap());
    assert_eq!(cfg.get_str(b"remote.origin.url").unwrap(), "a b");
    assert!(cfg.get(b"remote.Origin.url").unwrap_err().is_key_not_found());
    assert_eq!(cfg.get_bytes(b"core.bare").unwrap(), b"false");
    let all = cfg.get_all(b"remote.origin.fetch").unwrap();
    assert_eq!(all, vec![Value::Bytes(b"one".to_vec()), Value::Bytes(b"two".to_vec())]);
    let entry = cfg.get(b"core.filemode").unwrap();
    assert_eq!(entry.value(), &Value::ImplicitlyTrue);
    assert_eq!(entry.key().name, b"filemode");
}

#[test]
fn numbers_and_booleans() {
    let cfg = file("[a]\nn = 42\nbig = 18446744073709551616\nx = 4x\ne =\nyes = true\noff = false\nupper = TRUE\nv\n");
    assert_eq!(cfg.get_int(b"a.n").unwrap(), 42);
    assert_eq!(cfg.get_int(b"a.e").unwrap(), 0);
    for key in [&b"a.big"[..], b"a.x", b"a.v"] {
        let err = cfg.get_int(key).unwrap_err();
        assert!(matches!(err.kind, ConfigFileErrorKind::IncompatibleType { expected: "numeric", .. }));
    }
    assert!(cfg.get_bool(b"a.yes").unwrap());
    assert!(!cfg.get_bool(b"a.off").unwrap());
    assert!(cfg.get_bool(b"a.upper").is_err());
    assert!(cfg.get_bool(b"a.v").unwrap());
    assert!(cfg.get_bool(b"a.x").is_err());
    assert_eq!(Value::Bytes(b"true".to_vec()).to_bool(), Some(true));
    assert_eq!(parse_decimal(b"007"), Some(7));
    assert_eq!(parse_decimal(b"-1"), None);
}

#[test]
fn refused_lookups() {
    let cfg = file(SAMPLE);
    let kind = |name: &[u8]| cfg.get(name).unwrap_err().kind;
    assert!(matches!(kind(b"nodot"), ConfigFileErrorKind::BadKey(k) if k == b"nodot"));
    assert!(matches!(kind(b"remote.origin.fetch"), ConfigFileErrorKind::MultipleValues(_)));
    assert!(matches!(kind(b"core.missing"), ConfigFileErrorKind::NotFound(_)));
    assert!(cfg.section_entries(b"core").unwrap().unwrap().len() == 2);
    assert!(cfg.section_entries(b"nothing").unwrap().is_none());
    assert!(matches!(
        cfg.section_entries(b"a b").unwrap_err().kind,
        ConfigFileErrorKind::BadSectionName(_)
    ));
    let cfg = file("[a]\nb = \"\\n\"\n");
    assert_eq!(cfg.get_str(b"a.b").unwrap(), "\n");
    let bytes = b"[a]\nb = \xff\n".to_vec();
    let cfg = ConfigFile::new(OsPath::from_text("config"), bytes).unwrap();
    assert!(matches!(
        cfg.get_str(b"a.b").unwrap_err().kind,
        ConfigFileErrorKind::IncompatibleType { expected: "string", .. }
    ));
}

#[test]
fn config_messages() {
    let cfg = file(SAMPLE);
    assert_eq!(
        cfg.get(b"nodot").unwrap_err().message(),
        "config: key does not contain a section: nodot"
    );
    assert_eq!(cfg.get(b"a.b").unwrap_err().message(), "config: key: a.b not found");
    assert_eq!(
        cfg.get(b"remote.origin.fetch").unwrap_err().message(),
        "config: key: remote.origin.fetch has multiple values"
    );
    assert_eq!(
        cfg.get_int(b"core.bare").unwrap_err().kind.message(),
        "bad numeric config value '' for 'core.bare'"
    );
    assert_eq!(
        cfg.section_entries(b"a b").unwrap_err().kind.message(),
        "bad section name: a b. Must be alphanumeric and/or '-'"
    );
    let err = ConfigFile::new(OsPath::from_text("config"), b"[".to_vec()).unwrap_err();
    assert_eq!(err.message(), "config: could not load config");
}

#[test]
fn bad_config_files_are_refused() {
    let err = |text: &str| {
        match ConfigFile::new(OsPath::from_text("c"), text.as_bytes().to_vec()).unwrap_err().kind {
            ConfigFileErrorKind::Doc(ConfigDocError::InvalidFormat { line, source }) => (line, source),
            other => panic!("{other:?}"),
        }
    };
    assert_eq!(
        err("[a]\n\n@\n"),
        (3, ParseError { kind: ParseErrorKind::UnexpectedByte(b'@'), pos: 0 })
    );
    // a continued line counts as the lines that the user sees
    assert_eq!(err("[a]\nb = c \\\n d\n[\n").0, 4);
    // a variable needs a section
    assert_eq!(
        err("a = b\n"),
        (1, ParseError { kind: ParseErrorKind::UnexpectedByte(b'a'), pos: 0 })
    );
    assert_eq!(err("[a]\nb = \"c\n").1.kind, ParseErrorKind::UnterminatedQuote);
}

#[test]
fn setting() {
    let mut cfg = file(SAMPLE);
    cfg.set(b"core.bare", b"true").unwrap();
    assert!(cfg.get_bool(b"core.bare").unwrap());
    // the other lines stay as they are
    assert_eq!(written(&cfg), SAMPLE.replace("bare = false", "bare = true"));
    cfg.set(b"core.new", b" spaced ").unwrap();
    assert_eq!(cfg.get_str(b"core.new").unwrap(), " spaced ");
    cfg.set(b"branch.Main.remote", b"origin").unwrap();
    assert_eq!(cfg.get_str(b"branch.Main.remote").unwrap(), "origin");
    assert!(written(&cfg).ends_with("[branch \"Main\"]\n\tremote = origin\n"));
    assert!(matches!(
        cfg.set(b"remote.origin.fetch", b"x").unwrap_err().kind,
        ConfigFileErrorKind::MultipleValues(_)
    ));
    assert!(matches!(cfg.set(b"x", b"y").unwrap_err().kind, ConfigFileErrorKind::BadKey(_)));
    cfg.set_all(b"remote.origin.fetch", b"both").unwrap();
    assert_eq!(cfg.get_all(b"remote.origin.fetch").unwrap().len(), 2);
    assert_eq!(
        cfg.get_all(b"remote.origin.fetch").unwrap()[0],
        Value::Bytes(b"both".to_vec())
    );
    // what was set is there after the file was written and read again
    let again = file(&written(&cfg));
    assert_eq!(again.get_str(b"core.new").unwrap(), " spaced ");
    assert_eq!(again.get_str(b"branch.Main.remote").unwrap(), "origin");
    assert_eq!(written(&again), written(&cfg));
}

#[test]
fn setting_in_a_file_without_a_last_newline() {
    let mut cfg = file("[a]\nb = c");
    cfg.set(b"a.d", b"e").unwrap();
    assert_eq!(written(&cfg), "[a]\nb = c\n\td = e\n");
    let mut cfg = ConfigFile::empty(OsPath::from_text("config"));
    cfg.set(b"core.bare", b"false").unwrap();
    assert_eq!(written(&cfg), "[core]\n\tbare = false\n");
    let cfg = ConfigFile::new_or_empty(OsPath::from_text("config"), None).unwrap();
    assert_eq!(written(&cfg), "");
}

#[test]
fn unsetting() {
    let mut cfg = file(SAMPLE);
    cfg.unset(b"core.bare").unwrap();
    assert!(cfg.get(b"core.bare").unwrap_err().is_key_not_found());
    assert!(cfg.get_bool(b"core.filemode").unwrap());
    assert!(cfg.unset(b"remote.origin.fetch").is_err());
    cfg.unset_all(b"remote.origin.fetch").unwrap();
    assert!(cfg.get_all(b"remote.origin.fetch").is_err());
    assert_eq!(cfg.get_str(b"remote.origin.url").unwrap(), "a b");
    // nothing to remove
    cfg.unset_all(b"a.b").unwrap();
    cfg.remove_section(b"remote.origin").unwrap();
    assert_eq!(written(&cfg), "# a comment\n[core]\n\tFileMode\n");
}

#[test]
fn encoded_values() {
    for value in [
        &b"plain"[..],
        b" leading",
        b"trailing ",
        b"",
        b"a;b",
        b"#",
        b"quote\"back\\slash",
        b"new\nline\ttab\x08",
        b"in side",
    ] {
        assert_eq!(interpret_value(&encode_value(value)), value);
    }
    assert_eq!(encode_value(b"plain"), b"plain");
    assert_eq!(encode_value(b" x"), b"\" x\"");
    assert_eq!(interpret_value(b"a \"b c\" d"), b"a b c d");
    assert_eq!(interpret_value(b"a \\\n b"), b"a  b");
}

#[test]
fn keys() {
    let key = ConfigKey::from_name(b"Remote.My.Origin.URL").unwrap();
    assert_eq!(key.section.name, b"remote");
    assert_eq!(key.section.subsection.as_deref(), Some(&b"My.Origin"[..]));
    assert_eq!(key.name, b"url");
    assert!(ConfigKey::from_name(b"a").is_none());
    let section = SectionKey::new(b"core").unwrap();
    assert!(section.same_as(&SectionKey::new_unchecked(b"core", None)));
    assert_eq!(try_downcase(b"ABC-1"), Some(b"abc-1".to_vec()));
    assert_eq!(try_downcase(b"a b"), None);
}

#[test]
fn documents() {
    let mut doc = ConfigDoc::load(b"[a]\nb = 1\n[c]\n[a]\nb = 2\n".to_vec()).unwrap();
    let key = ConfigKey::from_name(b"a.b").unwrap();
    assert_eq!(doc.key_positions(&key).unwrap().len(), 2);
    let last = doc.key_last_pos(&key).unwrap();
    assert_eq!(last.get(), 4);
    assert_eq!(doc.value_at(last), Value::Bytes(b"2".to_vec()));
    // a new variable goes into the last block of its section
    doc.insert_variable(&ConfigKey::from_name(b"a.z").unwrap(), b"9");
    assert_eq!(doc.serialize(), b"[a]\nb = 1\n[c]\n[a]\nb = 2\n\tz = 9\n");
    doc.remove_lines(&key);
    assert_eq!(doc.serialize(), b"[a]\n[c]\n[a]\n\tz = 9\n");
    doc.remove_section(&SectionKey::new(b"a").unwrap());
    assert_eq!(doc.serialize(), b"[c]\n");
}

#[test]
fn continued_lines() {
    assert!(ends_with_continuation(b"a \\\n"));
    assert!(!ends_with_continuation(b"a \\\\\n"));
    assert!(should_fold(b"key = a \\\n b", 0));
    assert!(!should_fold(b"# comment \\\n b", 0));
    let mut some = NonEmpty::new(1u8);
    assert!(some.single());
    some.push(2);
    assert_eq!((some.first(), some.last(), some.len()), (1, 2, 2));
    assert_eq!(some.to_vec(), vec![1, 2]);
}
