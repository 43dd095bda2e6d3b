//! The messages of errors, as they are shown to the user.

use crate::bytes::{
    append_decimal, ascii_string, decimal, lemma_decimal_value, push_char, BACKSLASH, CR, LF, QUOTE,
    TAB,
};
use crate::config::{ConfigFileError, ConfigFileErrorKind};
use crate::format::{
    extension_name, object_format_name, FormatVersionError, ObjectFormatError, RefFormatError,
    RefStorageError, RepositoryFormatError,
};
use crate::hex::{digit_of, hex_digit, hex_of};
use crate::init::InitError;
use crate::layout::LayoutError;
use crate::litfile::{LitFileError, LitFileErrorKind};
use crate::object::identity::SignatureError;
use crate::path::OsPathError;
use crate::pathspec::PathspecError;
use crate::repository::{EntryType, RepositoryError};
use crate::text::{lossy, lossy_text};
use crate::utf8::Utf8Error;
use vstd::prelude::*;
use vstd::string::*;
use vstd::utf8::*;

verus! {

/// A text with bytes in the middle, shown as far as they are text.
pub open spec fn around(before: Seq<char>, bytes: Seq<u8>, behind: Seq<char>) -> Seq<char> {
    before + lossy_text(bytes) + behind
}

pub(crate) fn text_around(before: &str, bytes: &[u8], behind: &str) -> (r: String)
    ensures
        r@ == around(before@, bytes@, behind@),
{
    let mut s = before.to_owned();
    let shown = lossy(bytes);
    s.append(shown.as_str());
    s.append(behind);
    s
}

/// Three texts, one behind the other.
fn three(a: &str, b: &str, c: &str) -> (r: String)
    ensures
        r@ == a@ + b@ + c@,
{
    let mut s = a.to_owned();
    s.append(b);
    s.append(c);
    s
}

/// A byte as it stands in an ASCII text: with a backslash where it would not be seen or would be
/// misread.
pub open spec fn escaped_byte(b: u8) -> Seq<char> {
    if b == TAB {
        seq!['\\', 't']
    } else if b == LF {
        seq!['\\', 'n']
    } else if b == CR {
        seq!['\\', 'r']
    } else if b == 0x27 || b == QUOTE || b == BACKSLASH {
        seq!['\\', b as char]
    } else if 0x20 <= b <= 0x7E {
        seq![b as char]
    } else {
        seq![
            '\\',
            'x',
            hex_digit(b as int / 16) as char,
            hex_digit(b as int % 16) as char,
        ]
    }
}

pub open spec fn escaped(b: Seq<u8>) -> Seq<char>
    decreases b.len(),
{
    if b.len() == 0 {
        Seq::empty()
    } else {
        escaped(b.drop_last()) + escaped_byte(b.last())
    }
}

fn push_escaped(s: &mut String, b: u8)
    ensures
        final(s)@ == old(s)@ + escaped_byte(b),
{
    if b == TAB {
        s.append("\\t");
        proof {
            reveal_strlit("\\t");
        }
    } else if b == LF {
        s.append("\\n");
        proof {
            reveal_strlit("\\n");
        }
    } else if b == CR {
        s.append("\\r");
        proof {
            reveal_strlit("\\r");
        }
    } else if b == 0x27 || b == QUOTE || b == BACKSLASH {
        push_char(s, '\\');
        push_char(s, b as char);
    } else if 0x20 <= b && b <= 0x7E {
        push_char(s, b as char);
    } else {
        push_char(s, '\\');
        push_char(s, 'x');
        push_char(s, digit_of(b / 16) as char);
        push_char(s, digit_of(b % 16) as char);
    }
    assert(s@ =~= old(s)@ + escaped_byte(b));
}

/// Bytes as ASCII text.
pub fn escape_ascii(b: &[u8]) -> (r: String)
    ensures
        r@ == escaped(b@),
{
    let mut s = "".to_owned();
    proof {
        reveal_strlit("");
    }
    let mut i: usize = 0;
    assert(s@ =~= escaped(b@.take(0)));
    while i < b.len()
        invariant
            i <= b@.len(),
            s@ == escaped(b@.take(i as int)),
        decreases b@.len() - i,
    {
        assert(b@.take(i + 1).drop_last() =~= b@.take(i as int));
        push_escaped(&mut s, b[i]);
        i = i + 1;
    }
    assert(b@.take(i as int) =~= b@);
    s
}

/// A number in decimal digits.
pub open spec fn number_text(n: nat) -> Seq<char> {
    decode_utf8(decimal(n))
}

fn number(n: u64) -> (r: String)
    ensures
        r@ == number_text(n as nat),
{
    let mut digits: Vec<u8> = Vec::new();
    append_decimal(&mut digits, n);
    proof {
        lemma_decimal_value(n as nat);
        assert(digits@ =~= decimal(n as nat));
    }
    let s = ascii_string(digits);
    proof {
        encode_utf8_decode_utf8(s@);
    }
    s
}

pub open spec fn os_path_message(err: OsPathError<Seq<u8>>) -> Seq<char> {
    match err {
        OsPathError::Empty => "path is empty"@,
        OsPathError::ContainsNul(path) => around("path "@, path, " contains NUL byte"@),
        OsPathError::StripPrefix => "prefix not found"@,
    }
}

impl OsPathError {
    pub fn message(&self) -> (r: String)
        ensures
            r@ == os_path_message(self@),
    {
        match self {
            OsPathError::Empty => "path is empty".to_owned(),
            OsPathError::ContainsNul(path) => text_around(
                "path ",
                path.as_slice(),
                " contains NUL byte",
            ),
            OsPathError::StripPrefix => "prefix not found".to_owned(),
        }
    }
}

pub open spec fn pathspec_message(err: PathspecError<Seq<u8>>) -> Seq<char> {
    match err {
        PathspecError::OutsideRepository { path } => around(
            "path '"@,
            path,
            "' is outside the repository"@,
        ),
        PathspecError::ReservedComponent { path, component } => around(
            "path '"@,
            path,
            "' contains reserved component '"@,
        ) + lossy_text(component) + "'"@,
        PathspecError::OsPath(err) => os_path_message(err),
    }
}

impl PathspecError {
    pub fn message(&self) -> (r: String)
        ensures
            r@ == pathspec_message(self@),
    {
        match self {
            PathspecError::OutsideRepository { path } => text_around(
                "path '",
                path.as_slice(),
                "' is outside the repository",
            ),
            PathspecError::ReservedComponent { path, component } => {
                let mut s = text_around(
                    "path '",
                    path.as_slice(),
                    "' contains reserved component '",
                );
                let shown = lossy(component.as_slice());
                s.append(shown.as_str());
                s.append("'");
                s
            },
            PathspecError::OsPath(err) => err.message(),
        }
    }
}

pub open spec fn config_kind_message(kind: ConfigFileErrorKind<Seq<u8>>) -> Seq<char> {
    match kind {
        ConfigFileErrorKind::Doc(_) => "could not load config"@,
        ConfigFileErrorKind::BadKey(key) => around(
            "key does not contain a section: "@,
            key,
            ""@,
        ),
        ConfigFileErrorKind::BadSectionName(name) => around(
            "bad section name: "@,
            name,
            ". Must be alphanumeric and/or '-'"@,
        ),
        ConfigFileErrorKind::MultipleValues(key) => around("key: "@, key, " has multiple values"@),
        ConfigFileErrorKind::NotFound(key) => around("key: "@, key, " not found"@),
        ConfigFileErrorKind::IncompatibleType { key, expected, .. } => "bad "@ + expected@
            + around(" config value '' for '"@, key, "'"@),
    }
}

impl ConfigFileErrorKind {
    pub fn message(&self) -> (r: String)
        ensures
            r@ == config_kind_message(self@),
    {
        match self {
            ConfigFileErrorKind::Doc(_) => "could not load config".to_owned(),
            ConfigFileErrorKind::BadKey(key) => text_around(
                "key does not contain a section: ",
                key.as_slice(),
                "",
            ),
            ConfigFileErrorKind::BadSectionName(name) => text_around(
                "bad section name: ",
                name.as_slice(),
                ". Must be alphanumeric and/or '-'",
            ),
            ConfigFileErrorKind::MultipleValues(key) => text_around(
                "key: ",
                key.as_slice(),
                " has multiple values",
            ),
            ConfigFileErrorKind::NotFound(key) => text_around(
                "key: ",
                key.as_slice(),
                " not found",
            ),
            ConfigFileErrorKind::IncompatibleType { key, expected, .. } => {
                let rest = text_around(" config value '' for '", key.as_slice(), "'");
                three("bad ", *expected, rest.as_str())
            },
        }
    }
}

/// An error in a file: the file, then the error.
pub open spec fn in_file(path: Seq<u8>, message: Seq<char>) -> Seq<char> {
    around(""@, path, ": "@) + message
}

fn message_in_file(path: &[u8], message: &str) -> (r: String)
    ensures
        r@ == in_file(path@, message@),
{
    let mut s = text_around("", path, ": ");
    s.append(message);
    s
}

impl ConfigFileError {
    pub fn message(&self) -> (r: String)
        ensures
            r@ == in_file(self.path@, config_kind_message(self.kind@)),
    {
        let kind = self.kind.message();
        message_in_file(self.path.as_bytes(), kind.as_str())
    }
}

pub open spec fn version_message(err: FormatVersionError) -> Seq<char> {
    "unsupported format version: "@ + number_text(err.0 as nat)
}

impl FormatVersionError {
    pub fn message(&self) -> (r: String)
        ensures
            r@ == version_message(*self),
    {
        let mut s = "unsupported format version: ".to_owned();
        let n = number(self.0);
        s.append(n.as_str());
        s
    }
}

pub open spec fn object_format_message(value: Seq<u8>) -> Seq<char> {
    "unknown hash algorithm: "@ + escaped(value)
}

impl ObjectFormatError {
    pub fn message(&self) -> (r: String)
        ensures
            r@ == object_format_message(self.0@),
    {
        let mut s = "unknown hash algorithm: ".to_owned();
        let value = escape_ascii(self.0.as_slice());
        s.append(value.as_str());
        s
    }
}

pub open spec fn ref_format_message(value: Seq<u8>) -> Seq<char> {
    "unknown reference backend '"@ + escaped(value) + "', expected 'files' or 'reftable'"@
}

impl RefFormatError {
    pub fn message(&self) -> (r: String)
        ensures
            r@ == ref_format_message(self.0@),
    {
        let value = escape_ascii(self.0.as_slice());
        three(
            "unknown reference backend '",
            value.as_str(),
            "', expected 'files' or 'reftable'",
        )
    }
}

impl RefStorageError {
    pub fn message(&self) -> (r: String)
        ensures
            r@ == ref_format_message((self.0).0@),
    {
        self.0.message()
    }
}

pub open spec fn format_message(err: RepositoryFormatError) -> Seq<char> {
    match err {
        RepositoryFormatError::Config(source) => in_file(
            source.path@,
            config_kind_message(source.kind@),
        ),
        RepositoryFormatError::UnsupportedVersion(source) => version_message(source),
        RepositoryFormatError::V1ExtensionInV0(extension) => "extension 'extensions."@
            + extension_name(extension)@
            + "' requires format version 1 but the repository uses v0"@,
        RepositoryFormatError::UnknownV1Extension(extension) => "unknown extension 'extensions."@
            + extension_name(extension)@ + "' in repository format version 1"@,
        RepositoryFormatError::ObjectFormat { extension, source } => "invalid value for 'extensions."@
            + extension_name(extension)@ + "': "@ + object_format_message(source.0@),
        RepositoryFormatError::RefStorage(source) => ref_format_message((source.0).0@),
        RepositoryFormatError::DuplicateCompatObjectFormatExtension =>
            "'extensions.compatObjectFormat' must not be specified more than once"@,
        RepositoryFormatError::SamePrimaryAndCompatObjectFormat(format) =>
            "'extensions.compatObjectFormat' must differ from 'extensions.objectFormat'. Both were: "@
            + object_format_name(format)@,
        RepositoryFormatError::UnknownExtensionValue(extension) =>
            "unknown extension value for 'extensions."@ + extension_name(extension)@ + "'"@,
    }
}

impl RepositoryFormatError {
    pub fn message(&self) -> (r: String)
        ensures
            r@ == format_message(*self),
    {
        match self {
            RepositoryFormatError::Config(source) => source.message(),
            RepositoryFormatError::UnsupportedVersion(source) => source.message(),
            RepositoryFormatError::V1ExtensionInV0(extension) => three(
                "extension 'extensions.",
                extension.name(),
                "' requires format version 1 but the repository uses v0",
            ),
            RepositoryFormatError::UnknownV1Extension(extension) => three(
                "unknown extension 'extensions.",
                extension.name(),
                "' in repository format version 1",
            ),
            RepositoryFormatError::ObjectFormat { extension, source } => {
                let mut s = three("invalid value for 'extensions.", extension.name(), "': ");
                let message = source.message();
                s.append(message.as_str());
                s
            },
            RepositoryFormatError::RefStorage(source) => source.message(),
            RepositoryFormatError::DuplicateCompatObjectFormatExtension => {
                "'extensions.compatObjectFormat' must not be specified more than once".to_owned()
            },
            RepositoryFormatError::SamePrimaryAndCompatObjectFormat(format) => {
                let mut s =
                    "'extensions.compatObjectFormat' must differ from 'extensions.objectFormat'. Both were: ".to_owned();
                s.append(format.name());
                s
            },
            RepositoryFormatError::UnknownExtensionValue(extension) => three(
                "unknown extension value for 'extensions.",
                extension.name(),
                "'",
            ),
        }
    }
}

pub open spec fn litfile_message(kind: LitFileErrorKind<Seq<u8>>) -> Seq<char> {
    match kind {
        LitFileErrorKind::TooLarge => "litfile exceeds maximum size: 65536"@,
        LitFileErrorKind::MissingPrefix => "invalid lit file format: missing litdir:  prefix"@,
        LitFileErrorKind::Empty => "invalid litfile format: empty path"@,
        LitFileErrorKind::MissingLineEnding => "invalid litfile format: missing line ending"@,
        LitFileErrorKind::OsPath(_) => "bad fs path"@,
    }
}

impl LitFileErrorKind {
    pub fn message(&self) -> (r: &'static str)
        ensures
            r@ == litfile_message(self@),
    {
        match self {
            LitFileErrorKind::TooLarge => "litfile exceeds maximum size: 65536",
            LitFileErrorKind::MissingPrefix => "invalid lit file format: missing litdir:  prefix",
            LitFileErrorKind::Empty => "invalid litfile format: empty path",
            LitFileErrorKind::MissingLineEnding => "invalid litfile format: missing line ending",
            LitFileErrorKind::OsPath(_) => "bad fs path",
        }
    }
}

impl LitFileError {
    pub fn message(&self) -> (r: String)
        ensures
            r@ == in_file(self.path@, litfile_message(self.kind@)),
    {
        message_in_file(self.path.as_bytes(), self.kind.message())
    }
}

impl LayoutError {
    pub fn message(&self) -> (r: &'static str)
        ensures
            r@ == (match *self {
                LayoutError::OsPath(_) => "bad path"@,
                LayoutError::LitWorkTreeWithBare => "LIT_WORK_TREE not allowed with --bare option"@,
            }),
    {
        match self {
            LayoutError::OsPath(_) => "bad path",
            LayoutError::LitWorkTreeWithBare => "LIT_WORK_TREE not allowed with --bare option",
        }
    }
}

pub open spec fn entry_label(entry: EntryType) -> &'static str {
    match entry {
        EntryType::File => "file",
        EntryType::Directory => "directory",
        EntryType::Symlink => "symlink",
        EntryType::Other => "other",
    }
}

impl RepositoryError {
    pub fn message(&self) -> (r: String)
        ensures
            match *self {
                RepositoryError::OsPath(_) => r@ == "bad path"@,
                RepositoryError::Litfile(_) => r@ == "could not read metadata pointer"@,
                RepositoryError::Config(_) => r@ == "could not load repository configuration"@,
                RepositoryError::RepositoryFormat(_) => r@ == "bad repository format"@,
                RepositoryError::NotRepository(path) => r@ == around(
                    "not a lit repository: "@,
                    path@,
                    ""@,
                ),
                RepositoryError::UnexpectedEntry { path, entry } => r@ == around(
                    "expected a metadata directory or a regular pointer file at "@,
                    path@,
                    ", found "@,
                ) + entry_label(entry)@,
                RepositoryError::NotARegularFile(path) => r@ == around(
                    "not a regular file: "@,
                    path@,
                    ""@,
                ),
                RepositoryError::BadHeadOid { path, .. } => r@ == around(
                    "bad object id in HEAD at "@,
                    path@,
                    ""@,
                ),
            },
    {
        match self {
            RepositoryError::OsPath(_) => "bad path".to_owned(),
            RepositoryError::Litfile(_) => "could not read metadata pointer".to_owned(),
            RepositoryError::Config(_) => "could not load repository configuration".to_owned(),
            RepositoryError::RepositoryFormat(_) => "bad repository format".to_owned(),
            RepositoryError::NotRepository(path) => text_around(
                "not a lit repository: ",
                path.as_bytes(),
                "",
            ),
            RepositoryError::UnexpectedEntry { path, entry } => {
                let mut s = text_around(
                    "expected a metadata directory or a regular pointer file at ",
                    path.as_bytes(),
                    ", found ",
                );
                s.append(entry.name());
                s
            },
            RepositoryError::NotARegularFile(path) => text_around(
                "not a regular file: ",
                path.as_bytes(),
                "",
            ),
            RepositoryError::BadHeadOid { path, .. } => text_around(
                "bad object id in HEAD at ",
                path.as_bytes(),
                "",
            ),
        }
    }
}

impl InitError {
    pub fn message(&self) -> (r: String)
        ensures
            match *self {
                InitError::BadEntry { path, entry } => r@ == around(
                    ""@,
                    path@,
                    " already exists and is not a "@,
                ) + entry_label(entry)@,
                InitError::LitFile(err) => r@ == in_file(
                    err.path@,
                    in_file(err.path@, litfile_message(err.kind@)),
                ),
                InitError::Config(err) => r@ == in_file(
                    err.path@,
                    in_file(err.path@, config_kind_message(err.kind@)),
                ),
                InitError::RepositoryFormat(err) => r@ == format_message(err),
                InitError::UnknownRefStorage(err) => r@ == ref_format_message((err.0).0@),
                InitError::UnknownObjectFormat(err) => r@ == object_format_message(err.0@),
                InitError::HashMismatch => r@
                    == "attempted to reinitialize repository with different hash"@,
                InitError::RefStorageMisMatch => r@
                    == "attempted to reinitialize repository with different storage format"@,
            },
    {
        match self {
            InitError::BadEntry { path, entry } => {
                let mut s = text_around("", path.as_bytes(), " already exists and is not a ");
                s.append(entry.name());
                s
            },
            InitError::LitFile(err) => {
                let message = err.message();
                message_in_file(err.path.as_bytes(), message.as_str())
            },
            InitError::Config(err) => {
                let message = err.message();
                message_in_file(err.path.as_bytes(), message.as_str())
            },
            InitError::RepositoryFormat(err) => err.message(),
            InitError::UnknownRefStorage(err) => err.message(),
            InitError::UnknownObjectFormat(err) => err.message(),
            InitError::HashMismatch => {
                "attempted to reinitialize repository with different hash".to_owned()
            },
            InitError::RefStorageMisMatch => {
                "attempted to reinitialize repository with different storage format".to_owned()
            },
        }
    }
}

impl Utf8Error {
    pub fn message(&self) -> (r: String)
        ensures
            r@ == "invalid "@ + number_text(self.len as nat) + " byte utf-8 sequence from index "@
                + number_text(self.pos as nat),
    {
        let len = number(self.len as u64);
        let pos = number(self.pos as u64);
        let mut s = three("invalid ", len.as_str(), " byte utf-8 sequence from index ");
        s.append(pos.as_str());
        s
    }
}

impl SignatureError {
    /// The message. It has none for a variable that is no text: what that holds is shown as the
    /// system shows it.
    pub fn message(&self) -> (r: Option<String>)
        ensures
            match *self {
                SignatureError::ConfigError(_) => r matches Some(s) && s@ == "bad config"@,
                SignatureError::NotFound(name) => r matches Some(s) && s@ == name@
                    + " is not set"@,
                SignatureError::EnvNotUnicode { .. } => r is None,
            },
    {
        match self {
            SignatureError::ConfigError(_) => Some("bad config".to_owned()),
            SignatureError::NotFound(name) => {
                let mut s = (*name).to_owned();
                s.append(" is not set");
                Some(s)
            },
            SignatureError::EnvNotUnicode { .. } => None,
        }
    }
}

/// In a message, visible ASCII stands for itself, with a backslash in front of quotes and
/// backslashes. A tab, a newline and a carriage return are `\t`, `\n` and `\r`, and every other byte
/// is `\x` and its two hexadecimal digits.
pub proof fn bytes_are_shown_in_ascii(b: Seq<u8>, x: u8)
    ensures
        escaped(Seq::empty()) == Seq::<char>::empty(),
        ({
            let shown = escaped(b.push(x)).skip(escaped(b).len() as int);
            let is_quoted = x == 0x22 || x == 0x27 || x == 0x5c;
            &&& escaped(b.push(x)) == escaped(b) + shown
            &&& x == 0x09 ==> shown == seq!['\\', 't']
            &&& x == 0x0a ==> shown == seq!['\\', 'n']
            &&& x == 0x0d ==> shown == seq!['\\', 'r']
            &&& is_quoted ==> shown == seq!['\\', x as char]
            &&& 0x20 <= x < 0x7f && !is_quoted ==> shown == seq![x as char]
            &&& (x < 0x20 && x != 0x09 && x != 0x0a && x != 0x0d) || x >= 0x7f ==> shown.len() == 4
                && shown.take(2) == seq!['\\', 'x'] && hex_of(seq![x]) == seq![
                shown[2] as u8,
                shown[3] as u8,
            ]
        }),
{
    assert(b.push(x).drop_last() =~= b);
    let shown = escaped(b.push(x)).skip(escaped(b).len() as int);
    assert(shown =~= escaped_byte(x));
    assert(escaped(b.push(x)) =~= escaped(b) + shown);
    assert(hex_of(seq![x]) =~= seq![hex_digit(x as int / 16), hex_digit(x as int % 16)]);
    if (x < 0x20 && x != 0x09 && x != 0x0a && x != 0x0d) || x >= 0x7f {
        assert(shown.take(2) =~= seq!['\\', 'x']);
        assert(hex_digit(x as int / 16) < 0x80 && hex_digit(x as int % 16) < 0x80);
    }
}

} // verus!
