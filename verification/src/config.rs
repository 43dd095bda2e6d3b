//! Configuration files.

pub mod doc;
pub mod edits;
pub mod index;
pub mod key;
pub mod laws;
pub mod lines;
pub mod parse;
pub mod reading;
pub mod reload;
pub mod syntax;
pub mod value;

use crate::bytes::{
    all_digits, copy_of, decimal_value, downcased, is_digit, is_text, spec_is_digit,
    string_from_utf8, text, until, DIGIT_0, DOT,
};
use crate::config::doc::{
    concat, entries_of, inserted, replaced, replaced_at, value_of, without_key, without_section,
    ConfigDoc, LineView, Value, VariableEntry, VariablePos,
};
use crate::config::index::{key_at, lemma_positions, positions_of};
use crate::config::key::{
    all_name_bytes, key_of_name, last_index, section_of_name, ConfigKey, SectionKey,
};
use crate::config::lines::{lines_of, ConfigDocError};
use crate::config::parse::{is_name, spec_is_alphabetic, spec_is_name_byte};
use crate::path::OsPath;
use vstd::prelude::*;
use vstd::string::*;
use vstd::utf8::*;

verus! {

/// A variable with its value.
#[derive(Debug)]
pub struct ConfigEntry {
    pub key: ConfigKey,
    pub value: Value,
}

impl ConfigEntry {
    pub fn key(&self) -> (r: &ConfigKey)
        ensures
            *r == self.key,
    {
        &self.key
    }

    pub fn value(&self) -> (r: &Value)
        ensures
            *r == self.value,
    {
        &self.value
    }
}

/// The truth value that a value stands for: `true` and `false` in lowercase, and true where there
/// is no value.
pub open spec fn bool_of(value: Value<Seq<u8>>) -> Option<bool> {
    match value {
        Value::ImplicitlyTrue => Some(true),
        Value::Bytes(b) => if b == text("true") {
            Some(true)
        } else if b == text("false") {
            Some(false)
        } else {
            None
        },
    }
}

impl Value {
    pub fn to_bool(&self) -> (r: Option<bool>)
        ensures
            r == bool_of(self@),
    {
        match self {
            Value::ImplicitlyTrue => Some(true),
            Value::Bytes(bytes) => {
                if is_text(bytes.as_slice(), "true") {
                    Some(true)
                } else if is_text(bytes.as_slice(), "false") {
                    Some(false)
                } else {
                    None
                }
            },
        }
    }
}

#[allow(inconsistent_fields)]
#[derive(Debug, PartialEq, Eq)]
pub enum ConfigFileErrorKind<B = Vec<u8>> {
    Doc(ConfigDocError),
    BadKey(B),
    BadSectionName(B),
    MultipleValues(B),
    NotFound(B),
    /// The value is not of the type that was asked for. A variable without a value has none to
    /// show.
    IncompatibleType { key: B, value: Option<B>, expected: &'static str },
}

impl View for ConfigFileErrorKind {
    type V = ConfigFileErrorKind<Seq<u8>>;

    open spec fn view(&self) -> ConfigFileErrorKind<Seq<u8>> {
        match *self {
            ConfigFileErrorKind::Doc(err) => ConfigFileErrorKind::Doc(err),
            ConfigFileErrorKind::BadKey(b) => ConfigFileErrorKind::BadKey(b@),
            ConfigFileErrorKind::BadSectionName(b) => ConfigFileErrorKind::BadSectionName(b@),
            ConfigFileErrorKind::MultipleValues(b) => ConfigFileErrorKind::MultipleValues(b@),
            ConfigFileErrorKind::NotFound(b) => ConfigFileErrorKind::NotFound(b@),
            ConfigFileErrorKind::IncompatibleType { key, value, expected } =>
                ConfigFileErrorKind::IncompatibleType {
                key: key@,
                value: match value {
                    Some(v) => Some(v@),
                    None => None,
                },
                expected,
            },
        }
    }
}

/// An error, and the file it is about.
#[derive(Debug)]
pub struct ConfigFileError {
    pub path: OsPath,
    pub kind: ConfigFileErrorKind,
}

impl ConfigFileError {
    pub fn is_key_not_found(&self) -> (r: bool)
        ensures
            r == (self.kind is NotFound),
    {
        match &self.kind {
            ConfigFileErrorKind::NotFound(_) => true,
            _ => false,
        }
    }
}

/// The only definition of a variable.
pub open spec fn lookup(lines: Seq<LineView>, name: Seq<u8>) -> Result<
    (ConfigKey<Seq<u8>>, VariablePos),
    ConfigFileErrorKind<Seq<u8>>,
> {
    match key_of_name(name) {
        None => Err(ConfigFileErrorKind::BadKey(name)),
        Some(key) => {
            let positions = positions_of(lines, key);
            if positions.len() == 0 {
                Err(ConfigFileErrorKind::NotFound(name))
            } else if positions.len() > 1 {
                Err(ConfigFileErrorKind::MultipleValues(name))
            } else {
                Ok((key, positions[0]))
            }
        },
    }
}

/// The value of a variable that is defined once.
pub open spec fn got(lines: Seq<LineView>, name: Seq<u8>) -> Result<
    Value<Seq<u8>>,
    ConfigFileErrorKind<Seq<u8>>,
> {
    match lookup(lines, name) {
        Ok((_, pos)) => Ok(value_of(lines[pos.0 as int])),
        Err(err) => Err(err),
    }
}

/// All the values of a variable, in the order of its definitions.
pub open spec fn got_all(lines: Seq<LineView>, name: Seq<u8>) -> Result<
    Seq<Value<Seq<u8>>>,
    ConfigFileErrorKind<Seq<u8>>,
> {
    match key_of_name(name) {
        None => Err(ConfigFileErrorKind::BadKey(name)),
        Some(key) => {
            let positions = positions_of(lines, key);
            if positions.len() == 0 {
                Err(ConfigFileErrorKind::NotFound(name))
            } else {
                Ok(
                    Seq::new(
                        positions.len(),
                        |k: int| value_of(lines[positions[k].0 as int]),
                    ),
                )
            }
        },
    }
}

pub open spec fn incompatible(
    name: Seq<u8>,
    value: Option<Seq<u8>>,
    expected: &'static str,
) -> ConfigFileErrorKind<Seq<u8>> {
    ConfigFileErrorKind::IncompatibleType { key: name, value, expected }
}

pub open spec fn got_bytes(
    lines: Seq<LineView>,
    name: Seq<u8>,
    expected: &'static str,
) -> Result<Seq<u8>, ConfigFileErrorKind<Seq<u8>>> {
    match got(lines, name) {
        Err(err) => Err(err),
        Ok(Value::ImplicitlyTrue) => Err(incompatible(name, None, expected)),
        Ok(Value::Bytes(bytes)) => Ok(bytes),
    }
}

pub open spec fn got_str(lines: Seq<LineView>, name: Seq<u8>) -> Result<
    Seq<u8>,
    ConfigFileErrorKind<Seq<u8>>,
> {
    match got_bytes(lines, name, "string") {
        Err(err) => Err(err),
        Ok(bytes) => if valid_utf8(bytes) {
            Ok(bytes)
        } else {
            Err(incompatible(name, Some(bytes), "string"))
        },
    }
}

/// A value of digits alone that fits in 64 bits. No digits stand for zero.
pub open spec fn got_int(lines: Seq<LineView>, name: Seq<u8>) -> Result<
    nat,
    ConfigFileErrorKind<Seq<u8>>,
> {
    match got_bytes(lines, name, "numeric") {
        Err(err) => Err(err),
        Ok(bytes) => if all_digits(bytes) && decimal_value(bytes) <= u64::MAX {
            Ok(decimal_value(bytes))
        } else {
            Err(incompatible(name, None, "numeric"))
        },
    }
}

pub open spec fn got_bool(lines: Seq<LineView>, name: Seq<u8>) -> Result<
    bool,
    ConfigFileErrorKind<Seq<u8>>,
> {
    match got(lines, name) {
        Err(err) => Err(err),
        Ok(value) => match bool_of(value) {
            Some(b) => Ok(b),
            None => Err(incompatible(name, Some(value->Bytes_0), "bool")),
        },
    }
}

/// The file with a variable set that is defined once at most.
pub open spec fn with_set(lines: Seq<LineView>, name: Seq<u8>, value: Seq<u8>) -> Result<
    Seq<LineView>,
    ConfigFileErrorKind<Seq<u8>>,
> {
    match lookup(lines, name) {
        Ok((_, pos)) => Ok(replaced(lines, pos.0 as int, value)),
        Err(ConfigFileErrorKind::NotFound(_)) => Ok(
            inserted(lines, key_of_name(name)->0, value),
        ),
        Err(err) => Err(err),
    }
}

/// The file with all the definitions of a variable set, or with one if there was none.
pub open spec fn with_set_all(lines: Seq<LineView>, name: Seq<u8>, value: Seq<u8>) -> Result<
    Seq<LineView>,
    ConfigFileErrorKind<Seq<u8>>,
> {
    match key_of_name(name) {
        None => Err(ConfigFileErrorKind::BadKey(name)),
        Some(key) => {
            let positions = positions_of(lines, key);
            if positions.len() == 0 {
                Ok(inserted(lines, key, value))
            } else {
                Ok(replaced_at(lines, positions, value, positions.len() as int))
            }
        },
    }
}

/// The file without a variable that is defined once at most.
pub open spec fn with_unset(lines: Seq<LineView>, name: Seq<u8>) -> Result<
    Seq<LineView>,
    ConfigFileErrorKind<Seq<u8>>,
> {
    match lookup(lines, name) {
        Ok((_, pos)) => Ok(lines.remove(pos.0 as int)),
        Err(ConfigFileErrorKind::NotFound(_)) => Ok(lines),
        Err(err) => Err(err),
    }
}

/// The file without any definition of a variable.
pub open spec fn with_unset_all(lines: Seq<LineView>, name: Seq<u8>) -> Result<
    Seq<LineView>,
    ConfigFileErrorKind<Seq<u8>>,
> {
    match key_of_name(name) {
        None => Err(ConfigFileErrorKind::BadKey(name)),
        Some(key) => Ok(without_key(lines, key)),
    }
}

/// The names that a key is made of.
pub proof fn lemma_key_of_name(name: Seq<u8>)
    ensures
        key_of_name(name) matches Some(key) ==> {
            &&& is_name(key.name)
            &&& spec_is_alphabetic(key.name[0])
            &&& is_name(key.section.name)
        },
{
    lemma_downcased(name.skip(last_index(name, DOT) + 1));
    let header = name.take(last_index(name, DOT));
    lemma_downcased(header.take(until(header, DOT)));
}

proof fn lemma_downcased(b: Seq<u8>)
    ensures
        all_name_bytes(b) ==> all_name_bytes(downcased(b)),
        downcased(b).len() == b.len(),
        b.len() > 0 && spec_is_alphabetic(b[0]) ==> spec_is_alphabetic(downcased(b)[0]),
{
    if all_name_bytes(b) {
        assert forall|i: int| 0 <= i < b.len() implies spec_is_name_byte(
            #[trigger] downcased(b)[i],
        ) by {
            assert(spec_is_name_byte(b[i]));
        }
    }
}

/// A configuration file and its path.
#[derive(Debug)]
pub struct ConfigFile {
    pub path: OsPath,
    pub doc: ConfigDoc,
}

impl View for ConfigFile {
    type V = Seq<LineView>;

    open spec fn view(&self) -> Seq<LineView> {
        self.doc@
    }
}

impl ConfigFile {
    pub open spec fn wf(&self) -> bool {
        self.doc.wf()
    }

    /// The file at a path that holds these bytes.
    pub fn new(path: OsPath, bytes: Vec<u8>) -> (r: Result<Self, ConfigFileError>)
        ensures
            match lines_of(bytes@) {
                Ok(lines) => r matches Ok(file) && file.wf() && file.path@ == path@ && file@
                    == lines,
                Err(err) => r matches Err(e) && e.path@ == path@ && e.kind
                    == ConfigFileErrorKind::<Vec<u8>>::Doc(err),
            },
    {
        match ConfigDoc::load(bytes) {
            Ok(doc) => Ok(Self { path, doc }),
            Err(err) => Err(ConfigFileError { path, kind: ConfigFileErrorKind::Doc(err) }),
        }
    }

    /// A file that holds nothing yet.
    pub fn empty(path: OsPath) -> (file: Self)
        ensures
            file.wf(),
            file.path@ == path@,
            file@ == Seq::<LineView>::empty(),
    {
        Self { path, doc: ConfigDoc::empty() }
    }

    /// The file at a path, which is empty if there is no such file.
    pub fn new_or_empty(path: OsPath, bytes: Option<Vec<u8>>) -> (r: Result<Self, ConfigFileError>)
        ensures
            match bytes {
                None => r matches Ok(file) && file.wf() && file.path@ == path@ && file@ == Seq::<
                    LineView,
                >::empty(),
                Some(bytes) => match lines_of(bytes@) {
                    Ok(lines) => r matches Ok(file) && file.wf() && file.path@ == path@ && file@
                        == lines,
                    Err(err) => r matches Err(e) && e.path@ == path@ && e.kind
                        == ConfigFileErrorKind::<Vec<u8>>::Doc(err),
                },
            },
    {
        match bytes {
            None => Ok(Self::empty(path)),
            Some(bytes) => Self::new(path, bytes),
        }
    }

    fn error(&self, kind: ConfigFileErrorKind) -> (r: ConfigFileError)
        ensures
            r.path@ == self.path@,
            r.kind == kind,
    {
        ConfigFileError { path: self.path.copied(), kind }
    }

    fn parse_key(&self, name: &[u8]) -> (r: Result<ConfigKey, ConfigFileError>)
        ensures
            match key_of_name(name@) {
                Some(key) => r matches Ok(k) && k@ == key && is_name(key.name)
                    && spec_is_alphabetic(key.name[0]) && is_name(key.section.name),
                None => r matches Err(e) && e.path@ == self.path@ && e.kind@
                    == ConfigFileErrorKind::BadKey(name@),
            },
    {
        proof {
            lemma_key_of_name(name@);
        }
        match ConfigKey::from_name(name) {
            Some(key) => Ok(key),
            None => Err(self.error(ConfigFileErrorKind::BadKey(copy_of(name)))),
        }
    }

    fn locate(&self, name: &[u8]) -> (r: Result<(ConfigKey, VariablePos), ConfigFileError>)
        requires
            self.wf(),
        ensures
            match lookup(self@, name@) {
                Ok((key, pos)) => r matches Ok((k, p)) && k@ == key && p == pos && pos.0
                    < self@.len() && self@[pos.0 as int].kind is Variable && key_of_name(name@)
                    == Some(key),
                Err(err) => r matches Err(e) && e.path@ == self.path@ && e.kind@ == err,
            },
    {
        let key = match self.parse_key(name) {
            Ok(key) => key,
            Err(err) => {
                return Err(err);
            },
        };
        proof {
            assert(self.doc.lines.len() == self@.len());
            lemma_positions(self@, key@, self@.len() as int);
        }
        match self.doc.key_positions(&key) {
            Some(positions) => {
                if positions.single() {
                    let pos = positions.first();
                    assert(key_at(self@, pos.0 as int) == Some(key@));
                    Ok((key, pos))
                } else {
                    Err(self.error(ConfigFileErrorKind::MultipleValues(copy_of(name))))
                }
            },
            None => Err(self.error(ConfigFileErrorKind::NotFound(copy_of(name)))),
        }
    }

    /// The value of a variable that is defined once.
    pub fn get(&self, name: &[u8]) -> (r: Result<ConfigEntry, ConfigFileError>)
        requires
            self.wf(),
        ensures
            match got(self@, name@) {
                Ok(value) => r matches Ok(entry) && entry.value@ == value && key_of_name(name@)
                    == Some(entry.key@),
                Err(err) => r matches Err(e) && e.path@ == self.path@ && e.kind@ == err,
            },
    {
        match self.locate(name) {
            Ok((key, pos)) => {
                let value = self.doc.value_at(pos);
                Ok(ConfigEntry { key, value })
            },
            Err(err) => Err(err),
        }
    }

    /// All the values of a variable.
    pub fn get_all(&self, name: &[u8]) -> (r: Result<Vec<Value>, ConfigFileError>)
        requires
            self.wf(),
        ensures
            match got_all(self@, name@) {
                Ok(values) => r matches Ok(v) && v@.map_values(|v: Value| v@) == values,
                Err(err) => r matches Err(e) && e.path@ == self.path@ && e.kind@ == err,
            },
    {
        let key = match self.parse_key(name) {
            Ok(key) => key,
            Err(err) => {
                return Err(err);
            },
        };
        proof {
            assert(self.doc.lines.len() == self@.len());
            lemma_positions(self@, key@, self@.len() as int);
        }
        let positions = match self.doc.key_positions(&key) {
            Some(positions) => positions.to_vec(),
            None => {
                return Err(self.error(ConfigFileErrorKind::NotFound(copy_of(name))));
            },
        };
        let ghost places = positions@;
        let ghost wanted = Seq::new(
            places.len(),
            |k: int| value_of(self@[places[k].0 as int]),
        );
        let mut values: Vec<Value> = Vec::new();
        let mut k: usize = 0;
        assert(values@.map_values(|v: Value| v@) =~= wanted.take(0));
        while k < positions.len()
            invariant
                k <= positions@.len(),
                positions@ == places,
                self.wf(),
                wanted == Seq::new(places.len(), |k: int| value_of(self@[places[k].0 as int])),
                forall|k: int|
                    0 <= k < places.len() ==> {
                        let p = (#[trigger] places[k]).0;
                        p < self@.len() && key_at(self@, p as int) == Some(key@)
                    },
                values@.map_values(|v: Value| v@) == wanted.take(k as int),
            decreases positions@.len() - k,
        {
            assert(key_at(self@, places[k as int].0 as int) == Some(key@));
            let value = self.doc.value_at(positions[k]);
            let ghost so_far = values@.map_values(|v: Value| v@);
            values.push(value);
            assert(values@.map_values(|v: Value| v@) =~= so_far.push(value@));
            assert(wanted.take(k + 1) =~= wanted.take(k as int).push(wanted[k as int]));
            k = k + 1;
        }
        assert(wanted.take(k as int) =~= wanted);
        Ok(values)
    }

    fn get_of_type(&self, name: &[u8], expected: &'static str) -> (r: Result<
        Vec<u8>,
        ConfigFileError,
    >)
        requires
            self.wf(),
        ensures
            match got_bytes(self@, name@, expected) {
                Ok(bytes) => r matches Ok(b) && b@ == bytes,
                Err(err) => r matches Err(e) && e.path@ == self.path@ && e.kind@ == err,
            },
    {
        match self.get(name) {
            Ok(entry) => match entry.value {
                Value::ImplicitlyTrue => Err(
                    self.error(
                        ConfigFileErrorKind::IncompatibleType {
                            key: copy_of(name),
                            value: None,
                            expected,
                        },
                    ),
                ),
                Value::Bytes(bytes) => Ok(bytes),
            },
            Err(err) => Err(err),
        }
    }

    /// The value of a variable as text.
    pub fn get_str(&self, name: &[u8]) -> (r: Result<String, ConfigFileError>)
        requires
            self.wf(),
        ensures
            match got_str(self@, name@) {
                Ok(bytes) => r matches Ok(s) && encode_utf8(s@) == bytes,
                Err(err) => r matches Err(e) && e.path@ == self.path@ && e.kind@ == err,
            },
    {
        let bytes = match self.get_of_type(name, "string") {
            Ok(bytes) => bytes,
            Err(err) => {
                return Err(err);
            },
        };
        let shown = copy_of(bytes.as_slice());
        match string_from_utf8(bytes) {
            Ok(s) => Ok(s),
            Err(_) => Err(
                self.error(
                    ConfigFileErrorKind::IncompatibleType {
                        key: copy_of(name),
                        value: Some(shown),
                        expected: "string",
                    },
                ),
            ),
        }
    }

    /// The value of a variable as a number.
    pub fn get_int(&self, name: &[u8]) -> (r: Result<u64, ConfigFileError>)
        requires
            self.wf(),
        ensures
            match got_int(self@, name@) {
                Ok(n) => r matches Ok(v) && v == n,
                Err(err) => r matches Err(e) && e.path@ == self.path@ && e.kind@ == err,
            },
    {
        let bytes = match self.get_of_type(name, "numeric") {
            Ok(bytes) => bytes,
            Err(err) => {
                return Err(err);
            },
        };
        match parse_decimal(bytes.as_slice()) {
            Some(n) => Ok(n),
            None => Err(
                self.error(
                    ConfigFileErrorKind::IncompatibleType {
                        key: copy_of(name),
                        value: None,
                        expected: "numeric",
                    },
                ),
            ),
        }
    }

    /// The value of a variable as a truth value.
    pub fn get_bool(&self, name: &[u8]) -> (r: Result<bool, ConfigFileError>)
        requires
            self.wf(),
        ensures
            match got_bool(self@, name@) {
                Ok(b) => r matches Ok(v) && v == b,
                Err(err) => r matches Err(e) && e.path@ == self.path@ && e.kind@ == err,
            },
    {
        let entry = match self.get(name) {
            Ok(entry) => entry,
            Err(err) => {
                return Err(err);
            },
        };
        match entry.value.to_bool() {
            Some(b) => Ok(b),
            None => match entry.value {
                Value::ImplicitlyTrue => Ok(true),
                Value::Bytes(bytes) => Err(
                    self.error(
                        ConfigFileErrorKind::IncompatibleType {
                            key: copy_of(name),
                            value: Some(bytes),
                            expected: "bool",
                        },
                    ),
                ),
            },
        }
    }

    /// The value of a variable, whatever bytes it holds.
    pub fn get_bytes(&self, name: &[u8]) -> (r: Result<Vec<u8>, ConfigFileError>)
        requires
            self.wf(),
        ensures
            match got_bytes(self@, name@, "any byte") {
                Ok(bytes) => r matches Ok(b) && b@ == bytes,
                Err(err) => r matches Err(e) && e.path@ == self.path@ && e.kind@ == err,
            },
    {
        self.get_of_type(name, "any byte")
    }

    /// Sets a variable that is defined once at most. One that is not defined is added.
    pub fn set(&mut self, name: &[u8], value: &[u8]) -> (r: Result<(), ConfigFileError>)
        requires
            old(self).wf(),
            old(self)@.len() + 2 <= usize::MAX,
        ensures
            final(self).wf(),
            final(self).path@ == old(self).path@,
            match with_set(old(self)@, name@, value@) {
                Ok(lines) => r is Ok && final(self)@ == lines,
                Err(err) => r matches Err(e) && e.path@ == old(self).path@ && e.kind@ == err
                    && final(self)@ == old(self)@,
            },
    {
        match self.locate(name) {
            Ok((_, pos)) => {
                self.doc.replace_value(pos, value);
                Ok(())
            },
            Err(err) => {
                if !err.is_key_not_found() {
                    return Err(err);
                }
                let key = match self.parse_key(name) {
                    Ok(key) => key,
                    Err(err) => {
                        return Err(err);
                    },
                };
                self.doc.insert_variable(&key, value);
                Ok(())
            },
        }
    }

    /// Sets all the definitions of a variable. One that is not defined is added.
    pub fn set_all(&mut self, name: &[u8], value: &[u8]) -> (r: Result<(), ConfigFileError>)
        requires
            old(self).wf(),
            old(self)@.len() + 2 <= usize::MAX,
        ensures
            final(self).wf(),
            final(self).path@ == old(self).path@,
            match with_set_all(old(self)@, name@, value@) {
                Ok(lines) => r is Ok && final(self)@ == lines,
                Err(err) => r matches Err(e) && e.path@ == old(self).path@ && e.kind@ == err
                    && final(self)@ == old(self)@,
            },
    {
        let key = match self.parse_key(name) {
            Ok(key) => key,
            Err(err) => {
                return Err(err);
            },
        };
        proof {
            lemma_positions(self@, key@, self@.len() as int);
        }
        let positions = match self.doc.key_positions(&key) {
            Some(positions) => positions.to_vec(),
            None => {
                self.doc.insert_variable(&key, value);
                return Ok(());
            },
        };
        proof {
            assert forall|k: int| 0 <= k < positions@.len() implies (#[trigger] positions@[k]).0
                < self@.len() && self@[positions@[k].0 as int].kind is Variable by {
                assert(key_at(self@, positions@[k].0 as int) == Some(key@));
            }
        }
        self.doc.replace_values(&positions, value);
        Ok(())
    }

    /// Removes a variable that is defined once at most.
    pub fn unset(&mut self, name: &[u8]) -> (r: Result<(), ConfigFileError>)
        requires
            old(self).wf(),
        ensures
            final(self).wf(),
            final(self).path@ == old(self).path@,
            match with_unset(old(self)@, name@) {
                Ok(lines) => r is Ok && final(self)@ == lines,
                Err(err) => r matches Err(e) && e.path@ == old(self).path@ && e.kind@ == err
                    && final(self)@ == old(self)@,
            },
    {
        match self.locate(name) {
            Ok((_, pos)) => {
                self.doc.remove_line(pos);
                Ok(())
            },
            Err(err) => {
                if err.is_key_not_found() {
                    Ok(())
                } else {
                    Err(err)
                }
            },
        }
    }

    /// Removes all the definitions of a variable.
    pub fn unset_all(&mut self, name: &[u8]) -> (r: Result<(), ConfigFileError>)
        requires
            old(self).wf(),
        ensures
            final(self).wf(),
            final(self).path@ == old(self).path@,
            match with_unset_all(old(self)@, name@) {
                Ok(lines) => r is Ok && final(self)@ == lines,
                Err(err) => r matches Err(e) && e.path@ == old(self).path@ && e.kind@ == err
                    && final(self)@ == old(self)@,
            },
    {
        match self.parse_key(name) {
            Ok(key) => {
                self.doc.remove_lines(&key);
                Ok(())
            },
            Err(err) => Err(err),
        }
    }

    /// Removes all the occurrences of a section.
    pub fn remove_section(&mut self, section: &[u8]) -> (r: Result<(), ConfigFileError>)
        requires
            old(self).wf(),
        ensures
            final(self).wf(),
            final(self).path@ == old(self).path@,
            match section_of_name(section@) {
                Some(key) => r is Ok && final(self)@ == without_section(old(self)@, key),
                None => r matches Err(e) && e.path@ == old(self).path@ && e.kind@
                    == ConfigFileErrorKind::BadSectionName(section@) && final(self)@ == old(self)@,
            },
    {
        match SectionKey::new(section) {
            Some(key) => {
                self.doc.remove_section(&key);
                Ok(())
            },
            None => Err(self.error(ConfigFileErrorKind::BadSectionName(copy_of(section)))),
        }
    }

    /// The variables of a section, if it occurs.
    pub fn section_entries(&self, section: &[u8]) -> (r: Result<
        Option<Vec<VariableEntry>>,
        ConfigFileError,
    >)
        requires
            self.wf(),
        ensures
            match section_of_name(section@) {
                Some(key) => match entries_of(self@, key) {
                    Some(entries) => r matches Ok(Some(v)) && v@.map_values(
                        |e: VariableEntry| e@,
                    ) == entries,
                    None => r matches Ok(None),
                },
                None => r matches Err(e) && e.path@ == self.path@ && e.kind@
                    == ConfigFileErrorKind::BadSectionName(section@),
            },
    {
        match SectionKey::new(section) {
            Some(key) => Ok(self.doc.section_entries(&key)),
            None => Err(self.error(ConfigFileErrorKind::BadSectionName(copy_of(section)))),
        }
    }

    /// The file as it is written.
    pub fn serialize(&self) -> (bytes: Vec<u8>)
        requires
            self.wf(),
        ensures
            bytes@ == concat(self@),
    {
        self.doc.serialize()
    }
}

/// The number that digits stand for, if it fits.
pub fn parse_decimal(b: &[u8]) -> (r: Option<u64>)
    ensures
        match r {
            Some(n) => all_digits(b@) && n == decimal_value(b@),
            None => !(all_digits(b@) && decimal_value(b@) <= u64::MAX),
        },
{
    let mut n: u64 = 0;
    let mut i: usize = 0;
    while i < b.len()
        invariant
            i <= b@.len(),
            all_digits(b@.take(i as int)),
            n == decimal_value(b@.take(i as int)),
        decreases b@.len() - i,
    {
        let ghost before = b@.take(i as int);
        let ghost after = b@.take(i + 1);
        assert(after.drop_last() =~= before);
        if !is_digit(b[i]) {
            assert(!spec_is_digit(b@[i as int]));
            return None;
        }
        let digit: u64 = (b[i] - DIGIT_0) as u64;
        proof {
            lemma_decimal_grows(b@, i + 1);
        }
        if n > (u64::MAX - digit) / 10 {
            return None;
        }
        n = n * 10 + digit;
        assert(all_digits(after));
        i = i + 1;
    }
    assert(b@.take(i as int) =~= b@);
    Some(n)
}

/// More digits make no smaller number.
proof fn lemma_decimal_grows(b: Seq<u8>, n: int)
    requires
        0 <= n <= b.len(),
        all_digits(b.take(n)),
    ensures
        all_digits(b) ==> decimal_value(b.take(n)) <= decimal_value(b),
    decreases b.len(),
{
    if n < b.len() {
        assert(b.drop_last().take(n) =~= b.take(n));
        lemma_decimal_grows(b.drop_last(), n);
    } else {
        assert(b.take(n) =~= b);
    }
}

} // verus!
