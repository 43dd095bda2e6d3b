//! Who makes a commit: the environment, then the configuration.

use crate::bytes::text;
use crate::config::doc::LineView;
use crate::config::{got_str, ConfigFile, ConfigFileError, ConfigFileErrorKind};
use crate::object::Signature;
use crate::timestamp::{is_clock_reading, zone_of, Timestamp};
use vstd::prelude::*;
use vstd::string::*;
use vstd::utf8::*;

verus! {

/// What an environment variable holds.
#[derive(Debug)]
pub enum EnvVar<S = String, B = Vec<u8>> {
    Value(S),
    NotPresent,
    NotUnicode(B),
}

impl View for EnvVar {
    type V = EnvVar<Seq<u8>, Seq<u8>>;

    open spec fn view(&self) -> EnvVar<Seq<u8>, Seq<u8>> {
        match *self {
            EnvVar::Value(s) => EnvVar::Value(encode_utf8(s@)),
            EnvVar::NotPresent => EnvVar::NotPresent,
            EnvVar::NotUnicode(bytes) => EnvVar::NotUnicode(bytes@),
        }
    }
}

#[derive(Debug)]
pub enum SignatureError<B = Vec<u8>, C = ConfigFileError> {
    /// Neither the environment nor the configuration tells.
    NotFound(&'static str),
    EnvNotUnicode { var: &'static str, value: B },
    ConfigError(C),
}

impl View for SignatureError {
    type V = SignatureError<Seq<u8>, ConfigFileErrorKind<Seq<u8>>>;

    open spec fn view(&self) -> SignatureError<Seq<u8>, ConfigFileErrorKind<Seq<u8>>> {
        match *self {
            SignatureError::NotFound(name) => SignatureError::NotFound(name),
            SignatureError::EnvNotUnicode { var, value } => SignatureError::EnvNotUnicode {
                var,
                value: value@,
            },
            SignatureError::ConfigError(err) => SignatureError::ConfigError(err.kind@),
        }
    }
}

/// The value of `key`, or else that of `fallback`.
pub open spec fn with_fallback(
    lines: Seq<LineView>,
    key: Seq<u8>,
    fallback: Seq<u8>,
    name: &'static str,
) -> Result<Seq<u8>, SignatureError<Seq<u8>, ConfigFileErrorKind<Seq<u8>>>> {
    match got_str(lines, key) {
        Ok(value) => Ok(value),
        Err(err) => if !(err is NotFound) {
            Err(SignatureError::ConfigError(err))
        } else {
            match got_str(lines, fallback) {
                Ok(value) => Ok(value),
                Err(err) => if err is NotFound {
                    Err(SignatureError::NotFound(name))
                } else {
                    Err(SignatureError::ConfigError(err))
                },
            }
        },
    }
}

/// One field of a signature. The environment comes first; what it holds has to be text.
pub open spec fn field_of(
    lines: Seq<LineView>,
    env: EnvVar<Seq<u8>, Seq<u8>>,
    var: &'static str,
    key: Seq<u8>,
    fallback: Seq<u8>,
    name: &'static str,
) -> Result<Seq<u8>, SignatureError<Seq<u8>, ConfigFileErrorKind<Seq<u8>>>> {
    match env {
        EnvVar::Value(value) => Ok(value),
        EnvVar::NotUnicode(value) => Err(SignatureError::EnvNotUnicode { var, value }),
        EnvVar::NotPresent => with_fallback(lines, key, fallback, name),
    }
}

/// The name and the email of the author.
pub open spec fn author_of(
    lines: Seq<LineView>,
    name: EnvVar<Seq<u8>, Seq<u8>>,
    email: EnvVar<Seq<u8>, Seq<u8>>,
) -> Result<(Seq<u8>, Seq<u8>), SignatureError<Seq<u8>, ConfigFileErrorKind<Seq<u8>>>> {
    match field_of(
        lines,
        name,
        "GIT_AUTHOR_NAME",
        text("author.name"),
        text("user.name"),
        "author name",
    ) {
        Err(err) => Err(err),
        Ok(name) => match field_of(
            lines,
            email,
            "GIT_AUTHOR_EMAIL",
            text("author.email"),
            text("user.email"),
            "author email",
        ) {
            Err(err) => Err(err),
            Ok(email) => Ok((name, email)),
        },
    }
}

/// The name and the email of the committer.
pub open spec fn committer_of(
    lines: Seq<LineView>,
    name: EnvVar<Seq<u8>, Seq<u8>>,
    email: EnvVar<Seq<u8>, Seq<u8>>,
) -> Result<(Seq<u8>, Seq<u8>), SignatureError<Seq<u8>, ConfigFileErrorKind<Seq<u8>>>> {
    match field_of(
        lines,
        name,
        "GIT_COMMITTER_NAME",
        text("committer.name"),
        text("user.name"),
        "commiter name",
    ) {
        Err(err) => Err(err),
        Ok(name) => match field_of(
            lines,
            email,
            "GIT_COMMITTER_EMAIL",
            text("committer.email"),
            text("user.email"),
            "committer email",
        ) {
            Err(err) => Err(err),
            Ok(email) => Ok((name, email)),
        },
    }
}

/// A signature with this name and email, or the error.
pub open spec fn signs(
    expected: Result<
        (Seq<u8>, Seq<u8>),
        SignatureError<Seq<u8>, ConfigFileErrorKind<Seq<u8>>>,
    >,
    r: Result<Signature, SignatureError>,
) -> bool {
    match expected {
        Ok((name, email)) => r matches Ok(s) && s@.name == name && s@.email == email,
        Err(err) => r matches Err(e) && e@ == err,
    }
}

/// The value of `key`, or else that of `fallback`.
pub fn get_with_fallback(
    cfg: &ConfigFile,
    key: &'static str,
    fallback: &'static str,
    name: &'static str,
) -> (r: Result<String, SignatureError>)
    requires
        cfg.wf(),
    ensures
        match with_fallback(cfg@, text(key), text(fallback), name) {
            Ok(value) => r matches Ok(s) && encode_utf8(s@) == value,
            Err(err) => r matches Err(e) && e@ == err,
        },
        r matches Err(SignatureError::ConfigError(e)) ==> e.path@ == cfg.path@,
{
    match cfg.get_str(key.as_bytes()) {
        Ok(value) => Ok(value),
        Err(err) => {
            if !err.is_key_not_found() {
                return Err(SignatureError::ConfigError(err));
            }
            match cfg.get_str(fallback.as_bytes()) {
                Ok(value) => Ok(value),
                Err(err) => if err.is_key_not_found() {
                    Err(SignatureError::NotFound(name))
                } else {
                    Err(SignatureError::ConfigError(err))
                },
            }
        },
    }
}

fn field(
    cfg: &ConfigFile,
    env: EnvVar,
    var: &'static str,
    key: &'static str,
    fallback: &'static str,
    name: &'static str,
) -> (r: Result<String, SignatureError>)
    requires
        cfg.wf(),
    ensures
        match field_of(cfg@, env@, var, text(key), text(fallback), name) {
            Ok(value) => r matches Ok(s) && encode_utf8(s@) == value,
            Err(err) => r matches Err(e) && e@ == err,
        },
        r matches Err(SignatureError::ConfigError(e)) ==> e.path@ == cfg.path@,
{
    match env {
        EnvVar::Value(value) => Ok(value),
        EnvVar::NotPresent => get_with_fallback(cfg, key, fallback, name),
        EnvVar::NotUnicode(value) => Err(SignatureError::EnvNotUnicode { var, value }),
    }
}

impl Signature {
    /// The author of a commit that is made at this time. `name` and `email` are what
    /// `GIT_AUTHOR_NAME` and `GIT_AUTHOR_EMAIL` hold.
    pub fn author_at(cfg: &ConfigFile, name: EnvVar, email: EnvVar, timestamp: Timestamp) -> (r:
        Result<Self, SignatureError>)
        requires
            cfg.wf(),
        ensures
            signs(author_of(cfg@, name@, email@), r),
            name@ matches EnvVar::Value(n) ==> (email@ matches EnvVar::Value(e) ==> (
            r matches Ok(s) && s@.name == n && s@.email == e)),
            r matches Err(SignatureError::ConfigError(e)) ==> e.path@ == cfg.path@,
            r matches Ok(s) ==> s.timestamp == timestamp,
    {
        let name = match field(
            cfg,
            name,
            "GIT_AUTHOR_NAME",
            "author.name",
            "user.name",
            "author name",
        ) {
            Ok(name) => name,
            Err(err) => {
                return Err(err);
            },
        };
        match field(
            cfg,
            email,
            "GIT_AUTHOR_EMAIL",
            "author.email",
            "user.email",
            "author email",
        ) {
            Ok(email) => Ok(Signature { email, name, timestamp }),
            Err(err) => Err(err),
        }
    }

    /// The author of a commit that is made now.
    pub fn author(cfg: &ConfigFile, name: EnvVar, email: EnvVar) -> (r: Result<
        Self,
        SignatureError,
    >)
        requires
            cfg.wf(),
        ensures
            signs(author_of(cfg@, name@, email@), r),
            name@ matches EnvVar::Value(n) ==> (email@ matches EnvVar::Value(e) ==> (
            r matches Ok(s) && s@.name == n && s@.email == e)),
            r matches Err(SignatureError::ConfigError(e)) ==> e.path@ == cfg.path@,
            r matches Ok(s) ==> s.timestamp.wf() && exists|secs: i32| #[trigger]
                is_clock_reading(s.timestamp.unix, secs) && -86_400 < secs < 86_400
                    && s.timestamp.timezone@ == zone_of(secs as int),
    {
        Self::author_at(cfg, name, email, Timestamp::now())
    }

    /// The committer of a commit that is made at this time. `name` and `email` are what
    /// `GIT_COMMITTER_NAME` and `GIT_COMMITTER_EMAIL` hold.
    pub fn committer_at(cfg: &ConfigFile, name: EnvVar, email: EnvVar, timestamp: Timestamp) -> (r:
        Result<Self, SignatureError>)
        requires
            cfg.wf(),
        ensures
            signs(committer_of(cfg@, name@, email@), r),
            name@ matches EnvVar::Value(n) ==> (email@ matches EnvVar::Value(e) ==> (
            r matches Ok(s) && s@.name == n && s@.email == e)),
            r matches Err(SignatureError::ConfigError(e)) ==> e.path@ == cfg.path@,
            r matches Ok(s) ==> s.timestamp == timestamp,
    {
        let name = match field(
            cfg,
            name,
            "GIT_COMMITTER_NAME",
            "committer.name",
            "user.name",
            "commiter name",
        ) {
            Ok(name) => name,
            Err(err) => {
                return Err(err);
            },
        };
        match field(
            cfg,
            email,
            "GIT_COMMITTER_EMAIL",
            "committer.email",
            "user.email",
            "committer email",
        ) {
            Ok(email) => Ok(Signature { email, name, timestamp }),
            Err(err) => Err(err),
        }
    }

    /// The committer of a commit that is made now.
    pub fn committer(cfg: &ConfigFile, name: EnvVar, email: EnvVar) -> (r: Result<
        Self,
        SignatureError,
    >)
        requires
            cfg.wf(),
        ensures
            signs(committer_of(cfg@, name@, email@), r),
            name@ matches EnvVar::Value(n) ==> (email@ matches EnvVar::Value(e) ==> (
            r matches Ok(s) && s@.name == n && s@.email == e)),
            r matches Err(SignatureError::ConfigError(e)) ==> e.path@ == cfg.path@,
            r matches Ok(s) ==> s.timestamp.wf() && exists|secs: i32| #[trigger]
                is_clock_reading(s.timestamp.unix, secs) && -86_400 < secs < 86_400
                    && s.timestamp.timezone@ == zone_of(secs as int),
    {
        Self::committer_at(cfg, name, email, Timestamp::now())
    }
}

/// The author is whom the environment names, whatever the configuration says. Where the environment
/// is silent, `author.name` and `author.email` count, and `user.name` and `user.email` only where those
/// are not set.
pub proof fn author_is_the_first_that_is_told(
    lines: Seq<LineView>,
    name: EnvVar<Seq<u8>, Seq<u8>>,
    email: EnvVar<Seq<u8>, Seq<u8>>,
)
    ensures
        ({
            let r = author_of(lines, name, email);
            let own_name = got_str(lines, text("author.name"));
            let own_email = got_str(lines, text("author.email"));
            let user_name = got_str(lines, text("user.name"));
            let user_email = got_str(lines, text("user.email"));
            let no_name = own_name matches Err(err) && err is NotFound;
            let no_email = own_email matches Err(err) && err is NotFound;
            &&& name matches EnvVar::Value(n) ==> (r matches Ok(s) ==> s.0 == n)
            &&& email matches EnvVar::Value(e) ==> (r matches Ok(s) ==> s.1 == e)
            &&& name is NotPresent ==> (own_name matches Ok(n) ==> (r matches Ok(s) ==> s.0 == n))
            &&& email is NotPresent ==> (own_email matches Ok(e) ==> (r matches Ok(s) ==> s.1
                == e))
            &&& name is NotPresent && no_name ==> (r matches Ok(s) ==> user_name matches Ok(n) && n
                == s.0)
            &&& email is NotPresent && no_email ==> (r matches Ok(s) ==> user_email matches Ok(e)
                && e == s.1)
            &&& (name is Value || name is NotPresent && (own_name is Ok || no_name && user_name
                is Ok)) && (email is Value || email is NotPresent && (own_email is Ok || no_email
                && user_email is Ok)) ==> r is Ok
        }),
{
}

/// A variable of the environment that is no text is an error that names it, and so is it if nobody
/// tells.
pub proof fn missing_authors_are_named(
    lines: Seq<LineView>,
    name: EnvVar<Seq<u8>, Seq<u8>>,
    email: EnvVar<Seq<u8>, Seq<u8>>,
)
    ensures
        ({
            let r = author_of(lines, name, email);
            let no_name = name is NotPresent && (got_str(lines, text("author.name")) matches Err(e)
                && e is NotFound) && (got_str(lines, text("user.name")) matches Err(e) && e
                is NotFound);
            let no_email = email is NotPresent && (got_str(lines, text("author.email")) matches Err(
                e,
            ) && e is NotFound) && (got_str(lines, text("user.email")) matches Err(e) && e
                is NotFound);
            &&& name matches EnvVar::NotUnicode(bytes) ==> (r matches Err(
                SignatureError::EnvNotUnicode { var, value },
            ) && var == "GIT_AUTHOR_NAME" && value == bytes)
            &&& name is Value ==> (email matches EnvVar::NotUnicode(bytes) ==> (r matches Err(
                SignatureError::EnvNotUnicode { var, value },
            ) && var == "GIT_AUTHOR_EMAIL" && value == bytes))
            &&& no_name ==> (r matches Err(SignatureError::NotFound(what)) && what == "author name")
            &&& name is Value && no_email ==> (r matches Err(SignatureError::NotFound(what)) && what
                == "author email")
        }),
{
}

/// The committer is whom the environment names, whatever the configuration says. Where the environment
/// is silent, `committer.name` and `committer.email` count, and `user.name` and `user.email` only where those
/// are not set.
pub proof fn committer_is_the_first_that_is_told(
    lines: Seq<LineView>,
    name: EnvVar<Seq<u8>, Seq<u8>>,
    email: EnvVar<Seq<u8>, Seq<u8>>,
)
    ensures
        ({
            let r = committer_of(lines, name, email);
            let own_name = got_str(lines, text("committer.name"));
            let own_email = got_str(lines, text("committer.email"));
            let user_name = got_str(lines, text("user.name"));
            let user_email = got_str(lines, text("user.email"));
            let no_name = own_name matches Err(err) && err is NotFound;
            let no_email = own_email matches Err(err) && err is NotFound;
            &&& name matches EnvVar::Value(n) ==> (r matches Ok(s) ==> s.0 == n)
            &&& email matches EnvVar::Value(e) ==> (r matches Ok(s) ==> s.1 == e)
            &&& name is NotPresent ==> (own_name matches Ok(n) ==> (r matches Ok(s) ==> s.0 == n))
            &&& email is NotPresent ==> (own_email matches Ok(e) ==> (r matches Ok(s) ==> s.1
                == e))
            &&& name is NotPresent && no_name ==> (r matches Ok(s) ==> user_name matches Ok(n) && n
                == s.0)
            &&& email is NotPresent && no_email ==> (r matches Ok(s) ==> user_email matches Ok(e)
                && e == s.1)
            &&& (name is Value || name is NotPresent && (own_name is Ok || no_name && user_name
                is Ok)) && (email is Value || email is NotPresent && (own_email is Ok || no_email
                && user_email is Ok)) ==> r is Ok
        }),
{
}

/// A variable of the environment that is no text is an error that names it, and so is it if nobody
/// tells.
pub proof fn missing_committers_are_named(
    lines: Seq<LineView>,
    name: EnvVar<Seq<u8>, Seq<u8>>,
    email: EnvVar<Seq<u8>, Seq<u8>>,
)
    ensures
        ({
            let r = committer_of(lines, name, email);
            let no_name = name is NotPresent && (got_str(lines, text("committer.name")) matches Err(e)
                && e is NotFound) && (got_str(lines, text("user.name")) matches Err(e) && e
                is NotFound);
            let no_email = email is NotPresent && (got_str(lines, text("committer.email")) matches Err(
                e,
            ) && e is NotFound) && (got_str(lines, text("user.email")) matches Err(e) && e
                is NotFound);
            &&& name matches EnvVar::NotUnicode(bytes) ==> (r matches Err(
                SignatureError::EnvNotUnicode { var, value },
            ) && var == "GIT_COMMITTER_NAME" && value == bytes)
            &&& name is Value ==> (email matches EnvVar::NotUnicode(bytes) ==> (r matches Err(
                SignatureError::EnvNotUnicode { var, value },
            ) && var == "GIT_COMMITTER_EMAIL" && value == bytes))
            &&& no_name ==> (r matches Err(SignatureError::NotFound(what)) && what == "commiter name")
            &&& name is Value && no_email ==> (r matches Err(SignatureError::NotFound(what)) && what
                == "committer email")
        }),
{
}

} // verus!
