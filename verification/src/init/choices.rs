//! What decides the format of a repository, for every request.

use crate::bytes::{lemma_ascii_text, text};
use crate::config::doc::LineView;
use crate::config::got_str;
use crate::format::{
    format_of, separator_at, FormatProblem, FormatVersion, ObjectFormat, RefFormat, RefStorage,
    RepositoryFormat,
};
use crate::init::laws::ref_storage_round_trip;
use crate::init::{chosen_format, Config, FormatRequest, InitProblem};
use vstd::prelude::*;
use vstd::string::*;

verus! {

/// No format is declared yet.
pub open spec fn is_undeclared(cfg: Option<Config>) -> bool {
    cfg matches Some((_, lines)) ==> format_of(lines) matches Ok(None)
}

/// What a variable of the configuration says, if there is a configuration and it says it.
pub open spec fn configured_name(cfg: Option<Config>, key: Seq<u8>) -> Option<Seq<u8>> {
    match cfg {
        Some((_, lines)) => match got_str(lines, key) {
            Ok(name) => Some(name),
            Err(_) => None,
        },
        None => None,
    }
}

/// A variable of the configuration is there, but cannot be read as text.
pub open spec fn is_unreadable(cfg: Option<Config>, key: Seq<u8>) -> bool {
    cfg matches Some((_, lines)) && (got_str(lines, key) matches Err(err) && !(err is NotFound))
}

/// The flag decides the hash of a new repository; without it the environment does, then the
/// configuration, and SHA-1 is what is left. A name that is not known is an error, and nothing else
/// is put in its place.
pub proof fn new_hash_follows_the_request(
    request: FormatRequest<Seq<u8>>,
    cfg: Option<Config>,
)
    requires
        is_undeclared(cfg),
    ensures
        ({
            let r = chosen_format(request, cfg);
            let key = text("init.defaultObjectFormat");
            let named = if request.default_hash is Some {
                request.default_hash
            } else {
                configured_name(cfg, key)
            };
            &&& request.object_format matches Some(hash) ==> (r matches Ok(f) ==> f.object_format
                == hash)
            &&& request.object_format is None ==> match named {
                Some(name) => if name == text("sha1") {
                    r matches Ok(f) ==> f.object_format == ObjectFormat::Sha1
                } else if name == text("sha256") {
                    r matches Ok(f) ==> f.object_format == ObjectFormat::Sha256
                } else {
                    r matches Err(InitProblem::UnknownObjectFormat(n)) && n == name
                },
                None => if is_unreadable(cfg, key) {
                    r matches Err(InitProblem::Config { .. })
                } else {
                    r matches Ok(f) ==> f.object_format == ObjectFormat::Sha1
                },
            }
        }),
{
    reveal_strlit("sha1");
    reveal_strlit("sha256");
    lemma_ascii_text("sha1");
    lemma_ascii_text("sha256");
}

/// The backend of the environment decides how a new repository stores its references; without it
/// the flag does, then the format of the environment, then the configuration, and files are what is
/// left.
pub proof fn new_ref_format_follows_the_request(
    request: FormatRequest<Seq<u8>>,
    cfg: Option<Config>,
)
    requires
        is_undeclared(cfg),
    ensures
        ({
            let r = chosen_format(request, cfg);
            let key = text("init.defaultRefFormat");
            let named = if request.default_ref_format is Some {
                request.default_ref_format
            } else {
                configured_name(cfg, key)
            };
            &&& request.reference_backend is None ==> (r matches Ok(f) ==> f.ref_storage.payload
                is None)
            &&& request.reference_backend is None && request.ref_format is Some ==> (
            r matches Ok(f) ==> Some(f.ref_storage.ref_format) == request.ref_format)
            &&& request.reference_backend is None && request.ref_format is None ==> match named {
                Some(name) => if name == text("files") {
                    r matches Ok(f) ==> f.ref_storage.ref_format == RefFormat::Files
                } else if name == text("reftable") {
                    r matches Ok(f) ==> f.ref_storage.ref_format == RefFormat::RefTable
                } else {
                    r is Err
                },
                None => if is_unreadable(cfg, key) {
                    r is Err
                } else {
                    r matches Ok(f) ==> f.ref_storage.ref_format == RefFormat::Files
                },
            }
        }),
{
    reveal_strlit("files");
    reveal_strlit("reftable");
    lemma_ascii_text("files");
    lemma_ascii_text("reftable");
    assert(text("files").len() != text("reftable").len());
}

/// A backend that the environment names is `files` or `reftable`, alone or with `://` and a payload
/// behind it. It is taken as it is written; all else is an error.
pub proof fn backends_are_taken_as_written(
    request: FormatRequest<Seq<u8>>,
    cfg: Option<Config>,
    uri: Seq<u8>,
)
    requires
        is_undeclared(cfg),
        request.reference_backend == Some(uri),
    ensures
        chosen_format(request, cfg) matches Ok(f) ==> uri == (match f.ref_storage.ref_format {
            RefFormat::Files => text("files"),
            RefFormat::RefTable => text("reftable"),
        }) + (match f.ref_storage.payload {
            Some(payload) => text("://") + payload,
            None => Seq::empty(),
        }),
{
    if chosen_format(request, cfg) is Ok {
        let i = choose|i: int| separator_at(uri, i);
        reveal_strlit("://");
        lemma_ascii_text("://");
        if exists|i: int| separator_at(uri, i) {
            assert(uri =~= uri.take(i) + (uri.subrange(i, i + 3) + uri.skip(i + 3)));
        } else {
            assert(uri =~= uri + Seq::<u8>::empty());
        }
    }
}

/// A new repository is set up whenever each choice is a known one. It is of version 0 until it is
/// known to need more, and has no extensions but those two.
pub proof fn known_requests_are_granted(request: FormatRequest<Seq<u8>>, cfg: Option<Config>)
    requires
        is_undeclared(cfg),
        ({
            let key = text("init.defaultObjectFormat");
            let named = if request.default_hash is Some {
                request.default_hash
            } else {
                configured_name(cfg, key)
            };
            request.object_format is Some || (match named {
                Some(name) => name == text("sha1") || name == text("sha256"),
                None => !is_unreadable(cfg, key),
            })
        }),
        ({
            let key = text("init.defaultRefFormat");
            let named = if request.default_ref_format is Some {
                request.default_ref_format
            } else {
                configured_name(cfg, key)
            };
            match request.reference_backend {
                Some(uri) => uri == text("files") || uri == text("reftable"),
                None => request.ref_format is Some || (match named {
                    Some(name) => name == text("files") || name == text("reftable"),
                    None => !is_unreadable(cfg, key),
                }),
            }
        }),
    ensures
        chosen_format(request, cfg) matches Ok(f) && f.version == FormatVersion::V0
            && f.compat_object_format is None && !f.precious_objects && f.partial_clone is None
            && !f.worktree_config && !f.relative_worktree && !f.submodule_path_config,
{
    ref_storage_round_trip(RefStorage { ref_format: RefFormat::Files, payload: None });
    ref_storage_round_trip(RefStorage { ref_format: RefFormat::RefTable, payload: None });
}

/// A repository that was set up keeps its format. It is set up again exactly if the flags ask for
/// nothing else; a different hash is reported before a different storage of references.
pub proof fn set_up_again_only_as_it_is(
    request: FormatRequest<Seq<u8>>,
    path: Seq<u8>,
    lines: Seq<LineView>,
    format: RepositoryFormat<Seq<u8>>,
)
    requires
        format_of(lines) == Ok::<_, FormatProblem>(Some(format)),
    ensures
        ({
            let r = chosen_format(request, Some((path, lines)));
            let other_hash = request.object_format matches Some(hash) && hash
                != format.object_format;
            let other_refs = request.ref_format matches Some(refs) && refs
                != format.ref_storage.ref_format;
            &&& r is Ok <==> !other_hash && !other_refs
            &&& r matches Ok(f) ==> f == format
            &&& (r matches Err(InitProblem::HashMismatch)) <==> other_hash
            &&& (r matches Err(InitProblem::RefStorageMisMatch)) <==> !other_hash && other_refs
        }),
{
}

} // verus!
