//! What the extensions that a configuration declares mean, name by name.

use crate::bytes::{downcased, lemma_ascii_text, text};
use crate::config::doc::{LineView, Value, VariableEntry};
use crate::config::{got_int, ConfigFileErrorKind};
use crate::format::{
    declared_extensions, extension_name, extension_of, format_of, plain_format, ref_storage_of,
    separator_at, version_of, with_extension, with_extensions, Extension, FormatProblem,
    FormatVersion, ObjectFormat, RefFormat, RefStorage, RepositoryFormat,
};
use crate::init::laws::ref_storage_round_trip;
use vstd::prelude::*;
use vstd::string::*;

verus! {

/// The entry has this name, in whatever case it is written.
pub open spec fn is_named(entry: VariableEntry<Seq<u8>>, name: &str) -> bool {
    downcased(entry.name) == text(name)
}

/// The last of the first `n` entries with this name.
pub open spec fn is_last_named(
    entries: Seq<VariableEntry<Seq<u8>>>,
    n: int,
    name: &str,
    i: int,
) -> bool {
    &&& 0 <= i < n
    &&& is_named(entries[i], name)
    &&& forall|j: int| i < j < n ==> !is_named(#[trigger] entries[j], name)
}

/// None of the first `n` entries has this name.
pub open spec fn is_never_named(
    entries: Seq<VariableEntry<Seq<u8>>>,
    n: int,
    name: &str,
) -> bool {
    forall|j: int| 0 <= j < n ==> !is_named(#[trigger] entries[j], name)
}

/// Version 0 knows no such extension, and ignores it only where no version does.
pub open spec fn needs_version_1(entry: VariableEntry<Seq<u8>>) -> bool {
    ||| is_named(entry, "noop-v1")
    ||| is_named(entry, "objectformat")
    ||| is_named(entry, "compatobjectformat")
    ||| is_named(entry, "refstorage")
    ||| is_named(entry, "relativeworktrees")
    ||| is_named(entry, "submodulepathconfig")
}

/// Both versions know the extension.
pub open spec fn is_known_to_both(entry: VariableEntry<Seq<u8>>) -> bool {
    ||| is_named(entry, "noop")
    ||| is_named(entry, "preciousobjects")
    ||| is_named(entry, "partialclone")
    ||| is_named(entry, "worktreeconfig")
}

/// What a switch says: it is on if there is no value.
pub open spec fn says(value: Value<Seq<u8>>, on: bool) -> bool {
    match value {
        Value::ImplicitlyTrue => on,
        Value::Bytes(b) => if on {
            b == text("true")
        } else {
            b == text("false")
        },
    }
}

/// The names of the extensions differ.
proof fn lemma_names_differ()
    ensures
        text("noop").len() == 4,
        text("preciousobjects").len() == 15,
        text("partialclone").len() == 12 && text("partialclone")[0] == 0x70,
        text("worktreeconfig").len() == 14,
        text("noop-v1").len() == 7,
        text("objectformat").len() == 12 && text("objectformat")[0] == 0x6f,
        text("compatobjectformat").len() == 18,
        text("refstorage").len() == 10,
        text("relativeworktrees").len() == 17,
        text("submodulepathconfig").len() == 19,
{
    reveal_strlit("noop");
    reveal_strlit("preciousobjects");
    reveal_strlit("partialclone");
    reveal_strlit("worktreeconfig");
    reveal_strlit("noop-v1");
    reveal_strlit("objectformat");
    reveal_strlit("compatobjectformat");
    reveal_strlit("refstorage");
    reveal_strlit("relativeworktrees");
    reveal_strlit("submodulepathconfig");
    lemma_ascii_text("noop");
    lemma_ascii_text("preciousobjects");
    lemma_ascii_text("partialclone");
    lemma_ascii_text("worktreeconfig");
    lemma_ascii_text("noop-v1");
    lemma_ascii_text("objectformat");
    lemma_ascii_text("compatobjectformat");
    lemma_ascii_text("refstorage");
    lemma_ascii_text("relativeworktrees");
    lemma_ascii_text("submodulepathconfig");
}

proof fn lemma_words_differ()
    ensures
        text("true") != text("false"),
        text("sha1") != text("sha256"),
        text("files") != text("reftable"),
{
    reveal_strlit("true");
    reveal_strlit("false");
    reveal_strlit("sha1");
    reveal_strlit("sha256");
    reveal_strlit("files");
    reveal_strlit("reftable");
    lemma_ascii_text("true");
    lemma_ascii_text("false");
    lemma_ascii_text("sha1");
    lemma_ascii_text("sha256");
    lemma_ascii_text("files");
    lemma_ascii_text("reftable");
    assert(text("true").len() != text("false").len());
    assert(text("sha1").len() != text("sha256").len());
    assert(text("files").len() != text("reftable").len());
}

/// The switches are as their last entries say; what is not declared is as it was.
pub proof fn switches_are_as_declared(
    f: RepositoryFormat<Seq<u8>>,
    entries: Seq<VariableEntry<Seq<u8>>>,
    n: int,
)
    requires
        0 <= n <= entries.len(),
        with_extensions(f, entries, n) is Ok,
    ensures
        ({
            let g = with_extensions(f, entries, n)->Ok_0;
            &&& g.version == f.version
            &&& forall|i: int| #[trigger]
                is_last_named(entries, n, "preciousobjects", i) ==> says(
                    entries[i].value,
                    g.precious_objects,
                )
            &&& is_never_named(entries, n, "preciousobjects") ==> g.precious_objects
                == f.precious_objects
            &&& forall|i: int| #[trigger]
                is_last_named(entries, n, "worktreeconfig", i) ==> says(
                    entries[i].value,
                    g.worktree_config,
                )
            &&& is_never_named(entries, n, "worktreeconfig") ==> g.worktree_config
                == f.worktree_config
            &&& forall|i: int| #[trigger]
                is_last_named(entries, n, "relativeworktrees", i) ==> says(
                    entries[i].value,
                    g.relative_worktree,
                )
            &&& is_never_named(entries, n, "relativeworktrees") ==> g.relative_worktree
                == f.relative_worktree
            &&& forall|i: int| #[trigger]
                is_last_named(entries, n, "submodulepathconfig", i) ==> says(
                    entries[i].value,
                    g.submodule_path_config,
                )
            &&& is_never_named(entries, n, "submodulepathconfig") ==> g.submodule_path_config
                == f.submodule_path_config
        }),
    decreases n,
{
    if n > 0 {
        switches_are_as_declared(f, entries, n - 1);
        lemma_names_differ();
        lemma_words_differ();
        lemma_last_named(entries, n, "preciousobjects");
        lemma_last_named(entries, n, "worktreeconfig");
        lemma_last_named(entries, n, "relativeworktrees");
        lemma_last_named(entries, n, "submodulepathconfig");
    }
}

proof fn lemma_last_named(entries: Seq<VariableEntry<Seq<u8>>>, n: int, name: &str)
    requires
        0 < n <= entries.len(),
    ensures
        forall|i: int| #[trigger]
            is_last_named(entries, n, name, i) ==> if is_named(entries[n - 1], name) {
                i == n - 1
            } else {
                is_last_named(entries, n - 1, name, i)
            },
        is_never_named(entries, n, name) ==> is_never_named(entries, n - 1, name) && !is_named(
            entries[n - 1],
            name,
        ),
{
}

/// The hashes, the storage of references and the remote are those of their last entries, and the
/// compatible hash is declared once at most; what is not declared is as it was.
pub proof fn values_are_as_declared(
    f: RepositoryFormat<Seq<u8>>,
    entries: Seq<VariableEntry<Seq<u8>>>,
    n: int,
)
    requires
        0 <= n <= entries.len(),
        with_extensions(f, entries, n) is Ok,
    ensures
        ({
            let g = with_extensions(f, entries, n)->Ok_0;
            &&& forall|i: int| #[trigger]
                is_last_named(entries, n, "objectformat", i) ==> entries[i].value == Value::Bytes(
                    match g.object_format {
                        ObjectFormat::Sha1 => text("sha1"),
                        ObjectFormat::Sha256 => text("sha256"),
                    },
                )
            &&& is_never_named(entries, n, "objectformat") ==> g.object_format == f.object_format
            &&& forall|i: int| #[trigger]
                is_last_named(entries, n, "compatobjectformat", i) ==> g.compat_object_format
                    is Some && entries[i].value == Value::Bytes(
                    match g.compat_object_format->0 {
                        ObjectFormat::Sha1 => text("sha1"),
                        ObjectFormat::Sha256 => text("sha256"),
                    },
                )
            &&& is_never_named(entries, n, "compatobjectformat") ==> g.compat_object_format
                == f.compat_object_format
            &&& forall|i: int| #[trigger]
                is_last_named(entries, n, "partialclone", i) ==> g.partial_clone is Some
                    && entries[i].value == Value::Bytes(g.partial_clone->0)
            &&& is_never_named(entries, n, "partialclone") ==> g.partial_clone == f.partial_clone
            &&& forall|i: int| #[trigger]
                is_last_named(entries, n, "refstorage", i) ==> (entries[i].value matches
                    Value::Bytes(b) && b == (match g.ref_storage.ref_format {
                    RefFormat::Files => text("files"),
                    RefFormat::RefTable => text("reftable"),
                }) + (match g.ref_storage.payload {
                    Some(payload) => text("://") + payload,
                    None => Seq::empty(),
                }))
            &&& is_never_named(entries, n, "refstorage") ==> g.ref_storage == f.ref_storage
        }),
    decreases n,
{
    if n > 0 {
        values_are_as_declared(f, entries, n - 1);
        lemma_names_differ();
        lemma_words_differ();
        lemma_last_named(entries, n, "objectformat");
        lemma_last_named(entries, n, "compatobjectformat");
        lemma_last_named(entries, n, "partialclone");
        lemma_last_named(entries, n, "refstorage");
        if let Value::Bytes(b) = entries[n - 1].value {
            lemma_storage_text(b);
        }
    }
}

proof fn lemma_storage_text(b: Seq<u8>)
    ensures
        ref_storage_of(b) matches Ok(storage) ==> b == (match storage.ref_format {
            RefFormat::Files => text("files"),
            RefFormat::RefTable => text("reftable"),
        }) + (match storage.payload {
            Some(payload) => text("://") + payload,
            None => Seq::empty(),
        }),
{
    let i = choose|i: int| separator_at(b, i);
    reveal_strlit("://");
    lemma_ascii_text("://");
    if exists|i: int| separator_at(b, i) {
        assert(b =~= b.take(i) + (b.subrange(i, i + 3) + b.skip(i + 3)));
    } else {
        assert(b =~= b + Seq::<u8>::empty());
    }
}

/// Which extensions are accepted: in version 0 those that both versions know and those that none
/// does, in version 1 those that it knows.
pub proof fn extensions_are_known_to_the_version(
    f: RepositoryFormat<Seq<u8>>,
    entries: Seq<VariableEntry<Seq<u8>>>,
    n: int,
)
    requires
        0 <= n <= entries.len(),
        with_extensions(f, entries, n) is Ok,
    ensures
        forall|i: int|
            0 <= i < n ==> match f.version {
                FormatVersion::V0 => !needs_version_1(#[trigger] entries[i]),
                FormatVersion::V1 => needs_version_1(entries[i]) || is_known_to_both(entries[i]),
            },
    decreases n,
{
    if n > 0 {
        extensions_are_known_to_the_version(f, entries, n - 1);
        switches_are_as_declared(f, entries, n - 1);
        lemma_names_differ();
    }
}

/// `files` or `reftable`, alone or with `://` and a payload behind it.
pub open spec fn is_storage_text(b: Seq<u8>) -> bool {
    ||| b == text("files")
    ||| b == text("reftable")
    ||| exists|payload: Seq<u8>| b == text("files") + text("://") + #[trigger] as_payload(payload)
    ||| exists|payload: Seq<u8>| b == text("reftable") + text("://") + #[trigger] as_payload(payload)
}

pub open spec fn as_payload(payload: Seq<u8>) -> Seq<u8> {
    payload
}

/// `sha1` or `sha256`.
pub open spec fn is_hash_value(value: Value<Seq<u8>>) -> bool {
    value == Value::Bytes(text("sha1")) || value == Value::Bytes(text("sha256"))
}

/// The value is one that the extension takes.
pub open spec fn makes_sense(entry: VariableEntry<Seq<u8>>) -> bool {
    let switch = says(entry.value, true) || says(entry.value, false);
    &&& is_named(entry, "preciousobjects") ==> switch
    &&& is_named(entry, "worktreeconfig") ==> switch
    &&& is_named(entry, "relativeworktrees") ==> switch
    &&& is_named(entry, "submodulepathconfig") ==> switch
    &&& is_named(entry, "partialclone") ==> entry.value is Bytes
    &&& is_named(entry, "objectformat") ==> is_hash_value(entry.value)
    &&& is_named(entry, "compatobjectformat") ==> is_hash_value(entry.value)
    &&& is_named(entry, "refstorage") ==> (entry.value matches Value::Bytes(b) && is_storage_text(
        b,
    ))
}

/// An extension is accepted exactly if its version knows it, or is 0 and no version does, and its
/// value makes sense; and no second compatible hash is.
pub proof fn extensions_are_accepted_if_they_make_sense(
    f: RepositoryFormat<Seq<u8>>,
    entry: VariableEntry<Seq<u8>>,
)
    ensures
        with_extension(f, entry) is Ok <==> match f.version {
            FormatVersion::V0 => !needs_version_1(entry) && makes_sense(entry),
            FormatVersion::V1 => (needs_version_1(entry) || is_known_to_both(entry)) && makes_sense(
                entry,
            ) && (is_named(entry, "compatobjectformat") ==> f.compat_object_format is None),
        },
{
    lemma_names_differ();
    lemma_words_differ();
    if let Value::Bytes(b) = entry.value {
        lemma_storage_is_text(b);
    }
}

proof fn lemma_storage_is_text(b: Seq<u8>)
    ensures
        ref_storage_of(b) is Ok <==> is_storage_text(b),
{
    lemma_storage_text(b);
    let empty = Seq::<u8>::empty();
    if let Ok(storage) = ref_storage_of(b) {
        let name = match storage.ref_format {
            RefFormat::Files => text("files"),
            RefFormat::RefTable => text("reftable"),
        };
        match storage.payload {
            Some(payload) => {
                assert(b =~= name + text("://") + as_payload(payload));
            },
            None => {
                assert(b =~= name);
            },
        }
    }
    let plain = RefStorage { ref_format: RefFormat::Files, payload: None };
    ref_storage_round_trip(plain);
    let table = RefStorage { ref_format: RefFormat::RefTable, payload: None };
    ref_storage_round_trip(table);
    if exists|payload: Seq<u8>| b == text("files") + text("://") + #[trigger] as_payload(payload) {
        let payload = choose|payload: Seq<u8>|
            b == text("files") + text("://") + #[trigger] as_payload(payload);
        ref_storage_round_trip(RefStorage { payload: Some(payload), ..plain });
    }
    if exists|payload: Seq<u8>| b == text("reftable") + text("://") + #[trigger] as_payload(payload) {
        let payload = choose|payload: Seq<u8>|
            b == text("reftable") + text("://") + #[trigger] as_payload(payload);
        ref_storage_round_trip(RefStorage { payload: Some(payload), ..table });
    }
}

/// A configuration without extensions declares a plain repository of its version: SHA-1, references
/// in files, and nothing else. Without a version it declares none, and a version other than 0 or 1
/// is an error.
pub proof fn plain_configurations_are_plain(lines: Seq<LineView>, n: nat)
    requires
        got_int(lines, text("core.repositoryformatversion")) == Ok::<
            _,
            ConfigFileErrorKind<Seq<u8>>,
        >(n),
        declared_extensions(lines).len() == 0,
    ensures
        if n <= 1 {
            format_of(lines) matches Ok(Some(f)) && f.version == (if n == 0 {
                FormatVersion::V0
            } else {
                FormatVersion::V1
            }) && f.object_format == ObjectFormat::Sha1 && f.compat_object_format is None
                && f.ref_storage.ref_format == RefFormat::Files && f.ref_storage.payload is None
                && !f.precious_objects && f.partial_clone is None && !f.worktree_config
                && !f.relative_worktree && !f.submodule_path_config
        } else {
            format_of(lines) is Err
        },
{
}

/// The format of a configuration is that of its version with the extensions that it declares. The
/// two hashes differ.
pub proof fn formats_come_from_their_extensions(
    lines: Seq<LineView>,
    f: RepositoryFormat<Seq<u8>>,
)
    requires
        format_of(lines) == Ok::<_, FormatProblem>(Some(f)),
    ensures
        ({
            let entries = declared_extensions(lines);
            let plain = plain_format(f.version);
            &&& with_extensions(plain, entries, entries.len() as int) == Ok::<_, FormatProblem>(f)
            &&& f.compat_object_format != Some(f.object_format)
            &&& got_int(lines, text("core.repositoryformatversion")) == Ok::<
                _,
                ConfigFileErrorKind<Seq<u8>>,
            >(
                match f.version {
                    FormatVersion::V0 => 0nat,
                    FormatVersion::V1 => 1nat,
                },
            )
        }),
{
    let entries = declared_extensions(lines);
    let version = version_of(got_int(lines, text("core.repositoryformatversion"))->Ok_0)->Ok_0;
    switches_are_as_declared(plain_format(version), entries, entries.len() as int);
}

/// An extension is found by the name it has.
pub proof fn extensions_are_found_by_their_names(extension: Extension)
    requires
        extension != Extension::Unknown,
    ensures
        extension_of(text(extension_name(extension))) == extension,
{
    lemma_names_differ();
    reveal_strlit("noop");
    lemma_ascii_text("noop");
    assert(downcased(text("noop")) =~= text("noop"));
    reveal_strlit("preciousObjects");
    lemma_ascii_text("preciousObjects");
    reveal_strlit("preciousobjects");
    lemma_ascii_text("preciousobjects");
    assert(downcased(text("preciousObjects")) =~= text("preciousobjects"));
    reveal_strlit("partialClone");
    lemma_ascii_text("partialClone");
    reveal_strlit("partialclone");
    lemma_ascii_text("partialclone");
    assert(downcased(text("partialClone")) =~= text("partialclone"));
    reveal_strlit("worktreeConfig");
    lemma_ascii_text("worktreeConfig");
    reveal_strlit("worktreeconfig");
    lemma_ascii_text("worktreeconfig");
    assert(downcased(text("worktreeConfig")) =~= text("worktreeconfig"));
    reveal_strlit("noop-v1");
    lemma_ascii_text("noop-v1");
    assert(downcased(text("noop-v1")) =~= text("noop-v1"));
    reveal_strlit("objectFormat");
    lemma_ascii_text("objectFormat");
    reveal_strlit("objectformat");
    lemma_ascii_text("objectformat");
    assert(downcased(text("objectFormat")) =~= text("objectformat"));
    reveal_strlit("compatObjectFormat");
    lemma_ascii_text("compatObjectFormat");
    reveal_strlit("compatobjectformat");
    lemma_ascii_text("compatobjectformat");
    assert(downcased(text("compatObjectFormat")) =~= text("compatobjectformat"));
    reveal_strlit("refStorage");
    lemma_ascii_text("refStorage");
    reveal_strlit("refstorage");
    lemma_ascii_text("refstorage");
    assert(downcased(text("refStorage")) =~= text("refstorage"));
    reveal_strlit("relativeWorktrees");
    lemma_ascii_text("relativeWorktrees");
    reveal_strlit("relativeworktrees");
    lemma_ascii_text("relativeworktrees");
    assert(downcased(text("relativeWorktrees")) =~= text("relativeworktrees"));
    reveal_strlit("submodulePathConfig");
    lemma_ascii_text("submodulePathConfig");
    reveal_strlit("submodulepathconfig");
    lemma_ascii_text("submodulepathconfig");
    assert(downcased(text("submodulePathConfig")) =~= text("submodulepathconfig"));
}

} // verus!
