//! What is read back of a format that was declared.

use crate::bytes::{lemma_ascii_text, occurs_at, text, DOT};
use crate::config::doc::{LineView, Value};
use crate::config::key::{key_of_name, last_index};
use crate::config::laws::{get_after_set, get_after_set_all, get_after_unset_all, lines_fit};
use crate::config::{got, got_all, ConfigFileErrorKind};
use crate::format::{
    default_ref_storage, ref_format_name, ref_format_of, ref_storage_of, separator_at, version_key,
    version_name, FormatVersion, RefFormat, RefFormatError, RefStorage, RefStorageError,
    RepositoryFormat,
};
use crate::init::{
    after_all, after_edits, edited, format_edits, needed_version, ref_storage_bytes, Edit,
};
use vstd::prelude::*;
use vstd::string::*;

verus! {

/// A storage of references that was written down is read back as it is, with its payload.
pub proof fn ref_storage_round_trip(storage: RefStorage<Seq<u8>>)
    ensures
        ref_storage_of(ref_storage_bytes(storage)) == Ok::<_, RefStorageError<Seq<u8>>>(storage),
{
    reveal_strlit("files");
    reveal_strlit("reftable");
    reveal_strlit("://");
    lemma_ascii_text("files");
    lemma_ascii_text("reftable");
    lemma_ascii_text("://");
    assert(text("files")[0] != text("reftable")[0]);
    let b = ref_storage_bytes(storage);
    let name = text(ref_format_name(storage.ref_format));
    let n = name.len() as int;
    let separator = text("://");
    assert(ref_format_of(name) == Ok::<_, RefFormatError<Seq<u8>>>(storage.ref_format));
    // no name holds a colon
    assert forall|i: int| 0 <= i < n implies !occurs_at(b, separator, i) by {
        if occurs_at(b, separator, i) {
            assert(b.subrange(i, i + separator.len())[0] == b[i]);
            assert(b[i] == name[i]);
            match storage.ref_format {
                RefFormat::Files => {
                    assert(text("files")[i] != separator[0]);
                },
                RefFormat::RefTable => {
                    assert(text("reftable")[i] != separator[0]);
                },
            }
        }
    }
    match storage.payload {
        Some(payload) => {
            assert(b.subrange(n, n + separator.len()) =~= separator);
            assert(separator_at(b, n));
            let i = choose|i: int| separator_at(b, i);
            assert(i == n) by {
                if i < n {
                    assert(!occurs_at(b, separator, i));
                } else if i > n {
                    assert(!occurs_at(b, separator, n));
                }
            }
            assert(b.take(n) =~= name);
            assert(b.skip(n + 3) =~= payload);
        },
        None => {
            assert forall|i: int| !separator_at(b, i) by {
                if separator_at(b, i) {
                    assert(i < n);
                }
            }
        },
    }
}

/// The configurations on the way are ones that can be held in memory.
pub open spec fn edits_fit(lines: Seq<LineView>, edits: Seq<Edit<Seq<u8>>>) -> bool {
    forall|n: int|
        0 <= n <= edits.len() ==> lines_fit(#[trigger] after_edits(lines, edits, n).0)
}

proof fn lemma_last_index(b: Seq<u8>, at: int)
    requires
        0 <= at < b.len(),
        b[at] == DOT,
        forall|i: int| at < i < b.len() ==> #[trigger] b[i] != DOT,
    ensures
        last_index(b, DOT) == at,
    decreases b.len(),
{
    if at < b.len() - 1 {
        assert(b[b.len() - 1] != DOT);
        lemma_last_index(b.drop_last(), at);
    }
}

/// The name of a variable is as long as what stands behind the last dot.
proof fn lemma_name_len(b: Seq<u8>, at: int)
    requires
        0 <= at < b.len(),
        b[at] == DOT,
        forall|i: int| at < i < b.len() ==> #[trigger] b[i] != DOT,
    ensures
        key_of_name(b) matches Some(key) ==> key.name.len() == b.len() - at - 1,
{
    lemma_last_index(b, at);
}

/// The three variables differ in the lengths of their names.
proof fn lemma_keys_differ()
    ensures
        ({
            let hash = key_of_name(text("extensions.objectformat"));
            let refs = key_of_name(text("extensions.refstorage"));
            let version = key_of_name(version_key());
            &&& hash matches Some(key) ==> key.name.len() == 12
            &&& refs matches Some(key) ==> key.name.len() == 10
            &&& version matches Some(key) ==> key.name.len() == 23
        }),
{
    reveal_strlit("extensions.objectformat");
    reveal_strlit("extensions.refstorage");
    reveal_strlit("core.repositoryformatversion");
    lemma_ascii_text("extensions.objectformat");
    lemma_ascii_text("extensions.refstorage");
    lemma_ascii_text("core.repositoryformatversion");
    lemma_name_len(text("extensions.objectformat"), 10);
    lemma_name_len(text("extensions.refstorage"), 10);
    lemma_name_len(version_key(), 4);
}

/// The configuration holds the version that a format needs, and a storage of references other than
/// the default: that storage, with its payload, is what every definition of it reads as.
pub open spec fn is_declared(lines: Seq<LineView>, format: RepositoryFormat<Seq<u8>>) -> bool {
    let name = text("extensions.refstorage");
    &&& got(lines, version_key()) == Ok::<_, ConfigFileErrorKind<Seq<u8>>>(
        Value::Bytes(text(version_name(needed_version(format)))),
    )
    &&& if format.ref_storage == default_ref_storage() {
        got_all(lines, name) == Err::<Seq<Value<Seq<u8>>>, _>(ConfigFileErrorKind::NotFound(name))
    } else {
        got_all(lines, name) matches Ok(values) && values.len() > 0 && forall|i: int|
            0 <= i < values.len() ==> ((#[trigger] values[i]) matches Value::Bytes(value)
                && ref_storage_of(value) == Ok::<_, RefStorageError<Seq<u8>>>(format.ref_storage))
    }
}

/// A format that was declared can be read back from the configuration. A payload needs version 1.
pub proof fn declared_storage_reads_back(lines: Seq<LineView>, format: RepositoryFormat<Seq<u8>>)
    requires
        edits_fit(lines, format_edits(format)),
        after_all(lines, format_edits(format)).1 is None,
    ensures
        is_declared(after_all(lines, format_edits(format)).0, format),
        format.ref_storage.payload is Some ==> needed_version(format) == FormatVersion::V1,
{
    let edits = format_edits(format);
    let name = text("extensions.refstorage");
    let first = after_edits(lines, edits, 1);
    let second = after_edits(lines, edits, 2);
    let third = after_edits(lines, edits, 3);
    assert(edits.len() == 3);
    assert(third.1 is None && second.1 is None && first.1 is None);
    assert(edited(first.0, edits[1]) == Ok::<_, ConfigFileErrorKind<Seq<u8>>>(second.0));
    assert(edited(second.0, edits[2]) == Ok::<_, ConfigFileErrorKind<Seq<u8>>>(third.0));
    lemma_keys_differ();
    let version = text(version_name(needed_version(format)));
    get_after_set(second.0, version_key(), version, name);
    if format.ref_storage == default_ref_storage() {
        get_after_unset_all(first.0, name, name);
    } else {
        get_after_set_all(first.0, name, ref_storage_bytes(format.ref_storage), name);
        ref_storage_round_trip(format.ref_storage);
    }
}

} // verus!
