//! What is read back of the settings of a repository.

use crate::bytes::{downcased, lemma_ascii_text, text, DOT};
use crate::config::doc::{LineView, Value};
use crate::config::key::{key_of_name, last_index};
use crate::config::laws::{get_after_set, get_after_set_all, get_after_unset_all, lines_fit};
use crate::config::{got, got_all, got_bool, ConfigFileErrorKind};
use crate::format::{FormatVersion, ObjectFormat, RefFormat, RepositoryFormat};
use crate::init::laws::edits_fit;
use crate::init::{
    after_all, after_edits, basic_edits, configured, edited, format_edits, place_edits,
    with_logging, Edit, EditAction, InitFacts,
};
use vstd::prelude::*;
use vstd::string::*;

verus! {

/// The variable is defined, and every definition of it has this value.
pub open spec fn reads_as(lines: Seq<LineView>, name: Seq<u8>, value: Seq<u8>) -> bool {
    got_all(lines, name) matches Ok(values) && values.len() > 0 && forall|i: int|
        0 <= i < values.len() ==> #[trigger] values[i] == Value::Bytes(value)
}

/// The variable is not defined.
pub open spec fn is_absent(lines: Seq<LineView>, name: Seq<u8>) -> bool {
    &&& got(lines, name) == Err::<Value<Seq<u8>>, _>(ConfigFileErrorKind::NotFound(name))
    &&& got_all(lines, name) == Err::<Seq<Value<Seq<u8>>>, _>(ConfigFileErrorKind::NotFound(name))
}

/// The variable has what it had.
pub open spec fn is_as_before(before: Seq<LineView>, after: Seq<LineView>, name: Seq<u8>) -> bool {
    got(after, name) == got(before, name) && got_all(after, name) == got_all(before, name)
}

/// What a change asks for is what is read.
pub open spec fn is_in_effect(lines: Seq<LineView>, edit: Edit<Seq<u8>>) -> bool {
    match edit.action {
        EditAction::SetOne(value) => got(lines, text(edit.key)) == Ok::<
            _,
            ConfigFileErrorKind<Seq<u8>>,
        >(Value::Bytes(value)),
        EditAction::SetAll(value) => reads_as(lines, text(edit.key), value),
        EditAction::UnsetAll => is_absent(lines, text(edit.key)),
    }
}

/// A change has its effect, and none on the other variables.
pub proof fn edits_have_their_effect(
    lines: Seq<LineView>,
    edit: Edit<Seq<u8>>,
    other: Seq<u8>,
)
    requires
        lines_fit(lines),
        edited(lines, edit) matches Ok(after) && lines_fit(after),
    ensures
        is_in_effect(edited(lines, edit)->Ok_0, edit),
        key_of_name(other) != key_of_name(text(edit.key)) ==> is_as_before(
            lines,
            edited(lines, edit)->Ok_0,
            other,
        ),
{
    let name = text(edit.key);
    match edit.action {
        EditAction::SetOne(value) => {
            get_after_set(lines, name, value, other);
        },
        EditAction::SetAll(value) => {
            get_after_set_all(lines, name, value, other);
        },
        EditAction::UnsetAll => {
            get_after_unset_all(lines, name, other);
            let after = edited(lines, edit)->Ok_0;
            assert(got(after, name) matches Err(ConfigFileErrorKind::NotFound(_)));
        },
    }
}

/// Of several changes to a variable, the last one counts.
pub proof fn the_last_edit_counts(
    lines: Seq<LineView>,
    edits: Seq<Edit<Seq<u8>>>,
    n: int,
    i: int,
)
    requires
        edits_fit(lines, edits),
        0 <= i < n <= edits.len(),
        after_edits(lines, edits, n).1 is None,
        forall|j: int|
            i < j < n ==> key_of_name(text((#[trigger] edits[j]).key)) != key_of_name(
                text(edits[i].key),
            ),
    ensures
        is_in_effect(after_edits(lines, edits, n).0, edits[i]),
    decreases n,
{
    let before = after_edits(lines, edits, n - 1).0;
    let after = after_edits(lines, edits, n).0;
    assert(lines_fit(before) && lines_fit(after));
    edits_have_their_effect(before, edits[n - 1], text(edits[i].key));
    if i < n - 1 {
        the_last_edit_counts(lines, edits, n - 1, i);
    }
}

/// Changes leave alone the variables that they do not name.
pub proof fn other_variables_stay(
    lines: Seq<LineView>,
    edits: Seq<Edit<Seq<u8>>>,
    n: int,
    name: Seq<u8>,
)
    requires
        edits_fit(lines, edits),
        0 <= n <= edits.len(),
        after_edits(lines, edits, n).1 is None,
        forall|j: int|
            0 <= j < n ==> key_of_name(text((#[trigger] edits[j]).key)) != key_of_name(name),
    ensures
        is_as_before(lines, after_edits(lines, edits, n).0, name),
    decreases n,
{
    if n > 0 {
        let before = after_edits(lines, edits, n - 1).0;
        let after = after_edits(lines, edits, n).0;
        assert(lines_fit(before) && lines_fit(after));
        other_variables_stay(lines, edits, n - 1, name);
        edits_have_their_effect(before, edits[n - 1], name);
    }
}

/// The configurations on the way to the settings can be held in memory.
pub open spec fn settings_fit(lines: Seq<LineView>, facts: InitFacts<Seq<u8>>) -> bool {
    let basic = after_all(lines, basic_edits(facts)).0;
    let logging = with_logging(basic, facts.bare).0;
    edits_fit(lines, basic_edits(facts)) && lines_fit(logging) && edits_fit(
        logging,
        place_edits(facts),
    )
}

/// The variable is none of those that a repository is set up with.
pub open spec fn is_no_setting(name: Seq<u8>) -> bool {
    let key = key_of_name(name);
    &&& key != key_of_name(text("core.filemode"))
    &&& key != key_of_name(text("core.bare"))
    &&& key != key_of_name(text("core.worktree"))
    &&& key != key_of_name(text("core.logallrefupdates"))
    &&& key != key_of_name(text("core.symlinks"))
    &&& key != key_of_name(text("core.ignorecase"))
}

/// The settings say what was found out: whether the execute permission is kept, whether the
/// repository is bare, and where its worktree is. References are logged where there is a worktree,
/// unless it was said otherwise. A new repository notes that links or the case of names are not
/// kept. All other variables are as they were.
pub open spec fn settings_tell(
    before: Seq<LineView>,
    after: Seq<LineView>,
    facts: InitFacts<Seq<u8>>,
) -> bool {
    &&& reads_as(
        after,
        text("core.filemode"),
        if facts.trust_filemode {
            text("true")
        } else {
            text("false")
        },
    )
    &&& reads_as(
        after,
        text("core.bare"),
        if facts.bare {
            text("true")
        } else {
            text("false")
        },
    )
    &&& if facts.bare {
        is_absent(after, text("core.worktree"))
    } else {
        match facts.worktree {
            Some(dir) => reads_as(after, text("core.worktree"), dir),
            None => is_as_before(before, after, text("core.worktree")),
        }
    }
    &&& if facts.bare || got_bool(before, text("core.logallrefupdates")) is Ok {
        is_as_before(before, after, text("core.logallrefupdates"))
    } else {
        got_bool(after, text("core.logallrefupdates")) == Ok::<_, ConfigFileErrorKind<Seq<u8>>>(
            true,
        )
    }
    &&& if !facts.reinit && !facts.symlinks {
        reads_as(after, text("core.symlinks"), text("false"))
    } else {
        is_as_before(before, after, text("core.symlinks"))
    }
    &&& if !facts.reinit && !facts.case_sensitive {
        reads_as(after, text("core.ignorecase"), text("true"))
    } else {
        is_as_before(before, after, text("core.ignorecase"))
    }
    &&& forall|name: Seq<u8>| #[trigger]
        is_no_setting(name) ==> is_as_before(before, after, name)
}

proof fn lemma_last_dot(b: Seq<u8>, at: int)
    requires
        0 <= at < b.len(),
        b[at] == DOT,
        forall|i: int| at < i < b.len() ==> #[trigger] b[i] != DOT,
    ensures
        last_index(b, DOT) == at,
    decreases b.len(),
{
    if at < b.len() - 1 {
        assert(b[b.len() - 1] != DOT);
        lemma_last_dot(b.drop_last(), at);
    }
}

proof fn lemma_key_name(b: Seq<u8>, at: int)
    requires
        0 <= at < b.len() - 1,
        b[at] == DOT,
        forall|i: int| at < i < b.len() ==> #[trigger] b[i] != DOT,
    ensures
        key_of_name(b) matches Some(key) ==> key.name.len() == b.len() - at - 1 && key.name[0]
            == downcased(b)[at + 1],
{
    lemma_last_dot(b, at);
    if let Some(key) = key_of_name(b) {
        assert(key.name =~= downcased(b.skip(at + 1)));
    }
}

/// The names of the six variables differ.
proof fn lemma_settings_differ()
    ensures
        ({
            let filemode = key_of_name(text("core.filemode"));
            let bare = key_of_name(text("core.bare"));
            let worktree = key_of_name(text("core.worktree"));
            let logging = key_of_name(text("core.logallrefupdates"));
            let symlinks = key_of_name(text("core.symlinks"));
            let ignorecase = key_of_name(text("core.ignorecase"));
            &&& filemode matches Some(key) ==> key.name.len() == 8 && key.name[0] == 0x66
            &&& bare matches Some(key) ==> key.name.len() == 4
            &&& worktree matches Some(key) ==> key.name.len() == 8 && key.name[0] == 0x77
            &&& logging matches Some(key) ==> key.name.len() == 16
            &&& symlinks matches Some(key) ==> key.name.len() == 8 && key.name[0] == 0x73
            &&& ignorecase matches Some(key) ==> key.name.len() == 10
        }),
{
    reveal_strlit("core.filemode");
    reveal_strlit("core.bare");
    reveal_strlit("core.worktree");
    reveal_strlit("core.logallrefupdates");
    reveal_strlit("core.symlinks");
    reveal_strlit("core.ignorecase");
    lemma_ascii_text("core.filemode");
    lemma_ascii_text("core.bare");
    lemma_ascii_text("core.worktree");
    lemma_ascii_text("core.logallrefupdates");
    lemma_ascii_text("core.symlinks");
    lemma_ascii_text("core.ignorecase");
    lemma_key_name(text("core.filemode"), 4);
    lemma_key_name(text("core.bare"), 4);
    lemma_key_name(text("core.worktree"), 4);
    lemma_key_name(text("core.logallrefupdates"), 4);
    lemma_key_name(text("core.symlinks"), 4);
    lemma_key_name(text("core.ignorecase"), 4);
}

proof fn lemma_basics(lines: Seq<LineView>, facts: InitFacts<Seq<u8>>, name: Seq<u8>)
    requires
        edits_fit(lines, basic_edits(facts)),
        after_all(lines, basic_edits(facts)).1 is None,
    ensures
        ({
            let after = after_all(lines, basic_edits(facts)).0;
            &&& reads_as(
                after,
                text("core.filemode"),
                if facts.trust_filemode {
                    text("true")
                } else {
                    text("false")
                },
            )
            &&& reads_as(
                after,
                text("core.bare"),
                if facts.bare {
                    text("true")
                } else {
                    text("false")
                },
            )
            &&& facts.bare ==> is_absent(after, text("core.worktree"))
            &&& key_of_name(name) != key_of_name(text("core.filemode")) && key_of_name(name)
                != key_of_name(text("core.bare")) && (facts.bare ==> key_of_name(name)
                != key_of_name(text("core.worktree"))) ==> is_as_before(lines, after, name)
            &&& key_of_name(text("core.filemode")) is Some
            &&& key_of_name(text("core.bare")) is Some
        }),
{
    lemma_settings_differ();
    let edits = basic_edits(facts);
    let n = edits.len() as int;
    lemma_named(lines, edits, n);
    assert(edits[0].key == "core.filemode");
    assert(edits[n - 1].key == "core.bare");
    assert(key_of_name(text(edits[0].key)) is Some);
    assert(key_of_name(text(edits[n - 1].key)) is Some);
    assert(facts.bare ==> edits[1].key == "core.worktree" && key_of_name(text(edits[1].key))
        is Some);
    the_last_edit_counts(lines, edits, n, 0);
    the_last_edit_counts(lines, edits, n, n - 1);
    if facts.bare {
        the_last_edit_counts(lines, edits, n, 1);
    }
    if key_of_name(name) != key_of_name(text("core.filemode")) && key_of_name(name) != key_of_name(
        text("core.bare"),
    ) && (facts.bare ==> key_of_name(name) != key_of_name(text("core.worktree"))) {
        other_variables_stay(lines, edits, n, name);
    }
}

/// Changes that were made name variables.
proof fn lemma_named(lines: Seq<LineView>, edits: Seq<Edit<Seq<u8>>>, n: int)
    requires
        0 <= n <= edits.len(),
        after_edits(lines, edits, n).1 is None,
    ensures
        forall|j: int| 0 <= j < n ==> key_of_name(text((#[trigger] edits[j]).key)) is Some,
    decreases n,
{
    if n > 0 {
        lemma_named(lines, edits, n - 1);
    }
}

proof fn lemma_logging(lines: Seq<LineView>, bare: bool, name: Seq<u8>)
    requires
        lines_fit(lines),
        lines_fit(with_logging(lines, bare).0),
        with_logging(lines, bare).1 is None,
    ensures
        ({
            let key = text("core.logallrefupdates");
            let after = with_logging(lines, bare).0;
            &&& if bare || got_bool(lines, key) is Ok {
                after == lines
            } else {
                got_bool(after, key) == Ok::<_, ConfigFileErrorKind<Seq<u8>>>(true)
            }
            &&& key_of_name(name) != key_of_name(key) ==> is_as_before(lines, after, name)
        }),
{
    let key = text("core.logallrefupdates");
    if !bare && !(got_bool(lines, key) is Ok) {
        get_after_set(lines, key, text("true"), name);
    }
}

proof fn lemma_place(lines: Seq<LineView>, facts: InitFacts<Seq<u8>>, name: Seq<u8>)
    requires
        edits_fit(lines, place_edits(facts)),
        after_all(lines, place_edits(facts)).1 is None,
    ensures
        ({
            let after = after_all(lines, place_edits(facts)).0;
            let key = key_of_name(name);
            &&& !facts.bare ==> (facts.worktree matches Some(dir) ==> reads_as(
                after,
                text("core.worktree"),
                dir,
            ))
            &&& !facts.reinit && !facts.symlinks ==> reads_as(
                after,
                text("core.symlinks"),
                text("false"),
            )
            &&& !facts.reinit && !facts.case_sensitive ==> reads_as(
                after,
                text("core.ignorecase"),
                text("true"),
            )
            &&& (key != key_of_name(text("core.worktree")) || facts.bare || facts.worktree is None)
                && (key != key_of_name(text("core.symlinks")) || facts.reinit || facts.symlinks) && (
            key != key_of_name(text("core.ignorecase")) || facts.reinit || facts.case_sensitive)
                ==> is_as_before(lines, after, name)
        }),
{
    lemma_settings_differ();
    let edits = place_edits(facts);
    let n = edits.len() as int;
    lemma_named(lines, edits, n);
    let worktree = !facts.bare && facts.worktree is Some;
    let symlinks = !facts.reinit && !facts.symlinks;
    let ignorecase = !facts.reinit && !facts.case_sensitive;
    let a: int = if worktree {
        1
    } else {
        0
    };
    let b: int = if symlinks {
        1
    } else {
        0
    };
    assert(worktree ==> edits[0].key == "core.worktree");
    assert(symlinks ==> edits[a].key == "core.symlinks");
    assert(ignorecase ==> edits[a + b].key == "core.ignorecase");
    assert(n == a + b + (if ignorecase {
        1int
    } else {
        0
    }));
    assert forall|j: int| 0 <= j < n implies {
        ||| j == 0 && worktree && (#[trigger] edits[j]).key == "core.worktree"
        ||| j == a && symlinks && edits[j].key == "core.symlinks"
        ||| j == a + b && ignorecase && edits[j].key == "core.ignorecase"
    } by {}
    if worktree {
        the_last_edit_counts(lines, edits, n, 0);
    }
    if symlinks {
        the_last_edit_counts(lines, edits, n, a);
    }
    if ignorecase {
        the_last_edit_counts(lines, edits, n, a + b);
    }
    let key = key_of_name(name);
    if (key != key_of_name(text("core.worktree")) || facts.bare || facts.worktree is None) && (key
        != key_of_name(text("core.symlinks")) || facts.reinit || facts.symlinks) && (key
        != key_of_name(text("core.ignorecase")) || facts.reinit || facts.case_sensitive) {
        other_variables_stay(lines, edits, n, name);
    }
}

/// The settings of a repository that was set up can be read back from its configuration.
pub proof fn settings_read_back(lines: Seq<LineView>, facts: InitFacts<Seq<u8>>)
    requires
        settings_fit(lines, facts),
        configured(lines, facts).1 is None,
    ensures
        settings_tell(lines, configured(lines, facts).0, facts),
{
    let basic = after_all(lines, basic_edits(facts)).0;
    let logging = with_logging(basic, facts.bare).0;
    let after = after_all(logging, place_edits(facts)).0;
    assert(lines_fit(basic)) by {
        let n = basic_edits(facts).len() as int;
        assert(lines_fit(after_edits(lines, basic_edits(facts), n).0));
    }
    lemma_settings_differ();
    assert forall|name: Seq<u8>| #[trigger] is_no_setting(name) implies is_as_before(
        lines,
        after,
        name,
    ) by {
        lemma_basics(lines, facts, name);
        lemma_logging(basic, facts.bare, name);
        lemma_place(logging, facts, name);
    }
    lemma_basics(lines, facts, text("core.filemode"));
    lemma_logging(basic, facts.bare, text("core.filemode"));
    lemma_place(logging, facts, text("core.filemode"));
    lemma_basics(lines, facts, text("core.bare"));
    lemma_logging(basic, facts.bare, text("core.bare"));
    lemma_place(logging, facts, text("core.bare"));
    lemma_basics(lines, facts, text("core.worktree"));
    lemma_logging(basic, facts.bare, text("core.worktree"));
    lemma_place(logging, facts, text("core.worktree"));
    lemma_basics(lines, facts, text("core.logallrefupdates"));
    lemma_logging(basic, facts.bare, text("core.logallrefupdates"));
    lemma_place(logging, facts, text("core.logallrefupdates"));
    lemma_basics(lines, facts, text("core.symlinks"));
    lemma_logging(basic, facts.bare, text("core.symlinks"));
    lemma_place(logging, facts, text("core.symlinks"));
    lemma_basics(lines, facts, text("core.ignorecase"));
    lemma_logging(basic, facts.bare, text("core.ignorecase"));
    lemma_place(logging, facts, text("core.ignorecase"));
}

/// The configuration says of a format what cannot be taken for granted: SHA-256, a storage of
/// references that is not in files, and then version 1. All other variables are as they were.
pub open spec fn declaration_tells(
    before: Seq<LineView>,
    after: Seq<LineView>,
    format: RepositoryFormat<Seq<u8>>,
) -> bool {
    let sha256 = format.object_format == ObjectFormat::Sha256;
    let plain = format.ref_storage.ref_format == RefFormat::Files && format.ref_storage.payload
        is None;
    let storage = (match format.ref_storage.ref_format {
        RefFormat::Files => text("files"),
        RefFormat::RefTable => text("reftable"),
    }) + (match format.ref_storage.payload {
        Some(payload) => text("://") + payload,
        None => Seq::empty(),
    });
    &&& if sha256 {
        reads_as(after, text("extensions.objectformat"), text("sha256"))
    } else {
        is_absent(after, text("extensions.objectformat"))
    }
    &&& if plain {
        is_absent(after, text("extensions.refstorage"))
    } else {
        reads_as(after, text("extensions.refstorage"), storage)
    }
    &&& got(after, text("core.repositoryformatversion")) == Ok::<
        _,
        ConfigFileErrorKind<Seq<u8>>,
    >(
        Value::Bytes(
            if sha256 || !plain || format.version == FormatVersion::V1 {
                text("1")
            } else {
                text("0")
            },
        ),
    )
    &&& forall|name: Seq<u8>|
        key_of_name(name) != key_of_name(text("extensions.objectformat")) && key_of_name(name)
            != key_of_name(text("extensions.refstorage")) && key_of_name(name) != key_of_name(
            text("core.repositoryformatversion"),
        ) ==> #[trigger] is_as_before(before, after, name)
}

/// A format that was declared can be read back from the configuration, variable by variable.
pub proof fn declarations_read_back(lines: Seq<LineView>, format: RepositoryFormat<Seq<u8>>)
    requires
        edits_fit(lines, format_edits(format)),
        after_all(lines, format_edits(format)).1 is None,
    ensures
        declaration_tells(lines, after_all(lines, format_edits(format)).0, format),
{
    let edits = format_edits(format);
    let after = after_all(lines, edits).0;
    lemma_named(lines, edits, 3);
    lemma_declarations_differ();
    assert(edits[0].key == "extensions.objectformat");
    assert(edits[1].key == "extensions.refstorage");
    assert(edits[2].key == "core.repositoryformatversion");
    the_last_edit_counts(lines, edits, 3, 0);
    the_last_edit_counts(lines, edits, 3, 1);
    the_last_edit_counts(lines, edits, 3, 2);
    let name = match format.ref_storage.ref_format {
        RefFormat::Files => text("files"),
        RefFormat::RefTable => text("reftable"),
    };
    match format.ref_storage.payload {
        Some(payload) => {
            assert(name + text("://") + payload =~= name + (text("://") + payload));
        },
        None => {
            assert(name =~= name + Seq::<u8>::empty());
        },
    }
    assert forall|name: Seq<u8>|
        key_of_name(name) != key_of_name(text("extensions.objectformat")) && key_of_name(name)
            != key_of_name(text("extensions.refstorage")) && key_of_name(name) != key_of_name(
            text("core.repositoryformatversion"),
        ) implies #[trigger] is_as_before(lines, after, name) by {
        other_variables_stay(lines, edits, 3, name);
    }
}

proof fn lemma_declarations_differ()
    ensures
        ({
            let hash = key_of_name(text("extensions.objectformat"));
            let refs = key_of_name(text("extensions.refstorage"));
            let version = key_of_name(text("core.repositoryformatversion"));
            &&& hash matches Some(key) ==> key.name.len() == 12
            &&& refs matches Some(key) ==> key.name.len() == 10
            &&& version matches Some(key) ==> key.name.len() == 23
        }),
{
    reveal_strlit("extensions.objectformat");
    reveal_strlit("extensions.refstorage");
    reveal_strlit("core.repositoryformatversion");
    lemma_ascii_text("extensions.objectformat");
    lemma_ascii_text("extensions.refstorage");
    lemma_ascii_text("core.repositoryformatversion");
    lemma_key_name(text("extensions.objectformat"), 10);
    lemma_key_name(text("extensions.refstorage"), 10);
    lemma_key_name(text("core.repositoryformatversion"), 4);
}

} // verus!
