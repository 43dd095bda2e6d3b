//! Objects as they are shown.

use crate::bytes::{append, append_text, copy_of, lemma_ascii_text, text, LF, SPACE};
use crate::hex::hex_of;
use crate::object::mode::Mode;
use crate::object::oid::Oid;
use crate::object::parse::{object_of, ParseError};
use crate::object::round_trip::{commit_is_plain, lemma_keys, object_round_trip};
use crate::object::{
    commit_bytes, entries_view, framed, lemma_parents_push, parents_bytes, signature_bytes, Commit,
    Entry, Object, ObjectType, ObjectView, Signature,
};
use crate::print::{shown_path, stdout_path_bytes};
use vstd::prelude::*;
use vstd::string::*;
use vstd::utf8::*;

verus! {

/// The type of the object behind an entry of this mode.
pub open spec fn entry_kind(mode: Mode) -> &'static str {
    if mode == Mode::Directory {
        "tree"
    } else {
        "blob"
    }
}

pub fn write_mode(mode: &Mode) -> (r: &'static str)
    ensures
        r == entry_kind(*mode),
{
    if mode.is_directory() {
        "tree"
    } else {
        "blob"
    }
}

/// `<user> <name> <<email>> <timestamp>`, on a line of its own.
pub fn write_signature(out: &mut Vec<u8>, user: &str, signature: &Signature)
    requires
        signature.timestamp.wf(),
    ensures
        final(out)@ == old(out)@ + text(user) + seq![SPACE] + signature_bytes(signature@) + seq![
            LF,
        ],
{
    append_text(out, user);
    out.push(SPACE);
    signature.write_to(out);
    out.push(LF);
    assert(out@ =~= old(out)@ + text(user) + seq![SPACE] + signature_bytes(signature@) + seq![LF]);
}

/// `<mode> <type> <id> <name>`, on a line of its own. The mode of a directory has a zero in front.
pub open spec fn shown_entry(e: Entry<Seq<u8>>) -> Seq<u8> {
    (if e.mode == Mode::Directory {
        text("0")
    } else {
        Seq::empty()
    }) + e.mode.octal() + seq![SPACE] + text(entry_kind(e.mode)) + seq![SPACE] + hex_of(e.oid@)
        + seq![SPACE] + shown_path(e.name) + seq![LF]
}

pub open spec fn shown_entries(entries: Seq<Entry<Seq<u8>>>) -> Seq<u8>
    decreases entries.len(),
{
    if entries.len() == 0 {
        Seq::empty()
    } else {
        shown_entries(entries.drop_last()) + shown_entry(entries.last())
    }
}

/// An object as it is shown: blobs and commits as they are stored, trees one line for each entry.
pub open spec fn shown_object(o: ObjectView) -> Seq<u8> {
    match o {
        ObjectView::Blob(content) => content,
        ObjectView::Tree(entries) => shown_entries(entries),
        ObjectView::Commit(commit) => commit_bytes(commit),
    }
}

fn write_entry(out: &mut Vec<u8>, entry: &Entry)
    ensures
        final(out)@ == old(out)@ + shown_entry(entry@),
{
    if entry.mode.is_directory() {
        append_text(out, "0");
    }
    append(out, entry.mode.as_octal_bytes());
    out.push(SPACE);
    append_text(out, write_mode(&entry.mode));
    out.push(SPACE);
    let hex = entry.oid.to_hex();
    append_text(out, hex.as_str());
    out.push(SPACE);
    append(out, stdout_path_bytes(entry.name.as_slice()).as_slice());
    out.push(LF);
    assert(out@ =~= old(out)@ + shown_entry(entry@));
}

fn write_commit(out: &mut Vec<u8>, commit: &Commit)
    requires
        commit.author.timestamp.wf(),
        commit.committer.timestamp.wf(),
    ensures
        final(out)@ == old(out)@ + commit_bytes(commit@),
{
    let ghost start = out@;
    append_text(out, "tree ");
    let root = commit.root_id.to_hex();
    append_text(out, root.as_str());
    out.push(LF);
    let ghost head = out@;
    let mut i: usize = 0;
    assert(commit.parents@.take(0) =~= Seq::<Oid>::empty());
    assert(head + parents_bytes(commit.parents@.take(0)) =~= head);
    while i < commit.parents.len()
        invariant
            i <= commit.parents@.len(),
            out@ == head + parents_bytes(commit.parents@.take(i as int)),
        decreases commit.parents@.len() - i,
    {
        let parent = commit.parents[i].to_hex();
        append_text(out, "parent ");
        append_text(out, parent.as_str());
        out.push(LF);
        proof {
            let before = commit.parents@.take(i as int);
            let p = commit.parents@[i as int];
            assert(commit.parents@.take(i + 1) =~= before.push(p));
            lemma_parents_push(before, p);
            assert(out@ =~= head + parents_bytes(commit.parents@.take(i + 1)));
        }
        i = i + 1;
    }
    assert(commit.parents@.take(i as int) =~= commit.parents@);
    write_signature(out, "author", &commit.author);
    write_signature(out, "committer", &commit.committer);
    out.push(LF);
    append_text(out, commit.message.as_str());
    proof {
        lemma_keys();
        let parents = head + parents_bytes(commit.parents@);
        let author = signature_bytes(commit@.author) + seq![LF];
        let committer = signature_bytes(commit@.committer) + seq![LF];
        assert(out@ =~= parents + (text("author") + seq![SPACE]) + author + (text("committer")
            + seq![SPACE]) + committer + seq![LF] + commit@.message);
        assert(out@ =~= start + commit_bytes(commit@));
    }
}

/// Shows an object.
pub fn print(object: &Object) -> (out: Vec<u8>)
    requires
        object.wf(),
    ensures
        out@ == shown_object(object@),
{
    match object {
        Object::Tree(entries) => {
            let mut out: Vec<u8> = Vec::new();
            let ghost all = entries_view(entries@);
            let mut i: usize = 0;
            assert(all.take(0) =~= Seq::<Entry<Seq<u8>>>::empty());
            while i < entries.len()
                invariant
                    i <= entries@.len(),
                    all == entries_view(entries@),
                    out@ == shown_entries(all.take(i as int)),
                decreases entries@.len() - i,
            {
                write_entry(&mut out, &entries[i]);
                assert(all.take(i + 1).drop_last() =~= all.take(i as int));
                assert(all.take(i + 1).last() == entries@[i as int]@);
                i = i + 1;
            }
            assert(all.take(i as int) =~= all);
            out
        },
        Object::Commit(commit) => {
            let mut out: Vec<u8> = Vec::new();
            write_commit(&mut out, commit);
            assert(out@ =~= commit_bytes(commit@));
            out
        },
        Object::Blob(content) => copy_of(content.as_slice()),
    }
}

/// A tree is shown line by line, in the order of its entries. A line starts with the mode in octal
/// and the type of the object that the entry names: `tree` for a directory, `blob` for all else. The
/// id and the name come behind it.
pub proof fn tree_lines_tell_the_entries(entries: Seq<Entry<Seq<u8>>>, e: Entry<Seq<u8>>)
    ensures
        shown_object(ObjectView::Tree(Seq::empty())) == Seq::<u8>::empty(),
        shown_object(ObjectView::Tree(entries.push(e))) == shown_object(ObjectView::Tree(entries)) + (
        match e.mode {
            Mode::Regular => text("100644 blob "),
            Mode::Executable => text("100755 blob "),
            Mode::Symlink => text("120000 blob "),
            Mode::Directory => text("0040000 tree "),
        }) + hex_of(e.oid@) + seq![0x20u8] + shown_path(e.name) + seq![0x0au8],
{
    reveal_strlit("100644");
    reveal_strlit("100755");
    reveal_strlit("120000");
    reveal_strlit("040000");
    reveal_strlit("0");
    reveal_strlit("blob");
    reveal_strlit("tree");
    reveal_strlit("100644 blob ");
    reveal_strlit("100755 blob ");
    reveal_strlit("120000 blob ");
    reveal_strlit("0040000 tree ");
    lemma_ascii_text("100644");
    lemma_ascii_text("100755");
    lemma_ascii_text("120000");
    lemma_ascii_text("040000");
    lemma_ascii_text("0");
    lemma_ascii_text("blob");
    lemma_ascii_text("tree");
    lemma_ascii_text("100644 blob ");
    lemma_ascii_text("100755 blob ");
    lemma_ascii_text("120000 blob ");
    lemma_ascii_text("0040000 tree ");
    let head = match e.mode {
        Mode::Regular => text("100644 blob "),
        Mode::Executable => text("100755 blob "),
        Mode::Symlink => text("120000 blob "),
        Mode::Directory => text("0040000 tree "),
    };
    let all = entries.push(e);
    assert(all.drop_last() =~= entries);
    assert((if e.mode == Mode::Directory {
        text("0")
    } else {
        Seq::empty()
    }) + e.mode.octal() + seq![SPACE] + text(entry_kind(e.mode)) + seq![SPACE] =~= head);
    assert(shown_entry(e) =~= head + hex_of(e.oid@) + seq![0x20u8] + shown_path(e.name) + seq![
        0x0au8,
    ]);
    assert(shown_entries(all) =~= shown_entries(entries) + head + hex_of(e.oid@) + seq![0x20u8]
        + shown_path(e.name) + seq![0x0au8]);
}

/// A blob is shown as it is, and a commit as it is stored, so what is shown of a commit can be read
/// back.
pub proof fn contents_are_shown_as_stored(
    content: Seq<u8>,
    commit: Commit<Seq<u8>, Seq<Oid>>,
)
    requires
        commit_is_plain(commit),
        framed(ObjectType::Commit, commit_bytes(commit)).len() <= usize::MAX,
    ensures
        shown_object(ObjectView::Blob(content)) == content,
        object_of(framed(ObjectType::Commit, shown_object(ObjectView::Commit(commit)))) == Ok::<
            ObjectView,
            ParseError<Seq<u8>>,
        >(ObjectView::Commit(commit)),
{
    object_round_trip(ObjectView::Commit(commit));
}

} // verus!
