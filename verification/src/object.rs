//! Objects: blobs, trees and commits, and the bytes they are stored as.

use crate::bytes::{
    all_ascii, append, append_decimal, append_text, copy_of, decimal, is_text, spec_is_digit, text,
    LF, NUL, SPACE,
};
use crate::hex::hex_of;
use crate::object::mode::Mode;
use crate::object::oid::Oid;
use crate::timestamp::Timestamp;
use vstd::prelude::*;
use vstd::string::*;
use vstd::utf8::*;

pub mod identity;
pub mod mode;
pub mod oid;
pub mod parse;
pub mod reading;
pub mod round_trip;

verus! {

/// One entry of a tree: a file or a tree below it. The name is one path component.
#[derive(Debug)]
pub struct Entry<N = Vec<u8>> {
    pub mode: Mode,
    pub name: N,
    pub oid: Oid,
}

/// The author or the committer of a commit.
#[derive(Debug)]
pub struct Signature<S = String> {
    pub email: S,
    pub name: S,
    pub timestamp: Timestamp,
}

#[derive(Debug)]
pub struct Commit<S = String, P = Vec<Oid>> {
    pub author: Signature<S>,
    pub committer: Signature<S>,
    /// Empty for the first commit.
    pub parents: P,
    pub message: S,
    pub root_id: Oid,
}

#[derive(Debug)]
pub enum Object {
    Blob(Vec<u8>),
    Tree(Vec<Entry>),
    Commit(Commit),
}

/// An object in terms of byte strings.
pub enum ObjectView {
    Blob(Seq<u8>),
    Tree(Seq<Entry<Seq<u8>>>),
    Commit(Commit<Seq<u8>, Seq<Oid>>),
}

impl View for Entry {
    type V = Entry<Seq<u8>>;

    open spec fn view(&self) -> Entry<Seq<u8>> {
        Entry { mode: self.mode, name: self.name@, oid: self.oid }
    }
}

impl View for Signature {
    type V = Signature<Seq<u8>>;

    open spec fn view(&self) -> Signature<Seq<u8>> {
        Signature {
            email: encode_utf8(self.email@),
            name: encode_utf8(self.name@),
            timestamp: self.timestamp,
        }
    }
}

impl View for Commit {
    type V = Commit<Seq<u8>, Seq<Oid>>;

    open spec fn view(&self) -> Commit<Seq<u8>, Seq<Oid>> {
        Commit {
            author: self.author@,
            committer: self.committer@,
            parents: self.parents@,
            message: encode_utf8(self.message@),
            root_id: self.root_id,
        }
    }
}

/// The entries in terms of byte strings.
pub open spec fn entries_view(entries: Seq<Entry>) -> Seq<Entry<Seq<u8>>> {
    Seq::new(entries.len(), |i: int| entries[i]@)
}

impl View for Object {
    type V = ObjectView;

    open spec fn view(&self) -> ObjectView {
        match *self {
            Object::Blob(content) => ObjectView::Blob(content@),
            Object::Tree(entries) => ObjectView::Tree(entries_view(entries@)),
            Object::Commit(commit) => ObjectView::Commit(commit@),
        }
    }
}

#[derive(Debug, Clone, Copy, PartialEq, Eq, Structural)]
pub enum ObjectType {
    Blob,
    Tree,
    Commit,
}

impl ObjectType {
    pub open spec fn spec_name(self) -> Seq<char> {
        match self {
            ObjectType::Blob => "blob"@,
            ObjectType::Tree => "tree"@,
            ObjectType::Commit => "commit"@,
        }
    }

    /// The name that the header of an object of this type starts with.
    pub fn name(self) -> (r: &'static str)
        ensures
            r@ == self.spec_name(),
    {
        match self {
            ObjectType::Blob => "blob",
            ObjectType::Tree => "tree",
            ObjectType::Commit => "commit",
        }
    }

    /// The type with this name, if any.
    pub fn try_from_str(val: &str) -> (r: Option<Self>)
        ensures
            match r {
                Some(t) => t.spec_name() == val@,
                None => forall|t: ObjectType| t.spec_name() != val@,
            },
    {
        if same_text(val, "blob") {
            Some(ObjectType::Blob)
        } else if same_text(val, "tree") {
            Some(ObjectType::Tree)
        } else if same_text(val, "commit") {
            Some(ObjectType::Commit)
        } else {
            None
        }
    }
}

/// Are these the same text?
pub(crate) fn same_text(a: &str, b: &str) -> (r: bool)
    ensures
        r == (a@ == b@),
{
    proof {
        encode_utf8_decode_utf8(a@);
        encode_utf8_decode_utf8(b@);
    }
    is_text(a.as_bytes(), b)
}

/// `<mode> <name>NUL<id>`: the id has a fixed length, so nothing stands behind it.
pub open spec fn entry_bytes(e: Entry<Seq<u8>>) -> Seq<u8> {
    e.mode.octal() + seq![SPACE] + e.name + seq![NUL] + e.oid@
}

pub open spec fn tree_bytes(entries: Seq<Entry<Seq<u8>>>) -> Seq<u8>
    decreases entries.len(),
{
    if entries.len() == 0 {
        Seq::empty()
    } else {
        entry_bytes(entries[0]) + tree_bytes(entries.drop_first())
    }
}

/// `<name> <<email>> <timestamp>`
pub open spec fn signature_bytes(s: Signature<Seq<u8>>) -> Seq<u8> {
    s.name + text(" <") + s.email + text("> ") + s.timestamp.spec_text()
}

/// One `parent` line for each id.
pub open spec fn parents_bytes(parents: Seq<Oid>) -> Seq<u8>
    decreases parents.len(),
{
    if parents.len() == 0 {
        Seq::empty()
    } else {
        text("parent ") + hex_of(parents[0]@) + seq![LF] + parents_bytes(parents.drop_first())
    }
}

/// The header lines, a blank line and the message.
pub open spec fn commit_bytes(c: Commit<Seq<u8>, Seq<Oid>>) -> Seq<u8> {
    text("tree ") + hex_of(c.root_id@) + seq![LF] + parents_bytes(c.parents) + text("author ")
        + signature_bytes(c.author) + seq![LF] + text("committer ") + signature_bytes(c.committer)
        + seq![LF, LF] + c.message
}

/// The bytes that an object is stored as, without the header.
pub open spec fn object_bytes(o: ObjectView) -> Seq<u8> {
    match o {
        ObjectView::Blob(content) => content,
        ObjectView::Tree(entries) => tree_bytes(entries),
        ObjectView::Commit(commit) => commit_bytes(commit),
    }
}

pub open spec fn type_of(o: ObjectView) -> ObjectType {
    match o {
        ObjectView::Blob(_) => ObjectType::Blob,
        ObjectView::Tree(_) => ObjectType::Tree,
        ObjectView::Commit(_) => ObjectType::Commit,
    }
}

/// The header, `<type> <size>NUL`, and the content behind it.
pub open spec fn framed(kind: ObjectType, content: Seq<u8>) -> Seq<u8> {
    encode_utf8(kind.spec_name()) + seq![SPACE] + decimal(content.len()) + seq![NUL] + content
}

pub proof fn lemma_tree_push(entries: Seq<Entry<Seq<u8>>>, e: Entry<Seq<u8>>)
    ensures
        tree_bytes(entries.push(e)) == tree_bytes(entries) + entry_bytes(e),
    decreases entries.len(),
{
    let all = entries.push(e);
    if entries.len() == 0 {
        assert(all.drop_first() =~= Seq::<Entry<Seq<u8>>>::empty());
        assert(tree_bytes(all.drop_first()) =~= Seq::<u8>::empty());
        assert(tree_bytes(all) =~= tree_bytes(entries) + entry_bytes(e));
    } else {
        assert(all.drop_first() =~= entries.drop_first().push(e));
        lemma_tree_push(entries.drop_first(), e);
        assert(tree_bytes(all) =~= tree_bytes(entries) + entry_bytes(e));
    }
}

pub proof fn lemma_parents_push(parents: Seq<Oid>, p: Oid)
    ensures
        parents_bytes(parents.push(p)) == parents_bytes(parents) + (text("parent ") + hex_of(p@)
            + seq![LF]),
    decreases parents.len(),
{
    let all = parents.push(p);
    let line = text("parent ") + hex_of(p@) + seq![LF];
    if parents.len() == 0 {
        assert(all.drop_first() =~= Seq::<Oid>::empty());
        assert(parents_bytes(all.drop_first()) =~= Seq::<u8>::empty());
        assert(parents_bytes(all) =~= parents_bytes(parents) + line);
    } else {
        assert(all.drop_first() =~= parents.drop_first().push(p));
        lemma_parents_push(parents.drop_first(), p);
        assert(parents_bytes(all) =~= parents_bytes(parents) + line);
    }
}

impl Signature {
    /// Appends the name, the email in angle brackets and the timestamp.
    pub fn write_to(&self, bytes: &mut Vec<u8>)
        requires
            self.timestamp.wf(),
        ensures
            final(bytes)@ == old(bytes)@ + signature_bytes(self@),
    {
        append_text(bytes, self.name.as_str());
        append_text(bytes, " <");
        append_text(bytes, self.email.as_str());
        append_text(bytes, "> ");
        proof {
            lemma_zone_ascii(self.timestamp);
        }
        let timestamp = self.timestamp.to_string();
        append_text(bytes, timestamp.as_str());
        assert(bytes@ =~= old(bytes)@ + signature_bytes(self@));
    }
}

proof fn lemma_zone_ascii(t: Timestamp)
    requires
        t.wf(),
    ensures
        all_ascii(t.timezone@),
{
    let b = t.timezone@;
    assert forall|i: int| 0 <= i < b.len() implies b[i] < 0x80 by {
        if i > 0 {
            assert(spec_is_digit(b.skip(1)[i - 1]));
        }
    }
}

impl Object {
    /// The timestamps of a commit are ones that can be read back.
    pub open spec fn wf(&self) -> bool {
        *self matches Object::Commit(commit) ==> commit.author.timestamp.wf()
            && commit.committer.timestamp.wf()
    }

    pub fn obj_type(&self) -> (r: ObjectType)
        ensures
            r == type_of(self@),
    {
        match self {
            Object::Blob(_) => ObjectType::Blob,
            Object::Tree(_) => ObjectType::Tree,
            Object::Commit(_) => ObjectType::Commit,
        }
    }

    /// The object with these bytes, header included.
    pub fn deserialize(buf: &[u8]) -> (r: Result<Self, parse::ParseError>)
        ensures
            match r {
                Ok(object) => parse::object_of(buf@) == Ok::<
                    ObjectView,
                    parse::ParseError<Seq<u8>>,
                >(object@),
                Err(err) => parse::object_of(buf@) == Err::<
                    ObjectView,
                    parse::ParseError<Seq<u8>>,
                >(err@),
            },
            r matches Ok(object) ==> object.wf(),
    {
        parse::parse(buf)
    }

    /// The bytes that the object is stored as, without the header.
    pub fn serialize(&self) -> (bytes: Vec<u8>)
        requires
            self.wf(),
        ensures
            bytes@ == object_bytes(self@),
    {
        match self {
            Object::Blob(content) => copy_of(content.as_slice()),
            Object::Tree(entries) => {
                let mut bytes: Vec<u8> = Vec::new();
                let mut i: usize = 0;
                assert(entries_view(entries@).take(0) =~= Seq::<Entry<Seq<u8>>>::empty());
                while i < entries.len()
                    invariant
                        i <= entries@.len(),
                        bytes@ == tree_bytes(entries_view(entries@).take(i as int)),
                    decreases entries@.len() - i,
                {
                    let entry = &entries[i];
                    let ghost before = bytes@;
                    append(&mut bytes, entry.mode.as_octal_bytes());
                    bytes.push(SPACE);
                    append(&mut bytes, entry.name.as_slice());
                    bytes.push(NUL);
                    append(&mut bytes, entry.oid.as_bytes().as_slice());
                    proof {
                        let all = entries_view(entries@);
                        assert(all.take(i + 1) =~= all.take(i as int).push(entry@));
                        lemma_tree_push(all.take(i as int), entry@);
                        assert(bytes@ =~= before + entry_bytes(entry@));
                    }
                    i = i + 1;
                }
                assert(entries_view(entries@).take(i as int) =~= entries_view(entries@));
                bytes
            },
            Object::Commit(commit) => {
                let mut bytes: Vec<u8> = Vec::new();
                append_text(&mut bytes, "tree ");
                let root = commit.root_id.to_hex();
                append_text(&mut bytes, root.as_str());
                bytes.push(LF);
                let ghost head = bytes@;
                let mut i: usize = 0;
                assert(commit.parents@.take(0) =~= Seq::<Oid>::empty());
                assert(head + parents_bytes(commit.parents@.take(0)) =~= head);
                while i < commit.parents.len()
                    invariant
                        i <= commit.parents@.len(),
                        bytes@ == head + parents_bytes(commit.parents@.take(i as int)),
                    decreases commit.parents@.len() - i,
                {
                    let ghost before = bytes@;
                    let parent = commit.parents[i].to_hex();
                    append_text(&mut bytes, "parent ");
                    append_text(&mut bytes, parent.as_str());
                    bytes.push(LF);
                    proof {
                        let p = commit.parents@[i as int];
                        assert(commit.parents@.take(i + 1) =~= commit.parents@.take(i as int).push(
                            p,
                        ));
                        lemma_parents_push(commit.parents@.take(i as int), p);
                        assert(bytes@ =~= head + parents_bytes(commit.parents@.take(i + 1)));
                    }
                    i = i + 1;
                }
                assert(commit.parents@.take(i as int) =~= commit.parents@);
                append_text(&mut bytes, "author ");
                commit.author.write_to(&mut bytes);
                bytes.push(LF);
                append_text(&mut bytes, "committer ");
                commit.committer.write_to(&mut bytes);
                bytes.push(LF);
                bytes.push(LF);
                append_text(&mut bytes, commit.message.as_str());
                assert(bytes@ =~= commit_bytes(commit@));
                bytes
            },
        }
    }
}

/// The bytes of an object with its header.
pub fn frame(kind: ObjectType, content: &[u8]) -> (bytes: Vec<u8>)
    ensures
        bytes@ == framed(kind, content@),
{
    let mut bytes: Vec<u8> = Vec::new();
    append_text(&mut bytes, kind.name());
    bytes.push(SPACE);
    append_decimal(&mut bytes, content.len() as u64);
    bytes.push(NUL);
    append(&mut bytes, content);
    assert(bytes@ =~= framed(kind, content@));
    bytes
}

} // verus!
