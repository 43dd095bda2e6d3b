//! What is stored can be read back: an object with its header parses to the object.

use crate::bytes::{
    decimal, free_of, lemma_ascii_text, lemma_decimal_value, lemma_span_is, lemma_stands_byte,
    lemma_stands_split, lemma_until_is, spec_is_digit, stands_at, text, GREATER, LESS, LF, NUL,
    SPACE,
};
use crate::hex::{hex_of, spec_is_hex_digit, unhex_inverts_hex_of};
use crate::object::mode::Mode;
use crate::object::oid::Oid;
use crate::object::parse::{
    all_octal, commit_of, entries_of, field, header_of, hex_oid_of, is_bad_name, is_octal_digit,
    lemma_oid_of, lemma_timestamp_of, mode_of, object_of, octal_value, parents_of, reads_mode,
    signature_of, timestamp_of, tree_entry_of, ParseError, SignatureError,
};
use crate::object::{
    commit_bytes, entry_bytes, framed, object_bytes, parents_bytes, signature_bytes, tree_bytes,
    type_of, Commit, Entry, ObjectType, ObjectView, Signature,
};
use crate::timestamp::{
    lemma_no_space, reads_timestamp, signed_decimal, unix_round_trip, Timestamp, TimestampError,
};
use vstd::prelude::*;
use vstd::string::*;
use vstd::utf8::*;

verus! {

/// A part without the delimiter, with the delimiter behind it, is one field.
pub proof fn lemma_field(buf: Seq<u8>, pos: int, part: Seq<u8>, delimiter: u8)
    requires
        stands_at(buf, pos, part + seq![delimiter]),
        free_of(part, delimiter),
    ensures
        field(buf, pos, delimiter) == Some((part, pos + part.len() + 1)),
{
    lemma_stands_split(buf, pos, part, seq![delimiter]);
    lemma_stands_byte(buf, pos + part.len(), seq![delimiter], 0);
    let rest = buf.skip(pos);
    assert forall|j: int| 0 <= j < part.len() implies rest[j] != delimiter by {
        lemma_stands_byte(buf, pos, part, j);
    }
    lemma_until_is(rest, delimiter, part.len() as int);
}

/// The octal digits of a mode read back as the mode.
pub proof fn mode_round_trip(mode: Mode)
    ensures
        mode_of(mode.octal()) == Some(mode),
        free_of(mode.octal(), SPACE),
        mode.octal().len() == 6,
{
    reveal_strlit("100644");
    reveal_strlit("100755");
    reveal_strlit("120000");
    reveal_strlit("040000");
    lemma_ascii_text("100644");
    lemma_ascii_text("100755");
    lemma_ascii_text("120000");
    lemma_ascii_text("040000");
    let b = mode.octal();
    assert(all_octal(b));
    reveal_with_fuel(octal_value, 7);
    assert(b.drop_last().drop_last().drop_last().drop_last().drop_last().drop_last() =~= Seq::<
        u8,
    >::empty());
    assert(octal_value(b) == mode.raw());
    assert(reads_mode(b, mode));
    let back = mode_of(b)->0;
    assert(reads_mode(b, back));
    assert(free_of(b, SPACE)) by {
        assert forall|i: int| 0 <= i < b.len() implies #[trigger] b[i] != SPACE by {
            assert(is_octal_digit(b[i]));
        }
    }
}

proof fn lemma_entry(buf: Seq<u8>, pos: int, e: Entry<Seq<u8>>)
    requires
        stands_at(buf, pos, entry_bytes(e)),
        !is_bad_name(e.name),
    ensures
        tree_entry_of(buf, pos) == Ok::<
            (Entry<Seq<u8>>, int),
            crate::object::parse::TreeEntryError<Seq<u8>>,
        >((e, pos + entry_bytes(e).len())),
{
    mode_round_trip(e.mode);
    e.oid.lemma_len();
    let head = e.mode.octal() + seq![SPACE];
    let named = e.name + seq![NUL];
    assert(entry_bytes(e) =~= head + (named + e.oid@));
    lemma_stands_split(buf, pos, head, named + e.oid@);
    lemma_field(buf, pos, e.mode.octal(), SPACE);
    let p1 = pos + head.len();
    lemma_stands_split(buf, p1, named, e.oid@);
    assert(free_of(e.name, NUL)) by {
        assert forall|i: int| 0 <= i < e.name.len() implies #[trigger] e.name[i] != NUL by {
            if e.name[i] == NUL {
                assert(e.name.contains(NUL));
            }
        }
    }
    lemma_field(buf, p1, e.name, NUL);
    lemma_oid_of(e.oid);
}

proof fn lemma_entries(buf: Seq<u8>, pos: int, entries: Seq<Entry<Seq<u8>>>)
    requires
        stands_at(buf, pos, tree_bytes(entries)),
        pos + tree_bytes(entries).len() == buf.len(),
        forall|i: int| 0 <= i < entries.len() ==> !is_bad_name((#[trigger] entries[i]).name),
    ensures
        entries_of(buf, pos) == Ok::<Seq<Entry<Seq<u8>>>, ParseError<Seq<u8>>>(entries),
    decreases entries.len(),
{
    if entries.len() == 0 {
        assert(entries =~= Seq::<Entry<Seq<u8>>>::empty());
    } else {
        let e = entries[0];
        let rest = entries.drop_first();
        lemma_stands_split(buf, pos, entry_bytes(e), tree_bytes(rest));
        lemma_entry(buf, pos, e);
        assert forall|i: int| 0 <= i < rest.len() implies !is_bad_name((#[trigger] rest[i]).name) by {
            assert(rest[i] == entries[i + 1]);
        }
        let next = pos + entry_bytes(e).len();
        lemma_entries(buf, next, rest);
        mode_round_trip(e.mode);
        assert(next > pos);
        assert(seq![e] + rest =~= entries);
    }
}

/// A signature that can be written and read back: the name holds no `<` and the email no `>`,
/// neither is empty, and the seconds are not the least `i64`.
pub open spec fn signature_is_plain(s: Signature<Seq<u8>>) -> bool {
    &&& s.name.len() > 0 && free_of(s.name, LESS) && valid_utf8(s.name)
    &&& s.email.len() > 0 && free_of(s.email, GREATER) && valid_utf8(s.email)
    &&& s.timestamp.wf() && s.timestamp.unix > i64::MIN
}

/// A signature that is all on one line, as it has to be in a commit.
pub open spec fn is_one_line(s: Signature<Seq<u8>>) -> bool {
    free_of(s.name, LF) && free_of(s.email, LF)
}

proof fn lemma_timestamp_reads(t: Timestamp)
    requires
        t.wf(),
        t.unix > i64::MIN,
    ensures
        timestamp_of(signed_decimal(t.unix as int), t.timezone@) == Ok::<
            Timestamp,
            TimestampError,
        >(t),
{
    let unix = signed_decimal(t.unix as int);
    unix_round_trip(t.unix as int);
    let r = Ok::<Timestamp, TimestampError>(t);
    assert(reads_timestamp(unix, t.timezone@, r));
    lemma_timestamp_of(unix, t.timezone@, r);
}

proof fn lemma_brackets()
    ensures
        text(" <") == seq![SPACE, LESS],
        text("> ") == seq![GREATER, SPACE],
{
    reveal_strlit(" <");
    reveal_strlit("> ");
    lemma_ascii_text(" <");
    lemma_ascii_text("> ");
    assert(text(" <") =~= seq![SPACE, LESS]);
    assert(text("> ") =~= seq![GREATER, SPACE]);
}

/// The text of a plain signature reads back as the signature.
pub proof fn signature_round_trip(s: Signature<Seq<u8>>)
    requires
        signature_is_plain(s),
    ensures
        signature_of(signature_bytes(s)) == Ok::<Signature<Seq<u8>>, SignatureError>(s),
{
    lemma_brackets();
    let buf = signature_bytes(s);
    let unix = signed_decimal(s.timestamp.unix as int);
    let zone = s.timestamp.timezone@;
    let n = s.name.len() as int;
    let m = s.email.len() as int;
    assert(buf =~= s.name + seq![SPACE, LESS] + s.email + seq![GREATER, SPACE] + unix + seq![SPACE]
        + zone);
    // the name
    assert forall|j: int| 0 <= j < n + 1 implies buf[j] != LESS by {
        if j < n {
            assert(buf[j] == s.name[j]);
        }
    }
    lemma_until_is(buf, LESS, n + 1);
    assert(buf.take(n) =~= s.name);
    // the email
    let p = n + 2;
    assert forall|j: int| 0 <= j < m implies buf.skip(p)[j] != GREATER by {
        assert(buf.skip(p)[j] == s.email[j]);
    }
    lemma_until_is(buf.skip(p), GREATER, m);
    assert(buf.subrange(p, p + m) =~= s.email);
    // the seconds
    let q = p + m + 2;
    lemma_no_space(s.timestamp.unix as int);
    assert forall|j: int| 0 <= j < unix.len() implies buf.skip(q)[j] != SPACE by {
        assert(buf.skip(q)[j] == unix[j]);
    }
    lemma_until_is(buf.skip(q), SPACE, unix.len() as int);
    assert(buf.subrange(q, q + unix.len()) =~= unix);
    assert(buf.skip(q + unix.len() + 1) =~= zone);
    lemma_timestamp_reads(s.timestamp);
}

proof fn lemma_signature_lf_free(s: Signature<Seq<u8>>)
    requires
        signature_is_plain(s),
        is_one_line(s),
    ensures
        free_of(signature_bytes(s), LF),
{
    lemma_brackets();
    let buf = signature_bytes(s);
    let unix = signed_decimal(s.timestamp.unix as int);
    let zone = s.timestamp.timezone@;
    let n = s.name.len() as int;
    let m = s.email.len() as int;
    assert(buf =~= s.name + seq![SPACE, LESS] + s.email + seq![GREATER, SPACE] + unix + seq![SPACE]
        + zone);
    assert forall|i: int| 0 <= i < unix.len() implies #[trigger] unix[i] != LF by {
        let v = (if s.timestamp.unix < 0 {
            -s.timestamp.unix
        } else {
            s.timestamp.unix as int
        }) as nat;
        lemma_decimal_value(v);
        if s.timestamp.unix < 0 {
            if i > 0 {
                assert(unix[i] == decimal(v)[i - 1]);
            }
        }
    }
    assert forall|i: int| 0 <= i < zone.len() implies #[trigger] zone[i] != LF by {
        if i > 0 {
            assert(spec_is_digit(zone.skip(1)[i - 1]));
        }
    }
    assert forall|i: int| 0 <= i < buf.len() implies #[trigger] buf[i] != LF by {
        if i < n {
            assert(buf[i] == s.name[i]);
        } else if i < n + 2 {
        } else if i < n + 2 + m {
            assert(buf[i] == s.email[i - n - 2]);
        } else if i < n + m + 4 {
        } else if i < n + m + 4 + unix.len() {
            assert(buf[i] == unix[i - n - m - 4]);
        } else if i > n + m + 4 + unix.len() {
            assert(buf[i] == zone[i - n - m - 5 - unix.len()]);
        }
    }
}

/// A line `<key> <value>` is read as its key and its value.
proof fn lemma_header(buf: Seq<u8>, pos: int, key: Seq<u8>, value: Seq<u8>)
    requires
        stands_at(buf, pos, key + seq![SPACE] + value + seq![LF]),
        free_of(key, SPACE),
        free_of(key, LF),
        free_of(value, LF),
        buf.len() <= usize::MAX,
    ensures
        header_of(buf, pos) matches Ok((line, next)) && line.key == key && line.value == value
            && line.vbase == pos + key.len() + 1 && next == pos + key.len() + value.len() + 2,
{
    let line = key + seq![SPACE] + value;
    assert forall|i: int| 0 <= i < line.len() implies #[trigger] line[i] != LF by {
        if i < key.len() {
            assert(line[i] == key[i]);
        } else if i > key.len() {
            assert(line[i] == value[i - key.len() - 1]);
        }
    }
    lemma_field(buf, pos, line, LF);
    assert forall|j: int| 0 <= j < key.len() implies line[j] != SPACE by {
        assert(line[j] == key[j]);
    }
    lemma_until_is(line, SPACE, key.len() as int);
    assert(line.take(key.len() as int) =~= key);
    assert(line.skip(key.len() as int + 1) =~= value);
}

proof fn lemma_hex_oid(oid: Oid)
    ensures
        hex_oid_of(hex_of(oid@)) == Ok::<Oid, crate::object::parse::OidError>(oid),
        free_of(hex_of(oid@), LF),
        hex_of(oid@).len() == 40,
{
    let digits = hex_of(oid@);
    oid.lemma_len();
    unhex_inverts_hex_of(oid@);
    assert forall|j: int| 0 <= j < 40 implies spec_is_hex_digit(#[trigger] digits[j]) by {}
    lemma_span_is(digits, |b: u8| spec_is_hex_digit(b), 40);
    lemma_oid_of(oid);
    assert forall|i: int| 0 <= i < digits.len() implies #[trigger] digits[i] != LF by {
        assert(spec_is_hex_digit(digits[i]));
    }
}

/// The keys of the lines of a commit.
pub proof fn lemma_keys()
    ensures
        text("tree ") == text("tree") + seq![SPACE],
        text("parent ") == text("parent") + seq![SPACE],
        text("author ") == text("author") + seq![SPACE],
        text("committer ") == text("committer") + seq![SPACE],
        free_of(text("tree"), SPACE) && free_of(text("tree"), LF),
        free_of(text("parent"), SPACE) && free_of(text("parent"), LF),
        free_of(text("author"), SPACE) && free_of(text("author"), LF),
        free_of(text("committer"), SPACE) && free_of(text("committer"), LF),
        text("author") != text("parent"),
        text("tree").len() == 4,
        text("parent").len() == 6,
        text("author").len() == 6,
        text("committer").len() == 9,
{
    reveal_strlit("tree ");
    reveal_strlit("tree");
    reveal_strlit("parent ");
    reveal_strlit("parent");
    reveal_strlit("author ");
    reveal_strlit("author");
    reveal_strlit("committer ");
    reveal_strlit("committer");
    lemma_ascii_text("tree ");
    lemma_ascii_text("tree");
    lemma_ascii_text("parent ");
    lemma_ascii_text("parent");
    lemma_ascii_text("author ");
    lemma_ascii_text("author");
    lemma_ascii_text("committer ");
    lemma_ascii_text("committer");
    assert(text("tree ") =~= text("tree") + seq![SPACE]);
    assert(text("parent ") =~= text("parent") + seq![SPACE]);
    assert(text("author ") =~= text("author") + seq![SPACE]);
    assert(text("committer ") =~= text("committer") + seq![SPACE]);
    assert(text("author")[0] != text("parent")[0]);
}

proof fn lemma_parents(
    buf: Seq<u8>,
    pos: int,
    parents: Seq<Oid>,
    author: Seq<u8>,
)
    requires
        stands_at(
            buf,
            pos,
            parents_bytes(parents) + (text("author") + seq![SPACE] + author + seq![LF]),
        ),
        free_of(author, LF),
        buf.len() <= usize::MAX,
    ensures
        parents_of(buf, pos) matches Ok((oids, line, next)) && oids == parents && line.key == text(
            "author",
        ) && line.value == author && next == pos + parents_bytes(parents).len() + author.len() + 8,
    decreases parents.len(),
{
    lemma_keys();
    let last = text("author") + seq![SPACE] + author + seq![LF];
    if parents.len() == 0 {
        assert(parents_bytes(parents) + last =~= last);
        lemma_header(buf, pos, text("author"), author);
        assert(parents =~= Seq::<Oid>::empty());
    } else {
        let p = parents[0];
        let rest = parents.drop_first();
        lemma_hex_oid(p);
        let line = text("parent") + seq![SPACE] + hex_of(p@) + seq![LF];
        assert(parents_bytes(parents) + last =~= line + (parents_bytes(rest) + last));
        lemma_stands_split(buf, pos, line, parents_bytes(rest) + last);
        lemma_header(buf, pos, text("parent"), hex_of(p@));
        lemma_parents(buf, pos + line.len(), rest, author);
        assert(seq![p] + rest =~= parents);
    }
}

/// A commit that can be written and read back.
pub open spec fn commit_is_plain(c: Commit<Seq<u8>, Seq<Oid>>) -> bool {
    &&& signature_is_plain(c.author) && is_one_line(c.author)
    &&& signature_is_plain(c.committer) && is_one_line(c.committer)
    &&& valid_utf8(c.message)
}

#[verifier::spinoff_prover]
#[verifier::rlimit(60)]
proof fn lemma_commit(buf: Seq<u8>, pos: int, c: Commit<Seq<u8>, Seq<Oid>>)
    requires
        stands_at(buf, pos, commit_bytes(c)),
        pos + commit_bytes(c).len() == buf.len(),
        commit_is_plain(c),
        buf.len() <= usize::MAX,
    ensures
        commit_of(buf, pos) == Ok::<Commit<Seq<u8>, Seq<Oid>>, ParseError<Seq<u8>>>(c),
{
    lemma_keys();
    let tree = text("tree") + seq![SPACE] + hex_of(c.root_id@) + seq![LF];
    let author = text("author") + seq![SPACE] + signature_bytes(c.author) + seq![LF];
    let committer = text("committer") + seq![SPACE] + signature_bytes(c.committer) + seq![LF];
    let tail = seq![LF] + c.message;
    let upper = parents_bytes(c.parents) + author;
    assert(commit_bytes(c) =~= tree + (upper + (committer + tail)));
    lemma_stands_split(buf, pos, tree, upper + (committer + tail));
    let p1 = pos + tree.len();
    lemma_stands_split(buf, p1, upper, committer + tail);
    let p2 = p1 + upper.len();
    lemma_stands_split(buf, p2, committer, tail);
    let p3 = p2 + committer.len();
    lemma_hex_oid(c.root_id);
    lemma_header(buf, pos, text("tree"), hex_of(c.root_id@));
    lemma_signature_lf_free(c.author);
    lemma_signature_lf_free(c.committer);
    lemma_parents(buf, p1, c.parents, signature_bytes(c.author));
    signature_round_trip(c.author);
    lemma_header(buf, p2, text("committer"), signature_bytes(c.committer));
    signature_round_trip(c.committer);
    lemma_stands_split(buf, p3, seq![LF], c.message);
    assert(Seq::<u8>::empty() + seq![LF] =~= seq![LF]);
    lemma_field(buf, p3, Seq::empty(), LF);
    assert(buf.skip(p3 + 1) =~= c.message);
}

/// An object that can be written and read back: the names of a tree are ones that a tree may
/// have, and a commit is plain.
pub open spec fn is_plain(o: ObjectView) -> bool {
    match o {
        ObjectView::Blob(_) => true,
        ObjectView::Tree(entries) => forall|i: int|
            0 <= i < entries.len() ==> !is_bad_name((#[trigger] entries[i]).name),
        ObjectView::Commit(commit) => commit_is_plain(commit),
    }
}

proof fn lemma_kind(kind: ObjectType)
    ensures
        free_of(encode_utf8(kind.spec_name()), SPACE),
        text("blob") != text("tree"),
        text("blob") != text("commit"),
        text("tree") != text("commit"),
{
    reveal_strlit("blob");
    reveal_strlit("tree");
    reveal_strlit("commit");
    lemma_ascii_text("blob");
    lemma_ascii_text("tree");
    lemma_ascii_text("commit");
    assert(text("blob")[0] != text("tree")[0]);
    assert(text("blob")[0] != text("commit")[0]);
    assert(text("tree")[0] != text("commit")[0]);
    let name = match kind {
        ObjectType::Blob => text("blob"),
        ObjectType::Tree => text("tree"),
        ObjectType::Commit => text("commit"),
    };
    assert(name == encode_utf8(kind.spec_name()));
    assert(free_of(name, SPACE));
}

/// Reading the stored bytes of an object, header and content, gives the object back.
pub proof fn object_round_trip(o: ObjectView)
    requires
        is_plain(o),
        framed(type_of(o), object_bytes(o)).len() <= usize::MAX,
    ensures
        object_of(framed(type_of(o), object_bytes(o))) == Ok::<ObjectView, ParseError<Seq<u8>>>(o),
{
    let content = object_bytes(o);
    let kind = encode_utf8(type_of(o).spec_name());
    let digits = decimal(content.len());
    let buf = framed(type_of(o), content);
    lemma_kind(type_of(o));
    lemma_decimal_value(content.len());
    assert(buf =~= (kind + seq![SPACE]) + ((digits + seq![NUL]) + content));
    assert(buf.subrange(0, buf.len() as int) =~= buf);
    lemma_stands_split(buf, 0, kind + seq![SPACE], (digits + seq![NUL]) + content);
    lemma_field(buf, 0, kind, SPACE);
    let p = kind.len() + 1;
    lemma_stands_split(buf, p as int, digits + seq![NUL], content);
    assert(free_of(digits, NUL)) by {
        assert forall|i: int| 0 <= i < digits.len() implies #[trigger] digits[i] != NUL by {
            assert(spec_is_digit(digits[i]));
        }
    }
    lemma_field(buf, p as int, digits, NUL);
    lemma_span_is(digits, |b: u8| spec_is_digit(b), digits.len() as int);
    assert(digits.take(digits.len() as int) =~= digits);
    let start = p + digits.len() + 1;
    match o {
        ObjectView::Blob(blob) => {
            assert(buf.skip(start as int) =~= blob);
        },
        ObjectView::Tree(entries) => {
            lemma_entries(buf, start as int, entries);
        },
        ObjectView::Commit(commit) => {
            lemma_commit(buf, start as int, commit);
        },
    }
}

/// In front of the content of an object stand its type, a space, the length of the content in
/// decimal, and a NUL.
pub proof fn frames_start_with_the_type(content: Seq<u8>)
    ensures
        framed(ObjectType::Blob, content) == text("blob ") + decimal(content.len()) + seq![0u8]
            + content,
        framed(ObjectType::Tree, content) == text("tree ") + decimal(content.len()) + seq![0u8]
            + content,
        framed(ObjectType::Commit, content) == text("commit ") + decimal(content.len()) + seq![0u8]
            + content,
{
    lemma_kind(ObjectType::Blob);
    lemma_kind(ObjectType::Tree);
    lemma_kind(ObjectType::Commit);
    reveal_strlit("blob");
    reveal_strlit("tree");
    reveal_strlit("commit");
    reveal_strlit("blob ");
    reveal_strlit("tree ");
    reveal_strlit("commit ");
    lemma_ascii_text("blob");
    lemma_ascii_text("tree");
    lemma_ascii_text("commit");
    lemma_ascii_text("blob ");
    lemma_ascii_text("tree ");
    lemma_ascii_text("commit ");
    assert(text("blob ") =~= text("blob") + seq![SPACE]);
    assert(text("tree ") =~= text("tree") + seq![SPACE]);
    assert(text("commit ") =~= text("commit") + seq![SPACE]);
}

} // verus!
