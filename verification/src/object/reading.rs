//! What reading an object accepts, for objects that others wrote.

use crate::bytes::{
    decimal_value, free_of, lemma_ascii_text, lemma_span, lemma_span_is, lemma_stands_split,
    lemma_until, span, spec_is_digit, stands_at, text, until, GREATER, LESS, LF, NUL, SPACE,
};
use crate::object::mode::Mode;
use crate::object::oid::Oid;
use crate::object::parse::{
    all_octal, commit_of, entries_of, header_of, hex_oid_of, lemma_oid_of, mode_of, object_of,
    octal_value, parents_of, reads_mode, signature_of, timestamp_of, OidError, ParseError,
    SignatureError,
};
use crate::object::round_trip::lemma_field;
use crate::object::{Commit, Entry, ObjectView};
use crate::timestamp::TimestampError;
use vstd::arithmetic::power::pow;
use vstd::prelude::*;
use vstd::string::*;
use vstd::utf8::*;

verus! {

proof fn lemma_types()
    ensures
        text("blob") == seq![0x62u8, 0x6c, 0x6f, 0x62],
        text("tree") == seq![0x74u8, 0x72, 0x65, 0x65],
        text("commit") == seq![0x63u8, 0x6f, 0x6d, 0x6d, 0x69, 0x74],
{
    reveal_strlit("blob");
    reveal_strlit("tree");
    reveal_strlit("commit");
    lemma_ascii_text("blob");
    lemma_ascii_text("tree");
    lemma_ascii_text("commit");
    assert(text("blob") =~= seq![0x62u8, 0x6c, 0x6f, 0x62]);
    assert(text("tree") =~= seq![0x74u8, 0x72, 0x65, 0x65]);
    assert(text("commit") =~= seq![0x63u8, 0x6f, 0x6d, 0x6d, 0x69, 0x74]);
}

/// An object is read only if its size is written in digits and is the length of what stands behind
/// the header, and its type is the one that the header names. The content of a blob is all that
/// stands behind the header, whatever it is.
pub proof fn objects_are_as_their_headers_say(kind: Seq<u8>, size: Seq<u8>, content: Seq<u8>)
    requires
        free_of(kind, 0x20),
        free_of(size, 0),
    ensures
        ({
            let o = object_of(kind + seq![0x20u8] + size + seq![0u8] + content);
            let is_size = size.len() > 0 && (forall|i: int|
                0 <= i < size.len() ==> 0x30 <= #[trigger] size[i] <= 0x39) && decimal_value(size)
                == content.len() && decimal_value(size) <= usize::MAX;
            &&& o is Ok ==> is_size
            &&& o matches Ok(ObjectView::Blob(_)) ==> kind == text("blob")
            &&& o matches Ok(ObjectView::Tree(_)) ==> kind == text("tree")
            &&& o matches Ok(ObjectView::Commit(_)) ==> kind == text("commit")
            &&& kind == text("blob") && is_size ==> o == Ok::<_, ParseError<Seq<u8>>>(
                ObjectView::Blob(content),
            )
        }),
{
    lemma_types();
    let head = kind + seq![0x20u8];
    let sized = size + seq![0u8];
    let buf = kind + seq![0x20u8] + size + seq![0u8] + content;
    assert(buf =~= head + sized + content);
    assert(buf.subrange(0, head.len() as int) =~= head);
    lemma_field(buf, 0, kind, 0x20);
    assert(buf.subrange(head.len() as int, (head.len() + sized.len()) as int) =~= sized);
    lemma_field(buf, head.len() as int, size, 0);
    lemma_span(size, |b: u8| spec_is_digit(b));
    let k = span(size, |b: u8| spec_is_digit(b));
    if forall|i: int| 0 <= i < size.len() ==> 0x30 <= #[trigger] size[i] <= 0x39 {
        lemma_span_is(size, |b: u8| spec_is_digit(b), size.len() as int);
    }
    if k == size.len() {
        assert(size.take(k) =~= size);
        assert forall|i: int| 0 <= i < size.len() implies 0x30 <= #[trigger] size[i] <= 0x39 by {
            assert(spec_is_digit(size[i]));
        }
    }
    assert(buf.skip((head.len() + sized.len()) as int) =~= content);
}

/// Octal digits weigh powers of eight: behind `a`, the digits `b` count as themselves, and `a`
/// counts eight times as much for each of them. One digit counts from zero to seven.
pub proof fn octal_digits_weigh_powers_of_eight(a: Seq<u8>, b: Seq<u8>, d: u8)
    requires
        0x30 <= d <= 0x37,
    ensures
        octal_value(a + b) == octal_value(a) * pow(8, b.len()) + octal_value(b),
        octal_value(seq![d]) == d - 0x30,
    decreases b.len(),
{
    reveal_with_fuel(octal_value, 2);
    assert(seq![d].drop_last() =~= Seq::<u8>::empty());
    reveal(pow);
    if b.len() == 0 {
        assert(a + b =~= a);
    } else {
        octal_digits_weigh_powers_of_eight(a, b.drop_last(), d);
        assert((a + b).drop_last() =~= a + b.drop_last());
        let v = octal_value(a) as int;
        let p = pow(8, (b.len() - 1) as nat);
        assert(v * p * 8 == v * (8 * p)) by (nonlinear_arith);
    }
}

/// A name that an entry of a tree can have: one component of a path, and not reserved.
pub open spec fn can_be_an_entry(name: Seq<u8>) -> bool {
    &&& name.len() > 0
    &&& free_of(name, 0) && free_of(name, 0x2f)
    &&& name != text(".") && name != text("..") && name != text(".lit")
}

/// An entry of a tree is read exactly if its mode is the number of one in octal digits and its name
/// can be one. It has that mode, that name and the id behind them, and the rest of the tree is read
/// from behind the id.
pub proof fn tree_entries_are_read_as_written(
    buf: Seq<u8>,
    pos: int,
    digits: Seq<u8>,
    mode: Mode,
    name: Seq<u8>,
    oid: Oid,
)
    requires
        stands_at(buf, pos, digits + seq![0x20u8] + name + seq![0u8] + oid@),
        free_of(digits, 0x20),
        free_of(name, 0),
    ensures
        ({
            let end = pos + digits.len() + name.len() + 22;
            let is_octal = forall|i: int|
                0 <= i < digits.len() ==> 0x30 <= #[trigger] digits[i] <= 0x37;
            &&& is_octal && octal_value(digits) == mode.raw() && can_be_an_entry(name) ==> entries_of(
                buf,
                pos,
            ) == (match entries_of(buf, end) {
                Ok(rest) => Ok(seq![Entry { mode, name, oid }] + rest),
                Err(err) => Err(err),
            })
            &&& entries_of(buf, pos) is Ok ==> is_octal && can_be_an_entry(name) && (exists|m: Mode|
                #[trigger] m.raw() == octal_value(digits))
        }),
{
    oid.lemma_len();
    let head = digits + seq![SPACE];
    let named = name + seq![NUL];
    assert(digits + seq![0x20u8] + name + seq![0u8] + oid@ =~= head + (named + oid@));
    lemma_stands_split(buf, pos, head, named + oid@);
    lemma_field(buf, pos, digits, SPACE);
    let p1 = pos + head.len();
    lemma_stands_split(buf, p1, named, oid@);
    lemma_field(buf, p1, name, NUL);
    lemma_oid_of(oid);
    assert(name.contains(NUL) <==> !free_of(name, 0));
    assert(name.contains(0x2f) <==> !free_of(name, 0x2f));
    if all_octal(digits) && octal_value(digits) == mode.raw() {
        assert(reads_mode(digits, mode));
        let back = mode_of(digits)->0;
        assert(reads_mode(digits, back));
        assert(back == mode);
    }
    if entries_of(buf, pos) is Ok {
        let m = mode_of(digits)->0;
        assert(reads_mode(digits, m));
    }
}

/// A signature is read only from a name without `<`, a space, an email without `>` between angle
/// brackets, and a time: the seconds, a space and the zone, each with a space in front.
pub proof fn signatures_are_read_as_written(buf: Seq<u8>)
    ensures
        signature_of(buf) matches Ok(s) ==> {
            &&& s.name.len() > 0 && free_of(s.name, 0x3c) && valid_utf8(s.name)
            &&& s.email.len() > 0 && free_of(s.email, 0x3e) && valid_utf8(s.email)
            &&& exists|unix: Seq<u8>, zone: Seq<u8>| #[trigger]
                timestamp_of(unix, zone) == Ok::<_, TimestampError>(s.timestamp)
                    && free_of(unix, 0x20) && buf == s.name + seq![0x20u8, 0x3c] + s.email + seq![
                    0x3eu8,
                    0x20,
                ] + unix + seq![0x20u8] + zone
        },
{
    if let Ok(s) = signature_of(buf) {
        let open = until(buf, LESS);
        lemma_until(buf, LESS);
        let email_start = open + 1;
        let behind = buf.skip(email_start);
        lemma_until(behind, GREATER);
        let close = email_start + until(behind, GREATER);
        let time_start = close + 2;
        let times = buf.skip(time_start);
        lemma_until(times, SPACE);
        let space = time_start + until(times, SPACE);
        let unix = buf.subrange(time_start, space);
        let zone = buf.skip(space + 1);
        assert(buf[close] == behind[close - email_start]);
        assert(buf[space] == times[space - time_start]);
        assert forall|i: int| 0 <= i < s.email.len() implies #[trigger] s.email[i] != 0x3e by {
            assert(behind[i] == s.email[i]);
        }
        assert forall|i: int| 0 <= i < unix.len() implies #[trigger] unix[i] != 0x20 by {
            assert(times[i] == unix[i]);
        }
        assert(buf =~= s.name + seq![0x20u8, 0x3c] + s.email + seq![0x3eu8, 0x20] + unix + seq![
            0x20u8,
        ] + zone);
        assert(timestamp_of(unix, zone) == Ok::<_, TimestampError>(s.timestamp));
    }
}

proof fn lemma_header_line(buf: Seq<u8>, pos: int)
    requires
        0 <= pos <= buf.len(),
    ensures
        header_of(buf, pos) matches Ok((line, next)) ==> {
            &&& pos < next <= buf.len()
            &&& buf.subrange(pos, next) == line.key + seq![SPACE] + line.value + seq![LF]
            &&& free_of(line.value, LF)
        },
{
    if let Ok((line, next)) = header_of(buf, pos) {
        let rest = buf.skip(pos);
        lemma_until(rest, LF);
        let whole = buf.subrange(pos, next - 1);
        lemma_until(whole, SPACE);
        assert(buf[next - 1] == rest[next - 1 - pos]);
        assert(whole =~= line.key + seq![SPACE] + line.value);
        assert(buf.subrange(pos, next) =~= whole + seq![LF]);
        assert forall|i: int| 0 <= i < line.value.len() implies #[trigger] line.value[i] != LF by {
            let at = line.key.len() + 1 + i;
            assert(line.value[i] == whole[at]);
            assert(whole[at] == rest[at]);
        }
    }
}

/// One line for each parent: `parent`, a space, the forty digits of the id and a newline.
pub open spec fn are_parent_lines(b: Seq<u8>, oids: Seq<Oid>) -> bool {
    &&& b.len() == 48 * oids.len()
    &&& forall|i: int| 0 <= i < oids.len() ==> #[trigger] is_parent_line(b, i, oids[i])
}

/// The line with number `i`, of lines that are all as long, names the parent.
pub open spec fn is_parent_line(b: Seq<u8>, i: int, oid: Oid) -> bool {
    &&& b.subrange(48 * i, 48 * i + 7) == text("parent ")
    &&& hex_oid_of(b.subrange(48 * i + 7, 48 * i + 47)) == Ok::<
        Oid,
        OidError,
    >(oid)
    &&& b[48 * i + 47] == 0x0a
}

proof fn lemma_parent_lines(buf: Seq<u8>, pos: int) -> (mid: int)
    requires
        0 <= pos <= buf.len(),
        parents_of(buf, pos) is Ok,
    ensures
        ({
            let (oids, line, end) = parents_of(buf, pos)->Ok_0;
            &&& pos <= mid <= buf.len()
            &&& are_parent_lines(buf.subrange(pos, mid), oids)
            &&& header_of(buf, mid) == Ok::<_, ParseError<Seq<u8>>>((line, end))
        }),
    decreases buf.len() - pos,
{
    lemma_header_line(buf, pos);
    let (line, next) = header_of(buf, pos)->Ok_0;
    if line.key != text("parent") {
        assert(buf.subrange(pos, pos) =~= Seq::<u8>::empty());
        pos
    } else {
        let mid = lemma_parent_lines(buf, next);
        let (oids, _, _) = parents_of(buf, pos)->Ok_0;
        let (rest, _, _) = parents_of(buf, next)->Ok_0;
        let all = buf.subrange(pos, mid);
        let below = buf.subrange(next, mid);
        reveal_strlit("parent");
        reveal_strlit("parent ");
        lemma_ascii_text("parent");
        lemma_ascii_text("parent ");
        assert(text("parent ") =~= text("parent") + seq![SPACE]);
        let first = buf.subrange(pos, next);
        assert(all =~= first + below);
        assert(first =~= text("parent ") + line.value + seq![LF]);
        assert(line.value.len() == 40);
        assert(all.len() == 48 * oids.len());
        assert forall|i: int| 0 <= i < oids.len() implies #[trigger] is_parent_line(
            all,
            i,
            oids[i],
        ) by {
            if i == 0 {
                assert(all.subrange(0, 7) =~= text("parent "));
                assert(all.subrange(7, 47) =~= line.value);
            } else {
                assert(is_parent_line(below, i - 1, rest[i - 1]));
                assert(oids[i] == rest[i - 1]);
                let a = 48 * (i - 1);
                assert(all.subrange(48 * i, 48 * i + 7) =~= below.subrange(a, a + 7));
                assert(all.subrange(48 * i + 7, 48 * i + 47) =~= below.subrange(a + 7, a + 47));
                assert(all[48 * i + 47] == below[a + 47]);
            }
        }
        mid
    }
}

/// The lines of a commit, with the texts of its tree, its parents and its two signatures.
pub open spec fn is_commit_text(
    b: Seq<u8>,
    c: Commit<Seq<u8>, Seq<Oid>>,
    tree: Seq<u8>,
    parents: Seq<u8>,
    author: Seq<u8>,
    committer: Seq<u8>,
) -> bool {
    &&& b == text("tree ") + tree + seq![0x0au8] + parents + text("author ") + author + seq![
        0x0au8,
    ] + text("committer ") + committer + seq![0x0au8, 0x0a] + c.message
    &&& hex_oid_of(tree) == Ok::<Oid, OidError>(c.root_id)
    &&& are_parent_lines(parents, c.parents)
    &&& signature_of(author) == Ok::<_, SignatureError>(c.author)
    &&& signature_of(committer) == Ok::<_, SignatureError>(c.committer)
    &&& free_of(author, 0x0a) && free_of(committer, 0x0a)
    &&& valid_utf8(c.message)
}

/// A commit is read only from a line with its tree, a line for each of its parents in order, a line
/// with its author, one with its committer, and behind a blank line its message, which is all the
/// rest.
pub proof fn commits_are_read_as_written(buf: Seq<u8>, pos: int)
    requires
        0 <= pos <= buf.len(),
    ensures
        commit_of(buf, pos) matches Ok(c) ==> exists|
            tree: Seq<u8>,
            parents: Seq<u8>,
            author: Seq<u8>,
            committer: Seq<u8>,
        | #[trigger]
            is_commit_text(buf.skip(pos), c, tree, parents, author, committer),
{
    if let Ok(c) = commit_of(buf, pos) {
        lemma_header_line(buf, pos);
        let (tree, p1) = header_of(buf, pos)->Ok_0;
        let mid = lemma_parent_lines(buf, p1);
        lemma_header_line(buf, mid);
        let (author, p2) = header_of(buf, mid)->Ok_0;
        lemma_header_line(buf, p2);
        let (committer, p3) = header_of(buf, p2)->Ok_0;
        lemma_until(buf.skip(p3), LF);
        assert(buf[p3] == buf.skip(p3)[0]);
        reveal_strlit("tree");
        reveal_strlit("author");
        reveal_strlit("committer");
        reveal_strlit("tree ");
        reveal_strlit("author ");
        reveal_strlit("committer ");
        lemma_ascii_text("tree");
        lemma_ascii_text("author");
        lemma_ascii_text("committer");
        lemma_ascii_text("tree ");
        lemma_ascii_text("author ");
        lemma_ascii_text("committer ");
        assert(text("tree ") =~= text("tree") + seq![SPACE]);
        assert(text("author ") =~= text("author") + seq![SPACE]);
        assert(text("committer ") =~= text("committer") + seq![SPACE]);
        let parents = buf.subrange(p1, mid);
        lemma_pieces(
            buf,
            pos,
            p1,
            mid,
            p2,
            p3,
            text("tree ") + tree.value,
            text("author ") + author.value,
            text("committer ") + committer.value,
        );
        assert(buf.subrange(pos, p1) =~= text("tree ") + tree.value + seq![LF]);
        assert(buf.subrange(mid, p2) =~= text("author ") + author.value + seq![LF]);
        assert(buf.subrange(p2, p3) =~= text("committer ") + committer.value + seq![LF]);
        lemma_joined(
            text("tree ") + tree.value,
            parents,
            text("author "),
            author.value,
            text("committer "),
            committer.value,
            c.message,
        );
        assert(is_commit_text(
            buf.skip(pos),
            c,
            tree.value,
            parents,
            author.value,
            committer.value,
        ));
    }
}

proof fn lemma_pieces(
    buf: Seq<u8>,
    pos: int,
    p1: int,
    mid: int,
    p2: int,
    p3: int,
    a: Seq<u8>,
    b: Seq<u8>,
    c: Seq<u8>,
)
    requires
        0 <= pos <= p1 <= mid <= p2 <= p3 < buf.len(),
        buf[p3] == LF,
        buf.subrange(pos, p1) == a + seq![LF],
        buf.subrange(mid, p2) == b + seq![LF],
        buf.subrange(p2, p3) == c + seq![LF],
    ensures
        buf.skip(pos) == (a + seq![LF]) + buf.subrange(p1, mid) + (b + seq![LF]) + (c + seq![LF])
            + seq![LF] + buf.skip(p3 + 1),
{
    assert(buf.skip(pos) =~= buf.subrange(pos, p1) + buf.subrange(p1, mid) + buf.subrange(mid, p2)
        + buf.subrange(p2, p3) + seq![LF] + buf.skip(p3 + 1));
}

proof fn lemma_joined(
    a: Seq<u8>,
    parents: Seq<u8>,
    b: Seq<u8>,
    author: Seq<u8>,
    c: Seq<u8>,
    committer: Seq<u8>,
    message: Seq<u8>,
)
    ensures
        (a + seq![LF]) + parents + (b + author + seq![LF]) + (c + committer + seq![LF]) + seq![LF]
            + message == a + seq![0x0au8] + parents + b + author + seq![0x0au8] + c + committer
            + seq![0x0au8, 0x0a] + message,
{
    let left = (a + seq![LF]) + parents + (b + author + seq![LF]);
    assert(left =~= a + seq![0x0au8] + parents + b + author + seq![0x0au8]);
    assert(left + (c + committer + seq![LF]) =~= left + c + committer + seq![LF]);
    assert(left + c + committer + seq![LF] + seq![LF] =~= left + c + committer + seq![
        0x0au8,
        0x0a,
    ]);
}

} // verus!
