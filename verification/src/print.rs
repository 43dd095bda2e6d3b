//! What is shown to the user.

pub mod cat_file;
pub mod report_lines;
pub mod status;

use crate::bytes::{
    copy_of, BACKSLASH, CR, DIGIT_0, LF, LOWER_A, LOWER_B, LOWER_F, LOWER_N, LOWER_R, LOWER_T,
    LOWER_V, QUOTE, TAB,
};
use crate::hex::{digit_of, hex_digit};
use vstd::prelude::*;

verus! {

/// A byte that a path is not shown with as it is: a control byte, a quote, a backslash, and all that
/// is not ASCII.
pub open spec fn spec_needs_quoting(b: u8) -> bool {
    b < 0x20 || b >= 0x7F || b == QUOTE || b == BACKSLASH
}

pub fn needs_quoting(b: u8) -> (r: bool)
    ensures
        r == spec_needs_quoting(b),
{
    b < 0x20 || b >= 0x7F || b == QUOTE || b == BACKSLASH
}

/// The letter of the escape that a byte has.
pub open spec fn path_escape_letter(b: u8) -> Option<u8> {
    if b == 0x07 {
        Some(LOWER_A)
    } else if b == 0x08 {
        Some(LOWER_B)
    } else if b == TAB {
        Some(LOWER_T)
    } else if b == LF {
        Some(LOWER_N)
    } else if b == 0x0B {
        Some(LOWER_V)
    } else if b == 0x0C {
        Some(LOWER_F)
    } else if b == CR {
        Some(LOWER_R)
    } else if b == QUOTE {
        Some(QUOTE)
    } else if b == BACKSLASH {
        Some(BACKSLASH)
    } else {
        None
    }
}

/// A byte within quotes: as it is, with the letter of its escape, or in three octal digits.
pub open spec fn quoted_byte(b: u8) -> Seq<u8> {
    if !spec_needs_quoting(b) {
        seq![b]
    } else {
        match path_escape_letter(b) {
            Some(letter) => seq![BACKSLASH, letter],
            None => seq![
                BACKSLASH,
                (DIGIT_0 + b / 64) as u8,
                (DIGIT_0 + (b / 8) % 8) as u8,
                (DIGIT_0 + b % 8) as u8,
            ],
        }
    }
}

pub open spec fn quoted_bytes(path: Seq<u8>) -> Seq<u8>
    decreases path.len(),
{
    if path.len() == 0 {
        Seq::empty()
    } else {
        quoted_bytes(path.drop_last()) + quoted_byte(path.last())
    }
}

pub open spec fn any_needs_quoting(path: Seq<u8>) -> bool {
    exists|i: int| 0 <= i < path.len() && spec_needs_quoting(#[trigger] path[i])
}

/// A path as it is shown: in quotes, if one of its bytes needs them.
pub open spec fn shown_path(path: Seq<u8>) -> Seq<u8> {
    if any_needs_quoting(path) {
        seq![QUOTE] + quoted_bytes(path) + seq![QUOTE]
    } else {
        path
    }
}

fn append_quoted(out: &mut Vec<u8>, b: u8)
    ensures
        final(out)@ == old(out)@ + quoted_byte(b),
{
    if !needs_quoting(b) {
        out.push(b);
        assert(out@ =~= old(out)@ + quoted_byte(b));
        return;
    }
    let letter: Option<u8> = match b {
        0x07 => Some(LOWER_A),
        0x08 => Some(LOWER_B),
        TAB => Some(LOWER_T),
        LF => Some(LOWER_N),
        0x0B => Some(LOWER_V),
        0x0C => Some(LOWER_F),
        CR => Some(LOWER_R),
        QUOTE => Some(QUOTE),
        BACKSLASH => Some(BACKSLASH),
        _ => None,
    };
    out.push(BACKSLASH);
    match letter {
        Some(letter) => {
            out.push(letter);
        },
        None => {
            out.push(DIGIT_0 + b / 64);
            out.push(DIGIT_0 + (b / 8) % 8);
            out.push(DIGIT_0 + b % 8);
        },
    }
    assert(out@ =~= old(out)@ + quoted_byte(b));
}

/// The path as it is shown.
pub fn stdout_path_bytes(path: &[u8]) -> (r: Vec<u8>)
    ensures
        r@ == shown_path(path@),
{
    let mut quote = false;
    let mut i: usize = 0;
    while i < path.len()
        invariant
            i <= path@.len(),
            quote == (exists|j: int| 0 <= j < i && spec_needs_quoting(#[trigger] path@[j])),
        decreases path@.len() - i,
    {
        if needs_quoting(path[i]) {
            quote = true;
            assert(spec_needs_quoting(path@[i as int]));
        }
        i = i + 1;
    }
    if !quote {
        return copy_of(path);
    }
    let mut out: Vec<u8> = Vec::new();
    out.push(QUOTE);
    let mut i: usize = 0;
    assert(path@.take(0) =~= Seq::<u8>::empty());
    assert(out@ =~= seq![QUOTE] + quoted_bytes(path@.take(0)));
    while i < path.len()
        invariant
            i <= path@.len(),
            out@ == seq![QUOTE] + quoted_bytes(path@.take(i as int)),
        decreases path@.len() - i,
    {
        append_quoted(&mut out, path[i]);
        assert(path@.take(i + 1).drop_last() =~= path@.take(i as int));
        assert(out@ =~= seq![QUOTE] + quoted_bytes(path@.take(i + 1)));
        i = i + 1;
    }
    assert(path@.take(i as int) =~= path@);
    out.push(QUOTE);
    out
}

proof fn lemma_quoted_printable(path: Seq<u8>)
    ensures
        forall|i: int|
            0 <= i < quoted_bytes(path).len() ==> 0x20 <= #[trigger] quoted_bytes(path)[i] < 0x7F,
    decreases path.len(),
{
    if path.len() > 0 {
        lemma_quoted_printable(path.drop_last());
        let front = quoted_bytes(path.drop_last());
        let q = quoted_byte(path.last());
        assert forall|i: int| 0 <= i < quoted_bytes(path).len() implies 0x20
            <= #[trigger] quoted_bytes(path)[i] < 0x7F by {
            if i < front.len() {
                assert(quoted_bytes(path)[i] == front[i]);
            } else {
                assert(quoted_bytes(path)[i] == q[i - front.len()]);
            }
        }
    }
}

/// A path is shown in printable ASCII, whatever its bytes are.
pub proof fn shown_paths_are_printable(path: Seq<u8>)
    ensures
        forall|i: int|
            0 <= i < shown_path(path).len() ==> 0x20 <= #[trigger] shown_path(path)[i] < 0x7F,
{
    lemma_quoted_printable(path);
    let shown = shown_path(path);
    assert forall|i: int| 0 <= i < shown.len() implies 0x20 <= #[trigger] shown[i] < 0x7F by {
        if any_needs_quoting(path) {
            if 0 < i < shown.len() - 1 {
                assert(shown[i] == quoted_bytes(path)[i - 1]);
            }
        } else {
            assert(!spec_needs_quoting(path[i]));
        }
    }
}

/// The length of the escape or the byte that quoted text ends with, read from its start.
spec fn unit_len(s: Seq<u8>) -> int {
    if s[0] != BACKSLASH {
        1
    } else if DIGIT_0 <= s[1] <= DIGIT_0 + 7 {
        4
    } else {
        2
    }
}

proof fn lemma_quoted_cons(b: u8, rest: Seq<u8>)
    ensures
        quoted_bytes(seq![b] + rest) == quoted_byte(b) + quoted_bytes(rest),
    decreases rest.len(),
{
    let all = seq![b] + rest;
    if rest.len() == 0 {
        assert(all.drop_last() =~= Seq::<u8>::empty());
        assert(quoted_bytes(all.drop_last()) =~= Seq::<u8>::empty());
        assert(quoted_bytes(all) =~= quoted_byte(b) + quoted_bytes(rest));
    } else {
        assert(all.drop_last() =~= seq![b] + rest.drop_last());
        lemma_quoted_cons(b, rest.drop_last());
        assert(quoted_bytes(all) =~= quoted_byte(b) + quoted_bytes(rest));
    }
}

proof fn lemma_quoted_byte_injective(a: u8, b: u8)
    requires
        quoted_byte(a) == quoted_byte(b),
    ensures
        a == b,
{
    let qa = quoted_byte(a);
    let qb = quoted_byte(b);
    if spec_needs_quoting(a) && path_escape_letter(a) is None && spec_needs_quoting(b)
        && path_escape_letter(b) is None {
        assert(qa[1] == qb[1] && qa[2] == qb[2] && qa[3] == qb[3]);
        assert(a / 64 <= 3 && b / 64 <= 3 && (a / 8) % 8 <= 7 && (b / 8) % 8 <= 7);
        assert(qa[1] == DIGIT_0 + a / 64 && qa[2] == DIGIT_0 + (a / 8) % 8 && qa[3] == DIGIT_0 + a
            % 8);
        assert(qb[1] == DIGIT_0 + b / 64 && qb[2] == DIGIT_0 + (b / 8) % 8 && qb[3] == DIGIT_0 + b
            % 8);
        assert(a == 64 * (a / 64) + 8 * ((a / 8) % 8) + a % 8) by (nonlinear_arith);
        assert(b == 64 * (b / 64) + 8 * ((b / 8) % 8) + b % 8) by (nonlinear_arith);
    } else {
        assert(qa.len() == qb.len());
        assert(qa[0] == qb[0]);
        if qa.len() == 2 {
            assert(qa[1] == qb[1]);
            assert(path_escape_letter(a) == Some(qa[1]));
            assert(path_escape_letter(b) == Some(qb[1]));
        } else {
            assert(qa == seq![a] && qa[0] == a);
            assert(qb == seq![b] && qb[0] == b);
        }
    }
}

proof fn lemma_quoted_injective(a: Seq<u8>, b: Seq<u8>)
    requires
        quoted_bytes(a) == quoted_bytes(b),
    ensures
        a == b,
    decreases a.len(),
{
    if a.len() == 0 || b.len() == 0 {
        if a.len() > 0 {
            assert(a =~= seq![a[0]] + a.drop_first());
            lemma_quoted_cons(a[0], a.drop_first());
        }
        if b.len() > 0 {
            assert(b =~= seq![b[0]] + b.drop_first());
            lemma_quoted_cons(b[0], b.drop_first());
        }
        assert(a =~= b);
    } else {
        assert(a =~= seq![a[0]] + a.drop_first());
        assert(b =~= seq![b[0]] + b.drop_first());
        lemma_quoted_cons(a[0], a.drop_first());
        lemma_quoted_cons(b[0], b.drop_first());
        let s = quoted_bytes(a);
        let qa = quoted_byte(a[0]);
        let qb = quoted_byte(b[0]);
        assert(s[0] == qa[0] && s[0] == qb[0]);
        if qa.len() > 1 {
            assert(s[1] == qa[1]);
        }
        if qb.len() > 1 {
            assert(s[1] == qb[1]);
        }
        assert(qa.len() == unit_len(s));
        assert(qb.len() == unit_len(s));
        assert(qa =~= s.take(unit_len(s)));
        assert(qb =~= s.take(unit_len(s)));
        lemma_quoted_byte_injective(a[0], b[0]);
        assert(quoted_bytes(a.drop_first()) =~= s.skip(unit_len(s)));
        assert(quoted_bytes(b.drop_first()) =~= s.skip(unit_len(s)));
        lemma_quoted_injective(a.drop_first(), b.drop_first());
        assert(a =~= b);
    }
}

/// Two paths that are shown the same are the same.
pub proof fn shown_paths_are_unambiguous(a: Seq<u8>, b: Seq<u8>)
    requires
        shown_path(a) == shown_path(b),
    ensures
        a == b,
{
    let s = shown_path(a);
    if any_needs_quoting(a) {
        assert(s[0] == QUOTE);
        if !any_needs_quoting(b) {
            assert(spec_needs_quoting(b[0]));
        }
        assert(quoted_bytes(a) =~= s.subrange(1, s.len() - 1));
        assert(quoted_bytes(b) =~= s.subrange(1, s.len() - 1));
        lemma_quoted_injective(a, b);
    } else if any_needs_quoting(b) {
        assert(s[0] == QUOTE);
        assert(spec_needs_quoting(a[0]));
    }
}

/// A byte in a message.
#[derive(Debug, Clone, Copy, PartialEq, Eq, Structural)]
pub struct ReadableByte(pub u8);

/// A graphic ASCII byte as it is, any other in hexadecimal. A space would not be seen.
pub open spec fn readable(b: u8) -> Seq<u8> {
    if 0x21 <= b <= 0x7E {
        seq![b]
    } else {
        seq![DIGIT_0, 0x78u8, hex_digit(b as int / 16), hex_digit(b as int % 16)]
    }
}

impl ReadableByte {
    pub fn to_bytes(&self) -> (r: Vec<u8>)
        ensures
            r@ == readable(self.0),
    {
        let b: u8 = self.0;
        let mut out: Vec<u8> = Vec::new();
        if 0x21 <= b && b <= 0x7E {
            out.push(b);
        } else {
            out.push(DIGIT_0);
            out.push(0x78);
            out.push(digit_of(b / 16));
            out.push(digit_of(b % 16));
        }
        assert(out@ =~= readable(b));
        out
    }
}

/// A path of printable ASCII without quotes and backslashes is shown as it is; any other stands in
/// quotes.
pub proof fn only_odd_paths_are_quoted(path: Seq<u8>)
    ensures
        (forall|i: int|
            0 <= i < path.len() ==> 0x20 <= #[trigger] path[i] < 0x7f && path[i] != 0x22 && path[i]
                != 0x5c) ==> shown_path(path) == path,
        (exists|i: int|
            0 <= i < path.len() && !(0x20 <= #[trigger] path[i] < 0x7f && path[i] != 0x22 && path[i]
                != 0x5c)) ==> shown_path(path) == seq![0x22u8] + quoted_bytes(path) + seq![0x22u8],
{
    if exists|i: int|
        0 <= i < path.len() && !(0x20 <= #[trigger] path[i] < 0x7f && path[i] != 0x22 && path[i]
            != 0x5c) {
        let i = choose|i: int|
            0 <= i < path.len() && !(0x20 <= #[trigger] path[i] < 0x7f && path[i] != 0x22 && path[i]
                != 0x5c);
        assert(spec_needs_quoting(path[i]));
    }
}

/// Within quotes, the control bytes that have a letter are written with it behind a backslash, and
/// so are quotes and backslashes. Other odd bytes are three octal digits behind a backslash; all
/// else is as it is.
pub proof fn odd_bytes_are_escaped(path: Seq<u8>, b: u8)
    ensures
        quoted_bytes(Seq::empty()) == Seq::<u8>::empty(),
        ({
            let q = quoted_byte(b);
            &&& quoted_bytes(path.push(b)) == quoted_bytes(path) + q
            &&& b == 0x07 ==> q == seq![0x5cu8, 0x61]
            &&& b == 0x08 ==> q == seq![0x5cu8, 0x62]
            &&& b == 0x09 ==> q == seq![0x5cu8, 0x74]
            &&& b == 0x0a ==> q == seq![0x5cu8, 0x6e]
            &&& b == 0x0b ==> q == seq![0x5cu8, 0x76]
            &&& b == 0x0c ==> q == seq![0x5cu8, 0x66]
            &&& b == 0x0d ==> q == seq![0x5cu8, 0x72]
            &&& b == 0x22 ==> q == seq![0x5cu8, 0x22]
            &&& b == 0x5c ==> q == seq![0x5cu8, 0x5c]
            &&& b < 0x07 || 0x0d < b < 0x20 || b >= 0x7f ==> q.len() == 4 && q[0] == 0x5c && (q[1]
                - 0x30) * 64 + (q[2] - 0x30) * 8 + (q[3] - 0x30) == b && (forall|i: int|
                1 <= i < 4 ==> 0x30 <= #[trigger] q[i] <= 0x37)
            &&& 0x20 <= b < 0x7f && b != 0x22 && b != 0x5c ==> q == seq![b]
        }),
{
    assert(path.push(b).drop_last() =~= path);
}

} // verus!
