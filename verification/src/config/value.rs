//! The values of variables: the bytes a program means and the syntax they are written in.

use crate::bytes::{
    append, copy_of, first, memchr2, BACKSLASH, BACKSPACE, CR, HASH, LF, LOWER_B, LOWER_N, LOWER_T,
    QUOTE, SEMICOLON, SPACE, TAB,
};
use vstd::prelude::*;
use vstd::slice::slice_subrange;

verus! {

pub open spec fn is_blank(b: u8) -> bool {
    b == SPACE || b == TAB
}

/// A value that has to stand in quotes: the blanks at its ends would be taken off, and a comment
/// would start at a `#` or a `;`.
pub open spec fn needs_quotes(value: Seq<u8>) -> bool {
    (value.len() > 0 && (is_blank(value[0]) || is_blank(value.last()))) || value.contains(HASH)
        || value.contains(SEMICOLON)
}

/// The byte behind the backslash of the escape for `b`.
pub open spec fn escape_letter(b: u8) -> Option<u8> {
    if b == QUOTE {
        Some(QUOTE)
    } else if b == BACKSLASH {
        Some(BACKSLASH)
    } else if b == LF {
        Some(LOWER_N)
    } else if b == TAB {
        Some(LOWER_T)
    } else if b == BACKSPACE {
        Some(LOWER_B)
    } else {
        None
    }
}

pub open spec fn escape(b: u8) -> Seq<u8> {
    match escape_letter(b) {
        Some(letter) => seq![BACKSLASH, letter],
        None => seq![b],
    }
}

/// Each byte of the value, escaped where it needs to be.
pub open spec fn escaped(value: Seq<u8>) -> Seq<u8>
    decreases value.len(),
{
    if value.len() == 0 {
        Seq::empty()
    } else {
        escape(value[0]) + escaped(value.drop_first())
    }
}

/// The syntax of a value.
pub open spec fn encoded(value: Seq<u8>) -> Seq<u8> {
    if needs_quotes(value) {
        seq![QUOTE] + escaped(value) + seq![QUOTE]
    } else {
        escaped(value)
    }
}

/// The byte that an escape stands for.
pub open spec fn unescape_letter(letter: u8) -> Option<u8> {
    if letter == QUOTE {
        Some(QUOTE)
    } else if letter == BACKSLASH {
        Some(BACKSLASH)
    } else if letter == LOWER_N {
        Some(LF)
    } else if letter == LOWER_T {
        Some(TAB)
    } else if letter == LOWER_B {
        Some(BACKSPACE)
    } else {
        None
    }
}

/// The bytes of the escape that `s` starts with: a backslash and a letter, a backslash and a line
/// ending, or a backslash at the very end. Zero when there is no such escape.
pub open spec fn escape_len(s: Seq<u8>) -> int {
    if s.len() == 1 {
        1
    } else if unescape_letter(s[1]) is Some || s[1] == LF {
        2
    } else if s[1] == CR && s.len() > 2 && s[2] == LF {
        3
    } else {
        0
    }
}

/// What the escape that `s` starts with stands for. A line ending continues the value on the next
/// line and stands for nothing, as does a backslash at the very end.
pub open spec fn escape_value(s: Seq<u8>) -> Seq<u8> {
    if s.len() > 1 && unescape_letter(s[1]) is Some {
        seq![unescape_letter(s[1])->0]
    } else {
        Seq::empty()
    }
}

/// Every backslash starts an escape.
pub open spec fn escapes_are_known(s: Seq<u8>) -> bool
    decreases s.len(),
{
    if s.len() == 0 {
        true
    } else if s[0] == BACKSLASH {
        escape_len(s) > 0 && escapes_are_known(s.skip(escape_len(s)))
    } else {
        escapes_are_known(s.drop_first())
    }
}

/// The bytes that a value in the syntax stands for: the quotes are dropped and the escapes
/// replaced.
pub open spec fn interpreted(s: Seq<u8>) -> Seq<u8>
    decreases s.len(),
{
    if s.len() == 0 {
        Seq::empty()
    } else if s[0] == BACKSLASH {
        if escape_len(s) > 0 {
            escape_value(s) + interpreted(s.skip(escape_len(s)))
        } else {
            Seq::empty()
        }
    } else if s[0] == QUOTE {
        interpreted(s.drop_first())
    } else {
        seq![s[0]] + interpreted(s.drop_first())
    }
}

proof fn lemma_escape(b: u8, t: Seq<u8>)
    ensures
        interpreted(escape(b) + t) == seq![b] + interpreted(t),
        escapes_are_known(escape(b) + t) == escapes_are_known(t),
{
    let s = escape(b) + t;
    match escape_letter(b) {
        Some(letter) => {
            assert(s[0] == BACKSLASH && s[1] == letter);
            assert(s.skip(2) =~= t);
        },
        None => {
            assert(s.drop_first() =~= t);
        },
    }
}

proof fn lemma_escaped(value: Seq<u8>, t: Seq<u8>)
    ensures
        interpreted(escaped(value) + t) == value + interpreted(t),
        escapes_are_known(escaped(value) + t) == escapes_are_known(t),
    decreases value.len(),
{
    if value.len() == 0 {
        assert(escaped(value) + t =~= t);
        assert(value + interpreted(t) =~= interpreted(t));
    } else {
        let rest = value.drop_first();
        lemma_escaped(rest, t);
        lemma_escape(value[0], escaped(rest) + t);
        assert(escaped(value) + t =~= escape(value[0]) + (escaped(rest) + t));
        assert(value + interpreted(t) =~= seq![value[0]] + (rest + interpreted(t)));
    }
}

/// Interpreting the syntax that a value is written in gives the value back, whatever its bytes
/// are.
pub proof fn interpreting_inverts_encoding(value: Seq<u8>)
    ensures
        interpreted(encoded(value)) == value,
        escapes_are_known(encoded(value)),
{
    let empty = Seq::<u8>::empty();
    let close = seq![QUOTE];
    if needs_quotes(value) {
        let s = encoded(value);
        lemma_escaped(value, close);
        assert(s.drop_first() =~= escaped(value) + close);
        assert(close.drop_first() =~= empty);
        assert(interpreted(close) =~= empty) by {
            reveal_with_fuel(interpreted, 2);
        }
        assert(escapes_are_known(close)) by {
            reveal_with_fuel(escapes_are_known, 2);
        }
        assert(value + interpreted(close) =~= value);
    } else {
        lemma_escaped(value, empty);
        assert(escaped(value) + empty =~= escaped(value));
        assert(value + interpreted(empty) =~= value);
    }
}

pub proof fn lemma_escaped_push(value: Seq<u8>, b: u8)
    ensures
        escaped(value.push(b)) == escaped(value) + escape(b),
    decreases value.len(),
{
    let all = value.push(b);
    if value.len() == 0 {
        assert(all.drop_first() =~= value);
        assert(escaped(all) =~= escaped(value) + escape(b));
    } else {
        lemma_escaped_push(value.drop_first(), b);
        assert(all.drop_first() =~= value.drop_first().push(b));
        assert(escaped(all) =~= escaped(value) + escape(b));
    }
}

/// The syntax of a value. Whatever the bytes are, they are what the user wants: a backslash among
/// them starts no escape, and a line ending continues nothing.
pub fn encode_value(value: &[u8]) -> (bytes: Vec<u8>)
    ensures
        bytes@ == encoded(value@),
        interpreted(bytes@) == value@,
{
    proof {
        interpreting_inverts_encoding(value@);
    }
    let blank_ends = value.len() > 0 && (value[0] == SPACE || value[0] == TAB || value[value.len()
        - 1] == SPACE || value[value.len() - 1] == TAB);
    let comment = match memchr2(HASH, SEMICOLON, value) {
        Some(i) => {
            assert(value@[i as int] == HASH || value@[i as int] == SEMICOLON);
            true
        },
        None => false,
    };
    let quotes = blank_ends || comment;
    assert(quotes == needs_quotes(value@));

    let mut bytes: Vec<u8> = Vec::new();
    if quotes {
        bytes.push(QUOTE);
    }
    let ghost open = bytes@;
    let mut i: usize = 0;
    assert(value@.take(0) =~= Seq::<u8>::empty());
    assert(open + escaped(value@.take(0)) =~= open);
    while i < value.len()
        invariant
            i <= value@.len(),
            bytes@ == open + escaped(value@.take(i as int)),
        decreases value@.len() - i,
    {
        let b: u8 = value[i];
        let ghost before = bytes@;
        if b == QUOTE {
            bytes.push(BACKSLASH);
            bytes.push(QUOTE);
        } else if b == BACKSLASH {
            bytes.push(BACKSLASH);
            bytes.push(BACKSLASH);
        } else if b == LF {
            bytes.push(BACKSLASH);
            bytes.push(LOWER_N);
        } else if b == TAB {
            bytes.push(BACKSLASH);
            bytes.push(LOWER_T);
        } else if b == BACKSPACE {
            bytes.push(BACKSLASH);
            bytes.push(LOWER_B);
        } else {
            bytes.push(b);
        }
        proof {
            assert(bytes@ =~= before + escape(b));
            assert(value@.take(i + 1) =~= value@.take(i as int).push(b));
            lemma_escaped_push(value@.take(i as int), b);
            assert(bytes@ =~= open + escaped(value@.take(i + 1)));
        }
        i = i + 1;
    }
    assert(value@.take(i as int) =~= value@);
    if quotes {
        bytes.push(QUOTE);
    }
    assert(bytes@ =~= encoded(value@));
    bytes
}

/// A run of bytes that are neither a quote nor a backslash stands for itself.
proof fn lemma_plain_run(s: Seq<u8>, n: int)
    requires
        0 <= n <= s.len(),
        forall|j: int| 0 <= j < n ==> s[j] != QUOTE && s[j] != BACKSLASH,
    ensures
        interpreted(s) == s.take(n) + interpreted(s.skip(n)),
        escapes_are_known(s) == escapes_are_known(s.skip(n)),
    decreases n,
{
    if n == 0 {
        assert(s.skip(0) =~= s);
        assert(s.take(0) + interpreted(s) =~= interpreted(s));
    } else {
        let rest = s.drop_first();
        assert forall|j: int| 0 <= j < n - 1 implies rest[j] != QUOTE && rest[j] != BACKSLASH by {
            assert(rest[j] == s[j + 1]);
        }
        lemma_plain_run(rest, n - 1);
        assert(rest.skip(n - 1) =~= s.skip(n));
        assert(s.take(n) =~= seq![s[0]] + rest.take(n - 1));
        assert(s[0] != QUOTE && s[0] != BACKSLASH);
        assert(seq![s[0]] + (rest.take(n - 1) + interpreted(s.skip(n))) =~= s.take(n) + interpreted(
            s.skip(n),
        ));
    }
}

/// The bytes that a value in the syntax stands for.
pub fn interpret_value(value: &[u8]) -> (bytes: Vec<u8>)
    requires
        escapes_are_known(value@),
    ensures
        bytes@ == interpreted(value@),
{
    let pos: usize = match memchr2(QUOTE, BACKSLASH, value) {
        Some(pos) => pos,
        None => {
            proof {
                lemma_plain_run(value@, value@.len() as int);
                assert(value@.skip(value@.len() as int) =~= Seq::<u8>::empty());
                assert(value@.take(value@.len() as int) + interpreted(Seq::empty()) =~= value@);
            }
            return copy_of(value);
        },
    };
    let mut bytes: Vec<u8> = copy_of(first(value, pos));
    let mut i: usize = pos;
    proof {
        lemma_plain_run(value@, pos as int);
    }
    while i < value.len()
        invariant
            i <= value.len(),
            interpreted(value@) == bytes@ + interpreted(value@.skip(i as int)),
            escapes_are_known(value@.skip(i as int)),
        decreases value@.len() - i,
    {
        let ghost s = value@.skip(i as int);
        let ghost before = bytes@;
        let b: u8 = value[i];
        if b == QUOTE {
            assert(s.drop_first() =~= value@.skip(i + 1));
            i = i + 1;
        } else if b == BACKSLASH {
            let ghost n = escape_len(s);
            if i + 1 < value.len() {
                let letter: u8 = value[i + 1];
                if letter == QUOTE {
                    bytes.push(QUOTE);
                } else if letter == BACKSLASH {
                    bytes.push(BACKSLASH);
                } else if letter == LOWER_N {
                    bytes.push(LF);
                } else if letter == LOWER_T {
                    bytes.push(TAB);
                } else if letter == LOWER_B {
                    bytes.push(BACKSPACE);
                } else if letter == CR {
                    // the line ending of a continuation takes two bytes
                    assert(s[1] == CR);
                    i = i + 1;
                }
                i = i + 2;
            } else {
                i = i + 1;
            }
            proof {
                assert(s.skip(n) =~= value@.skip(i as int));
                assert(bytes@ =~= before + escape_value(s));
                assert(before + (escape_value(s) + interpreted(s.skip(n))) =~= bytes@ + interpreted(
                    s.skip(n),
                ));
            }
        } else {
            let start: usize = i;
            i = i + 1;
            while i < value.len() && value[i] != QUOTE && value[i] != BACKSLASH
                invariant
                    start < i <= value.len(),
                    forall|j: int|
                        start <= j < i ==> value@[j] != QUOTE && value@[j] != BACKSLASH,
                decreases value@.len() - i,
            {
                i = i + 1;
            }
            append(&mut bytes, slice_subrange(value, start, i));
            proof {
                let n = i - start;
                assert forall|j: int| 0 <= j < n implies s[j] != QUOTE && s[j] != BACKSLASH by {
                    assert(s[j] == value@[start + j]);
                }
                lemma_plain_run(s, n);
                assert(s.take(n) =~= value@.subrange(start as int, i as int));
                assert(s.skip(n) =~= value@.skip(i as int));
                assert(before + (s.take(n) + interpreted(s.skip(n))) =~= bytes@ + interpreted(
                    s.skip(n),
                ));
            }
        }
    }
    proof {
        assert(value@.skip(i as int) =~= Seq::<u8>::empty());
        assert(bytes@ + interpreted(Seq::empty()) =~= bytes@);
    }
    bytes
}

} // verus!
