//! UTF-8 byte sequences, one character at a time.

use crate::bytes::{copy_of, string_from_utf8};
use vstd::prelude::*;
use vstd::slice::slice_subrange;
use vstd::string::*;
use vstd::utf8::*;

verus! {

/// A sequence that started at `pos` and should have been `len` bytes long.
#[derive(Debug, Clone, Copy, PartialEq, Eq, Structural)]
pub struct Utf8Error {
    pub len: u8,
    pub pos: usize,
}

/// The length of a sequence with this first byte; zero where no sequence starts with it.
pub open spec fn width_of(b: u8) -> int {
    if b <= 0x7F {
        1
    } else if 0xC2 <= b <= 0xDF {
        2
    } else if 0xE0 <= b <= 0xEF {
        3
    } else if 0xF0 <= b <= 0xF4 {
        4
    } else {
        0
    }
}

pub fn char_width(b: u8) -> (r: usize)
    ensures
        r == width_of(b),
{
    if b <= 0x7F {
        1
    } else if 0xC2 <= b && b <= 0xDF {
        2
    } else if 0xE0 <= b && b <= 0xEF {
        3
    } else if 0xF0 <= b && b <= 0xF4 {
        4
    } else {
        0
    }
}

/// What stops the bytes at `pos` from being a character of more than one byte.
pub open spec fn sequence_error(b: Seq<u8>, pos: int) -> Option<Utf8Error> {
    let width = width_of(b[pos]);
    if width >= 2 && valid_first_scalar(b.skip(pos)) {
        None
    } else {
        Some(Utf8Error { len: (if width >= 2 { width } else { 1 }) as u8, pos: pos as usize })
    }
}

/// The ranges of the second byte rule out longer encodings than needed, surrogates and what lies
/// above the last code point.
pub open spec fn second_fits(first: u8, second: u8) -> bool {
    let low: u8 = if first == 0xE0 {
        0xA0
    } else if first == 0xF0 {
        0x90
    } else {
        0x80
    };
    let high: u8 = if first == 0xED {
        0x9F
    } else if first == 0xF4 {
        0x8F
    } else {
        0xBF
    };
    low <= second <= high
}

proof fn lemma_two(a: u8, b: u8)
    requires
        0xC0 <= a <= 0xDF,
        0x80 <= b <= 0xBF,
    ensures
        codepoint_width_2(a, b) >= 0x80 <==> a >= 0xC2,
        codepoint_width_2(a, b) < 0x800,
{
    assert(((((a & 0x1F) as u32) << 6) | ((b & 0x3f) as u32)) >= 0x80 <==> a >= 0xC2)
        by (bit_vector)
        requires
            0xC0 <= a <= 0xDF,
            0x80 <= b <= 0xBF,
    ;
    assert(((((a & 0x1F) as u32) << 6) | ((b & 0x3f) as u32)) < 0x800) by (bit_vector);
}

proof fn lemma_three(a: u8, b: u8, c: u8)
    requires
        0xE0 <= a <= 0xEF,
        0x80 <= b <= 0xBF,
        0x80 <= c <= 0xBF,
    ensures
        (codepoint_width_3(a, b, c) >= 0x800 && not_surrogate(codepoint_width_3(a, b, c)))
            <==> second_fits(a, b),
{
    let code = codepoint_width_3(a, b, c);
    assert(code == (((a & 0x0F) as u32) << 12) | (((b & 0x3f) as u32) << 6) | ((c & 0x3f) as u32));
    assert((code >= 0x800 && !(0xD800 <= code && code <= 0xDFFF)) <==> (b >= (if a == 0xE0 {
        0xA0u8
    } else {
        0x80u8
    }) && b <= (if a == 0xED {
        0x9Fu8
    } else {
        0xBFu8
    }))) by (bit_vector)
        requires
            code == (((a & 0x0F) as u32) << 12) | (((b & 0x3f) as u32) << 6) | ((c & 0x3f) as u32),
            0xE0 <= a <= 0xEF,
            0x80 <= b <= 0xBF,
            0x80 <= c <= 0xBF,
    ;
}

proof fn lemma_four(a: u8, b: u8, c: u8, d: u8)
    requires
        0xF0 <= a <= 0xF7,
        0x80 <= b <= 0xBF,
        0x80 <= c <= 0xBF,
        0x80 <= d <= 0xBF,
    ensures
        0x10000 <= codepoint_width_4(a, b, c, d) <= 0x10ffff <==> a <= 0xF4 && second_fits(a, b),
{
    let code = codepoint_width_4(a, b, c, d);
    assert(code == (((a & 0x07) as u32) << 18) | (((b & 0x3f) as u32) << 12) | (((c & 0x3f) as u32)
        << 6) | ((d & 0x3f) as u32));
    assert((0x10000 <= code && code <= 0x10ffff) <==> (a <= 0xF4 && b >= (if a == 0xF0 {
        0x90u8
    } else {
        0x80u8
    }) && b <= (if a == 0xF4 {
        0x8Fu8
    } else {
        0xBFu8
    }))) by (bit_vector)
        requires
            code == (((a & 0x07) as u32) << 18) | (((b & 0x3f) as u32) << 12) | (((c & 0x3f)
                as u32) << 6) | ((d & 0x3f) as u32),
            0xF0 <= a <= 0xF7,
            0x80 <= b <= 0xBF,
            0x80 <= c <= 0xBF,
            0x80 <= d <= 0xBF,
    ;
}

/// A character of more than one byte, byte by byte.
proof fn lemma_sequence(s: Seq<u8>)
    requires
        s.len() > 0,
        s[0] > 0x7F,
    ensures
        valid_first_scalar(s) <==> {
            ||| width_of(s[0]) == 2 && s.len() >= 2 && is_continuation_byte(s[1])
            ||| width_of(s[0]) == 3 && s.len() >= 3 && second_fits(s[0], s[1])
                && is_continuation_byte(s[2])
            ||| width_of(s[0]) == 4 && s.len() >= 4 && second_fits(s[0], s[1])
                && is_continuation_byte(s[2]) && is_continuation_byte(s[3])
        },
{
    if s.len() >= 2 && 0xC0 <= s[0] <= 0xDF && is_continuation_byte(s[1]) {
        lemma_two(s[0], s[1]);
    }
    if s.len() >= 3 && 0xE0 <= s[0] <= 0xEF && is_continuation_byte(s[1]) && is_continuation_byte(
        s[2],
    ) {
        lemma_three(s[0], s[1], s[2]);
    }
    if s.len() >= 4 && 0xF0 <= s[0] <= 0xF7 && is_continuation_byte(s[1]) && is_continuation_byte(
        s[2],
    ) && is_continuation_byte(s[3]) {
        lemma_four(s[0], s[1], s[2], s[3]);
    }
}

/// Steps to the next byte.
pub fn next(bytes: &[u8], pos: &mut usize) -> (r: Option<u8>)
    requires
        *old(pos) < usize::MAX,
    ensures
        *final(pos) == *old(pos) + 1,
        r == (if *old(pos) + 1 < bytes@.len() {
            Some(bytes@[*old(pos) + 1])
        } else {
            None
        }),
{
    *pos = *pos + 1;
    if *pos >= bytes.len() {
        return None;
    }
    Some(bytes[*pos])
}

fn is_continuation(b: Option<u8>) -> (r: bool)
    ensures
        r == (b matches Some(b) && is_continuation_byte(b)),
{
    match b {
        Some(b) => 0x80 <= b && b <= 0xBF,
        None => false,
    }
}

fn is_second_of(first: u8, b: Option<u8>) -> (r: bool)
    ensures
        r == (b matches Some(b) && second_fits(first, b)),
{
    let low: u8 = if first == 0xE0 {
        0xA0
    } else if first == 0xF0 {
        0x90
    } else {
        0x80
    };
    let high: u8 = if first == 0xED {
        0x9F
    } else if first == 0xF4 {
        0x8F
    } else {
        0xBF
    };
    match b {
        Some(b) => low <= b && b <= high,
        None => false,
    }
}

/// Checks that a character of more than one byte starts at `pos`.
pub fn check_sequence(buffer: &[u8], pos: usize) -> (r: Result<(), Utf8Error>)
    requires
        pos < buffer@.len(),
    ensures
        match sequence_error(buffer@, pos as int) {
            None => r is Ok,
            Some(err) => r matches Err(e) && e == err,
        },
{
    let mut i: usize = pos;
    let first: u8 = buffer[i];
    let width: usize = char_width(first);
    let ghost s = buffer@.skip(pos as int);
    proof {
        assert(buffer.len() == buffer@.len());
        assert(s[0] == first);
        if first > 0x7F {
            lemma_sequence(s);
        }
    }
    if width < 2 {
        return Err(Utf8Error { len: 1, pos });
    }
    let error = Utf8Error { len: width as u8, pos };
    let second = next(buffer, &mut i);
    if width == 2 {
        if !is_continuation(second) {
            return Err(error);
        }
        return Ok(());
    }
    if !is_second_of(first, second) {
        return Err(error);
    }
    if !is_continuation(next(buffer, &mut i)) {
        return Err(error);
    }
    if width == 4 && !is_continuation(next(buffer, &mut i)) {
        return Err(error);
    }
    Ok(())
}

/// Does the text start with a byte order mark?
pub fn is_bom_present(buffer: &[u8]) -> (r: bool)
    ensures
        r == (buffer@.len() >= 3 && buffer@.take(3) == seq![0xEFu8, 0xBBu8, 0xBFu8]),
{
    if buffer.len() < 3 {
        return false;
    }
    let r = buffer[0] == 0xEF && buffer[1] == 0xBB && buffer[2] == 0xBF;
    proof {
        let mark = seq![0xEFu8, 0xBBu8, 0xBFu8];
        if r {
            assert(buffer@.take(3) =~= mark);
        } else {
            assert(mark[0] == 0xEF && mark[1] == 0xBB && mark[2] == 0xBF);
            assert(buffer@.take(3)[0] == buffer@[0] && buffer@.take(3)[1] == buffer@[1]
                && buffer@.take(3)[2] == buffer@[2]);
        }
    }
    r
}

/// The character at `pos`.
pub fn read_char(buffer: &[u8], pos: usize) -> (c: char)
    requires
        pos < buffer@.len(),
        valid_first_scalar(buffer@.skip(pos as int)),
    ensures
        c as u32 == decode_first_scalar(buffer@.skip(pos as int)),
{
    let width: usize = char_width(buffer[pos]);
    let ghost s = buffer@.skip(pos as int);
    proof {
        assert(buffer.len() == buffer@.len());
        assert(s[0] == buffer@[pos as int]);
        if s[0] > 0x7F {
            lemma_sequence(s);
        }
    }
    let bytes = copy_of(slice_subrange(buffer, pos, pos + width));
    let ghost b = bytes@;
    proof {
        assert(forall|i: int| 0 <= i < b.len() ==> b[i] == s[i]);
        assert(valid_first_scalar(b));
        assert(pop_first_scalar(b) =~= Seq::<u8>::empty());
        assert(valid_utf8(Seq::<u8>::empty()));
        assert(valid_utf8(b));
    }
    match string_from_utf8(bytes) {
        Ok(text) => {
            proof {
                if text@.len() == 0 {
                    assert(encode_utf8(text@) =~= Seq::<u8>::empty());
                }
                encode_utf8_first_scalar(text@);
            }
            text.as_str().get_char(0)
        },
        Err(_) => '\u{FFFD}',
    }
}

/// The first byte of a character tells how many bytes it takes, and a byte that no character starts
/// with tells none.
pub proof fn first_bytes_tell_the_width(b: Seq<u8>)
    requires
        b.len() > 0,
    ensures
        valid_first_scalar(b) ==> width_of(b[0]) == length_of_first_scalar(b),
        width_of(b[0]) == 0 ==> !valid_first_scalar(b),
        width_of(b[0]) == 1 <==> b[0] < 0x80,
{
    if valid_first_scalar(b) {
        if 0xC0 <= b[0] <= 0xDF {
            lemma_two(b[0], b[1]);
        } else if 0xF0 <= b[0] <= 0xF7 {
            lemma_four(b[0], b[1], b[2], b[3]);
        }
    }
}

/// The bytes at a position are a character of more than one byte, or it is told where they start
/// and how long they should have been.
pub proof fn sequences_are_whole_characters(b: Seq<u8>, pos: int)
    requires
        0 <= pos < b.len() <= usize::MAX,
    ensures
        sequence_error(b, pos) is None <==> b[pos] >= 0x80 && valid_first_scalar(b.skip(pos)),
        sequence_error(b, pos) matches Some(err) ==> err.pos == pos && 1 <= err.len <= 4,
{
    first_bytes_tell_the_width(b.skip(pos));
}

} // verus!
