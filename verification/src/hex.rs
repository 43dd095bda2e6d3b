//! Lowercase hexadecimal, the textual form of object ids.

use crate::bytes::{all_ascii, ascii_string, copy_of, text, DIGIT_0, DIGIT_9, LOWER_A, LOWER_F};
use vstd::prelude::*;
use vstd::utf8::*;

verus! {

/// A byte that is no hexadecimal digit, and where it stands.
#[derive(Debug, Clone, Copy, PartialEq, Eq, Structural)]
pub struct HexError {
    pub digit: u8,
    pub pos: usize,
}

pub open spec fn spec_is_hex_digit(byte: u8) -> bool {
    DIGIT_0 <= byte <= DIGIT_9 || LOWER_A <= byte <= LOWER_F
}

/// The value of a hexadecimal digit.
pub open spec fn hex_value(byte: u8) -> int {
    if DIGIT_0 <= byte <= DIGIT_9 {
        byte - DIGIT_0
    } else {
        byte - LOWER_A + 10
    }
}

/// The digit that stands for a value below sixteen.
pub open spec fn hex_digit(value: int) -> u8 {
    if value < 10 {
        (DIGIT_0 + value) as u8
    } else {
        (LOWER_A + value - 10) as u8
    }
}

/// The byte that a pair of digits stands for.
pub open spec fn hex_byte(high: u8, low: u8) -> u8 {
    (hex_value(high) * 16 + hex_value(low)) as u8
}

/// Two digits for each byte, the high one first.
pub open spec fn hex_of(bytes: Seq<u8>) -> Seq<u8> {
    Seq::new(
        2 * bytes.len(),
        |i: int|
            if i % 2 == 0 {
                hex_digit(bytes[i / 2] as int / 16)
            } else {
                hex_digit(bytes[i / 2] as int % 16)
            },
    )
}

/// The bytes that pairs of digits stand for.
pub open spec fn unhex(digits: Seq<u8>) -> Seq<u8> {
    Seq::new(digits.len() / 2, |i: int| hex_byte(digits[2 * i], digits[2 * i + 1]))
}

pub open spec fn all_hex(digits: Seq<u8>) -> bool {
    forall|i: int| 0 <= i < digits.len() ==> spec_is_hex_digit(#[trigger] digits[i])
}

/// Every digit of a hexadecimal text is lowercase ASCII, and reading the text back gives the
/// bytes it was written from.
pub proof fn unhex_inverts_hex_of(bytes: Seq<u8>)
    ensures
        all_hex(hex_of(bytes)),
        unhex(hex_of(bytes)) == bytes,
{
    let digits = hex_of(bytes);
    assert forall|i: int| 0 <= i < bytes.len() implies unhex(digits)[i] == bytes[i] by {
        let b = bytes[i] as int;
        assert((2 * i) / 2 == i && (2 * i) % 2 == 0);
        assert((2 * i + 1) / 2 == i && (2 * i + 1) % 2 == 1);
        assert(digits[2 * i] == hex_digit(b / 16));
        assert(digits[2 * i + 1] == hex_digit(b % 16));
        assert(hex_value(hex_digit(b / 16)) == b / 16);
        assert(hex_value(hex_digit(b % 16)) == b % 16);
    }
    assert(unhex(digits) =~= bytes);
}

/// Writing the bytes that a text of digits stands for gives the text back.
pub proof fn hex_of_inverts_unhex(digits: Seq<u8>)
    requires
        all_hex(digits),
        digits.len() % 2 == 0,
    ensures
        hex_of(unhex(digits)) == digits,
{
    let bytes = unhex(digits);
    assert forall|i: int| 0 <= i < digits.len() implies hex_of(bytes)[i] == digits[i] by {
        let k = i / 2;
        let high = digits[2 * k];
        let low = digits[2 * k + 1];
        assert(spec_is_hex_digit(high) && spec_is_hex_digit(low));
        assert(bytes[k] == hex_byte(high, low));
        assert(bytes[k] as int / 16 == hex_value(high));
        assert(bytes[k] as int % 16 == hex_value(low));
        assert(hex_digit(hex_value(high)) == high);
        assert(hex_digit(hex_value(low)) == low);
    }
    assert(hex_of(bytes) =~= digits);
}

/// The digit of a value below sixteen.
pub(crate) fn digit_of(value: u8) -> (r: u8)
    requires
        value < 16,
    ensures
        r == hex_digit(value as int),
{
    if value < 10 {
        DIGIT_0 + value
    } else {
        LOWER_A + (value - 10)
    }
}

/// The hexadecimal text of an object id.
pub fn bytes_as_hex(bytes: &[u8; 20]) -> (s: String)
    ensures
        encode_utf8(s@) == hex_of(bytes@),
{
    let mut out: Vec<u8> = Vec::new();
    let mut i: usize = 0;
    while i < 20
        invariant
            i <= 20,
            out@ == hex_of(bytes@).take(2 * i),
        decreases 20 - i,
    {
        let b: u8 = bytes[i];
        out.push(digit_of(b / 16));
        out.push(digit_of(b % 16));
        proof {
            assert((2 * i) / 2 == i && (2 * i) % 2 == 0);
            assert((2 * i + 1) / 2 == i && (2 * i + 1) % 2 == 1);
            assert(out@ =~= hex_of(bytes@).take(2 * (i + 1)));
        }
        i = i + 1;
    }
    proof {
        unhex_inverts_hex_of(bytes@);
        assert(out@ =~= hex_of(bytes@));
        assert(all_ascii(out@)) by {
            assert forall|j: int| 0 <= j < out@.len() implies out@[j] < 0x80 by {
                assert(spec_is_hex_digit(hex_of(bytes@)[j]));
            }
        }
    }
    ascii_string(out)
}

/// The text of forty hexadecimal digits; the first byte that is none is the error.
pub fn parse_hex(bytes: &[u8; 40]) -> (r: Result<String, HexError>)
    ensures
        match r {
            Ok(s) => all_hex(bytes@) && encode_utf8(s@) == bytes@,
            Err(err) => {
                &&& err.pos < 40
                &&& err.digit == bytes@[err.pos as int]
                &&& !spec_is_hex_digit(err.digit)
                &&& all_hex(bytes@.take(err.pos as int))
            },
        },
{
    let mut i: usize = 0;
    while i < 40
        invariant
            i <= 40,
            forall|j: int| 0 <= j < i ==> spec_is_hex_digit(#[trigger] bytes@[j]),
        decreases 40 - i,
    {
        if !is_hex_digit(bytes[i]) {
            assert(all_hex(bytes@.take(i as int)));
            return Err(HexError { digit: bytes[i], pos: i });
        }
        i = i + 1;
    }
    let v = copy_of(bytes.as_slice());
    assert(all_ascii(v@)) by {
        assert forall|j: int| 0 <= j < v@.len() implies v@[j] < 0x80 by {
            assert(spec_is_hex_digit(bytes@[j]));
        }
    }
    Ok(ascii_string(v))
}

/// The byte that two hexadecimal digits stand for; the first byte that is no digit is the error.
pub fn pair_to_u8(buf: &[u8; 2]) -> (r: Result<u8, HexError>)
    ensures
        r == (if !spec_is_hex_digit(buf@[0]) {
            Err::<u8, HexError>(HexError { digit: buf@[0], pos: 0 })
        } else if !spec_is_hex_digit(buf@[1]) {
            Err(HexError { digit: buf@[1], pos: 1 })
        } else {
            Ok(hex_byte(buf@[0], buf@[1]))
        }),
{
    let first = buf[0];
    let second = buf[1];

    if !is_hex_digit(first) {
        return Err(HexError { digit: first, pos: 0 });
    }
    if !is_hex_digit(second) {
        return Err(HexError { digit: second, pos: 1 });
    }
    Ok(pair_to_u8_unchecked(buf))
}

/// The byte that two hexadecimal digits stand for.
pub fn pair_to_u8_unchecked(buf: &[u8; 2]) -> (r: u8)
    requires
        spec_is_hex_digit(buf@[0]),
        spec_is_hex_digit(buf@[1]),
    ensures
        r == hex_byte(buf@[0], buf@[1]),
{
    let first: u8 = to_base10_digit(buf[0]);
    let second: u8 = to_base10_digit(buf[1]);
    // each digit fits four bits: the first takes the high half, the second the low half
    assert((first << 4) | second == first * 16 + second) by (bit_vector)
        requires
            first < 16,
            second < 16,
    ;
    (first << 4) | second
}

/// The value of a hexadecimal digit.
pub fn to_base10_digit(byte: u8) -> (r: u8)
    requires
        spec_is_hex_digit(byte),
    ensures
        r == hex_value(byte),
        r < 16,
{
    if DIGIT_0 <= byte && byte <= DIGIT_9 {
        byte - DIGIT_0
    } else {
        byte - LOWER_A + 10
    }
}

/// Is this a hexadecimal digit? Ids are always written in lowercase and hashed as written, so
/// the uppercase letters are no digits here.
pub fn is_hex_digit(byte: u8) -> (r: bool)
    ensures
        r == spec_is_hex_digit(byte),
{
    (DIGIT_0 <= byte && byte <= DIGIT_9) || (LOWER_A <= byte && byte <= LOWER_F)
}

/// Each byte is written as two digits, `0` to `9` or `a` to `f`, the one that counts sixteen times
/// first.
pub proof fn bytes_are_two_lowercase_digits(bytes: Seq<u8>, i: int)
    requires
        0 <= i < bytes.len(),
    ensures
        hex_of(bytes).len() == 2 * bytes.len(),
        ({
            let high = hex_of(bytes)[2 * i];
            let low = hex_of(bytes)[2 * i + 1];
            let high_value = if high <= 0x39 {
                high - 0x30
            } else {
                high - 0x61 + 10
            };
            let low_value = if low <= 0x39 {
                low - 0x30
            } else {
                low - 0x61 + 10
            };
            &&& 0x30 <= high <= 0x39 || 0x61 <= high <= 0x66
            &&& 0x30 <= low <= 0x39 || 0x61 <= low <= 0x66
            &&& bytes[i] == high_value * 16 + low_value
        }),
{
    assert((2 * i) / 2 == i && (2 * i + 1) / 2 == i);
}

} // verus!
