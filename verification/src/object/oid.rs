//! Object ids.

use crate::bytes::{
    append_decimal, ascii_string, decimal, downcased, lemma_decimal_value, push_char, same_bytes,
};
use crate::hex::{
    all_hex, bytes_as_hex, hex_byte, hex_of, hex_of_inverts_unhex, pair_to_u8, pair_to_u8_unchecked,
    spec_is_hex_digit, unhex, unhex_inverts_hex_of,
};
use vstd::prelude::*;
use vstd::utf8::*;

verus! {

#[derive(Debug, Clone, Copy, PartialEq, Eq, Structural)]
pub enum OidError {
    BadDigit { pos: usize, digit: u8 },
    BadLength,
}

impl OidError {
    pub open spec fn spec_message(self) -> Seq<char> {
        match self {
            OidError::BadDigit { pos, digit } => bad_digit_message(pos, digit),
            OidError::BadLength => "object id must be 40 hexadecimal characters"@,
        }
    }

    /// The message shown to the user.
    pub fn message(&self) -> (r: String)
        ensures
            r@ == self.spec_message(),
    {
        match self {
            OidError::BadDigit { pos, digit } => bad_digit_text(*pos, *digit),
            OidError::BadLength => "object id must be 40 hexadecimal characters".to_owned(),
        }
    }
}

/// The text of `BadDigit`: the digit as a character of its own code, then the position.
pub open spec fn bad_digit_message(pos: usize, digit: u8) -> Seq<char> {
    "invalid hexadecimal digit '"@.push(digit as char) + "' at position "@ + decode_utf8(
        decimal(pos as nat),
    )
}

fn bad_digit_text(pos: usize, digit: u8) -> (r: String)
    ensures
        r@ == bad_digit_message(pos, digit),
{
    let mut out: Vec<u8> = Vec::new();
    append_decimal(&mut out, pos as u64);
    proof {
        lemma_decimal_value(pos as nat);
        assert(out@ =~= decimal(pos as nat));
    }
    let number = ascii_string(out);
    proof {
        encode_utf8_decode_utf8(number@);
    }
    let mut s = "invalid hexadecimal digit '".to_owned();
    push_char(&mut s, digit as char);
    s.append("' at position ");
    s.append(number.as_str());
    s
}

/// The twenty bytes that name an object.
#[derive(Debug, Clone, Copy, PartialEq, Eq)]
pub struct Oid {
    inner: [u8; 20],
}

impl View for Oid {
    type V = Seq<u8>;

    closed spec fn view(&self) -> Seq<u8> {
        self.inner@
    }
}

/// The index of the first byte that is no hexadecimal digit.
pub open spec fn is_first_bad_digit(hex: Seq<u8>, k: int) -> bool {
    0 <= k < hex.len() && !spec_is_hex_digit(hex[k]) && forall|j: int|
        0 <= j < k ==> spec_is_hex_digit(#[trigger] hex[j])
}

/// What reading an id from hexadecimal digits gives. The position of a bad digit is the number of
/// its pair plus its place, zero or one, within the pair.
pub open spec fn reads_hex(hex: Seq<u8>, r: Result<Oid, OidError>) -> bool {
    match r {
        Ok(oid) => hex.len() == 40 && all_hex(hex) && oid@ == unhex(hex),
        Err(OidError::BadLength) => hex.len() != 40,
        Err(OidError::BadDigit { pos, digit }) => hex.len() == 40 && exists|k: int|
            #[trigger] is_first_bad_digit(hex, k) && pos == k / 2 + k % 2 && digit == hex[k],
    }
}

/// The lowercase form that `str::to_lowercase` gives a text.
pub uninterp spec fn unicode_lowercase(s: Seq<char>) -> Seq<char>;

pub open spec fn ascii_lowercase(c: char) -> char {
    if 'A' <= c <= 'Z' {
        (c as u8 + 32) as char
    } else {
        c
    }
}

/// `str::to_lowercase`: the Unicode lowercase form of a text. Of an ASCII text it is the text
/// with the letters `A` to `Z` replaced by `a` to `z`.
#[verifier::external_body]
pub(crate) fn to_lowercase(s: &str) -> (r: String)
    ensures
        r@ == unicode_lowercase(s@),
        is_ascii_chars(s@) ==> r@ == s@.map_values(|c: char| ascii_lowercase(c)),
{
    s.to_lowercase()
}

impl Oid {
    /// An id with a length of twenty bytes, whatever they are.
    pub proof fn lemma_len(self)
        ensures
            self@.len() == 20,
    {
    }

    /// Two ids with the same bytes are the same id.
    pub proof fn lemma_ext(self, other: Oid)
        requires
            self@ == other@,
        ensures
            self == other,
    {
        assert(self.inner =~= other.inner) by {
            assert forall|i: int| 0 <= i < 20 implies self.inner[i] == other.inner[i] by {
                assert(self@[i] == other@[i]);
            }
        }
    }

    pub fn from_bytes(bytes: [u8; 20]) -> (oid: Self)
        ensures
            oid@ == bytes@,
    {
        Self { inner: bytes }
    }

    /// The id with these twenty bytes.
    pub fn from_slice(bytes: &[u8]) -> (oid: Self)
        requires
            bytes@.len() == 20,
        ensures
            oid@ == bytes@,
    {
        let mut inner: [u8; 20] = [0u8; 20];
        let mut i: usize = 0;
        while i < 20
            invariant
                i <= 20,
                bytes@.len() == 20,
                forall|j: int| 0 <= j < i ==> inner@[j] == bytes@[j],
            decreases 20 - i,
        {
            inner[i] = bytes[i];
            i = i + 1;
        }
        assert(inner@ =~= bytes@);
        Self { inner }
    }

    /// The id written in forty hexadecimal digits.
    pub fn from_hex_bytes(hex: &[u8]) -> (r: Result<Self, OidError>)
        ensures
            reads_hex(hex@, r),
    {
        if hex.len() != 40 {
            return Err(OidError::BadLength);
        }
        let mut inner: [u8; 20] = [0u8; 20];
        let mut i: usize = 0;
        while i < 20
            invariant
                i <= 20,
                hex@.len() == 40,
                forall|j: int| 0 <= j < 2 * i ==> spec_is_hex_digit(#[trigger] hex@[j]),
                forall|j: int|
                    0 <= j < i ==> #[trigger] inner@[j] == hex_byte(hex@[2 * j], hex@[2 * j + 1]),
            decreases 20 - i,
        {
            let pair: [u8; 2] = [hex[2 * i], hex[2 * i + 1]];
            match pair_to_u8(&pair) {
                Ok(byte) => {
                    inner[i] = byte;
                },
                Err(err) => {
                    proof {
                        let k = 2 * i + err.pos;
                        assert(is_first_bad_digit(hex@, k));
                        assert(k / 2 + k % 2 == i + err.pos);
                    }
                    return Err(OidError::BadDigit { pos: i + err.pos, digit: err.digit });
                },
            }
            i = i + 1;
        }
        assert(inner@ =~= unhex(hex@));
        Ok(Self { inner })
    }

    /// The id written in forty bytes that are known to be hexadecimal digits.
    pub fn from_hex_bytes_unchecked(hex: &[u8]) -> (oid: Self)
        requires
            hex@.len() == 40,
            all_hex(hex@),
        ensures
            oid@ == unhex(hex@),
    {
        let mut inner: [u8; 20] = [0u8; 20];
        let mut i: usize = 0;
        while i < 20
            invariant
                i <= 20,
                hex@.len() == 40,
                all_hex(hex@),
                forall|j: int|
                    0 <= j < i ==> #[trigger] inner@[j] == hex_byte(hex@[2 * j], hex@[2 * j + 1]),
            decreases 20 - i,
        {
            let pair: [u8; 2] = [hex[2 * i], hex[2 * i + 1]];
            inner[i] = pair_to_u8_unchecked(&pair);
            i = i + 1;
        }
        assert(inner@ =~= unhex(hex@));
        Self { inner }
    }

    /// The id written in hexadecimal digits of either case.
    pub fn from_hex(hex: &str) -> (r: Result<Self, OidError>)
        ensures
            reads_text(hex@, r),
    {
        let lower = to_lowercase(hex);
        proof {
            if is_ascii_chars(hex@) {
                lemma_ascii_lowercase(hex@);
            }
        }
        Self::from_hex_bytes(lower.as_str().as_bytes())
    }

    pub fn to_hex(self) -> (s: String)
        ensures
            encode_utf8(s@) == hex_of(self@),
    {
        bytes_as_hex(&self.inner)
    }

    pub fn as_bytes(&self) -> (r: &[u8; 20])
        ensures
            r@ == self@,
    {
        &self.inner
    }

    pub fn inner(&self) -> (r: [u8; 20])
        ensures
            r@ == self@,
    {
        self.inner
    }

    /// Is this the same id?
    pub fn same_as(&self, other: &Oid) -> (r: bool)
        ensures
            r == (self@ == other@),
    {
        same_bytes(self.inner.as_slice(), other.inner.as_slice())
    }
}

/// What reading an id from a text gives: the digits are those of its lowercase form, which of an
/// ASCII text is the text with its letters in lowercase.
pub open spec fn reads_text(hex: Seq<char>, r: Result<Oid, OidError>) -> bool {
    &&& reads_hex(encode_utf8(unicode_lowercase(hex)), r)
    &&& is_ascii_chars(hex) ==> reads_hex(downcased(encode_utf8(hex)), r)
}

proof fn lemma_ascii_lowercase(s: Seq<char>)
    requires
        is_ascii_chars(s),
    ensures
        encode_utf8(s.map_values(|c: char| ascii_lowercase(c))) == downcased(encode_utf8(s)),
{
    let l = s.map_values(|c: char| ascii_lowercase(c));
    assert(is_ascii_chars(l));
    is_ascii_chars_encode_utf8(s);
    is_ascii_chars_encode_utf8(l);
    assert(encode_utf8(l) =~= downcased(encode_utf8(s)));
}

/// The hexadecimal text of an id is ASCII, in lowercase.
proof fn lemma_hex_text(oid: Oid, s: Seq<char>)
    requires
        encode_utf8(s) == hex_of(oid@),
    ensures
        is_ascii_chars(s),
        downcased(hex_of(oid@)) == hex_of(oid@),
{
    let b = hex_of(oid@);
    let chars = Seq::new(b.len(), |i: int| b[i] as char);
    assert(is_ascii_chars(chars));
    is_ascii_chars_encode_utf8(chars);
    assert(encode_utf8(chars) =~= b);
    encode_utf8_decode_utf8(chars);
    encode_utf8_decode_utf8(s);
    assert(downcased(b) =~= b);
}

/// The hexadecimal text of an id, read as a text, is the id.
pub proof fn text_round_trip(oid: Oid, s: Seq<char>, r: Result<Oid, OidError>)
    requires
        encode_utf8(s) == hex_of(oid@),
        reads_text(s, r),
    ensures
        r == Ok::<Oid, OidError>(oid),
{
    lemma_hex_text(oid, s);
    hex_round_trip(oid, r);
}

/// The hexadecimal text of an id reads back as the id.
pub proof fn hex_round_trip(oid: Oid, r: Result<Oid, OidError>)
    requires
        reads_hex(hex_of(oid@), r),
    ensures
        r == Ok::<Oid, OidError>(oid),
{
    oid.lemma_len();
    unhex_inverts_hex_of(oid@);
    match r {
        Ok(back) => {
            back.lemma_ext(oid);
        },
        Err(OidError::BadLength) => {},
        Err(OidError::BadDigit { pos, digit }) => {
            let k = choose|k: int| #[trigger]
                is_first_bad_digit(hex_of(oid@), k) && pos == k / 2 + k % 2 && digit == hex_of(
                    oid@,
                )[k];
            assert(spec_is_hex_digit(hex_of(oid@)[k]));
        },
    }
}

/// A lowercase hexadecimal digit.
pub open spec fn is_lowercase_digit(b: u8) -> bool {
    0x30 <= b <= 0x39 || 0x61 <= b <= 0x66
}

/// An id is read exactly from forty lowercase hexadecimal digits, and those are the ones it is
/// written in. Of forty bytes that are not, the first that is no such digit is told, with the number
/// of its pair, one more where it is the second of the pair.
pub proof fn ids_are_forty_digits(hex: Seq<u8>, r: Result<Oid, OidError>)
    requires
        reads_hex(hex, r),
    ensures
        r is Ok <==> hex.len() == 40 && forall|i: int|
            0 <= i < hex.len() ==> is_lowercase_digit(#[trigger] hex[i]),
        r matches Ok(oid) ==> hex_of(oid@) == hex,
        r == Err::<Oid, OidError>(OidError::BadLength) <==> hex.len() != 40,
        r matches Err(OidError::BadDigit { pos, digit }) ==> exists|k: int|
            0 <= k < 40 && #[trigger] hex[k] == digit && !is_lowercase_digit(digit) && (forall|j: int|
                0 <= j < k ==> is_lowercase_digit(#[trigger] hex[j])) && 2 * pos == k + k % 2,
{
    match r {
        Ok(oid) => {
            hex_of_inverts_unhex(hex);
            assert forall|i: int| 0 <= i < hex.len() implies is_lowercase_digit(
                #[trigger] hex[i],
            ) by {
                assert(spec_is_hex_digit(hex[i]));
            }
        },
        Err(OidError::BadLength) => {},
        Err(OidError::BadDigit { pos, digit }) => {
            let k = choose|k: int| #[trigger]
                is_first_bad_digit(hex, k) && pos == k / 2 + k % 2 && digit == hex[k];
            assert(hex[k] == digit);
            assert forall|j: int| 0 <= j < k implies is_lowercase_digit(#[trigger] hex[j]) by {
                assert(spec_is_hex_digit(hex[j]));
            }
        },
    }
}

} // verus!
