//! Byte strings: the ASCII bytes the formats are written in, searching, ordering and the
//! conversions to and from text.

use vstd::arithmetic::power::pow;
use vstd::prelude::*;
use vstd::slice::slice_subrange;
use vstd::string::*;
use vstd::utf8::*;

verus! {

pub const NUL: u8 = 0x00;

pub const BACKSPACE: u8 = 0x08;

pub const TAB: u8 = 0x09;

pub const LF: u8 = 0x0a;

pub const CR: u8 = 0x0d;

pub const SPACE: u8 = 0x20;

pub const QUOTE: u8 = 0x22;

pub const HASH: u8 = 0x23;

pub const PLUS: u8 = 0x2b;

pub const DASH: u8 = 0x2d;

pub const DOT: u8 = 0x2e;

pub const SLASH: u8 = 0x2f;

pub const DIGIT_0: u8 = 0x30;

pub const DIGIT_7: u8 = 0x37;

pub const DIGIT_9: u8 = 0x39;

pub const SEMICOLON: u8 = 0x3b;

pub const LESS: u8 = 0x3c;

pub const EQUALS: u8 = 0x3d;

pub const GREATER: u8 = 0x3e;

pub const UPPER_A: u8 = 0x41;

pub const UPPER_Z: u8 = 0x5a;

pub const OPEN_BRACKET: u8 = 0x5b;

pub const BACKSLASH: u8 = 0x5c;

pub const CLOSE_BRACKET: u8 = 0x5d;

pub const LOWER_A: u8 = 0x61;

pub const LOWER_B: u8 = 0x62;

pub const LOWER_F: u8 = 0x66;

pub const LOWER_N: u8 = 0x6e;

pub const LOWER_R: u8 = 0x72;

pub const LOWER_T: u8 = 0x74;

pub const LOWER_V: u8 = 0x76;

pub const LOWER_Z: u8 = 0x7a;

/// The UTF-8 bytes of a piece of text.
pub open spec fn text(s: &str) -> Seq<u8> {
    s.spec_bytes()
}

/// An ASCII text has one byte per character.
pub proof fn lemma_ascii_text(s: &str)
    requires
        is_ascii_chars(s@),
    ensures
        text(s).len() == s@.len(),
        forall|i: int| 0 <= i < s@.len() ==> #[trigger] text(s)[i] == s@[i] as u8,
{
    is_ascii_chars_encode_utf8(s@);
}

/// The bytes of `b` before the first `needle`; all of `b` when there is none.
pub open spec fn until(b: Seq<u8>, needle: u8) -> int
    decreases b.len(),
{
    if b.len() == 0 || b[0] == needle {
        0
    } else {
        1 + until(b.drop_first(), needle)
    }
}

pub proof fn lemma_until(b: Seq<u8>, needle: u8)
    ensures
        0 <= until(b, needle) <= b.len(),
        until(b, needle) < b.len() ==> b[until(b, needle)] == needle,
        forall|j: int| 0 <= j < until(b, needle) ==> b[j] != needle,
    decreases b.len(),
{
    if b.len() > 0 && b[0] != needle {
        lemma_until(b.drop_first(), needle);
        assert forall|j: int| 0 <= j < until(b, needle) implies b[j] != needle by {
            if j > 0 {
                assert(b.drop_first()[j - 1] == b[j]);
            }
        }
    }
}

/// `until` is the only index with its two properties.
pub proof fn lemma_until_is(b: Seq<u8>, needle: u8, i: int)
    requires
        0 <= i <= b.len(),
        i < b.len() ==> b[i] == needle,
        forall|j: int| 0 <= j < i ==> b[j] != needle,
    ensures
        until(b, needle) == i,
{
    lemma_until(b, needle);
    let u = until(b, needle);
    if u < i {
        assert(b[u] != needle);
    } else if i < u {
        assert(b[i] != needle);
    }
}

/// The number of bytes that `b` starts with and of which `p` holds.
pub open spec fn span(b: Seq<u8>, p: spec_fn(u8) -> bool) -> int
    decreases b.len(),
{
    if b.len() > 0 && p(b[0]) {
        1 + span(b.drop_first(), p)
    } else {
        0
    }
}

pub proof fn lemma_span(b: Seq<u8>, p: spec_fn(u8) -> bool)
    ensures
        0 <= span(b, p) <= b.len(),
        span(b, p) < b.len() ==> !p(b[span(b, p)]),
        forall|j: int| 0 <= j < span(b, p) ==> p(#[trigger] b[j]),
    decreases b.len(),
{
    if b.len() > 0 && p(b[0]) {
        lemma_span(b.drop_first(), p);
        assert forall|j: int| 0 <= j < span(b, p) implies p(#[trigger] b[j]) by {
            if j > 0 {
                assert(b.drop_first()[j - 1] == b[j]);
            }
        }
    }
}

/// `span` is the only index with its two properties.
pub proof fn lemma_span_is(b: Seq<u8>, p: spec_fn(u8) -> bool, i: int)
    requires
        0 <= i <= b.len(),
        i < b.len() ==> !p(b[i]),
        forall|j: int| 0 <= j < i ==> p(#[trigger] b[j]),
    ensures
        span(b, p) == i,
{
    lemma_span(b, p);
    let u = span(b, p);
    if u < i {
        assert(p(b[u]));
    } else if i < u {
        assert(p(b[i]));
    }
}

/// `part` stands in `buf` at `pos`.
pub open spec fn stands_at(buf: Seq<u8>, pos: int, part: Seq<u8>) -> bool {
    0 <= pos && pos + part.len() <= buf.len() && buf.subrange(pos, pos + part.len()) == part
}

pub proof fn lemma_stands_split(buf: Seq<u8>, pos: int, a: Seq<u8>, b: Seq<u8>)
    requires
        stands_at(buf, pos, a + b),
    ensures
        stands_at(buf, pos, a),
        stands_at(buf, pos + a.len(), b),
{
    let whole = buf.subrange(pos, pos + a.len() + b.len());
    assert(buf.subrange(pos, pos + a.len()) =~= a) by {
        assert forall|i: int| 0 <= i < a.len() implies buf.subrange(pos, pos + a.len())[i] == a[i] by {
            assert(whole[i] == (a + b)[i]);
        }
    }
    assert(buf.subrange(pos + a.len(), pos + a.len() + b.len()) =~= b) by {
        assert forall|i: int| 0 <= i < b.len() implies buf.subrange(
            pos + a.len(),
            pos + a.len() + b.len(),
        )[i] == b[i] by {
            assert(whole[a.len() + i] == (a + b)[a.len() + i]);
        }
    }
}

pub proof fn lemma_stands_byte(buf: Seq<u8>, pos: int, part: Seq<u8>, i: int)
    requires
        stands_at(buf, pos, part),
        0 <= i < part.len(),
    ensures
        buf[pos + i] == part[i],
{
    assert(buf.subrange(pos, pos + part.len())[i] == part[i]);
}

/// The byte does not occur in `b`.
pub open spec fn free_of(b: Seq<u8>, byte: u8) -> bool {
    forall|i: int| 0 <= i < b.len() ==> #[trigger] b[i] != byte
}

/// `memchr::memchr`: the index of the first `needle` in `haystack`, or `None` when the byte does
/// not occur.
#[verifier::external_body]
pub(crate) fn memchr(needle: u8, haystack: &[u8]) -> (r: Option<usize>)
    ensures
        match r {
            Some(i) => i < haystack@.len() && haystack@[i as int] == needle && forall|j: int|
                0 <= j < i ==> haystack@[j] != needle,
            None => forall|j: int| 0 <= j < haystack@.len() ==> haystack@[j] != needle,
        },
{
    memchr::memchr(needle, haystack)
}

/// `memchr::memchr2`: the index of the first byte of `haystack` that is one of the two needles,
/// or `None` when neither occurs.
#[verifier::external_body]
pub(crate) fn memchr2(first: u8, second: u8, haystack: &[u8]) -> (r: Option<usize>)
    ensures
        match r {
            Some(i) => i < haystack@.len() && (haystack@[i as int] == first || haystack@[i as int]
                == second) && forall|j: int|
                0 <= j < i ==> haystack@[j] != first && haystack@[j] != second,
            None => forall|j: int|
                0 <= j < haystack@.len() ==> haystack@[j] != first && haystack@[j] != second,
        },
{
    memchr::memchr2(first, second, haystack)
}

/// Does `needle` stand in `haystack` at `at`?
pub open spec fn occurs_at(haystack: Seq<u8>, needle: Seq<u8>, at: int) -> bool {
    0 <= at && at + needle.len() <= haystack.len() && haystack.subrange(at, at + needle.len())
        == needle
}

/// `memchr::memmem::find`: the index of the first occurrence of `needle` in `haystack`, or `None`
/// when it does not occur.
#[verifier::external_body]
pub(crate) fn memmem_find(haystack: &[u8], needle: &[u8]) -> (r: Option<usize>)
    ensures
        match r {
            Some(i) => occurs_at(haystack@, needle@, i as int) && forall|j: int|
                0 <= j < i ==> !occurs_at(haystack@, needle@, j),
            None => forall|j: int| !occurs_at(haystack@, needle@, j),
        },
{
    memchr::memmem::find(haystack, needle)
}

/// The longest valid UTF-8 prefix of `b` has length `n`.
pub open spec fn is_valid_up_to(b: Seq<u8>, n: int) -> bool {
    &&& 0 <= n <= b.len()
    &&& valid_utf8(b.take(n))
    &&& forall|m: int| n < m <= b.len() ==> !valid_utf8(#[trigger] b.take(m))
}

/// The length of the longest valid UTF-8 prefix of `b`.
pub open spec fn valid_up_to(b: Seq<u8>) -> int {
    choose|n: int| is_valid_up_to(b, n)
}

pub proof fn lemma_valid_up_to(b: Seq<u8>, n: int)
    requires
        is_valid_up_to(b, n),
    ensures
        valid_up_to(b) == n,
{
    let m = valid_up_to(b);
    assert(is_valid_up_to(b, m));
    if n < m {
        assert(!valid_utf8(b.take(m)));
    } else if m < n {
        assert(!valid_utf8(b.take(n)));
    }
}

/// `String::from_utf8`: the text with exactly these bytes when they are valid UTF-8, and
/// otherwise the length of their longest valid prefix (`Utf8Error::valid_up_to`).
#[verifier::external_body]
pub(crate) fn string_from_utf8(bytes: Vec<u8>) -> (r: Result<String, usize>)
    ensures
        match r {
            Ok(s) => valid_utf8(bytes@) && encode_utf8(s@) == bytes@,
            Err(n) => !valid_utf8(bytes@) && is_valid_up_to(bytes@, n as int),
        },
{
    String::from_utf8(bytes).map_err(|err| err.utf8_error().valid_up_to())
}

/// `String::push`: one character at the end.
#[verifier::external_body]
pub(crate) fn push_char(s: &mut String, c: char)
    ensures
        final(s)@ == old(s)@.push(c),
{
    s.push(c);
}

/// The bytes in each of a number of vectors.
pub open spec fn byte_vecs(v: Seq<Vec<u8>>) -> Seq<Seq<u8>> {
    Seq::new(v.len(), |i: int| v[i]@)
}

/// Is every byte an ASCII one?
pub open spec fn all_ascii(b: Seq<u8>) -> bool {
    forall|i: int| 0 <= i < b.len() ==> b[i] < 0x80
}

/// ASCII bytes are valid UTF-8.
pub proof fn lemma_ascii_valid(b: Seq<u8>)
    requires
        all_ascii(b),
    ensures
        valid_utf8(b),
{
    let chars = Seq::new(b.len(), |i: int| b[i] as char);
    assert(is_ascii_chars(chars));
    is_ascii_chars_encode_utf8(chars);
    assert(encode_utf8(chars) =~= b);
    encode_utf8_valid_utf8(chars);
}

/// The text made of these ASCII bytes.
pub fn ascii_string(bytes: Vec<u8>) -> (s: String)
    requires
        all_ascii(bytes@),
    ensures
        encode_utf8(s@) == bytes@,
{
    proof {
        lemma_ascii_valid(bytes@);
    }
    match string_from_utf8(bytes) {
        Ok(s) => s,
        Err(_) => String::new(),
    }
}

/// Appends a byte string.
pub fn append(out: &mut Vec<u8>, b: &[u8])
    ensures
        final(out)@ == old(out)@ + b@,
{
    out.extend_from_slice(b);
    assert(out@ =~= old(out)@ + b@);
}

/// Appends the bytes of a piece of text.
pub fn append_text(out: &mut Vec<u8>, s: &str)
    ensures
        final(out)@ == old(out)@ + text(s),
{
    append(out, s.as_bytes());
}

/// A copy of a byte string.
pub fn copy_of(b: &[u8]) -> (v: Vec<u8>)
    ensures
        v@ == b@,
{
    let mut v: Vec<u8> = Vec::new();
    append(&mut v, b);
    assert(v@ =~= b@);
    v
}

/// Do two byte strings hold the same bytes?
pub fn same_bytes(a: &[u8], b: &[u8]) -> (r: bool)
    ensures
        r == (a@ == b@),
{
    if a.len() != b.len() {
        return false;
    }
    let mut i: usize = 0;
    while i < a.len()
        invariant
            a@.len() == b@.len(),
            i <= a@.len(),
            forall|j: int| 0 <= j < i ==> a@[j] == b@[j],
        decreases a@.len() - i,
    {
        if a[i] != b[i] {
            return false;
        }
        i = i + 1;
    }
    assert(a@ =~= b@);
    true
}

/// Are these the bytes of `s`?
pub fn is_text(b: &[u8], s: &str) -> (r: bool)
    ensures
        r == (b@ == text(s)),
{
    same_bytes(b, s.as_bytes())
}

pub open spec fn has_prefix(b: Seq<u8>, prefix: Seq<u8>) -> bool {
    prefix.len() <= b.len() && b.take(prefix.len() as int) == prefix
}

pub open spec fn has_suffix(b: Seq<u8>, suffix: Seq<u8>) -> bool {
    suffix.len() <= b.len() && b.skip(b.len() - suffix.len()) == suffix
}

/// Does `b` start with `prefix`?
pub fn starts_with(b: &[u8], prefix: &[u8]) -> (r: bool)
    ensures
        r == has_prefix(b@, prefix@),
{
    if prefix.len() > b.len() {
        return false;
    }
    let head = slice_subrange(b, 0, prefix.len());
    assert(head@ =~= b@.take(prefix@.len() as int));
    same_bytes(head, prefix)
}

/// Does `b` end with `suffix`?
pub fn ends_with(b: &[u8], suffix: &[u8]) -> (r: bool)
    ensures
        r == has_suffix(b@, suffix@),
{
    if suffix.len() > b.len() {
        return false;
    }
    let tail = slice_subrange(b, b.len() - suffix.len(), b.len());
    assert(tail@ =~= b@.skip(b@.len() - suffix@.len()));
    same_bytes(tail, suffix)
}

/// The tail of `b` from `i` on.
pub fn from<'a>(b: &'a [u8], i: usize) -> (r: &'a [u8])
    requires
        i <= b@.len(),
    ensures
        r@ == b@.skip(i as int),
{
    let r = slice_subrange(b, i, b.len());
    assert(r@ =~= b@.skip(i as int));
    r
}

/// The first `n` bytes of `b`.
pub fn first<'a>(b: &'a [u8], n: usize) -> (r: &'a [u8])
    requires
        n <= b@.len(),
    ensures
        r@ == b@.take(n as int),
{
    let r = slice_subrange(b, 0, n);
    assert(r@ =~= b@.take(n as int));
    r
}

/// Does the byte occur in `b`?
pub fn contains_byte(b: &[u8], needle: u8) -> (r: bool)
    ensures
        r == b@.contains(needle),
{
    match memchr(needle, b) {
        Some(i) => {
            assert(b@[i as int] == needle);
            true
        },
        None => false,
    }
}

/// The lexicographic order of byte strings: `a` is a proper prefix of `b`, or smaller at the
/// first byte in which they differ.
pub open spec fn lex_less(a: Seq<u8>, b: Seq<u8>) -> bool
    decreases a.len(),
{
    if b.len() == 0 {
        false
    } else if a.len() == 0 {
        true
    } else if a[0] != b[0] {
        a[0] < b[0]
    } else {
        lex_less(a.drop_first(), b.drop_first())
    }
}

/// No byte string is less than itself.
pub proof fn lemma_lex_irreflexive(a: Seq<u8>)
    ensures
        !lex_less(a, a),
    decreases a.len(),
{
    if a.len() > 0 {
        lemma_lex_irreflexive(a.drop_first());
    }
}

pub proof fn lemma_lex_transitive(a: Seq<u8>, b: Seq<u8>, c: Seq<u8>)
    requires
        lex_less(a, b),
        lex_less(b, c),
    ensures
        lex_less(a, c),
    decreases a.len(),
{
    if a.len() > 0 && b.len() > 0 && c.len() > 0 && a[0] == b[0] && b[0] == c[0] {
        lemma_lex_transitive(a.drop_first(), b.drop_first(), c.drop_first());
    }
}

/// Of two different byte strings one is less than the other.
pub proof fn lemma_lex_total(a: Seq<u8>, b: Seq<u8>)
    ensures
        lex_less(a, b) || lex_less(b, a) || a == b,
    decreases a.len(),
{
    if a.len() == 0 || b.len() == 0 {
        if a.len() == b.len() {
            assert(a =~= b);
        }
    } else if a[0] == b[0] {
        lemma_lex_total(a.drop_first(), b.drop_first());
        if a.drop_first() == b.drop_first() {
            assert(a =~= seq![a[0]] + a.drop_first());
            assert(b =~= seq![b[0]] + b.drop_first());
        }
    }
}

pub proof fn lemma_lex_common(a: Seq<u8>, b: Seq<u8>, n: int)
    requires
        0 <= n <= a.len(),
        n <= b.len(),
        forall|j: int| 0 <= j < n ==> a[j] == b[j],
    ensures
        lex_less(a, b) == lex_less(a.skip(n), b.skip(n)),
    decreases n,
{
    if n == 0 {
        assert(a.skip(0) =~= a);
        assert(b.skip(0) =~= b);
    } else {
        assert forall|j: int| 0 <= j < n - 1 implies a.drop_first()[j] == b.drop_first()[j] by {
            assert(a[j + 1] == b[j + 1]);
        }
        lemma_lex_common(a.drop_first(), b.drop_first(), n - 1);
        assert(a.drop_first().skip(n - 1) =~= a.skip(n));
        assert(b.drop_first().skip(n - 1) =~= b.skip(n));
    }
}

/// Is `a` less than `b` in lexicographic order?
pub fn less_bytes(a: &[u8], b: &[u8]) -> (r: bool)
    ensures
        r == lex_less(a@, b@),
{
    let mut i: usize = 0;
    while i < a.len() && i < b.len() && a[i] == b[i]
        invariant
            i <= a@.len(),
            i <= b@.len(),
            forall|j: int| 0 <= j < i ==> a@[j] == b@[j],
        decreases a@.len() - i,
    {
        i = i + 1;
    }
    proof {
        lemma_lex_common(a@, b@, i as int);
    }
    if i == b.len() {
        false
    } else if i == a.len() {
        true
    } else {
        a[i] < b[i]
    }
}

pub open spec fn spec_is_digit(b: u8) -> bool {
    DIGIT_0 <= b <= DIGIT_9
}

/// Is this an ASCII decimal digit?
pub fn is_digit(b: u8) -> (r: bool)
    ensures
        r == spec_is_digit(b),
{
    DIGIT_0 <= b && b <= DIGIT_9
}

/// The decimal digits of a number, without leading zeros.
pub open spec fn decimal(n: nat) -> Seq<u8>
    decreases n,
{
    if n < 10 {
        seq![(DIGIT_0 + n) as u8]
    } else {
        decimal(n / 10).push((DIGIT_0 + n % 10) as u8)
    }
}

/// The value of a string of decimal digits.
pub open spec fn decimal_value(b: Seq<u8>) -> nat
    decreases b.len(),
{
    if b.len() == 0 {
        0
    } else {
        decimal_value(b.drop_last()) * 10 + (b.last() - DIGIT_0) as nat
    }
}

pub open spec fn all_digits(b: Seq<u8>) -> bool {
    forall|i: int| 0 <= i < b.len() ==> spec_is_digit(b[i])
}

/// Reading back the decimal digits of a number gives the number.
pub proof fn lemma_decimal_value(n: nat)
    ensures
        decimal(n).len() > 0,
        all_digits(decimal(n)),
        decimal_value(decimal(n)) == n,
    decreases n,
{
    reveal_with_fuel(decimal_value, 2);
    if n >= 10 {
        lemma_decimal_value(n / 10);
        let d = decimal(n);
        assert(d.drop_last() =~= decimal(n / 10));
    } else {
        assert(decimal(n).drop_last() =~= Seq::<u8>::empty());
    }
}

proof fn lemma_decimal_step(n: nat)
    requires
        n >= 10,
    ensures
        decimal(n) == decimal(n / 10) + seq![(DIGIT_0 + n % 10) as u8],
{
    assert(decimal(n) =~= decimal(n / 10) + seq![(DIGIT_0 + n % 10) as u8]);
}

/// Appends the decimal digits of a number.
pub fn append_decimal(out: &mut Vec<u8>, n: u64)
    ensures
        final(out)@ == old(out)@ + decimal(n as nat),
    decreases n,
{
    if n >= 10 {
        append_decimal(out, n / 10);
        proof {
            lemma_decimal_step(n as nat);
        }
    }
    let ghost before = out@;
    out.push(DIGIT_0 + (n % 10) as u8);
    proof {
        if n >= 10 {
            assert(out@ =~= old(out)@ + decimal(n as nat));
        } else {
            assert(out@ =~= old(out)@ + decimal(n as nat));
        }
    }
}

/// The byte with `A` to `Z` in lowercase.
pub open spec fn lower(b: u8) -> u8 {
    if UPPER_A <= b <= UPPER_Z {
        (b + 32) as u8
    } else {
        b
    }
}

/// The bytes with the letters in lowercase.
pub open spec fn downcased(b: Seq<u8>) -> Seq<u8> {
    Seq::new(b.len(), |i: int| lower(b[i]))
}

fn to_lower(b: u8) -> (r: u8)
    ensures
        r == lower(b),
{
    if UPPER_A <= b && b <= UPPER_Z {
        b + 32
    } else {
        b
    }
}

/// The bytes with the letters in lowercase.
pub fn downcase(buf: &[u8]) -> (bytes: Vec<u8>)
    ensures
        bytes@ == downcased(buf@),
{
    let mut bytes: Vec<u8> = Vec::new();
    let mut i: usize = 0;
    while i < buf.len()
        invariant
            i <= buf@.len(),
            bytes@ == downcased(buf@).take(i as int),
        decreases buf@.len() - i,
    {
        bytes.push(to_lower(buf[i]));
        assert(bytes@ =~= downcased(buf@).take(i + 1));
        i = i + 1;
    }
    assert(bytes@ =~= downcased(buf@));
    bytes
}

/// Digits weigh powers of ten: behind `a`, the digits `b` count as themselves, and `a` counts ten
/// times as much for each of them. One digit counts from zero to nine.
pub proof fn digits_weigh_powers_of_ten(a: Seq<u8>, b: Seq<u8>, d: u8)
    requires
        0x30 <= d <= 0x39,
    ensures
        decimal_value(a + b) == decimal_value(a) * pow(10, b.len()) + decimal_value(b),
        decimal_value(seq![d]) == d - 0x30,
    decreases b.len(),
{
    reveal_with_fuel(decimal_value, 2);
    assert(seq![d].drop_last() =~= Seq::<u8>::empty());
    reveal(pow);
    if b.len() == 0 {
        assert(a + b =~= a);
    } else {
        digits_weigh_powers_of_ten(a, b.drop_last(), d);
        assert((a + b).drop_last() =~= a + b.drop_last());
        let v = decimal_value(a) as int;
        let p = pow(10, (b.len() - 1) as nat);
        assert(v * p * 10 == v * (10 * p)) by (nonlinear_arith);
    }
}

/// A number is written without leading zeros.
pub proof fn numbers_have_no_leading_zeros(n: nat)
    ensures
        n > 0 ==> decimal(n)[0] != 0x30,
        n < 10 ==> decimal(n).len() == 1,
    decreases n,
{
    if n >= 10 {
        numbers_have_no_leading_zeros(n / 10);
        lemma_decimal_value(n / 10);
        assert(decimal(n)[0] == decimal(n / 10)[0]);
    }
}

/// Byte strings are ordered by the first byte in which they differ, and a string comes before the
/// longer ones that start with it.
pub proof fn order_is_by_the_first_difference(
    common: Seq<u8>,
    x: u8,
    s: Seq<u8>,
    y: u8,
    t: Seq<u8>,
)
    requires
        x < y,
    ensures
        lex_less(common + seq![x] + s, common + seq![y] + t),
        !lex_less(common + seq![y] + t, common + seq![x] + s),
        lex_less(common, common + seq![x] + s),
        !lex_less(common + s, common),
    decreases common.len(),
{
    let a = common + seq![x] + s;
    let b = common + seq![y] + t;
    if common.len() == 0 {
        assert(a[0] == x && b[0] == y);
    } else {
        let rest = common.drop_first();
        order_is_by_the_first_difference(rest, x, s, y, t);
        assert(a.drop_first() =~= rest + seq![x] + s);
        assert(b.drop_first() =~= rest + seq![y] + t);
        assert((common + s).drop_first() =~= rest + s);
        assert(a[0] == common[0] && b[0] == common[0] && (common + s)[0] == common[0]);
    }
}

} // verus!
