//! Names for temporary files.

use crate::bytes::{ascii_string, spec_is_digit, LOWER_A, LOWER_Z, UPPER_A, UPPER_Z};
use rand::RngExt;
use vstd::prelude::*;
use vstd::string::*;
use vstd::utf8::*;

verus! {

pub open spec fn is_alphanumeric(b: u8) -> bool {
    spec_is_digit(b) || UPPER_A <= b <= UPPER_Z || LOWER_A <= b <= LOWER_Z
}

/// A text of letters and digits alone.
pub open spec fn is_random_part(s: Seq<char>, len: int) -> bool {
    &&& s.len() == len
    &&& forall|i: int|
        0 <= i < s.len() ==> #[trigger] s[i] as u32 <= 0x7F && is_alphanumeric(s[i] as u8)
}

/// `rand::rng().sample(rand::distr::Alphanumeric)`: one of the ASCII letters and digits. Which one
/// is left to chance. The generator of the thread panics where the system has no randomness to seed
/// it with.
#[verifier::external_body]
fn random_alphanumeric() -> (b: u8)
    ensures
        is_alphanumeric(b),
{
    rand::rng().sample(rand::distr::Alphanumeric)
}

/// Letters and digits at random.
pub fn generate(len: u8) -> (r: String)
    ensures
        is_random_part(r@, len as int),
{
    let mut out: Vec<u8> = Vec::new();
    while out.len() < len as usize
        invariant
            out@.len() <= len,
            forall|i: int| 0 <= i < out@.len() ==> is_alphanumeric(#[trigger] out@[i]),
        decreases len - out@.len(),
    {
        out.push(random_alphanumeric());
    }
    let ghost b = out@;
    let r = ascii_string(out);
    proof {
        let chars = Seq::new(b.len(), |i: int| b[i] as char);
        assert(is_ascii_chars(chars));
        is_ascii_chars_encode_utf8(chars);
        assert(encode_utf8(chars) =~= b);
        encode_utf8_decode_utf8(chars);
        encode_utf8_decode_utf8(r@);
        assert(r@ == chars);
    }
    r
}

/// Two parts of a name, with `_` between them.
pub fn assemble(first: &str, second: &str) -> (name: String)
    ensures
        name@ == first@ + "_"@ + second@,
{
    let mut name = first.to_owned();
    name.append("_");
    name.append(second);
    name
}

/// The name is `prefix`, `_` and `len` letters and digits.
pub open spec fn starts_with_prefix(name: Seq<char>, prefix: Seq<char>, len: int) -> bool {
    exists|random: Seq<char>| #[trigger]
        is_random_part(random, len) && name == prefix + "_"@ + random
}

/// The name is `len` letters and digits, `_` and `suffix`.
pub open spec fn ends_with_suffix(name: Seq<char>, suffix: Seq<char>, len: int) -> bool {
    exists|random: Seq<char>| #[trigger]
        is_random_part(random, len) && name == random + "_"@ + suffix
}

/// A name with a prefix, and eight letters and digits at random.
pub fn with_prefix(prefix: &str) -> (name: String)
    ensures
        starts_with_prefix(name@, prefix@, 8),
        name@.len() == prefix@.len() + 9,
        name@.take(prefix@.len() as int + 1) == prefix@.push('_'),
{
    with_prefix_and_len(prefix, 8)
}

/// A name with a prefix, and letters and digits at random.
pub fn with_prefix_and_len(prefix: &str, len: u8) -> (name: String)
    ensures
        starts_with_prefix(name@, prefix@, len as int),
        name@.len() == prefix@.len() + 1 + len,
        name@.take(prefix@.len() as int + 1) == prefix@.push('_'),
{
    let random = generate(len);
    let name = assemble(prefix, random.as_str());
    proof {
        reveal_strlit("_");
        assert(is_random_part(random@, len as int));
        assert(name@.take(prefix@.len() as int + 1) =~= prefix@.push('_'));
    }
    name
}

/// A name with a suffix, and eight letters and digits at random.
pub fn with_suffix(suffix: &str) -> (name: String)
    ensures
        ends_with_suffix(name@, suffix@, 8),
        name@.len() == suffix@.len() + 9,
        name@.skip(8) == seq!['_'] + suffix@,
{
    with_suffix_and_len(suffix, 8)
}

/// A name with a suffix, and letters and digits at random.
pub fn with_suffix_and_len(suffix: &str, len: u8) -> (name: String)
    ensures
        ends_with_suffix(name@, suffix@, len as int),
        name@.len() == suffix@.len() + 1 + len,
        name@.skip(len as int) == seq!['_'] + suffix@,
{
    let random = generate(len);
    let name = assemble(random.as_str(), suffix);
    proof {
        reveal_strlit("_");
        assert(is_random_part(random@, len as int));
        assert(name@.skip(len as int) =~= seq!['_'] + suffix@);
    }
    name
}

} // verus!
