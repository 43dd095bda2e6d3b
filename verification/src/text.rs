//! Texts that are shown.

use vstd::prelude::*;
use vstd::string::*;
use vstd::utf8::*;

verus! {

/// The text that `String::from_utf8_lossy` makes of bytes.
pub uninterp spec fn lossy_text(b: Seq<u8>) -> Seq<char>;

/// `String::from_utf8_lossy`: the text with these bytes, if they are valid UTF-8. What is not valid
/// is replaced.
#[verifier::external_body]
pub(crate) fn lossy(b: &[u8]) -> (s: String)
    ensures
        s@ == lossy_text(b@),
        valid_utf8(b@) ==> encode_utf8(s@) == b@,
{
    String::from_utf8_lossy(b).into_owned()
}

} // verus!
