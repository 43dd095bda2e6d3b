//! SHA-1, the hash that names objects and guards the index.

use crate::object::oid::Oid;
use crate::object::{frame, framed, ObjectType};
use vstd::prelude::*;

verus! {

/// The SHA-1 hash of a byte string.
pub uninterp spec fn sha1_of(b: Seq<u8>) -> Seq<u8>;

/// `sha1::Sha1::digest`: the twenty bytes of the SHA-1 hash, which depend on the bytes alone.
#[verifier::external_body]
pub(crate) fn sha1_digest(bytes: &[u8]) -> (r: [u8; 20])
    ensures
        r@ == sha1_of(bytes@),
{
    <sha1::Sha1 as sha1::Digest>::digest(bytes).into()
}

/// The id of an object: the hash of its header and its content.
pub fn hash(kind: ObjectType, content: &[u8]) -> (oid: Oid)
    ensures
        oid@ == sha1_of(framed(kind, content@)),
{
    let bytes = frame(kind, content);
    Oid::from_bytes(sha1_digest(bytes.as_slice()))
}

} // verus!
