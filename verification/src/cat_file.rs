//! `cat-file`: the object that a user asks for.

use crate::bytes::{
    all_ascii, byte_vecs, copy_of, has_prefix, lemma_ascii_valid, starts_with, string_from_utf8,
};
use crate::hex::{all_hex, hex_of, spec_is_hex_digit, unhex, unhex_inverts_hex_of};
use crate::messages::{around, text_around};
use crate::object::oid::{reads_text, text_round_trip, Oid, OidError};
use crate::object::{type_of, Object, ObjectType};
use crate::print::cat_file::{print, shown_object};
use vstd::prelude::*;
use vstd::string::*;
use vstd::utf8::*;

verus! {

#[derive(Debug)]
pub enum CatFileError<B = Vec<u8>> {
    UnknownType(B),
    BadOid(B),
    NotFound(Oid),
    /// `expected` is the type that the object has, `actual` the one that was asked for.
    TypeMismatch { expected: ObjectType, actual: ObjectType },
}

impl View for CatFileError {
    type V = CatFileError<Seq<u8>>;

    open spec fn view(&self) -> CatFileError<Seq<u8>> {
        match *self {
            CatFileError::UnknownType(name) => CatFileError::UnknownType(name@),
            CatFileError::BadOid(hex) => CatFileError::BadOid(hex@),
            CatFileError::NotFound(oid) => CatFileError::NotFound(oid),
            CatFileError::TypeMismatch { expected, actual } => CatFileError::TypeMismatch {
                expected,
                actual,
            },
        }
    }
}

impl CatFileError {
    /// The message shown to the user.
    pub fn message(&self) -> (r: String)
        ensures
            match self@ {
                CatFileError::UnknownType(name) => r@ == around(
                    "unknown object type '"@,
                    name,
                    "'"@,
                ),
                CatFileError::BadOid(hex) => r@ == around("invalid object id '"@, hex, "'"@),
                CatFileError::NotFound(oid) => r@ == "object "@ + decode_utf8(hex_of(oid@))
                    + " not found"@,
                CatFileError::TypeMismatch { expected, actual } => r@
                    == "object type mismatch: expected "@ + expected.spec_name() + ", got "@
                    + actual.spec_name(),
            },
    {
        match self {
            CatFileError::UnknownType(name) => text_around(
                "unknown object type '",
                name.as_slice(),
                "'",
            ),
            CatFileError::BadOid(hex) => text_around("invalid object id '", hex.as_slice(), "'"),
            CatFileError::NotFound(oid) => {
                let mut s = "object ".to_owned();
                let hex = oid.to_hex();
                s.append(hex.as_str());
                s.append(" not found");
                proof {
                    encode_utf8_decode_utf8(hex@);
                }
                s
            },
            CatFileError::TypeMismatch { expected, actual } => {
                let mut s = "object type mismatch: expected ".to_owned();
                s.append(expected.name());
                s.append(", got ");
                s.append(actual.name());
                s
            },
        }
    }
}

/// How an object is named.
#[derive(Debug)]
pub enum ObjectName<S = String> {
    /// By the first digits of its id.
    Prefix(S),
    Id(Oid),
}

/// Why a prefix names no object.
#[derive(Debug, Clone, Copy, PartialEq, Eq, Structural)]
pub enum PrefixError {
    NotFound,
    /// The ids of several objects begin with it.
    Ambiguous,
}

/// A name that is an id and begins with a prefix.
pub open spec fn is_candidate(prefix: Seq<u8>, name: Seq<u8>) -> bool {
    has_prefix(name, prefix) && name.len() == 40 && all_hex(name)
}

/// The ids among names that begin with a prefix.
pub open spec fn candidates(prefix: Seq<u8>, names: Seq<Seq<u8>>) -> Seq<Seq<u8>>
    decreases names.len(),
{
    if names.len() == 0 {
        Seq::empty()
    } else {
        let before = candidates(prefix, names.drop_last());
        if is_candidate(prefix, names.last()) {
            before.push(names.last())
        } else {
            before
        }
    }
}

/// The object whose id begins with a prefix, if there is just one. `names` are the ids of the
/// objects that are stored; a name that is no id does not count.
pub fn resolve_oid_prefix(prefix: &[u8], names: &Vec<Vec<u8>>) -> (r: Result<Oid, PrefixError>)
    ensures
        ({
            let found = candidates(prefix@, byte_vecs(names@));
            match r {
                Ok(oid) => found.len() == 1 && oid@ == unhex(found[0]),
                Err(PrefixError::NotFound) => found.len() == 0,
                Err(PrefixError::Ambiguous) => found.len() > 1,
            }
        }),
{
    let ghost all = byte_vecs(names@);
    let mut found: Option<Oid> = None;
    let mut several = false;
    let mut i: usize = 0;
    while i < names.len()
        invariant
            i <= names@.len(),
            all == byte_vecs(names@),
            several == (candidates(prefix@, all.take(i as int)).len() > 1),
            match found {
                Some(oid) => candidates(prefix@, all.take(i as int)).len() > 0 && oid@ == unhex(
                    candidates(prefix@, all.take(i as int))[0],
                ),
                None => candidates(prefix@, all.take(i as int)).len() == 0,
            },
        decreases names@.len() - i,
    {
        let name = names[i].as_slice();
        proof {
            assert(all.take(i + 1).drop_last() =~= all.take(i as int));
            assert(all.take(i + 1).last() == name@);
        }
        if starts_with(name, prefix) {
            if let Ok(oid) = Oid::from_hex_bytes(name) {
                if found.is_some() {
                    several = true;
                } else {
                    found = Some(oid);
                }
            }
        }
        i = i + 1;
    }
    assert(all.take(i as int) =~= all);
    if several {
        return Err(PrefixError::Ambiguous);
    }
    match found {
        Some(oid) => Ok(oid),
        None => Err(PrefixError::NotFound),
    }
}

/// The `cat-file` command.
#[derive(Debug)]
pub struct CatFile;

/// What a user's id names: less than forty bytes are a prefix.
pub open spec fn names_object(hex: Seq<u8>, r: Result<ObjectName, CatFileError>) -> bool {
    if !valid_utf8(hex) {
        r matches Err(e) && e@ == CatFileError::BadOid(hex)
    } else if hex.len() < 40 {
        r matches Ok(ObjectName::Prefix(s)) && encode_utf8(s@) == hex
    } else {
        match r {
            Ok(ObjectName::Id(oid)) => reads_text(decode_utf8(hex), Ok::<Oid, OidError>(oid)),
            Ok(ObjectName::Prefix(_)) => false,
            Err(e) => e@ == CatFileError::BadOid(hex) && exists|err: OidError| #[trigger]
                reads_text(decode_utf8(hex), Err::<Oid, OidError>(err)),
        }
    }
}

impl CatFile {
    /// The object that the user names.
    pub fn object_name(hex: &[u8]) -> (r: Result<ObjectName, CatFileError>)
        ensures
            names_object(hex@, r),
    {
        let s = match string_from_utf8(copy_of(hex)) {
            Ok(s) => s,
            Err(_) => {
                return Err(CatFileError::BadOid(copy_of(hex)));
            },
        };
        proof {
            encode_utf8_decode_utf8(s@);
        }
        if hex.len() < 40 {
            return Ok(ObjectName::Prefix(s));
        }
        match Oid::from_hex(s.as_str()) {
            Ok(oid) => Ok(ObjectName::Id(oid)),
            Err(_) => Err(CatFileError::BadOid(copy_of(hex))),
        }
    }

    /// The type that the user asks for.
    pub fn object_type(name: &[u8]) -> (r: Result<ObjectType, CatFileError>)
        ensures
            match r {
                Ok(t) => encode_utf8(t.spec_name()) == name@,
                Err(e) => e@ == CatFileError::UnknownType(name@) && forall|t: ObjectType|
                    encode_utf8(t.spec_name()) != name@,
            },
    {
        proof {
            assert forall|t: ObjectType| valid_utf8(encode_utf8(t.spec_name())) by {
                encode_utf8_valid_utf8(t.spec_name());
            }
        }
        if let Ok(s) = string_from_utf8(copy_of(name)) {
            proof {
                encode_utf8_decode_utf8(s@);
                assert forall|t: ObjectType| encode_utf8(t.spec_name()) == name@ implies
                    t.spec_name() == s@ by {
                    encode_utf8_decode_utf8(t.spec_name());
                }
            }
            if let Some(t) = ObjectType::try_from_str(s.as_str()) {
                return Ok(t);
            }
        }
        Err(CatFileError::UnknownType(copy_of(name)))
    }

    /// What is printed of the object with this id, if there is one and it has the type that was
    /// asked for.
    pub fn execute(actual: ObjectType, oid: Oid, object: Option<&Object>) -> (r: Result<
        Vec<u8>,
        CatFileError,
    >)
        requires
            object matches Some(o) ==> o.wf(),
        ensures
            match object {
                None => r matches Err(e) && e@ == CatFileError::<Seq<u8>>::NotFound(oid),
                Some(o) => if type_of(o@) == actual {
                    r matches Ok(out) && out@ == shown_object(o@)
                } else {
                    r matches Err(e) && e@ == (CatFileError::<Seq<u8>>::TypeMismatch {
                        expected: type_of(o@),
                        actual,
                    })
                },
            },
            object matches Some(o) ==> (r is Ok <==> (match *o {
                Object::Blob(_) => actual == ObjectType::Blob,
                Object::Tree(_) => actual == ObjectType::Tree,
                Object::Commit(_) => actual == ObjectType::Commit,
            })),
    {
        match object {
            None => Err(CatFileError::NotFound(oid)),
            Some(object) => {
                let expected = object.obj_type();
                if expected != actual {
                    Err(CatFileError::TypeMismatch { expected, actual })
                } else {
                    Ok(print(object))
                }
            },
        }
    }
}

/// A prefix stands for the stored ids that begin with it: names of forty digits, `0` to `9` or `a` to
/// `f`. All of them are found, and in order.
pub proof fn prefixes_stand_for_ids(prefix: Seq<u8>, names: Seq<Seq<u8>>)
    ensures
        candidates(prefix, names) == names.filter(
            |name: Seq<u8>|
                {
                    &&& name.len() == 40
                    &&& prefix.len() <= 40
                    &&& name.take(prefix.len() as int) == prefix
                    &&& forall|i: int|
                        0 <= i < 40 ==> 0x30 <= #[trigger] name[i] <= 0x39 || 0x61 <= name[i]
                            <= 0x66
                },
        ),
    decreases names.len(),
{
    reveal(Seq::filter);
    let is_id = |name: Seq<u8>|
        {
            &&& name.len() == 40
            &&& prefix.len() <= 40
            &&& name.take(prefix.len() as int) == prefix
            &&& forall|i: int|
                0 <= i < 40 ==> 0x30 <= #[trigger] name[i] <= 0x39 || 0x61 <= name[i] <= 0x66
        };
    if names.len() > 0 {
        prefixes_stand_for_ids(prefix, names.drop_last());
        let name = names.last();
        assert(is_candidate(prefix, name) == is_id(name)) by {
            if is_candidate(prefix, name) {
                assert forall|i: int| 0 <= i < 40 implies 0x30 <= #[trigger] name[i] <= 0x39 || 0x61
                    <= name[i] <= 0x66 by {
                    assert(spec_is_hex_digit(name[i]));
                }
            }
            if is_id(name) {
                assert forall|i: int| 0 <= i < name.len() implies spec_is_hex_digit(
                    #[trigger] name[i],
                ) by {}
            }
        }
        assert(candidates(prefix, names) =~= names.filter(is_id));
    } else {
        assert(candidates(prefix, names) =~= names.filter(is_id));
    }
}

/// What is shorter than an id is the prefix of one, the forty hexadecimal digits of an id name it,
/// and what is longer names nothing; nor does what is no text.
pub proof fn names_are_prefixes_or_ids(hex: Seq<u8>, oid: Oid, r: Result<ObjectName, CatFileError>)
    requires
        names_object(hex, r),
    ensures
        !valid_utf8(hex) ==> (r matches Err(e) && e@ == CatFileError::BadOid(hex)),
        valid_utf8(hex) && hex.len() < 40 ==> (r matches Ok(ObjectName::Prefix(s)) && encode_utf8(s@)
            == hex),
        hex == hex_of(oid@) ==> (r matches Ok(ObjectName::Id(named)) && named == oid),
        hex.len() > 40 && all_ascii(hex) ==> (r matches Err(e) && e@ == CatFileError::BadOid(hex)),
{
    if hex == hex_of(oid@) {
        unhex_inverts_hex_of(oid@);
        assert forall|i: int| 0 <= i < hex.len() implies hex[i] < 0x80 by {
            assert(spec_is_hex_digit(hex[i]));
        }
    }
    if all_ascii(hex) {
        lemma_ascii_valid(hex);
        let chars = Seq::new(hex.len(), |i: int| hex[i] as char);
        is_ascii_chars_encode_utf8(chars);
        assert(encode_utf8(chars) =~= hex);
        encode_utf8_decode_utf8(chars);
        assert(is_ascii_chars(decode_utf8(hex)));
    }
    if valid_utf8(hex) {
        let s = decode_utf8(hex);
        decode_utf8_encode_utf8(hex);
        if hex == hex_of(oid@) {
            oid.lemma_len();
            match r {
                Ok(ObjectName::Id(named)) => {
                    text_round_trip(oid, s, Ok::<Oid, OidError>(named));
                },
                Ok(ObjectName::Prefix(_)) => {},
                Err(e) => {
                    let err = choose|err: OidError| #[trigger]
                        reads_text(s, Err::<Oid, OidError>(err));
                    text_round_trip(oid, s, Err::<Oid, OidError>(err));
                },
            }
        }
    }
}

} // verus!
