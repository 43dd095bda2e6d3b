//! `HEAD`: the commit that the next one follows.

use crate::bytes::{copy_of, text};
use crate::hex::hex_of;
use crate::object::oid::{reads_text, text_round_trip, Oid, OidError};
use crate::path::{joined, OsPath};
use vstd::prelude::*;
use vstd::string::*;
use vstd::utf8::*;

verus! {

#[derive(Debug)]
pub struct Refs {
    pub refs: OsPath,
    pub head: OsPath,
}

/// The parents of the next commit: the commit in `HEAD`, or none if there is no `HEAD` yet.
pub open spec fn parents_are(head: Option<Seq<char>>, r: Result<Seq<Oid>, OidError>) -> bool {
    match head {
        None => r == Ok::<Seq<Oid>, OidError>(Seq::empty()),
        Some(hex) => match r {
            Ok(parents) => parents.len() == 1 && reads_text(hex, Ok::<Oid, OidError>(parents[0])),
            Err(err) => reads_text(hex, Err::<Oid, OidError>(err)),
        },
    }
}

impl Refs {
    pub fn new(root: &OsPath) -> (r: Self)
        ensures
            r.refs@ == joined(root@, text("refs")),
            r.head@ == joined(root@, text("HEAD")),
    {
        Self { refs: root.join_text("refs"), head: root.join_text("HEAD") }
    }

    /// The parents of the next commit, by the contents of `HEAD`.
    pub fn parents(head: Option<&str>) -> (r: Result<Vec<Oid>, OidError>)
        ensures
            parents_are(
                match head {
                    Some(hex) => Some(hex@),
                    None => None,
                },
                match r {
                    Ok(parents) => Ok(parents@),
                    Err(err) => Err(err),
                },
            ),
            head is None ==> (r matches Ok(parents) && parents@.len() == 0),
            head is Some ==> (r matches Ok(parents) ==> parents@.len() == 1),
    {
        let mut parents: Vec<Oid> = Vec::new();
        match head {
            None => Ok(parents),
            Some(hex) => match Oid::from_hex(hex) {
                Ok(oid) => {
                    parents.push(oid);
                    Ok(parents)
                },
                Err(err) => Err(err),
            },
        }
    }

    /// What is written to `HEAD` for a new commit.
    pub fn update_head(new_id: Oid) -> (r: Vec<u8>)
        ensures
            r@ == hex_of(new_id@),
    {
        let hex = new_id.to_hex();
        copy_of(hex.as_str().as_bytes())
    }

    /// What is written to `HEAD` before the first commit: the branch that it will create.
    pub fn new_unborn_branch() -> (r: Vec<u8>)
        ensures
            r@ == text("ref: refs/heads/master\n"),
    {
        copy_of("ref: refs/heads/master\n".as_bytes())
    }
}

/// The commit that `HEAD` was updated to is the parent of the next one.
pub proof fn head_names_the_parent(
    new_id: Oid,
    head: Seq<char>,
    r: Result<Seq<Oid>, OidError>,
)
    requires
        encode_utf8(head) == hex_of(new_id@),
        parents_are(Some(head), r),
    ensures
        r == Ok::<Seq<Oid>, OidError>(seq![new_id]),
{
    match r {
        Ok(parents) => {
            text_round_trip(new_id, head, Ok(parents[0]));
            assert(parents =~= seq![new_id]);
        },
        Err(err) => {
            text_round_trip(new_id, head, Err(err));
        },
    }
}

} // verus!
