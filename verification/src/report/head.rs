//! The files of the commit that `HEAD` names.

use crate::object::mode::Mode;
use crate::object::oid::{reads_text, Oid, OidError};
use crate::object::{Object, ObjectView};
use crate::path_map::value_at;
use crate::repo_path::RepoPath;
use crate::report::scan::updated;
use crate::report::Report;
use vstd::prelude::*;
use vstd::string::*;

verus! {

#[derive(Debug)]
pub enum ReportError<S = String> {
    HeadNotACommit { oid: S },
    /// `HEAD` names a commit that is missing.
    HeadCommitNotFound { oid: S },
    HeadBadOid(OidError),
}

impl View for ReportError {
    type V = ReportError<Seq<char>>;

    open spec fn view(&self) -> ReportError<Seq<char>> {
        match *self {
            ReportError::HeadNotACommit { oid } => ReportError::HeadNotACommit { oid: oid@ },
            ReportError::HeadCommitNotFound { oid } => ReportError::HeadCommitNotFound { oid: oid@ },
            ReportError::HeadBadOid(err) => ReportError::HeadBadOid(err),
        }
    }
}

impl ReportError {
    /// The message shown to the user.
    pub fn message(&self) -> (r: String)
        ensures
            match self@ {
                ReportError::HeadNotACommit { oid } => r@ == "HEAD points to object "@ + oid
                    + ", which is not a commit"@,
                ReportError::HeadCommitNotFound { oid } => r@ == "HEAD points to missing commit "@
                    + oid,
                ReportError::HeadBadOid(err) => r@ == "invalid object id in HEAD: "@
                    + err.spec_message(),
            },
    {
        match self {
            ReportError::HeadNotACommit { oid } => {
                let mut s = "HEAD points to object ".to_owned();
                s.append(oid.as_str());
                s.append(", which is not a commit");
                s
            },
            ReportError::HeadCommitNotFound { oid } => {
                let mut s = "HEAD points to missing commit ".to_owned();
                s.append(oid.as_str());
                s
            },
            ReportError::HeadBadOid(err) => {
                let mut s = "invalid object id in HEAD: ".to_owned();
                let message = err.message();
                s.append(message.as_str());
                s
            },
        }
    }
}

/// The id in `HEAD`.
pub fn head_id(head: &str) -> (r: Result<Oid, ReportError>)
    ensures
        match r {
            Ok(oid) => reads_text(head@, Ok::<Oid, OidError>(oid)),
            Err(ReportError::HeadBadOid(err)) => reads_text(head@, Err::<Oid, OidError>(err)),
            Err(_) => false,
        },
{
    match Oid::from_hex(head) {
        Ok(oid) => Ok(oid),
        Err(err) => Err(ReportError::HeadBadOid(err)),
    }
}

/// The root of the tree of the commit that `HEAD` names. `object` is what is stored under its id.
pub fn head_tree(head: &str, object: Option<&Object>) -> (r: Result<Oid, ReportError>)
    ensures
        match object {
            None => r matches Err(e) && e@ == (ReportError::HeadCommitNotFound { oid: head@ }),
            Some(o) => match o@ {
                ObjectView::Commit(commit) => r == Ok::<Oid, ReportError>(commit.root_id),
                _ => r matches Err(e) && e@ == (ReportError::HeadNotACommit { oid: head@ }),
            },
        },
{
    match object {
        None => Err(ReportError::HeadCommitNotFound { oid: head.to_owned() }),
        Some(Object::Commit(commit)) => Ok(commit.root_id),
        Some(_) => Err(ReportError::HeadNotACommit { oid: head.to_owned() }),
    }
}

pub open spec fn files_view(v: Seq<(RepoPath, (Oid, Mode))>) -> Seq<(Seq<u8>, (Oid, Mode))> {
    Seq::new(v.len(), |i: int| (v[i].0@, v[i].1))
}

impl Report {
    /// Takes the files of the commit that `HEAD` names.
    pub fn load_head_entries(&mut self, files: &Vec<(RepoPath, (Oid, Mode))>)
        requires
            old(self).wf(),
        ensures
            final(self).wf(),
            forall|path: Seq<u8>| #[trigger]
                value_at(final(self).head_entries@, path) == updated(
                    value_at(old(self).head_entries@, path),
                    files_view(files@),
                    path,
                ),
            final(self).stats == old(self).stats,
            final(self).untracked == old(self).untracked,
            final(self).changes == old(self).changes,
            final(self).refreshes == old(self).refreshes,
    {
        let ghost all = files_view(files@);
        let mut i: usize = 0;
        while i < files.len()
            invariant
                i <= files@.len(),
                all == files_view(files@),
                self.wf(),
                forall|path: Seq<u8>| #[trigger]
                    value_at(self.head_entries@, path) == updated(
                        value_at(old(self).head_entries@, path),
                        all.take(i as int),
                        path,
                    ),
                self.stats == old(self).stats,
                self.untracked == old(self).untracked,
                self.changes == old(self).changes,
                self.refreshes == old(self).refreshes,
            decreases files@.len() - i,
        {
            proof {
                assert(all.take(i + 1).drop_last() =~= all.take(i as int));
                assert(all.take(i + 1).last() == all[i as int]);
            }
            self.head_entries.insert(&files[i].0, files[i].1);
            i = i + 1;
        }
        assert(all.take(i as int) =~= all);
    }
}

} // verus!
