//! Where the directories of a repository go, for each way to name them.

use crate::bytes::text;
use crate::layout::{
    counterpart, discovered_placement, resolved, worktree_needs_config, Layout, LayoutError,
    LitEntry, MetadataPlacement,
};
use crate::path::{components_of, joined};
use vstd::prelude::*;
use vstd::string::*;

verus! {

/// A path, seen from a directory: an absolute one stands for itself, any other comes behind the
/// directory and a slash.
pub open spec fn seen_from(dir: Seq<u8>, path: Seq<u8>) -> Seq<u8> {
    if path.len() > 0 && path[0] == 0x2f {
        path
    } else if dir.len() > 0 && dir.last() != 0x2f {
        dir + seq![0x2fu8] + path
    } else {
        dir + path
    }
}

/// Joining a path to a directory is to see it from there.
pub proof fn joining_is_seeing_from(dir: Seq<u8>, path: Seq<u8>)
    ensures
        joined(dir, path) == seen_from(dir, path),
{
}

/// A byte string that can be no path: it is empty, or holds a NUL.
pub open spec fn is_no_path(b: Seq<u8>) -> bool {
    b.len() == 0 || b.contains(0)
}

/// A separate directory gets the metadata. The worktree is at the path, or here, and `.lit` in it is
/// a file that points to the metadata.
pub proof fn separate_directories_get_the_metadata(
    path: Option<Seq<u8>>,
    bare: bool,
    dir: Seq<u8>,
    cwd: Seq<u8>,
    lit_dir: Option<Seq<u8>>,
    lit_work_tree: Option<Seq<u8>>,
)
    ensures
        ({
            let r = resolved(path, bare, Some(dir), cwd, lit_dir, lit_work_tree);
            let tree = match path {
                Some(p) => seen_from(cwd, p),
                None => cwd,
            };
            &&& r is Err <==> is_no_path(dir) || (path matches Some(p) && is_no_path(p))
            &&& r matches Ok(layout) ==> layout.metadata_dir == seen_from(cwd, dir)
                && layout.worktree_dir == Some(tree) && (
            layout.placement matches MetadataPlacement::Separate { pointer_file } && pointer_file
                == seen_from(tree, text(".lit")))
        }),
{
}

/// Without a separate directory, a path names the worktree, and the metadata are in `.lit` there; of
/// a bare repository it names the metadata. Where there is no path and the environment names no
/// metadata, the current directory is that path.
pub proof fn paths_name_the_worktree(
    path: Option<Seq<u8>>,
    bare: bool,
    cwd: Seq<u8>,
    lit_dir: Option<Seq<u8>>,
    lit_work_tree: Option<Seq<u8>>,
)
    requires
        path is Some || lit_dir is None,
    ensures
        ({
            let r = resolved(path, bare, None, cwd, lit_dir, lit_work_tree);
            let root = match path {
                Some(p) => seen_from(cwd, p),
                None => cwd,
            };
            &&& r is Err <==> (path matches Some(p) && is_no_path(p))
            &&& r matches Ok(layout) ==> if bare {
                layout.metadata_dir == root && layout.worktree_dir is None && layout.placement
                    == MetadataPlacement::<Seq<u8>>::Direct
            } else {
                layout.metadata_dir == seen_from(root, text(".lit")) && layout.worktree_dir == Some(
                    root,
                ) && layout.placement == MetadataPlacement::<Seq<u8>>::Embedded
            }
        }),
{
}

/// Where neither a path nor a separate directory is given, `LIT_DIR` names the metadata and
/// `LIT_WORK_TREE` the worktree, which else is the current directory. A bare repository has no
/// worktree, so the two do not go together.
pub proof fn the_environment_names_the_rest(
    bare: bool,
    cwd: Seq<u8>,
    lit_dir: Seq<u8>,
    lit_work_tree: Option<Seq<u8>>,
)
    ensures
        ({
            let r = resolved(None, bare, None, cwd, Some(lit_dir), lit_work_tree);
            let bad = is_no_path(lit_dir) || (lit_work_tree matches Some(tree) && is_no_path(tree));
            &&& r is Err <==> bad || bare && lit_work_tree is Some
            &&& (r matches Err(LayoutError::LitWorkTreeWithBare)) <==> !bad && bare
                && lit_work_tree is Some
            &&& r matches Ok(layout) ==> layout.metadata_dir == seen_from(cwd, lit_dir)
                && layout.worktree_dir == (if bare {
                None
            } else {
                Some(
                    match lit_work_tree {
                        Some(tree) => seen_from(cwd, tree),
                        None => cwd,
                    },
                )
            }) && layout.placement == MetadataPlacement::<Seq<u8>>::Direct
        }),
{
}

/// A repository that was found is embedded if `.lit` in its worktree is the metadata directory, and
/// separate if it is the file that pointed to it. Otherwise nothing in the worktree leads to the
/// metadata.
pub proof fn placements_tell_what_leads_to_the_metadata(
    metadata_dir: Seq<u8>,
    has_worktree: bool,
    pointer_file: Option<Seq<u8>>,
    entry: LitEntry,
    same: bool,
)
    ensures
        ({
            let p = discovered_placement(has_worktree, pointer_file, entry, same);
            &&& (p matches MetadataPlacement::Embedded) <==> has_worktree && same && entry
                == LitEntry::Directory
            &&& (p matches MetadataPlacement::Separate { .. }) <==> has_worktree && same && entry
                == LitEntry::File && pointer_file is Some
            &&& p matches MetadataPlacement::Separate { pointer_file: f } ==> pointer_file == Some(
                f,
            )
            &&& entry == LitEntry::Directory ==> counterpart(metadata_dir, pointer_file, entry)
                == Some(metadata_dir)
            &&& entry == LitEntry::File ==> counterpart(metadata_dir, pointer_file, entry)
                == pointer_file
            &&& entry != LitEntry::Directory && entry != LitEntry::File ==> counterpart(
                metadata_dir,
                pointer_file,
                entry,
            ) is None
        }),
{
}

/// The configuration has to name the worktree exactly if there is one, nothing in it leads to the
/// metadata, and the metadata are not in `.lit` there.
pub proof fn worktrees_that_nothing_leads_to_are_configured(layout: Layout<Seq<u8>>)
    ensures
        layout.worktree_dir is None ==> !worktree_needs_config(layout),
        !(layout.placement matches MetadataPlacement::Direct) ==> !worktree_needs_config(layout),
        layout.worktree_dir matches Some(dir) ==> (layout.placement matches
            MetadataPlacement::Direct ==> (worktree_needs_config(layout) <==> components_of(
            layout.metadata_dir,
        ) != components_of(seen_from(dir, text(".lit"))))),
{
}

} // verus!
