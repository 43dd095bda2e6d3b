//! Where the metadata and the worktree of a repository are.

use crate::bytes::text;
use crate::path::{components_of, joined, os_path_error, spec_is_absolute, OsPath, OsPathError};
use vstd::prelude::*;
use vstd::string::*;

pub mod laws;

verus! {

/// How the worktree is connected to the metadata directory.
#[derive(Debug, PartialEq, Eq)]
pub enum MetadataPlacement<P = OsPath> {
    /// The metadata directory is used directly, typically without a worktree.
    Direct,
    /// The metadata directory is `<worktree>/.lit`.
    Embedded,
    /// `<worktree>/.lit` is a file that points to the metadata directory.
    Separate { pointer_file: P },
}

impl View for MetadataPlacement {
    type V = MetadataPlacement<Seq<u8>>;

    open spec fn view(&self) -> MetadataPlacement<Seq<u8>> {
        match *self {
            MetadataPlacement::Direct => MetadataPlacement::Direct,
            MetadataPlacement::Embedded => MetadataPlacement::Embedded,
            MetadataPlacement::Separate { pointer_file } => MetadataPlacement::Separate {
                pointer_file: pointer_file@,
            },
        }
    }
}

/// What stands at `<worktree>/.lit`, symbolic links followed.
#[derive(Debug, Clone, Copy, PartialEq, Eq, Structural)]
pub enum LitEntry {
    Absent,
    Directory,
    File,
    Other,
}

/// The path that has to be the same file as `<worktree>/.lit` for it to connect the two.
pub open spec fn counterpart(
    metadata_dir: Seq<u8>,
    pointer_file: Option<Seq<u8>>,
    entry: LitEntry,
) -> Option<Seq<u8>> {
    match entry {
        LitEntry::Directory => Some(metadata_dir),
        LitEntry::File => pointer_file,
        _ => None,
    }
}

/// The placement that a discovery ends with. `same` tells whether `<worktree>/.lit` and its
/// counterpart are one file.
pub open spec fn discovered_placement(
    has_worktree: bool,
    pointer_file: Option<Seq<u8>>,
    entry: LitEntry,
    same: bool,
) -> MetadataPlacement<Seq<u8>> {
    if !has_worktree || !same {
        MetadataPlacement::Direct
    } else {
        match (entry, pointer_file) {
            (LitEntry::Directory, _) => MetadataPlacement::Embedded,
            (LitEntry::File, Some(pointer_file)) => MetadataPlacement::Separate { pointer_file },
            _ => MetadataPlacement::Direct,
        }
    }
}

pub open spec fn optional_path(path: Option<OsPath>) -> Option<Seq<u8>> {
    match path {
        Some(p) => Some(p@),
        None => None,
    }
}

pub open spec fn optional_path_ref(path: Option<&OsPath>) -> Option<Seq<u8>> {
    match path {
        Some(p) => Some(p@),
        None => None,
    }
}

pub open spec fn optional_bytes(b: Option<&[u8]>) -> Option<Seq<u8>> {
    match b {
        Some(b) => Some(b@),
        None => None,
    }
}

impl MetadataPlacement {
    /// The file whose kind a discovery has to look up: `<worktree>/.lit`. Without a worktree there
    /// is nothing to look up.
    pub fn entry_path(worktree_dir: Option<&OsPath>) -> (r: Option<OsPath>)
        ensures
            match worktree_dir {
                Some(dir) => r matches Some(p) && p@ == joined(dir@, text(".lit")),
                None => r is None,
            },
    {
        match worktree_dir {
            Some(dir) => Some(dir.join_text(".lit")),
            None => None,
        }
    }

    /// The path that a discovery has to hold against `<worktree>/.lit`.
    pub fn counterpart_of<'a>(
        metadata_dir: &'a OsPath,
        pointer_file: Option<&'a OsPath>,
        entry: LitEntry,
    ) -> (r: Option<&'a OsPath>)
        ensures
            optional_path_ref(r) == counterpart(
                metadata_dir@,
                optional_path_ref(pointer_file),
                entry,
            ),
    {
        match entry {
            LitEntry::Directory => Some(metadata_dir),
            LitEntry::File => pointer_file,
            _ => None,
        }
    }

    /// The placement, once it is known what `<worktree>/.lit` is and whether it is the same file
    /// as its counterpart.
    pub fn from_discovery(
        worktree_dir: Option<&OsPath>,
        pointer_file: Option<OsPath>,
        entry: LitEntry,
        same: bool,
    ) -> (r: Self)
        ensures
            r@ == discovered_placement(
                worktree_dir is Some,
                optional_path(pointer_file),
                entry,
                same,
            ),
    {
        if worktree_dir.is_none() || !same {
            return MetadataPlacement::Direct;
        }
        match (entry, pointer_file) {
            (LitEntry::Directory, _) => MetadataPlacement::Embedded,
            (LitEntry::File, Some(pointer_file)) => MetadataPlacement::Separate { pointer_file },
            _ => MetadataPlacement::Direct,
        }
    }
}

#[derive(Debug)]
pub struct Layout<P = OsPath> {
    pub metadata_dir: P,
    /// The root of the working tree. A bare repository has none.
    pub worktree_dir: Option<P>,
    pub placement: MetadataPlacement<P>,
}

impl View for Layout {
    type V = Layout<Seq<u8>>;

    open spec fn view(&self) -> Layout<Seq<u8>> {
        Layout {
            metadata_dir: self.metadata_dir@,
            worktree_dir: optional_path(self.worktree_dir),
            placement: self.placement@,
        }
    }
}

#[derive(Debug, PartialEq, Eq)]
pub enum LayoutError<B = Vec<u8>> {
    OsPath(OsPathError<B>),
    LitWorkTreeWithBare,
}

impl View for LayoutError {
    type V = LayoutError<Seq<u8>>;

    open spec fn view(&self) -> LayoutError<Seq<u8>> {
        match *self {
            LayoutError::OsPath(err) => LayoutError::OsPath(err@),
            LayoutError::LitWorkTreeWithBare => LayoutError::LitWorkTreeWithBare,
        }
    }
}

/// The directory that a repository is asked for in: the path that was given, or the current
/// directory.
pub open spec fn root_of(path: Option<Seq<u8>>, cwd: Seq<u8>) -> Seq<u8> {
    match path {
        Some(path) => joined(cwd, path),
        None => cwd,
    }
}

/// The layout where one path names the repository, and nothing else names the metadata.
pub open spec fn layout_at(root: Seq<u8>, bare: bool) -> Layout<Seq<u8>> {
    if bare {
        Layout { metadata_dir: root, worktree_dir: None, placement: MetadataPlacement::Direct }
    } else {
        Layout {
            metadata_dir: joined(root, text(".lit")),
            worktree_dir: Some(root),
            placement: MetadataPlacement::Embedded,
        }
    }
}

/// The layout where the environment names the metadata directory.
pub open spec fn layout_of_env(
    cwd: Seq<u8>,
    bare: bool,
    lit_dir: Seq<u8>,
    lit_work_tree: Option<Seq<u8>>,
) -> Result<Layout<Seq<u8>>, LayoutError<Seq<u8>>> {
    match (os_path_error(lit_dir), lit_work_tree) {
        (Some(err), _) => Err(LayoutError::OsPath(err)),
        (None, Some(tree)) if os_path_error(tree) is Some => Err(
            LayoutError::OsPath(os_path_error(tree)->0),
        ),
        (None, Some(_)) if bare => Err(LayoutError::LitWorkTreeWithBare),
        _ => Ok(
            Layout {
                metadata_dir: joined(cwd, lit_dir),
                worktree_dir: if bare {
                    None
                } else {
                    Some(root_of(lit_work_tree, cwd))
                },
                placement: MetadataPlacement::Direct,
            },
        ),
    }
}

/// The layout of a repository that is to be set up. What names the metadata is, in this order: the
/// separate directory, the path, the environment, the current directory. The environment's worktree
/// counts only where the environment names the metadata.
pub open spec fn resolved(
    path: Option<Seq<u8>>,
    bare: bool,
    separate_lit_dir: Option<Seq<u8>>,
    cwd: Seq<u8>,
    lit_dir: Option<Seq<u8>>,
    lit_work_tree: Option<Seq<u8>>,
) -> Result<Layout<Seq<u8>>, LayoutError<Seq<u8>>> {
    let root = root_of(path, cwd);
    if path matches Some(p) && os_path_error(p) is Some {
        Err(LayoutError::OsPath(os_path_error(path->0)->0))
    } else if let Some(dir) = separate_lit_dir {
        match os_path_error(dir) {
            Some(err) => Err(LayoutError::OsPath(err)),
            None => Ok(
                Layout {
                    metadata_dir: joined(cwd, dir),
                    worktree_dir: Some(root),
                    placement: MetadataPlacement::Separate {
                        pointer_file: joined(root, text(".lit")),
                    },
                },
            ),
        }
    } else if path is Some || lit_dir is None {
        Ok(layout_at(root, bare))
    } else {
        layout_of_env(cwd, bare, lit_dir->0, lit_work_tree)
    }
}

/// Does the configuration have to name the worktree, because nothing else leads to it?
pub open spec fn worktree_needs_config(layout: Layout<Seq<u8>>) -> bool {
    match layout.worktree_dir {
        None => false,
        Some(dir) => layout.placement == MetadataPlacement::<Seq<u8>>::Direct && components_of(
            layout.metadata_dir,
        ) != components_of(joined(dir, text(".lit"))),
    }
}

impl Layout {
    /// Finds where the metadata and the worktree of a repository go. `lit_dir` and `lit_work_tree`
    /// are the variables `LIT_DIR` and `LIT_WORK_TREE`.
    pub fn resolve(
        path: Option<&[u8]>,
        bare: bool,
        separate_lit_dir: Option<&[u8]>,
        cwd: &OsPath,
        lit_dir: Option<&[u8]>,
        lit_work_tree: Option<&[u8]>,
    ) -> (r: Result<Self, LayoutError>)
        ensures
            match resolved(
                optional_bytes(path),
                bare,
                optional_bytes(separate_lit_dir),
                cwd@,
                optional_bytes(lit_dir),
                optional_bytes(lit_work_tree),
            ) {
                Ok(layout) => r matches Ok(l) && l@ == layout,
                Err(err) => r matches Err(e) && e@ == err,
            },
    {
        let root = match path {
            Some(path) => match OsPath::new(path) {
                Ok(path) => cwd.join_unchecked(path.as_bytes()),
                Err(err) => {
                    return Err(LayoutError::OsPath(err));
                },
            },
            None => cwd.copied(),
        };
        if let Some(dir) = separate_lit_dir {
            let metadata_dir = match cwd.join(dir) {
                Ok(dir) => dir,
                Err(err) => {
                    return Err(LayoutError::OsPath(err));
                },
            };
            let pointer_file = root.join_text(".lit");
            return Ok(
                Self {
                    metadata_dir,
                    worktree_dir: Some(root),
                    placement: MetadataPlacement::Separate { pointer_file },
                },
            );
        }
        if path.is_none() {
            if let Some(lit_dir) = lit_dir {
                return Self::resolve_env(cwd, bare, lit_dir, lit_work_tree);
            }
        }
        if bare {
            Ok(
                Self {
                    metadata_dir: root,
                    worktree_dir: None,
                    placement: MetadataPlacement::Direct,
                },
            )
        } else {
            Ok(
                Self {
                    metadata_dir: root.join_text(".lit"),
                    worktree_dir: Some(root),
                    placement: MetadataPlacement::Embedded,
                },
            )
        }
    }

    fn resolve_env(
        cwd: &OsPath,
        bare: bool,
        lit_dir: &[u8],
        lit_work_tree: Option<&[u8]>,
    ) -> (r: Result<Self, LayoutError>)
        ensures
            match layout_of_env(cwd@, bare, lit_dir@, optional_bytes(lit_work_tree)) {
                Ok(layout) => r matches Ok(l) && l@ == layout,
                Err(err) => r matches Err(e) && e@ == err,
            },
    {
        let metadata_dir = match cwd.join(lit_dir) {
            Ok(dir) => dir,
            Err(err) => {
                return Err(LayoutError::OsPath(err));
            },
        };
        let worktree = match lit_work_tree {
            Some(tree) => match OsPath::new(tree) {
                Ok(tree) => cwd.join_unchecked(tree.as_bytes()),
                Err(err) => {
                    return Err(LayoutError::OsPath(err));
                },
            },
            None => cwd.copied(),
        };
        if bare {
            if lit_work_tree.is_some() {
                return Err(LayoutError::LitWorkTreeWithBare);
            }
            return Ok(
                Self { metadata_dir, worktree_dir: None, placement: MetadataPlacement::Direct },
            );
        }
        Ok(
            Self {
                metadata_dir,
                worktree_dir: Some(worktree),
                placement: MetadataPlacement::Direct,
            },
        )
    }

    /// The layout that a discovery ends with.
    pub fn from_discovery(
        metadata_dir: OsPath,
        worktree_dir: Option<OsPath>,
        pointer_file: Option<OsPath>,
        entry: LitEntry,
        same: bool,
    ) -> (r: Self)
        ensures
            r@ == (Layout {
                metadata_dir: metadata_dir@,
                worktree_dir: optional_path(worktree_dir),
                placement: discovered_placement(
                    worktree_dir is Some,
                    optional_path(pointer_file),
                    entry,
                    same,
                ),
            }),
    {
        let placement = MetadataPlacement::from_discovery(
            worktree_dir.as_ref(),
            pointer_file,
            entry,
            same,
        );
        Self { metadata_dir, worktree_dir, placement }
    }

    /// The root of the worktree or, in a bare repository, the metadata directory.
    pub fn root(&self) -> (r: &OsPath)
        ensures
            r@ == (match self@.worktree_dir {
                Some(dir) => dir,
                None => self@.metadata_dir,
            }),
    {
        match &self.worktree_dir {
            Some(dir) => dir,
            None => &self.metadata_dir,
        }
    }

    pub fn metadata_dir(&self) -> (r: &OsPath)
        ensures
            r@ == self@.metadata_dir,
    {
        &self.metadata_dir
    }

    pub fn worktree_dir(&self) -> (r: Option<&OsPath>)
        ensures
            optional_path_ref(r) == self@.worktree_dir,
    {
        match &self.worktree_dir {
            Some(dir) => Some(dir),
            None => None,
        }
    }

    pub fn pointer_file(&self) -> (r: Option<&OsPath>)
        ensures
            optional_path_ref(r) == (match self@.placement {
                MetadataPlacement::Separate { pointer_file } => Some(pointer_file),
                _ => None,
            }),
    {
        match &self.placement {
            MetadataPlacement::Separate { pointer_file } => Some(pointer_file),
            _ => None,
        }
    }

    pub fn is_bare(&self) -> (r: bool)
        ensures
            r == (self@.worktree_dir is None),
    {
        self.worktree_dir.is_none()
    }

    /// Does the configuration have to name the worktree?
    pub fn needs_worktree_config(&self) -> (r: bool)
        ensures
            r == worktree_needs_config(self@),
    {
        let worktree = match &self.worktree_dir {
            Some(dir) => dir,
            None => {
                return false;
            },
        };
        match &self.placement {
            MetadataPlacement::Direct => !self.metadata_dir.same_path(&worktree.join_text(".lit")),
            MetadataPlacement::Embedded => false,
            MetadataPlacement::Separate { .. } => false,
        }
    }
}

/// A repository is bare exactly where that was asked for, and no separate directory was.
pub proof fn bare_only_on_request(
    path: Option<Seq<u8>>,
    bare: bool,
    separate_lit_dir: Option<Seq<u8>>,
    cwd: Seq<u8>,
    lit_dir: Option<Seq<u8>>,
    lit_work_tree: Option<Seq<u8>>,
)
    ensures
        resolved(path, bare, separate_lit_dir, cwd, lit_dir, lit_work_tree) matches Ok(layout) ==> (
        layout.worktree_dir is None <==> bare && separate_lit_dir is None),
{
}

/// A path or a separate directory makes the environment count for nothing; without `LIT_DIR`,
/// `LIT_WORK_TREE` counts for nothing.
pub proof fn environment_yields(
    path: Option<Seq<u8>>,
    bare: bool,
    separate_lit_dir: Option<Seq<u8>>,
    cwd: Seq<u8>,
    lit_dir: Option<Seq<u8>>,
    lit_work_tree: Option<Seq<u8>>,
)
    ensures
        path is Some || separate_lit_dir is Some || lit_dir is None ==> resolved(
            path,
            bare,
            separate_lit_dir,
            cwd,
            lit_dir,
            lit_work_tree,
        ) == resolved(path, bare, separate_lit_dir, cwd, None, None),
{
}

/// From an absolute current directory, the directories of a layout are absolute.
pub proof fn resolved_paths_are_absolute(
    path: Option<Seq<u8>>,
    bare: bool,
    separate_lit_dir: Option<Seq<u8>>,
    cwd: Seq<u8>,
    lit_dir: Option<Seq<u8>>,
    lit_work_tree: Option<Seq<u8>>,
)
    requires
        spec_is_absolute(cwd),
    ensures
        resolved(path, bare, separate_lit_dir, cwd, lit_dir, lit_work_tree) matches Ok(layout) ==> {
            &&& spec_is_absolute(layout.metadata_dir)
            &&& layout.worktree_dir matches Some(dir) ==> spec_is_absolute(dir)
        },
{
}

} // verus!
