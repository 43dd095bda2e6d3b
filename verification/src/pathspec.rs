//! The paths that a command is asked to work on.

use crate::bytes::{copy_of, is_text, lemma_until, lemma_until_is, text, until, NUL, SLASH};
use crate::path::laws::{
    components_are_well_shaped, is_name, names_are_names, normalized_is_canonical,
    rendering_keeps_components,
};
use crate::path::{
    components, components_of, components_view, joined, lemma_dots, located, located_from,
    located_head, normal_prefix, normalized, os_path_error, part_component, same_prefix,
    spec_is_absolute, Component, OsPath, OsPathError,
};
use crate::repo_path::{
    first_component_error, is_repo_path, joining_keeps_paths, path_error, path_joined, split,
    RepoPath,
};
use vstd::prelude::*;
use vstd::string::*;

pub mod laws;

verus! {

#[derive(Debug, PartialEq, Eq)]
#[allow(inconsistent_fields)]
pub enum PathspecError<B = Vec<u8>> {
    OutsideRepository { path: B },
    ReservedComponent { path: B, component: B },
    OsPath(OsPathError<B>),
}

impl View for PathspecError {
    type V = PathspecError<Seq<u8>>;

    open spec fn view(&self) -> PathspecError<Seq<u8>> {
        match *self {
            PathspecError::OutsideRepository { path } => PathspecError::OutsideRepository {
                path: path@,
            },
            PathspecError::ReservedComponent { path, component } => {
                PathspecError::ReservedComponent { path: path@, component: component@ }
            },
            PathspecError::OsPath(err) => PathspecError::OsPath(err@),
        }
    }
}

/// A path that the user named, and the same path relative to the root of the repository.
#[derive(Debug)]
pub struct Pathspec {
    /// What the user wrote.
    pub original: Vec<u8>,
    pub pattern: RepoPath,
}

/// The names among `cs` joined below `path`. A `..` that is left leads out of the repository.
pub open spec fn pattern_of(
    arg: Seq<u8>,
    path: Seq<u8>,
    cs: Seq<Component<Seq<u8>>>,
) -> Result<Seq<u8>, PathspecError<Seq<u8>>>
    decreases cs.len(),
{
    if cs.len() == 0 {
        Ok(path)
    } else {
        match cs[0] {
            Component::RootDir => Err(PathspecError::OutsideRepository { path: arg }),
            Component::ParentDir => Err(PathspecError::OutsideRepository { path: arg }),
            Component::CurDir => pattern_of(arg, path, cs.drop_first()),
            Component::Normal(name) => if name == text(".lit") {
                Err(PathspecError::ReservedComponent { path: arg, component: name })
            } else {
                pattern_of(arg, path_joined(path, name), cs.drop_first())
            },
        }
    }
}

/// The path that the user means: an absolute path as it is, any other seen from `prefix`.
pub open spec fn resolved(arg: Seq<u8>, prefix: Seq<u8>) -> Seq<u8> {
    if spec_is_absolute(arg) {
        arg
    } else {
        joined(prefix, arg)
    }
}

/// The components of a path below the root of the repository.
pub open spec fn below_root(cs: Seq<Component<Seq<u8>>>, root: Seq<Component<Seq<u8>>>) -> Option<
    Seq<Component<Seq<u8>>>,
> {
    if !(cs[0] is RootDir) {
        Some(cs)
    } else if root.len() <= cs.len() && cs.take(root.len() as int) == root {
        Some(cs.skip(root.len() as int))
    } else {
        None
    }
}

/// The path relative to the root of the repository that `arg` means in the directory `prefix`.
pub open spec fn pathspec_of(arg: Seq<u8>, prefix: Seq<u8>, root: Seq<u8>) -> Result<
    Seq<u8>,
    PathspecError<Seq<u8>>,
> {
    match os_path_error(arg) {
        Some(err) => Err(PathspecError::OsPath(err)),
        None => match below_root(
            normalized(components_of(resolved(arg, prefix))),
            components_of(root),
        ) {
            None => Err(PathspecError::OutsideRepository { path: arg }),
            Some(cs) => pattern_of(arg, Seq::empty(), cs),
        },
    }
}

pub open spec fn names_hold_no_nul(cs: Seq<Component<Seq<u8>>>) -> bool {
    forall|i: int|
        #![trigger cs[i]]
        0 <= i < cs.len() ==> (cs[i] matches Component::Normal(name) ==> !name.contains(NUL))
}

proof fn lemma_located_nul_free(b: Seq<u8>, at: int)
    requires
        0 <= at <= b.len(),
        !b.contains(NUL),
    ensures
        forall|i: int|
            0 <= i < located_from(b, at).len() ==> ((
            #[trigger] located_from(b, at)[i]).component matches Component::Normal(name)
                ==> !name.contains(NUL)),
    decreases b.len() - at,
{
    lemma_until(b.skip(at), SLASH);
    let end = at + until(b.skip(at), SLASH);
    let part = b.subrange(at, end);
    assert(!part.contains(NUL)) by {
        if part.contains(NUL) {
            let j = choose|j: int| 0 <= j < part.len() && part[j] == NUL;
            assert(b[at + j] == NUL);
        }
    }
    if end < b.len() {
        lemma_located_nul_free(b, end + 1);
        let tail = located_from(b, end + 1);
        match part_component(part) {
            None => {
                assert(located_from(b, at) =~= tail);
            },
            Some(component) => {
                assert forall|i: int| 0 <= i < located_from(b, at).len() implies ((
                #[trigger] located_from(b, at)[i]).component matches Component::Normal(name)
                    ==> !name.contains(NUL)) by {
                    if i > 0 {
                        assert(located_from(b, at)[i] == tail[i - 1]);
                    }
                }
            },
        }
    }
}

proof fn lemma_components_nul_free(b: Seq<u8>)
    requires
        !b.contains(NUL),
    ensures
        names_hold_no_nul(components_of(b)),
{
    lemma_located_nul_free(b, 0);
    let head = located_head(b);
    let cs = components_of(b);
    assert forall|i: int| 0 <= i < cs.len() implies ((#[trigger] cs[i]) matches Component::Normal(
        name,
    ) ==> !name.contains(NUL)) by {
        if i >= head.len() {
            assert(located(b)[i] == located_from(b, 0)[i - head.len()]);
        } else {
            assert(located(b)[i] == head[i]);
        }
    }
}

proof fn lemma_prefix_nul_free(cs: Seq<Component<Seq<u8>>>, n: int)
    requires
        names_hold_no_nul(cs),
        0 <= n <= cs.len(),
    ensures
        names_hold_no_nul(normal_prefix(cs, n)),
    decreases n,
{
    if n > 0 {
        lemma_prefix_nul_free(cs, n - 1);
        let before = normal_prefix(cs, n - 1);
        let after = normal_prefix(cs, n);
        assert(cs[n - 1] == cs[n - 1]);
        assert forall|i: int| 0 <= i < after.len() implies ((
        #[trigger] after[i]) matches Component::Normal(name) ==> !name.contains(NUL)) by {
            if i < before.len() {
                assert(before[i] == before[i]);
            }
        }
    }
}

/// The names joined together are a path of the repository.
proof fn lemma_pattern_is_path(arg: Seq<u8>, path: Seq<u8>, cs: Seq<Component<Seq<u8>>>)
    requires
        is_repo_path(path),
        names_are_names(cs),
        names_hold_no_nul(cs),
    ensures
        pattern_of(arg, path, cs) matches Ok(pattern) ==> is_repo_path(pattern),
    decreases cs.len(),
{
    if cs.len() > 0 {
        let rest = cs.drop_first();
        assert(cs[0] == cs[0]);
        assert forall|i: int| 0 <= i < rest.len() implies ((
        #[trigger] rest[i]) matches Component::Normal(name) ==> is_name(name) && !name.contains(
            NUL,
        )) by {
            assert(rest[i] == cs[i + 1]);
        }
        match cs[0] {
            Component::Normal(name) => {
                if name != text(".lit") {
                    lemma_name_is_path(name);
                    joining_keeps_paths(path, name);
                    lemma_pattern_is_path(arg, path_joined(path, name), rest);
                }
            },
            Component::CurDir => {
                lemma_pattern_is_path(arg, path, rest);
            },
            _ => {},
        }
    }
}

proof fn lemma_name_is_path(name: Seq<u8>)
    requires
        is_name(name),
        !name.contains(NUL),
        name != text(".lit"),
    ensures
        path_error(name) is None,
{
    lemma_dots();
    assert(name[0] != SLASH && name.last() != SLASH) by {
        if name[0] == SLASH || name.last() == SLASH {
            assert(name.contains(SLASH));
        }
    }
    assert forall|j: int| 0 <= j < name.len() implies name[j] != SLASH by {
        if name[j] == SLASH {
            assert(name.contains(SLASH));
        }
    }
    lemma_until_is(name, SLASH, name.len() as int);
    assert(split(name, SLASH) =~= seq![name]);
    reveal_with_fuel(first_component_error, 2);
    assert(seq![name].drop_first() =~= Seq::<Seq<u8>>::empty());
}

proof fn lemma_joined_nul_free(base: Seq<u8>, path: Seq<u8>)
    requires
        !base.contains(NUL),
        !path.contains(NUL),
    ensures
        !joined(base, path).contains(NUL),
{
    let r = joined(base, path);
    if r.contains(NUL) {
        let i = choose|i: int| 0 <= i < r.len() && r[i] == NUL;
        if spec_is_absolute(path) {
            assert(path[i] == NUL);
        } else if i < base.len() {
            assert(base[i] == NUL);
        } else if base.len() > 0 && base.last() != SLASH {
            if i > base.len() {
                assert(path[i - base.len() - 1] == NUL);
            }
        } else {
            assert(path[i - base.len()] == NUL);
        }
    }
}

/// The pattern of a path that the user names in a directory of the repository is a path of the
/// repository.
pub proof fn patterns_are_paths(arg: Seq<u8>, prefix: Seq<u8>, root: Seq<u8>)
    requires
        !prefix.contains(NUL),
    ensures
        pathspec_of(arg, prefix, root) matches Ok(pattern) ==> is_repo_path(pattern),
{
    if os_path_error(arg) is None {
        let path = resolved(arg, prefix);
        lemma_joined_nul_free(prefix, arg);
        let cs = components_of(path);
        lemma_components_nul_free(path);
        components_are_well_shaped(path);
        lemma_prefix_nul_free(cs, cs.len() as int);
        normalized_is_canonical(cs);
        let all = normalized(cs);
        assert(names_hold_no_nul(all));
        if let Some(rest) = below_root(all, components_of(root)) {
            let n = all.len() - rest.len();
            assert forall|i: int| 0 <= i < rest.len() implies ((
            #[trigger] rest[i]) matches Component::Normal(name) ==> is_name(name)
                && !name.contains(NUL)) by {
                assert(rest[i] == all[i + n]);
            }
            lemma_pattern_is_path(arg, Seq::empty(), rest);
        }
    }
}

impl Pathspec {
    /// The path that `arg_path` means for a user in the directory `prefix` of the repository at
    /// `root`. An absolute path is taken below the root; it is normalized first, because only then
    /// does it start with the root if it lies below it. The file system is not looked at: the path
    /// may name nothing.
    pub fn new(arg_path: &[u8], prefix: &[u8], root: &[u8]) -> (r: Result<Self, PathspecError>)
        ensures
            match pathspec_of(arg_path@, prefix@, root@) {
                Ok(pattern) => r matches Ok(spec) && spec.pattern@ == pattern && spec.original@
                    == arg_path@,
                Err(error) => r matches Err(e) && e@ == error,
            },
            !prefix@.contains(NUL) && r is Ok ==> r->Ok_0.pattern.wf(),
    {
        let cli_path = match OsPath::new(arg_path) {
            Ok(path) => path,
            Err(err) => {
                return Err(PathspecError::OsPath(err));
            },
        };
        let resolved_path = if cli_path.is_absolute() {
            cli_path.copied()
        } else {
            OsPath::new_unchecked(prefix).join_unchecked(arg_path)
        };
        let normal = resolved_path.normalize_lexically();
        let parts = normal.components();
        let ghost cs = normalized(components_of(resolved_path@));
        proof {
            components_are_well_shaped(resolved_path@);
            normalized_is_canonical(components_of(resolved_path@));
            normal.lemma_fits();
            rendering_keeps_components(cs);
            assert(components_view(parts@).len() == parts@.len());
            assert(components_view(parts@)[0] == parts@[0]@);
            if !prefix@.contains(NUL) {
                patterns_are_paths(arg_path@, prefix@, root@);
            }
        }
        let root_parts = components(root);
        let mut i: usize = 0;
        if matches!(parts[0], Component::RootDir) {
            proof {
                assert(components_view(root_parts@).len() == root_parts@.len());
                assert(components_of(root@).take(root_parts@.len() as int) =~= components_of(root@));
            }
            if root_parts.len() > parts.len() || !same_prefix(
                &parts,
                &root_parts,
                root_parts.len(),
            ) {
                return Err(PathspecError::OutsideRepository { path: copy_of(arg_path) });
            }
            i = root_parts.len();
        }
        let mut pattern = RepoPath::new();
        proof {
            if i == 0 {
                assert(cs.skip(0) =~= cs);
            }
            assert(below_root(cs, components_of(root@)) == Some(cs.skip(i as int)));
        }
        while i < parts.len()
            invariant
                i <= parts@.len(),
                cs == components_view(parts@),
                pathspec_of(arg_path@, prefix@, root@) == pattern_of(
                    arg_path@,
                    pattern@,
                    cs.skip(i as int),
                ),
            decreases parts@.len() - i,
        {
            proof {
                let rest = cs.skip(i as int);
                assert(rest[0] == parts@[i as int]@);
                assert(rest.drop_first() =~= cs.skip(i + 1));
            }
            match parts[i] {
                Component::RootDir | Component::ParentDir => {
                    return Err(PathspecError::OutsideRepository { path: copy_of(arg_path) });
                },
                Component::CurDir => {},
                Component::Normal(name) => {
                    if is_text(name, ".lit") {
                        return Err(
                            PathspecError::ReservedComponent {
                                path: copy_of(arg_path),
                                component: copy_of(name),
                            },
                        );
                    }
                    pattern = pattern.join_unchecked(name);
                },
            }
            i = i + 1;
        }
        assert(cs.skip(i as int) =~= Seq::<Component<Seq<u8>>>::empty());
        Ok(Self { original: copy_of(arg_path), pattern })
    }
}

} // verus!
