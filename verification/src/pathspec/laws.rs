//! What a path that a user names means.

use crate::add::{resolved_path, AddError};
use crate::bytes::{text, SLASH};
use crate::path::ancestry::{
    all_plain_names, as_names, names_are_their_components,
    names_behind_a_directory_are_its_components, the_way_from_a_directory,
};
use crate::path::{
    components_of, joined, located, located_head, normal_prefix, normalized, Component,
};
use crate::pathspec::{pathspec_of, pattern_of, PathspecError};
use crate::repo_path::{
    is_repo_path, joining_keeps_paths, path_error, path_joined, paths_are_made_of_names, split,
    splitting_is_lossless,
};
use crate::walk::path_along;
use crate::workspace::below;
use vstd::prelude::*;
use vstd::string::*;

verus! {

proof fn lemma_prefix_of_push(cs: Seq<Component<Seq<u8>>>, c: Component<Seq<u8>>, n: int)
    requires
        0 <= n <= cs.len(),
    ensures
        normal_prefix(cs.push(c), n) == normal_prefix(cs, n),
    decreases n,
{
    if n > 0 {
        lemma_prefix_of_push(cs, c, n - 1);
        assert(cs.push(c)[n - 1] == cs[n - 1]);
    }
}

/// The components of a path after the lexical normalization of all of them.
pub open spec fn normal_form(cs: Seq<Component<Seq<u8>>>) -> Seq<Component<Seq<u8>>> {
    normal_prefix(cs, cs.len() as int)
}

/// To normalize is to go along the components: a name leads down, `.` leads nowhere, and `..` takes
/// the last name back. At the root `..` leads nowhere; where there is no name to take back it stays.
pub proof fn normalizing_goes_along(cs: Seq<Component<Seq<u8>>>, name: Seq<u8>)
    ensures
        normal_form(Seq::empty()) == Seq::<Component<Seq<u8>>>::empty(),
        normal_form(cs.push(Component::CurDir)) == normal_form(cs),
        normal_form(cs.push(Component::Normal(name))) == normal_form(cs).push(
            Component::Normal(name),
        ),
        normal_form(cs.push(Component::Normal(name)).push(Component::ParentDir)) == normal_form(cs),
        normal_form(cs).len() == 0 ==> normal_form(cs.push(Component::ParentDir)) == seq![
            Component::<Seq<u8>>::ParentDir,
        ],
        normal_form(cs) == seq![Component::<Seq<u8>>::RootDir] ==> normal_form(
            cs.push(Component::ParentDir),
        ) == normal_form(cs),
        normal_form(cs).len() > 0 && normal_form(cs)[0] is ParentDir && normal_form(cs).last()
            is ParentDir ==> normal_form(cs.push(Component::ParentDir)) == normal_form(cs).push(
            Component::ParentDir,
        ),
        normal_form(cs.push(Component::RootDir)) == seq![Component::<Seq<u8>>::RootDir],
{
    let n = cs.len() as int;
    lemma_prefix_of_push(cs, Component::CurDir, n);
    lemma_prefix_of_push(cs, Component::Normal(name), n);
    lemma_prefix_of_push(cs, Component::ParentDir, n);
    lemma_prefix_of_push(cs, Component::RootDir, n);
    let down = cs.push(Component::Normal(name));
    lemma_prefix_of_push(down, Component::ParentDir, n + 1);
    assert(normal_form(cs).push(Component::Normal(name)).drop_last() =~= normal_form(cs));
    assert(Seq::<Component<Seq<u8>>>::empty().push(Component::ParentDir) =~= seq![
        Component::<Seq<u8>>::ParentDir,
    ]);
}

/// The names among components.
pub open spec fn names_among(cs: Seq<Component<Seq<u8>>>) -> Seq<Seq<u8>>
    decreases cs.len(),
{
    if cs.len() == 0 {
        Seq::empty()
    } else {
        match cs[0] {
            Component::Normal(name) => seq![name] + names_among(cs.drop_first()),
            _ => names_among(cs.drop_first()),
        }
    }
}

/// Components below the root of the repository lead to the names among them, one in the other.
pub proof fn patterns_go_along_the_names(
    arg: Seq<u8>,
    path: Seq<u8>,
    cs: Seq<Component<Seq<u8>>>,
)
    requires
        forall|i: int|
            0 <= i < cs.len() ==> !((#[trigger] cs[i]) is RootDir) && !(cs[i] is ParentDir) && cs[i]
                != Component::Normal(text(".lit")),
    ensures
        pattern_of(arg, path, cs) == Ok::<_, PathspecError<Seq<u8>>>(
            path_along(path, names_among(cs)),
        ),
    decreases cs.len(),
{
    if cs.len() > 0 {
        let rest = cs.drop_first();
        assert(cs[0] == cs[0]);
        assert forall|i: int| 0 <= i < rest.len() implies !((#[trigger] rest[i]) is RootDir) && !(
        rest[i] is ParentDir) && rest[i] != Component::Normal(text(".lit")) by {
            assert(rest[i] == cs[i + 1]);
        }
        match cs[0] {
            Component::Normal(name) => {
                patterns_go_along_the_names(arg, path_joined(path, name), rest);
                assert(names_among(cs).drop_first() =~= names_among(rest));
                assert(below(path, name) == path_joined(path, name));
            },
            _ => {
                patterns_go_along_the_names(arg, path, rest);
            },
        }
    }
}

/// A `..` among the components, or a root, leads out of the repository, unless `.lit` comes before
/// it.
pub proof fn patterns_stay_inside(
    arg: Seq<u8>,
    path: Seq<u8>,
    cs: Seq<Component<Seq<u8>>>,
    i: int,
)
    requires
        0 <= i < cs.len(),
        cs[i] is RootDir || cs[i] is ParentDir,
        forall|j: int| 0 <= j < i ==> (#[trigger] cs[j]) != Component::Normal(text(".lit")),
    ensures
        pattern_of(arg, path, cs) == Err::<Seq<u8>, _>(
            PathspecError::OutsideRepository { path: arg },
        ),
    decreases cs.len(),
{
    if i > 0 {
        let rest = cs.drop_first();
        assert(cs[0] != Component::Normal(text(".lit")));
        assert forall|j: int| 0 <= j < i - 1 implies (#[trigger] rest[j]) != Component::Normal(
            text(".lit"),
        ) by {
            assert(rest[j] == cs[j + 1]);
        }
        match cs[0] {
            Component::Normal(name) => {
                patterns_stay_inside(arg, path_joined(path, name), rest, i - 1);
            },
            Component::CurDir => {
                patterns_stay_inside(arg, path, rest, i - 1);
            },
            _ => {},
        }
    }
}

/// `.lit` among the components is refused, unless the way led out of the repository before it.
pub proof fn patterns_avoid_the_metadata(
    arg: Seq<u8>,
    path: Seq<u8>,
    cs: Seq<Component<Seq<u8>>>,
    i: int,
)
    requires
        0 <= i < cs.len(),
        cs[i] == Component::Normal(text(".lit")),
        forall|j: int|
            0 <= j < i ==> !((#[trigger] cs[j]) is RootDir) && !(cs[j] is ParentDir),
    ensures
        pattern_of(arg, path, cs) == Err::<Seq<u8>, _>(
            PathspecError::ReservedComponent { path: arg, component: text(".lit") },
        ),
    decreases cs.len(),
{
    if i > 0 {
        let rest = cs.drop_first();
        assert(!(cs[0] is RootDir) && !(cs[0] is ParentDir));
        assert forall|j: int| 0 <= j < i - 1 implies !((#[trigger] rest[j]) is RootDir) && !(rest[j]
            is ParentDir) by {
            assert(rest[j] == cs[j + 1]);
        }
        match cs[0] {
            Component::Normal(name) => {
                if name != text(".lit") {
                    patterns_avoid_the_metadata(arg, path_joined(path, name), rest, i - 1);
                }
            },
            _ => {
                patterns_avoid_the_metadata(arg, path, rest, i - 1);
            },
        }
    }
}

proof fn lemma_names_stay(cs: Seq<Component<Seq<u8>>>, n: int)
    requires
        0 <= n <= cs.len(),
        forall|i: int|
            0 <= i < cs.len() ==> (#[trigger] cs[i]) is Normal || (i == 0 && cs[i] is RootDir),
    ensures
        normal_prefix(cs, n) == cs.take(n),
    decreases n,
{
    if n > 0 {
        lemma_names_stay(cs, n - 1);
        assert(cs[n - 1] == cs[n - 1]);
        if n == 1 && cs[0] is RootDir {
            assert(cs.take(1) =~= seq![Component::<Seq<u8>>::RootDir]);
        } else {
            assert(cs.take(n) =~= cs.take(n - 1).push(cs[n - 1]));
        }
    } else {
        assert(cs.take(0) =~= Seq::<Component<Seq<u8>>>::empty());
    }
}

proof fn lemma_names_among(parts: Seq<Seq<u8>>)
    ensures
        names_among(as_names(parts)) == parts,
    decreases parts.len(),
{
    if parts.len() > 0 {
        lemma_names_among(parts.drop_first());
        assert(as_names(parts).drop_first() =~= as_names(parts.drop_first()));
        assert(seq![parts[0]] + parts.drop_first() =~= parts);
    } else {
        assert(names_among(as_names(parts)) =~= parts);
    }
}

/// Going along the names of a path leads to the path.
proof fn lemma_along_the_parts(dir: Seq<u8>, b: Seq<u8>)
    requires
        forall|i: int|
            0 <= i < split(b, SLASH).len() ==> (#[trigger] split(b, SLASH)[i]).len() > 0,
    ensures
        path_along(dir, split(b, SLASH)) == below(dir, b),
    decreases b.len(),
{
    let parts = split(b, SLASH);
    splitting_is_lossless(b, SLASH);
    let first = parts[0];
    assert(parts[0].len() > 0);
    if parts.len() == 1 {
        assert(path_along(below(dir, first), parts.drop_first()) == below(dir, first));
    } else {
        let rest = b.skip(first.len() as int + 1);
        assert(parts.drop_first() == split(rest, SLASH));
        assert forall|i: int| 0 <= i < split(rest, SLASH).len() implies (#[trigger] split(
            rest,
            SLASH,
        )[i]).len() > 0 by {
            assert(split(rest, SLASH)[i] == parts[i + 1]);
        }
        lemma_along_the_parts(below(dir, first), rest);
        assert(below(below(dir, first), rest) =~= below(dir, b));
    }
}

proof fn lemma_pattern_of_names(arg: Seq<u8>, b: Seq<u8>)
    requires
        path_error(b) is None,
    ensures
        pattern_of(arg, Seq::empty(), as_names(split(b, SLASH))) == Ok::<
            _,
            PathspecError<Seq<u8>>,
        >(b),
        all_plain_names(split(b, SLASH)),
{
    paths_are_made_of_names(b);
    let parts = split(b, SLASH);
    let cs = as_names(parts);
    assert forall|i: int| 0 <= i < cs.len() implies !((#[trigger] cs[i]) is RootDir) && !(cs[i]
        is ParentDir) && cs[i] != Component::Normal(text(".lit")) by {
        assert(parts[i] != text(".lit"));
    }
    patterns_go_along_the_names(arg, Seq::empty(), cs);
    lemma_names_among(parts);
    lemma_along_the_parts(Seq::empty(), b);
}

/// A path of names means the path behind the directory that the user is in.
pub proof fn plain_paths_are_seen_from_the_directory(
    arg: Seq<u8>,
    prefix: Seq<u8>,
    root: Seq<u8>,
)
    requires
        path_error(arg) is None,
        is_repo_path(prefix),
        !arg.contains(0),
    ensures
        pathspec_of(arg, prefix, root) == Ok::<_, PathspecError<Seq<u8>>>(below(prefix, arg)),
{
    let full = below(prefix, arg);
    assert(full == path_joined(prefix, arg));
    joining_keeps_paths(prefix, arg);
    assert(joined(prefix, arg) =~= full);
    paths_are_made_of_names(full);
    lemma_pattern_of_names(arg, full);
    let parts = split(full, SLASH);
    splitting_is_lossless(full, SLASH);
    let cs = as_names(parts);
    names_are_their_components(full);
    lemma_names_stay(cs, cs.len() as int);
    assert(cs.take(cs.len() as int) =~= cs);
    assert(normalized(cs) == cs);
    assert(cs[0] is Normal);
}

/// An absolute path of names below the root of the repository means what stands behind the root, in
/// whatever directory the user is.
pub proof fn absolute_paths_are_seen_from_the_root(
    rest: Seq<u8>,
    prefix: Seq<u8>,
    root: Seq<u8>,
)
    requires
        path_error(rest) is None,
        root.len() > 0,
        root[0] == 0x2f,
        !root.contains(0),
        !rest.contains(0),
        forall|i: int|
            0 < i < components_of(root).len() ==> (#[trigger] components_of(root)[i]) is Normal,
    ensures
        pathspec_of(root + seq![0x2fu8] + rest, prefix, root) == Ok::<_, PathspecError<Seq<u8>>>(
            rest,
        ),
{
    let arg = root + seq![0x2fu8] + rest;
    assert(!arg.contains(0)) by {
        if arg.contains(0) {
            let i = choose|i: int| 0 <= i < arg.len() && arg[i] == 0;
            if i < root.len() {
                assert(root[i] == 0);
            } else if i > root.len() {
                assert(rest[i - root.len() - 1] == 0);
            }
        }
    }
    lemma_pattern_of_names(arg, rest);
    names_behind_a_directory_are_its_components(root, rest);
    let at_root = components_of(root);
    let names = as_names(split(rest, SLASH));
    let cs = at_root + names;
    assert(at_root.len() > 0 && at_root[0] is RootDir) by {
        assert(located(root)[0] == located_head(root)[0]);
    }
    assert forall|i: int| 0 <= i < cs.len() implies (#[trigger] cs[i]) is Normal || (i == 0 && cs[i]
        is RootDir) by {
        if 0 < i < at_root.len() {
            assert(cs[i] == at_root[i]);
        } else if i >= at_root.len() {
            assert(cs[i] == names[i - at_root.len()]);
        }
    }
    lemma_names_stay(cs, cs.len() as int);
    assert(cs.take(cs.len() as int) =~= cs);
    assert(normalized(components_of(arg)) == cs);
    assert(cs.take(at_root.len() as int) =~= at_root);
    assert(cs.skip(at_root.len() as int) =~= names);
}

/// The empty path and one with a NUL mean nothing.
pub proof fn bad_paths_mean_nothing(arg: Seq<u8>, prefix: Seq<u8>, root: Seq<u8>)
    ensures
        arg.len() == 0 || arg.contains(0) ==> (pathspec_of(arg, prefix, root) matches Err(
            PathspecError::OsPath(_),
        )),
{
}

/// A path of names that a user writes in a directory of the repository means the path behind that
/// directory. Outside the repository it means nothing.
pub proof fn user_paths_are_seen_from_where_the_user_is(
    arg: Seq<u8>,
    root: Seq<u8>,
    dir: Seq<u8>,
    elsewhere: Seq<u8>,
)
    requires
        path_error(arg) is None,
        !arg.contains(0),
        path_error(dir) is None,
        root.len() > 0,
        root.len() + 1 + dir.len() <= usize::MAX,
    ensures
        resolved_path(arg, root, root + seq![0x2fu8] + dir) == Ok::<_, AddError<Seq<u8>>>(
            below(dir, arg),
        ),
        resolved_path(arg, root, root) == Ok::<_, AddError<Seq<u8>>>(arg),
        components_of(elsewhere).len() < components_of(root).len() || components_of(elsewhere).take(
            components_of(root).len() as int,
        ) != components_of(root) ==> (resolved_path(arg, root, elsewhere) matches Err(
            AddError::OutsideRepository { path },
        ) && path == elsewhere),
{
    lemma_pattern_of_names(dir, dir);
    the_way_from_a_directory(root, dir, elsewhere);
    plain_paths_are_seen_from_the_directory(arg, dir, root);
    plain_paths_are_seen_from_the_directory(arg, Seq::empty(), root);
}

} // verus!
