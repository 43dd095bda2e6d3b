//! How paths are taken apart: parents, and names behind a directory.

use crate::bytes::{lemma_until, lemma_until_is, text, until, SLASH};
use crate::path::laws::{lemma_root_alone, lemma_until_append};
use crate::path::{
    components_of, lemma_dots, lemma_located, lemma_located_from, located, located_from,
    located_head, parent_of, part_component, stripped, unlocated, Component, Located,
};
use crate::repo_path::split;
use vstd::prelude::*;
use vstd::string::*;

verus! {

pub open spec fn as_names(parts: Seq<Seq<u8>>) -> Seq<Component<Seq<u8>>> {
    Seq::new(parts.len(), |i: int| Component::Normal(parts[i]))
}

/// A name that stands for itself: not empty, and neither `.` nor `..`.
pub open spec fn is_plain_name(part: Seq<u8>) -> bool {
    part.len() > 0 && part != text(".") && part != text("..")
}

pub open spec fn all_plain_names(parts: Seq<Seq<u8>>) -> bool {
    forall|i: int| 0 <= i < parts.len() ==> is_plain_name(#[trigger] parts[i])
}

/// The components from a place on are the names between the slashes there.
pub proof fn lemma_from_names(b: Seq<u8>, at: int)
    requires
        0 <= at <= b.len(),
        all_plain_names(split(b.skip(at), SLASH)),
    ensures
        unlocated(located_from(b, at)) == as_names(split(b.skip(at), SLASH)),
    decreases b.len() - at,
{
    lemma_dots();
    let rest = b.skip(at);
    lemma_until(rest, SLASH);
    let n = until(rest, SLASH);
    let end = at + n;
    let parts = split(rest, SLASH);
    let part = b.subrange(at, end);
    assert(rest.take(n) =~= part);
    if n < rest.len() {
        assert(parts == seq![part] + split(rest.skip(n + 1), SLASH));
        assert(rest.skip(n + 1) =~= b.skip(end + 1));
        let tail = split(b.skip(end + 1), SLASH);
        assert(parts[0] == part);
        assert(is_plain_name(part));
        assert forall|i: int| 0 <= i < tail.len() implies is_plain_name(#[trigger] tail[i]) by {
            assert(parts[i + 1] == tail[i]);
        }
        lemma_from_names(b, end + 1);
        let head = seq![Located { component: Component::Normal(part), start: at as usize, end: end as usize }];
        assert(part_component(part) == Some(Component::Normal(part)));
        assert(located_from(b, at) == head + located_from(b, end + 1));
        assert(unlocated(located_from(b, at)) =~= seq![Component::Normal(part)] + unlocated(
            located_from(b, end + 1),
        ));
        assert(as_names(parts) =~= seq![Component::Normal(part)] + as_names(tail));
    } else {
        assert(rest.take(n) =~= rest);
        assert(parts == seq![rest]);
        assert(parts[0] == part);
        assert(is_plain_name(part));
        assert(part_component(part) == Some(Component::Normal(part)));
        assert(unlocated(located_from(b, at)) =~= seq![Component::Normal(part)]);
        assert(as_names(parts) =~= seq![Component::Normal(part)]);
    }
}

/// What stands in front of a slash and what stands behind it do not mix.
pub proof fn lemma_from_split(b: Seq<u8>, at: int, e: int)
    requires
        0 <= at <= e < b.len(),
        b[e] == SLASH,
    ensures
        located_from(b, at) == located_from(b.take(e), at) + located_from(b, e + 1),
    decreases e - at,
{
    let front = b.take(e);
    let rest = b.skip(at);
    lemma_until(front.skip(at), SLASH);
    let n = until(front.skip(at), SLASH);
    assert(rest =~= front.skip(at) + b.skip(e));
    assert(b.skip(e)[0] == SLASH);
    lemma_until_append(front.skip(at), b.skip(e));
    let end = at + n;
    assert(b.subrange(at, end) =~= front.subrange(at, end));
    let head = match part_component(b.subrange(at, end)) {
        None => Seq::empty(),
        Some(component) => seq![Located { component, start: at as usize, end: end as usize }],
    };
    if end < e {
        assert(front.skip(at)[n] == SLASH);
        lemma_from_split(b, end + 1, e);
        assert(located_from(b, at) == head + located_from(b, end + 1));
        assert(located_from(front, at) == head + located_from(front, end + 1));
        assert(head + (located_from(front, end + 1) + located_from(b, e + 1)) =~= (head
            + located_from(front, end + 1)) + located_from(b, e + 1));
    } else {
        assert(located_from(front, at) == head);
        assert(located_from(b, at) == head + located_from(b, e + 1));
    }
}

/// The first component is the same in front of a slash.
pub proof fn lemma_head_split(b: Seq<u8>, e: int)
    requires
        0 < e < b.len(),
        b[e] == SLASH,
    ensures
        located_head(b) == located_head(b.take(e)),
{
    let front = b.take(e);
    lemma_until(front, SLASH);
    assert(b =~= front + b.skip(e));
    assert(b.skip(e)[0] == SLASH);
    lemma_until_append(front, b.skip(e));
    let n = until(front, SLASH);
    assert(b.take(n) =~= front.take(n));
}

/// Behind a directory and a slash, each name is one more component.
pub proof fn names_behind_a_directory_are_its_components(dir: Seq<u8>, names: Seq<u8>)
    requires
        dir.len() > 0,
        all_plain_names(split(names, SLASH)),
    ensures
        components_of(dir + seq![0x2fu8] + names) == components_of(dir) + as_names(
            split(names, SLASH),
        ),
{
    let b = dir + seq![0x2fu8] + names;
    let e = dir.len() as int;
    assert(b.take(e) =~= dir);
    assert(b.skip(e + 1) =~= names);
    lemma_from_split(b, 0, e);
    lemma_head_split(b, e);
    lemma_from_names(b, e + 1);
    assert(located(b) =~= located(dir) + located_from(b, e + 1));
    assert(components_of(b) =~= components_of(dir) + unlocated(located_from(b, e + 1)));
}

/// The components of names alone are the names.
pub proof fn names_are_their_components(names: Seq<u8>)
    requires
        all_plain_names(split(names, SLASH)),
    ensures
        components_of(names) == as_names(split(names, SLASH)),
{
    lemma_dots();
    assert(names.skip(0) =~= names);
    lemma_from_names(names, 0);
    lemma_until(names, SLASH);
    let n = until(names, SLASH);
    let parts = split(names, SLASH);
    assert(parts[0] == names.take(n)) by {
        if n < names.len() {
            assert(parts == seq![names.take(n)] + split(names.skip(n + 1), SLASH));
        } else {
            assert(names.take(n) =~= names);
        }
    }
    assert(is_plain_name(parts[0]));
    assert(located_head(names) =~= Seq::empty()) by {
        if names.len() > 0 && names[0] == SLASH {
            lemma_until_is(names, SLASH, 0);
            assert(parts[0].len() == 0);
        }
    }
    assert(located(names) =~= located_from(names, 0));
}

/// A component reaches up to a slash or to the end.
proof fn lemma_ends(b: Seq<u8>, at: int)
    requires
        0 <= at <= b.len(),
        b.len() <= usize::MAX,
    ensures
        forall|i: int|
            0 <= i < located_from(b, at).len() ==> {
                let end = (#[trigger] located_from(b, at)[i]).end as int;
                end == b.len() || end < b.len() && b[end] == SLASH
            },
    decreases b.len() - at,
{
    lemma_until(b.skip(at), SLASH);
    let n = until(b.skip(at), SLASH);
    let end = at + n;
    let head = match part_component(b.subrange(at, end)) {
        None => Seq::empty(),
        Some(component) => seq![Located { component, start: at as usize, end: end as usize }],
    };
    if end < b.len() {
        assert(b.skip(at)[n] == SLASH);
        lemma_ends(b, end + 1);
        let tail = located_from(b, end + 1);
        assert(located_from(b, at) == head + tail);
        assert forall|i: int| 0 <= i < located_from(b, at).len() implies ({
            let end = (#[trigger] located_from(b, at)[i]).end as int;
            end == b.len() || end < b.len() && b[end] == SLASH
        }) by {
            if i >= head.len() {
                assert(located_from(b, at)[i] == tail[i - head.len()]);
            }
        }
    } else {
        assert(located_from(b, at) == head);
    }
}

/// The parent of a path has all its components but the last. The root and the empty path have none.
pub proof fn parents_lose_the_last_component(b: Seq<u8>)
    requires
        b.len() <= usize::MAX,
    ensures
        match parent_of(b) {
            Some(parent) => components_of(b).len() > 0 && components_of(parent) == components_of(
                b,
            ).drop_last(),
            None => components_of(b).len() == 0 || components_of(b).last()
                == Component::<Seq<u8>>::RootDir,
        },
{
    let parts = located(b);
    let n = parts.len() as int;
    lemma_located(b);
    if n == 1 && !(parts[0].component is RootDir) {
        let none = Seq::<u8>::empty();
        assert(none.skip(0) =~= none);
        assert(none.take(0) =~= none);
        assert(components_of(none) =~= Seq::<Component<Seq<u8>>>::empty());
        assert(components_of(b).drop_last() =~= Seq::<Component<Seq<u8>>>::empty());
    } else if n > 1 {
        let e = parts[n - 2].end as int;
        let front = b.take(e);
        let head = located_head(b);
        if n - 2 < head.len() && parts[n - 2].component is RootDir {
            assert(front =~= seq![SLASH]);
            lemma_root_alone(front);
            assert(components_of(b).drop_last() =~= seq![Component::<Seq<u8>>::RootDir]);
            assert(components_of(front) =~= seq![Component::<Seq<u8>>::RootDir]);
        } else {
            assert(parts[n - 1].start >= e);
            assert(b[e] == SLASH) by {
                lemma_ends(b, 0);
                lemma_until(b, SLASH);
                if n - 2 >= head.len() {
                    assert(parts[n - 2] == located_from(b, 0)[n - 2 - head.len()]);
                } else {
                    let m = until(b, SLASH);
                    assert(b.take(m).len() == m);
                    assert(m == 1);
                }
            }
            lemma_from_split(b, 0, e);
            lemma_head_split(b, e);
            let front_parts = located(front);
            let tail = located_from(b, e + 1);
            assert(parts =~= front_parts + tail);
            lemma_located(front);
            lemma_located_from(b, e + 1);
            assert(tail.len() == 1) by {
                let m = front_parts.len() as int;
                if m > n - 1 {
                    assert(parts[n - 1] == front_parts[n - 1]);
                    assert(parts[n - 1].start >= parts[n - 2].end);
                    assert(front_parts[n - 1].end <= front.len());
                } else if m < n - 1 {
                    assert(parts[n - 2] == tail[n - 2 - m]);
                    assert(tail[n - 2 - m].end > e);
                }
            }
            assert(components_of(front) =~= components_of(b).drop_last());
        }
    }
}

/// The first of the names at the end of a path starts where they do, and the last ends where the
/// path does.
proof fn lemma_names_span(b: Seq<u8>, at: int)
    requires
        0 <= at <= b.len() <= usize::MAX,
        all_plain_names(split(b.skip(at), SLASH)),
    ensures
        located_from(b, at).len() > 0,
        located_from(b, at)[0].start == at,
        located_from(b, at).last().end == b.len(),
    decreases b.len() - at,
{
    lemma_dots();
    let rest = b.skip(at);
    lemma_until(rest, SLASH);
    let n = until(rest, SLASH);
    let end = at + n;
    let parts = split(rest, SLASH);
    let part = b.subrange(at, end);
    assert(rest.take(n) =~= part);
    let head = seq![
        Located { component: Component::Normal(part), start: at as usize, end: end as usize },
    ];
    if n < rest.len() {
        assert(parts == seq![part] + split(rest.skip(n + 1), SLASH));
        assert(rest.skip(n + 1) =~= b.skip(end + 1));
        let tail = split(b.skip(end + 1), SLASH);
        assert(parts[0] == part);
        assert(is_plain_name(part));
        assert forall|i: int| 0 <= i < tail.len() implies is_plain_name(#[trigger] tail[i]) by {
            assert(parts[i + 1] == tail[i]);
        }
        lemma_names_span(b, end + 1);
        assert(part_component(part) == Some(Component::Normal(part)));
        assert(located_from(b, at) == head + located_from(b, end + 1));
        assert((head + located_from(b, end + 1)).last() == located_from(b, end + 1).last());
    } else {
        assert(rest.take(n) =~= rest);
        assert(parts[0] == part);
        assert(is_plain_name(part));
        assert(part_component(part) == Some(Component::Normal(part)));
        assert(located_from(b, at) == head);
    }
}

/// From a directory to the names behind it leads what stands behind the directory and a slash; from
/// a directory to itself leads nothing. A way there is exactly if the path starts with the
/// components of the directory.
pub proof fn the_way_from_a_directory(dir: Seq<u8>, names: Seq<u8>, other: Seq<u8>)
    requires
        dir.len() > 0,
        dir.len() + 1 + names.len() <= usize::MAX,
        all_plain_names(split(names, SLASH)),
    ensures
        stripped(dir + seq![0x2fu8] + names, dir) == Some(names),
        stripped(dir, dir) == Some(Seq::<u8>::empty()),
        stripped(other, dir) is Some <==> components_of(dir).len() <= components_of(other).len()
            && components_of(other).take(components_of(dir).len() as int) == components_of(dir),
{
    let b = dir + seq![0x2fu8] + names;
    let e = dir.len() as int;
    let n = components_of(dir).len() as int;
    assert(b.take(e) =~= dir);
    assert(b.skip(e + 1) =~= names);
    lemma_from_split(b, 0, e);
    lemma_head_split(b, e);
    names_behind_a_directory_are_its_components(dir, names);
    lemma_names_span(b, e + 1);
    let tail = located_from(b, e + 1);
    let parts = located(b);
    assert(parts =~= located(dir) + tail);
    assert(parts[n] == tail[0]);
    assert(parts[parts.len() - 1] == tail.last());
    assert(components_of(b).take(n) =~= components_of(dir));
    assert(b.subrange(e + 1, b.len() as int) =~= names);
    assert(components_of(dir).take(n) =~= components_of(dir));
}

} // verus!
