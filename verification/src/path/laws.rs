//! What the operations on paths keep.

use crate::bytes::{lemma_until, lemma_until_is, until, SLASH};
use crate::path::{
    component_bytes, components_of, dot, dot_dot, joined, located, located_from, located_head,
    normal_prefix, normal_step, normalized, part_component, rendered, Component, Located,
};
use vstd::prelude::*;

verus! {

/// A name that stands between two slashes and means itself.
pub open spec fn is_name(name: Seq<u8>) -> bool {
    name.len() > 0 && !name.contains(SLASH) && name != dot() && name != dot_dot()
}

/// Every name among the components is one.
pub open spec fn names_are_names(cs: Seq<Component<Seq<u8>>>) -> bool {
    forall|i: int|
        #![trigger cs[i]]
        0 <= i < cs.len() ==> (cs[i] matches Component::Normal(name) ==> is_name(name))
}

/// The root and a leading `.` stand first or nowhere.
pub open spec fn heads_come_first(cs: Seq<Component<Seq<u8>>>) -> bool {
    forall|i: int| #![trigger cs[i]] 0 < i < cs.len() ==> !(cs[i] is RootDir) && !(cs[i] is CurDir)
}

/// The shape of a normalized path: the current directory alone, or a root with names below it, or
/// any number of `..` with names below them.
pub open spec fn is_canonical(cs: Seq<Component<Seq<u8>>>) -> bool {
    &&& names_are_names(cs)
    &&& heads_come_first(cs)
    &&& cs.len() > 0
    &&& cs[0] is CurDir ==> cs.len() == 1
    &&& forall|i: int|
        #![trigger cs[i]]
        0 < i < cs.len() && cs[i] is ParentDir ==> cs[i - 1] is ParentDir
}

/// The shape that the normalization keeps while it goes along.
pub open spec fn is_partial(cs: Seq<Component<Seq<u8>>>) -> bool {
    cs.len() == 0 || (is_canonical(cs) && !(cs[0] is CurDir))
}

proof fn lemma_step_partial(path: Seq<Component<Seq<u8>>>, c: Component<Seq<u8>>, first: bool)
    requires
        is_partial(path),
        c matches Component::Normal(name) ==> is_name(name),
        c is RootDir ==> path.len() == 0,
    ensures
        is_partial(normal_step(path, c)),
{
    let next = normal_step(path, c);
    if c is ParentDir && path.len() > 0 && !(path.last() is Normal) && !(path[0] is RootDir) {
        assert(path.last() is ParentDir);
    }
    assert forall|i: int| 0 < i < next.len() && (#[trigger] next[i]) is ParentDir implies next[i - 1]
        is ParentDir by {
        if i < path.len() {
            assert(path[i] == next[i] && path[i - 1] == next[i - 1]);
        }
    }
    assert forall|i: int|
        0 < i < next.len() implies !((#[trigger] next[i]) is RootDir) && !(next[i] is CurDir) by {
        if i < path.len() {
            assert(path[i] == next[i]);
        }
    }
    assert forall|i: int| 0 <= i < next.len() implies ((#[trigger] next[i]) matches Component::Normal(
        name,
    ) ==> is_name(name)) by {
        if i < path.len() {
            assert(path[i] == next[i]);
        }
    }
    if next.len() > 0 && path.len() > 0 {
        assert(next[0] == path[0]);
    }
}

proof fn lemma_prefix_partial(cs: Seq<Component<Seq<u8>>>, n: int)
    requires
        names_are_names(cs),
        heads_come_first(cs),
        0 <= n <= cs.len(),
    ensures
        is_partial(normal_prefix(cs, n)),
        n <= 0 ==> normal_prefix(cs, n).len() == 0,
    decreases n,
{
    if n > 0 {
        lemma_prefix_partial(cs, n - 1);
        assert(cs[n - 1] == cs[n - 1]);
        lemma_step_partial(normal_prefix(cs, n - 1), cs[n - 1], n == 1);
    }
}

/// A normalized path has no `.`, and `..` only in front.
pub proof fn normalized_is_canonical(cs: Seq<Component<Seq<u8>>>)
    requires
        names_are_names(cs),
        heads_come_first(cs),
    ensures
        is_canonical(normalized(cs)),
{
    lemma_prefix_partial(cs, cs.len() as int);
}

proof fn lemma_canonical_prefix(cs: Seq<Component<Seq<u8>>>, n: int)
    requires
        is_canonical(cs),
        !(cs[0] is CurDir),
        0 <= n <= cs.len(),
    ensures
        normal_prefix(cs, n) == cs.take(n),
    decreases n,
{
    if n > 0 {
        lemma_canonical_prefix(cs, n - 1);
        let before = cs.take(n - 1);
        let c = cs[n - 1];
        if n - 1 > 0 {
            assert(before.last() == cs[n - 2]);
            assert(before[0] == cs[0]);
            if c is ParentDir {
                assert(cs[n - 2] is ParentDir);
                lemma_parents_in_front(cs, n - 1);
            }
        }
        assert(normal_step(before, c) =~= cs.take(n));
    } else {
        assert(cs.take(0) =~= Seq::<Component<Seq<u8>>>::empty());
    }
}

proof fn lemma_parents_in_front(cs: Seq<Component<Seq<u8>>>, i: int)
    requires
        is_canonical(cs),
        0 <= i < cs.len(),
        cs[i] is ParentDir,
    ensures
        cs[0] is ParentDir,
    decreases i,
{
    if i > 0 {
        lemma_parents_in_front(cs, i - 1);
    }
}

/// Normalizing a normalized path changes nothing.
pub proof fn normalization_is_idempotent(cs: Seq<Component<Seq<u8>>>)
    requires
        names_are_names(cs),
        heads_come_first(cs),
    ensures
        normalized(normalized(cs)) == normalized(cs),
{
    let n = normalized(cs);
    normalized_is_canonical(cs);
    if n[0] is CurDir {
        assert(n =~= seq![Component::<Seq<u8>>::CurDir]);
        reveal_with_fuel(normal_prefix, 2);
    } else {
        lemma_canonical_prefix(n, n.len() as int);
        assert(n.take(n.len() as int) =~= n);
    }
}

pub open spec fn part_located(part: Seq<u8>, start: int) -> Seq<Located<Seq<u8>>> {
    match part_component(part) {
        None => Seq::empty(),
        Some(component) => seq![
            Located { component, start: start as usize, end: (start + part.len()) as usize },
        ],
    }
}

pub proof fn lemma_until_append(b: Seq<u8>, tail: Seq<u8>)
    requires
        tail.len() == 0 || tail[0] == SLASH,
    ensures
        until(b + tail, SLASH) == until(b, SLASH),
{
    lemma_until(b, SLASH);
    let n = until(b, SLASH);
    let full = b + tail;
    assert forall|j: int| 0 <= j < n implies full[j] != SLASH by {
        assert(full[j] == b[j]);
    }
    lemma_until_is(full, SLASH, n);
}

proof fn lemma_append_part(b: Seq<u8>, part: Seq<u8>, at: int)
    requires
        0 <= at <= b.len(),
        !part.contains(SLASH),
        b.len() + 1 + part.len() <= usize::MAX,
    ensures
        located_from(b + seq![SLASH] + part, at) == located_from(b, at) + part_located(
            part,
            b.len() as int + 1,
        ),
    decreases b.len() - at,
{
    let full = b + seq![SLASH] + part;
    let last = part_located(part, b.len() as int + 1);
    lemma_until(b.skip(at), SLASH);
    let n = until(b.skip(at), SLASH);
    assert(full.skip(at) =~= b.skip(at) + (seq![SLASH] + part));
    lemma_until_append(b.skip(at), seq![SLASH] + part);
    let end = at + n;
    assert(full.subrange(at, end) =~= b.subrange(at, end));
    let head = part_located(b.subrange(at, end), at);
    if end < b.len() {
        lemma_append_part(b, part, end + 1);
        let inner = located_from(b, end + 1);
        assert(located_from(b, at) =~= head + inner);
        assert(located_from(full, at) =~= head + located_from(full, end + 1));
        assert(head + (inner + last) =~= (head + inner) + last);
    } else {
        let p = b.len() as int + 1;
        assert(full.skip(p) =~= part);
        assert forall|j: int| 0 <= j < part.len() implies part[j] != SLASH by {
            if part[j] == SLASH {
                assert(part.contains(SLASH));
            }
        }
        lemma_until_is(part, SLASH, part.len() as int);
        assert(full.subrange(p, full.len() as int) =~= part);
        assert(located_from(full, p) =~= last);
        assert(located_from(b, at) =~= head);
        assert(located_from(full, at) =~= head + last);
    }
}

proof fn lemma_head_append(b: Seq<u8>, tail: Seq<u8>)
    requires
        b.len() > 0,
        tail.len() > 0 && tail[0] == SLASH,
    ensures
        located_head(b + tail) == located_head(b),
{
    lemma_until(b, SLASH);
    lemma_until_append(b, tail);
    let n = until(b, SLASH);
    assert((b + tail).take(n) =~= b.take(n));
}

/// Joining one part to a path adds the part's component, unless the path is empty.
pub proof fn join_adds_component(b: Seq<u8>, part: Seq<u8>)
    requires
        part.len() > 0,
        !part.contains(SLASH),
        b.len() > 0 ==> b.last() != SLASH || b == seq![SLASH],
        b.len() > 0 || part != dot(),
        joined(b, part).len() <= usize::MAX,
    ensures
        part_component(part) matches Some(c) ==> components_of(joined(b, part)) == components_of(
            b,
        ).push(c),
{
    assert(part[0] != SLASH) by {
        if part[0] == SLASH {
            assert(part.contains(SLASH));
        }
    }
    if part_component(part) is None {
        return ;
    }
    let c = part_component(part)->0;
    let empty = Seq::<u8>::empty();
    if b.len() == 0 {
        assert(joined(b, part) =~= part);
        assert forall|j: int| 0 <= j < part.len() implies part[j] != SLASH by {
            if part[j] == SLASH {
                assert(part.contains(SLASH));
            }
        }
        lemma_until_is(part, SLASH, part.len() as int);
        assert(part.skip(0) =~= part);
        assert(part.subrange(0, part.len() as int) =~= part);
        assert(part.take(part.len() as int) =~= part);
        assert(located(part) =~= part_located(part, 0));
        assert(components_of(b) =~= Seq::<Component<Seq<u8>>>::empty()) by {
            assert(b.skip(0) =~= b);
            assert(b.take(0) =~= b);
        }
        assert(components_of(part) =~= seq![c]);
    } else if b.last() != SLASH {
        lemma_append_part(b, part, 0);
        let full = b + seq![SLASH] + part;
        assert(full =~= b + (seq![SLASH] + part));
        lemma_head_append(b, seq![SLASH] + part);
        assert(located(full) =~= located(b) + part_located(part, b.len() as int + 1));
        assert(components_of(full) =~= components_of(b).push(c));
    } else {
        lemma_append_part(empty, part, 0);
        let full = seq![SLASH] + part;
        assert(empty + seq![SLASH] + part =~= full);
        assert(joined(b, part) =~= full);
        assert(located_from(empty, 0) =~= Seq::<Located<Seq<u8>>>::empty()) by {
            assert(empty.skip(0) =~= empty);
        }
        let root = Located { component: Component::<Seq<u8>>::RootDir, start: 0, end: 1 };
        assert(located(full) =~= seq![root] + part_located(part, 1));
        lemma_root_alone(b);
        assert(components_of(full) =~= components_of(b).push(c));
    }
}

pub proof fn lemma_root_alone(b: Seq<u8>)
    requires
        b == seq![SLASH],
    ensures
        components_of(b) == seq![Component::<Seq<u8>>::RootDir],
{
    assert(b.skip(0) =~= b);
    lemma_until_is(b, SLASH, 0);
    assert(b.subrange(0, 0) =~= Seq::<u8>::empty());
    assert(b.skip(1) =~= Seq::<u8>::empty());
    assert(located_from(b, 1) =~= Seq::<Located<Seq<u8>>>::empty()) by {
        assert(b.subrange(1, 1) =~= Seq::<u8>::empty());
    }
    assert(located_from(b, 0) =~= Seq::<Located<Seq<u8>>>::empty());
    assert(components_of(b) =~= seq![Component::<Seq<u8>>::RootDir]);
}

proof fn lemma_name_component(name: Seq<u8>)
    requires
        is_name(name),
    ensures
        part_component(name) == Some(Component::Normal(name)),
        name[0] != SLASH,
        name.last() != SLASH,
{
    if name[0] == SLASH || name.last() == SLASH {
        assert(name.contains(SLASH));
    }
}

proof fn lemma_render_one(c: Component<Seq<u8>>)
    requires
        c matches Component::Normal(name) ==> is_name(name),
        component_bytes(c).len() <= usize::MAX,
    ensures
        components_of(component_bytes(c)) == seq![c],
        component_bytes(c).len() > 0,
        component_bytes(c).last() != SLASH || component_bytes(c) == seq![SLASH],
{
    let empty = Seq::<u8>::empty();
    let b = component_bytes(c);
    match c {
        Component::RootDir => {
            lemma_root_alone(b);
        },
        Component::CurDir => {
            lemma_until_is(b, SLASH, 1);
            assert(b.skip(0) =~= b);
            assert(b.subrange(0, 1) =~= dot());
            assert(b.take(1) =~= dot());
            assert(located_from(b, 0) =~= Seq::<Located<Seq<u8>>>::empty());
            assert(components_of(b) =~= seq![c]);
        },
        Component::ParentDir => {
            assert(dot_dot().len() != dot().len());
            lemma_empty_components();
            assert(joined(empty, b) =~= b);
            join_adds_component(empty, b);
            assert(components_of(b) =~= seq![c]);
        },
        Component::Normal(name) => {
            lemma_name_component(name);
            lemma_empty_components();
            assert(joined(empty, b) =~= b);
            join_adds_component(empty, b);
            assert(components_of(b) =~= seq![c]);
        },
    }
}

proof fn lemma_canonical_front(cs: Seq<Component<Seq<u8>>>)
    requires
        is_canonical(cs),
        cs.len() > 1,
    ensures
        is_canonical(cs.drop_last()),
        cs.last() is ParentDir || cs.last() is Normal,
        cs.last() matches Component::Normal(name) ==> is_name(name),
{
    let front = cs.drop_last();
    let k = cs.len() - 1;
    assert(cs[k] == cs.last());
    assert forall|i: int| 0 <= i < front.len() implies ((
    #[trigger] front[i]) matches Component::Normal(name) ==> is_name(name)) by {
        assert(front[i] == cs[i]);
    }
    assert forall|i: int| 0 < i < front.len() implies !((#[trigger] front[i]) is RootDir) && !(
    front[i] is CurDir) by {
        assert(front[i] == cs[i]);
    }
    assert forall|i: int|
        0 < i < front.len() && (#[trigger] front[i]) is ParentDir implies front[i - 1]
        is ParentDir by {
        assert(front[i] == cs[i] && front[i - 1] == cs[i - 1]);
    }
}

/// Rendering a normalized path gives a path with just these components.
pub proof fn rendering_keeps_components(cs: Seq<Component<Seq<u8>>>)
    requires
        is_canonical(cs),
        rendered(cs).len() <= usize::MAX,
    ensures
        components_of(rendered(cs)) == cs,
        rendered(cs).len() > 0,
        rendered(cs).last() != SLASH || rendered(cs) == seq![SLASH],
    decreases cs.len(),
{
    let front = cs.drop_last();
    let part = component_bytes(cs.last());
    if cs.len() == 1 {
        assert(front =~= Seq::<Component<Seq<u8>>>::empty());
        assert(rendered(front) =~= Seq::<u8>::empty());
        assert(cs[0] == cs.last());
        assert(rendered(cs) =~= part);
        lemma_render_one(cs[0]);
        assert(cs =~= seq![cs[0]]);
    } else {
        lemma_canonical_front(cs);
        let b = rendered(front);
        assert(rendered(cs) == joined(b, part));
        assert(part.len() > 0 && !part.contains(SLASH) && part_component(part) == Some(cs.last())
            && part[0] != SLASH && part.last() != SLASH) by {
            match cs.last() {
                Component::Normal(name) => {
                    lemma_name_component(name);
                },
                _ => {
                    assert(dot_dot().len() != dot().len());
                },
            }
        }
        assert(b.len() <= rendered(cs).len());
        rendering_keeps_components(front);
        join_adds_component(b, part);
        assert(front.push(cs.last()) =~= cs);
        assert(rendered(cs).last() == part.last());
    }
}

proof fn lemma_empty_components()
    ensures
        components_of(Seq::<u8>::empty()) == Seq::<Component<Seq<u8>>>::empty(),
{
    let b = Seq::<u8>::empty();
    assert(b.skip(0) =~= b);
    assert(b.take(0) =~= b);
    assert(components_of(b) =~= Seq::<Component<Seq<u8>>>::empty());
}

proof fn lemma_from_shape(b: Seq<u8>, at: int)
    requires
        0 <= at <= b.len(),
    ensures
        forall|i: int|
            0 <= i < located_from(b, at).len() ==> {
                let c = (#[trigger] located_from(b, at)[i]).component;
                !(c is RootDir) && !(c is CurDir) && (c matches Component::Normal(name) ==> is_name(
                    name,
                ))
            },
    decreases b.len() - at,
{
    lemma_until(b.skip(at), SLASH);
    let end = at + until(b.skip(at), SLASH);
    let part = b.subrange(at, end);
    assert(!part.contains(SLASH)) by {
        if part.contains(SLASH) {
            let j = choose|j: int| 0 <= j < part.len() && part[j] == SLASH;
            assert(b.skip(at)[j] == SLASH);
        }
    }
    let head = match part_component(part) {
        None => Seq::empty(),
        Some(component) => seq![Located { component, start: at as usize, end: end as usize }],
    };
    if end < b.len() {
        lemma_from_shape(b, end + 1);
        let tail = located_from(b, end + 1);
        assert(located_from(b, at) =~= head + tail);
        assert forall|i: int| 0 <= i < located_from(b, at).len() implies ({
            let c = (#[trigger] located_from(b, at)[i]).component;
            !(c is RootDir) && !(c is CurDir) && (c matches Component::Normal(name) ==> is_name(
                name,
            ))
        }) by {
            if i >= head.len() {
                assert(located_from(b, at)[i] == tail[i - head.len()]);
            }
        }
    } else {
        assert(located_from(b, at) =~= head);
    }
}

/// The components of any path: names are names, and the root or a leading `.` stands first.
pub proof fn components_are_well_shaped(b: Seq<u8>)
    ensures
        names_are_names(components_of(b)),
        heads_come_first(components_of(b)),
{
    let cs = components_of(b);
    let head = located_head(b);
    lemma_from_shape(b, 0);
    assert forall|i: int| 0 <= i < cs.len() implies ((#[trigger] cs[i]) matches Component::Normal(
        name,
    ) ==> is_name(name)) by {
        if i >= head.len() {
            assert(located(b)[i] == located_from(b, 0)[i - head.len()]);
        } else {
            assert(located(b)[i] == head[i]);
        }
    }
    assert forall|i: int| 0 < i < cs.len() implies !((#[trigger] cs[i]) is RootDir) && !(cs[i]
        is CurDir) by {
        assert(located(b)[i] == located_from(b, 0)[i - head.len()]);
    }
}

/// Normalizing a path twice gives the same bytes as normalizing it once.
pub proof fn normalize_lexically_is_idempotent(b: Seq<u8>)
    requires
        rendered(normalized(components_of(b))).len() <= usize::MAX,
    ensures
        ({
            let once = rendered(normalized(components_of(b)));
            rendered(normalized(components_of(once))) == once
        }),
{
    let cs = components_of(b);
    components_are_well_shaped(b);
    normalized_is_canonical(cs);
    rendering_keeps_components(normalized(cs));
    normalization_is_idempotent(cs);
}

} // verus!
