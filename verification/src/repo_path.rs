//! Paths inside a repository.

use crate::bytes::{
    append, append_text, contains_byte, copy_of, first, from, has_prefix, is_text, lemma_until,
    lemma_until_is, memchr, starts_with, text, until, NUL, SLASH,
};
use crate::path::{
    component_bytes, components, components_of, components_view, lemma_dots, Component, OsPath,
};
use vstd::prelude::*;
use vstd::string::*;

verus! {

#[derive(Debug, Clone, Copy, PartialEq, Eq, Structural)]
pub enum RepoPathErrorKind {
    Empty,
    LeadingSlash,
    TrailingSlash,
    EmptyComponent,
    ReservedComponent,
    ContainsNul,
}

/// A byte string that is no path inside a repository, and why.
#[derive(Debug, Clone, PartialEq, Eq)]
pub struct RepoPathError {
    pub path: Vec<u8>,
    pub kind: RepoPathErrorKind,
}

/// The parts of `b` between the separators; there is always at least one.
pub open spec fn split(b: Seq<u8>, separator: u8) -> Seq<Seq<u8>>
    decreases b.len(),
{
    let n = until(b, separator);
    if 0 <= n < b.len() {
        seq![b.take(n)] + split(b.skip(n + 1), separator)
    } else {
        seq![b]
    }
}

/// `.`, `..` and the directory of the metadata.
pub open spec fn is_reserved(component: Seq<u8>) -> bool {
    component == text(".") || component == text("..") || component == text(".lit")
}

pub open spec fn component_error(component: Seq<u8>) -> Option<RepoPathErrorKind> {
    if component.len() == 0 {
        Some(RepoPathErrorKind::EmptyComponent)
    } else if is_reserved(component) {
        Some(RepoPathErrorKind::ReservedComponent)
    } else if component.contains(NUL) {
        Some(RepoPathErrorKind::ContainsNul)
    } else {
        None
    }
}

/// The error of the first component that has one.
pub open spec fn first_component_error(components: Seq<Seq<u8>>) -> Option<RepoPathErrorKind>
    decreases components.len(),
{
    if components.len() == 0 {
        None
    } else {
        match component_error(components[0]) {
            Some(kind) => Some(kind),
            None => first_component_error(components.drop_first()),
        }
    }
}

/// Why a byte string is no path inside a repository. Such a path is relative to the root, so it
/// starts with no slash; it ends with none; and each of its components is a name that a tracked
/// file can have.
pub open spec fn path_error(b: Seq<u8>) -> Option<RepoPathErrorKind> {
    if b.len() == 0 {
        Some(RepoPathErrorKind::Empty)
    } else if b[0] == SLASH {
        Some(RepoPathErrorKind::LeadingSlash)
    } else if b.last() == SLASH {
        Some(RepoPathErrorKind::TrailingSlash)
    } else {
        first_component_error(split(b, SLASH))
    }
}

/// `child` lies in the directory `parent`, at any depth. A common prefix is not enough: `lib` is
/// no parent of `library/doc`.
pub open spec fn spec_is_parent_path(parent: Seq<u8>, child: Seq<u8>) -> bool {
    child.len() > parent.len() && has_prefix(child, parent) && child[parent.len() as int] == SLASH
}

/// `component` below the directory `path`.
pub open spec fn path_joined(path: Seq<u8>, component: Seq<u8>) -> Seq<u8> {
    if path.len() == 0 {
        component
    } else {
        path + seq![SLASH] + component
    }
}

pub open spec fn byte_strings(v: Seq<&[u8]>) -> Seq<Seq<u8>> {
    Seq::new(v.len(), |i: int| v[i]@)
}

/// The parts of `b` between the separators.
pub fn split_bytes<'a>(b: &'a [u8], separator: u8) -> (r: Vec<&'a [u8]>)
    ensures
        byte_strings(r@) == split(b@, separator),
{
    let mut out: Vec<&'a [u8]> = Vec::new();
    let mut at: usize = 0;
    assert(b@.skip(0) =~= b@);
    assert(byte_strings(out@) + split(b@, separator) =~= split(b@, separator));
    loop
        invariant
            at <= b.len(),
            byte_strings(out@) + split(b@.skip(at as int), separator) == split(b@, separator),
        decreases b@.len() - at,
    {
        let rest = from(b, at);
        let ghost done = byte_strings(out@);
        match memchr(separator, rest) {
            Some(n) => {
                let part = first(rest, n);
                out.push(part);
                proof {
                    lemma_until_is(rest@, separator, n as int);
                    assert(rest@.skip(n + 1) =~= b@.skip(at + n + 1));
                    assert(byte_strings(out@) =~= done.push(part@));
                    let tail = split(b@.skip(at + n + 1), separator);
                    assert(done + (seq![part@] + tail) =~= done.push(part@) + tail);
                }
                at = at + n + 1;
            },
            None => {
                out.push(rest);
                proof {
                    lemma_until_is(rest@, separator, rest@.len() as int);
                    assert(byte_strings(out@) =~= done + seq![rest@]);
                }
                return out;
            },
        }
    }
}

fn check_component(component: &[u8]) -> (r: Option<RepoPathErrorKind>)
    ensures
        r == component_error(component@),
{
    if component.len() == 0 {
        Some(RepoPathErrorKind::EmptyComponent)
    } else if is_text(component, ".") || is_text(component, "..") || is_text(component, ".lit") {
        Some(RepoPathErrorKind::ReservedComponent)
    } else if contains_byte(component, NUL) {
        Some(RepoPathErrorKind::ContainsNul)
    } else {
        None
    }
}

proof fn lemma_first_error(components: Seq<Seq<u8>>, i: int)
    requires
        0 <= i <= components.len(),
        forall|j: int| 0 <= j < i ==> component_error(#[trigger] components[j]) is None,
    ensures
        first_component_error(components) == (if i < components.len() && component_error(
            components[i],
        ) is Some {
            component_error(components[i])
        } else {
            first_component_error(components.skip(i))
        }),
    decreases i,
{
    if i == 0 {
        assert(components.skip(0) =~= components);
    } else {
        let rest = components.drop_first();
        assert forall|j: int| 0 <= j < i - 1 implies component_error(#[trigger] rest[j]) is None by {
            assert(rest[j] == components[j + 1]);
        }
        lemma_first_error(rest, i - 1);
        assert(component_error(components[0]) is None);
        assert(rest.skip(i - 1) =~= components.skip(i));
    }
}

/// Is this a path inside a repository?
pub fn validate_path(path: &[u8]) -> (r: Result<(), RepoPathErrorKind>)
    ensures
        match path_error(path@) {
            None => r is Ok,
            Some(kind) => r == Err::<(), RepoPathErrorKind>(kind),
        },
{
    if path.len() == 0 {
        return Err(RepoPathErrorKind::Empty);
    }
    if path[0] == SLASH {
        return Err(RepoPathErrorKind::LeadingSlash);
    }
    if path[path.len() - 1] == SLASH {
        return Err(RepoPathErrorKind::TrailingSlash);
    }
    let parts = split_bytes(path, SLASH);
    let ghost all = byte_strings(parts@);
    let mut i: usize = 0;
    while i < parts.len()
        invariant
            i <= parts@.len(),
            all == byte_strings(parts@),
            all == split(path@, SLASH),
            path@.len() > 0,
            path@[0] != SLASH,
            path@.last() != SLASH,
            forall|j: int| 0 <= j < i ==> component_error(#[trigger] all[j]) is None,
        decreases parts@.len() - i,
    {
        match check_component(parts[i]) {
            Some(kind) => {
                proof {
                    assert(all[i as int] == parts@[i as int]@);
                    lemma_first_error(all, i as int);
                }
                return Err(kind);
            },
            None => {
                assert(all[i as int] == parts@[i as int]@);
            },
        }
        i = i + 1;
    }
    proof {
        lemma_first_error(all, i as int);
        assert(all.skip(i as int) =~= Seq::<Seq<u8>>::empty());
    }
    Ok(())
}

/// Is this a path inside a repository? The error carries the bytes.
pub fn check_bytes(bytes: &[u8]) -> (r: Result<(), RepoPathError>)
    ensures
        match path_error(bytes@) {
            None => r is Ok,
            Some(kind) => r matches Err(e) && e.path@ == bytes@ && e.kind == kind,
        },
{
    match validate_path(bytes) {
        Ok(()) => Ok(()),
        Err(kind) => Err(RepoPathError { path: copy_of(bytes), kind }),
    }
}

/// Does `child` lie in the directory `parent`?
pub fn is_parent_path(parent: &[u8], child: &[u8]) -> (r: bool)
    ensures
        r == spec_is_parent_path(parent@, child@),
{
    child.len() > parent.len() && starts_with(child, parent) && child[parent.len()] == SLASH
}

/// The bytes of the components of a path joined by slashes, as `path_to_bytes` gives them.
pub open spec fn slash_joined(cs: Seq<Component<Seq<u8>>>) -> Seq<u8>
    decreases cs.len(),
{
    if cs.len() == 0 {
        Seq::empty()
    } else if cs.len() == 1 {
        component_bytes(cs[0])
    } else {
        slash_joined(cs.drop_last()) + seq![SLASH] + component_bytes(cs.last())
    }
}

/// The components of a path joined by slashes, whatever stood between them.
pub fn path_to_bytes(path: &OsPath) -> (r: Vec<u8>)
    ensures
        r@ == slash_joined(components_of(path@)),
{
    let cs = path.components();
    let ghost all = components_view(cs@);
    let mut bytes: Vec<u8> = Vec::new();
    let mut i: usize = 0;
    assert(all.take(0) =~= Seq::<Component<Seq<u8>>>::empty());
    while i < cs.len()
        invariant
            i <= cs@.len(),
            all == components_view(cs@),
            bytes@ == slash_joined(all.take(i as int)),
        decreases cs@.len() - i,
    {
        proof {
            let next = all.take(i + 1);
            assert(next.drop_last() =~= all.take(i as int));
            assert(next.last() == cs@[i as int]@);
            lemma_dots();
        }
        let ghost before = bytes@;
        if i > 0 {
            bytes.push(SLASH);
        }
        match cs[i] {
            Component::RootDir => {
                bytes.push(SLASH);
            },
            Component::CurDir => {
                append_text(&mut bytes, ".");
            },
            Component::ParentDir => {
                append_text(&mut bytes, "..");
            },
            Component::Normal(name) => {
                append(&mut bytes, name);
            },
        }
        assert(bytes@ =~= slash_joined(all.take(i + 1)));
        i = i + 1;
    }
    assert(all.take(i as int) =~= all);
    bytes
}

/// A path inside a repository, relative to its root, with `/` between the components on every
/// platform. The empty path is the root itself. No encoding is asked of the bytes.
#[derive(Debug, Clone, PartialEq, Eq)]
pub struct RepoPath {
    inner: Vec<u8>,
}

impl View for RepoPath {
    type V = Seq<u8>;

    closed spec fn view(&self) -> Seq<u8> {
        self.inner@
    }
}

/// The root itself or a path below it.
pub open spec fn is_repo_path(b: Seq<u8>) -> bool {
    b.len() == 0 || path_error(b) is None
}

impl RepoPath {
    pub open spec fn wf(&self) -> bool {
        is_repo_path(self@)
    }

    /// The root.
    pub fn new() -> (r: Self)
        ensures
            r@ == Seq::<u8>::empty(),
            r.wf(),
    {
        Self { inner: Vec::new() }
    }

    pub fn from_bytes(bytes: &[u8]) -> (r: Result<Self, RepoPathError>)
        ensures
            match path_error(bytes@) {
                None => r matches Ok(p) && p@ == bytes@ && p.wf(),
                Some(kind) => r matches Err(e) && e.path@ == bytes@ && e.kind == kind,
            },
    {
        match check_bytes(bytes) {
            Ok(()) => Ok(RepoPath { inner: copy_of(bytes) }),
            Err(err) => Err(err),
        }
    }

    /// `path` below this directory; `path` has to be a path itself.
    pub fn join(&self, path: &[u8]) -> (r: Result<Self, RepoPathError>)
        requires
            self.wf(),
        ensures
            match path_error(path@) {
                None => r matches Ok(p) && p@ == path_joined(self@, path@) && p.wf(),
                Some(kind) => r matches Err(e) && e.path@ == path@ && e.kind == kind,
            },
    {
        match check_bytes(path) {
            Ok(()) => Ok(self.join_unchecked(path)),
            Err(err) => Err(err),
        }
    }

    /// `path` below this directory, taken as it is.
    pub fn join_unchecked(&self, path: &[u8]) -> (r: Self)
        ensures
            r@ == path_joined(self@, path@),
            self.wf() && path_error(path@) is None ==> r.wf(),
    {
        let mut inner: Vec<u8> = copy_of(self.inner.as_slice());
        if self.inner.len() > 0 {
            inner.push(SLASH);
        }
        append(&mut inner, path);
        proof {
            assert(inner@ =~= path_joined(self@, path@));
            if self.wf() && path_error(path@) is None && self@.len() > 0 {
                lemma_joined_is_path(self@, path@);
            }
        }
        RepoPath { inner }
    }

    pub fn len(&self) -> (r: usize)
        ensures
            r == self@.len(),
    {
        self.inner.len()
    }

    pub fn is_empty(&self) -> (r: bool)
        ensures
            r == (self@.len() == 0),
    {
        self.inner.len() == 0
    }

    pub fn as_bytes(&self) -> (r: &[u8])
        ensures
            r@ == self@,
    {
        self.inner.as_slice()
    }

    /// A copy of the path.
    pub fn copied(&self) -> (r: Self)
        ensures
            r@ == self@,
    {
        RepoPath { inner: copy_of(self.inner.as_slice()) }
    }

    /// Does `other` lie in this directory?
    pub fn is_parent_of(&self, other: &RepoPath) -> (r: bool)
        ensures
            r == spec_is_parent_path(self@, other@),
    {
        is_parent_path(self.as_bytes(), other.as_bytes())
    }

    /// The names between the slashes.
    pub fn components<'a>(&'a self) -> (r: Vec<&'a [u8]>)
        ensures
            byte_strings(r@) == split(self@, SLASH),
    {
        split_bytes(self.inner.as_slice(), SLASH)
    }
}

proof fn lemma_split_append(a: Seq<u8>, b: Seq<u8>)
    ensures
        split(a + seq![SLASH] + b, SLASH) == split(a, SLASH) + split(b, SLASH),
    decreases a.len(),
{
    let full = a + seq![SLASH] + b;
    lemma_until(a, SLASH);
    let n = until(a, SLASH);
    assert forall|j: int| 0 <= j < n implies full[j] != SLASH by {
        assert(full[j] == a[j]);
    }
    lemma_until_is(full, SLASH, n);
    assert(full.take(n) =~= a.take(n));
    if n < a.len() {
        let rest = a.skip(n + 1);
        assert(full.skip(n + 1) =~= rest + seq![SLASH] + b);
        lemma_split_append(rest, b);
        assert(seq![a.take(n)] + (split(rest, SLASH) + split(b, SLASH)) =~= (seq![a.take(n)]
            + split(rest, SLASH)) + split(b, SLASH));
    } else {
        assert(a.take(n) =~= a);
        assert(full.skip(n + 1) =~= b);
    }
}

proof fn lemma_first_error_append(a: Seq<Seq<u8>>, b: Seq<Seq<u8>>)
    ensures
        first_component_error(a + b) == (match first_component_error(a) {
            Some(kind) => Some(kind),
            None => first_component_error(b),
        }),
    decreases a.len(),
{
    if a.len() == 0 {
        assert(a + b =~= b);
    } else {
        assert((a + b).drop_first() =~= a.drop_first() + b);
        lemma_first_error_append(a.drop_first(), b);
    }
}

proof fn lemma_joined_is_path(a: Seq<u8>, b: Seq<u8>)
    requires
        path_error(a) is None,
        path_error(b) is None,
    ensures
        path_error(a + seq![SLASH] + b) is None,
{
    lemma_split_append(a, b);
    lemma_first_error_append(split(a, SLASH), split(b, SLASH));
    let full = a + seq![SLASH] + b;
    assert(full[0] == a[0]);
    assert(full.last() == b.last());
}

/// A path below a path of the repository is one too.
pub proof fn joining_keeps_paths(a: Seq<u8>, b: Seq<u8>)
    requires
        is_repo_path(a),
        path_error(b) is None,
    ensures
        path_error(path_joined(a, b)) is None,
        a.len() > 0 ==> spec_is_parent_path(a, path_joined(a, b)),
        split(path_joined(a, b), SLASH) == (if a.len() == 0 {
            split(b, SLASH)
        } else {
            split(a, SLASH) + split(b, SLASH)
        }),
{
    if a.len() > 0 {
        lemma_joined_is_path(a, b);
        lemma_split_append(a, b);
        let full = path_joined(a, b);
        assert(full.take(a.len() as int) =~= a);
    }
}

/// The parts of a byte string are free of the separator, and the byte string is the parts with a
/// separator between each two.
pub proof fn splitting_is_lossless(b: Seq<u8>, separator: u8)
    ensures
        split(b, separator).len() > 0,
        forall|i: int|
            0 <= i < split(b, separator).len() ==> !(#[trigger] split(b, separator)[i]).contains(
                separator,
            ),
        b == (if split(b, separator).len() == 1 {
            split(b, separator)[0]
        } else {
            split(b, separator)[0] + seq![separator] + b.skip(
                split(b, separator)[0].len() as int + 1,
            )
        }),
        split(b, separator).len() > 1 ==> split(b, separator).drop_first() == split(
            b.skip(split(b, separator)[0].len() as int + 1),
            separator,
        ),
    decreases b.len(),
{
    lemma_until(b, separator);
    let n = until(b, separator);
    let parts = split(b, separator);
    if n < b.len() {
        let rest = b.skip(n + 1);
        splitting_is_lossless(rest, separator);
        let head = b.take(n);
        assert(parts == seq![head] + split(rest, separator));
        assert(parts.drop_first() =~= split(rest, separator));
        assert(b =~= head + seq![separator] + rest);
        assert forall|i: int| 0 <= i < parts.len() implies !(#[trigger] parts[i]).contains(
            separator,
        ) by {
            if i > 0 {
                assert(parts[i] == split(rest, separator)[i - 1]);
            } else if head.contains(separator) {
                let j = choose|j: int| 0 <= j < head.len() && head[j] == separator;
                assert(b[j] == separator);
            }
        }
    } else {
        assert(parts == seq![b]);
        if b.contains(separator) {
            let j = choose|j: int| 0 <= j < b.len() && b[j] == separator;
            assert(b[j] == separator);
        }
    }
}

/// A path inside a repository is made of names between slashes: none is empty, `.`, `..` or `.lit`,
/// and none holds a NUL.
pub proof fn paths_are_made_of_names(b: Seq<u8>)
    ensures
        path_error(b) is None <==> forall|i: int|
            0 <= i < split(b, 0x2f).len() ==> (#[trigger] split(b, 0x2f)[i]).len() > 0 && split(
                b,
                0x2f,
            )[i] != text(".") && split(b, 0x2f)[i] != text("..") && split(b, 0x2f)[i] != text(
                ".lit",
            ) && !split(b, 0x2f)[i].contains(0),
        path_error(b) == Some(RepoPathErrorKind::Empty) <==> b.len() == 0,
        path_error(b) == Some(RepoPathErrorKind::LeadingSlash) <==> b.len() > 0 && b[0] == 0x2f,
        path_error(b) == Some(RepoPathErrorKind::TrailingSlash) <==> b.len() > 0 && b[0] != 0x2f
            && b.last() == 0x2f,
{
    let parts = split(b, 0x2f);
    splitting_is_lossless(b, 0x2f);
    lemma_no_component_error(parts);
    lemma_kinds_of_errors(parts);
    if b.len() > 0 && b[0] == 0x2f {
        lemma_until_is(b, 0x2f, 0);
        assert(parts[0].len() == 0) by {
            lemma_until(b, 0x2f);
            assert(parts[0] =~= b.take(0));
        }
    } else if b.len() > 0 && b.last() == 0x2f {
        lemma_last_part(b);
        let last = parts.len() - 1;
        assert(parts[last].len() == 0);
    } else if b.len() == 0 {
        assert(parts[0].len() == 0);
    }
}

proof fn lemma_last_part(b: Seq<u8>)
    requires
        b.len() > 0,
        b.last() == 0x2f,
    ensures
        split(b, 0x2f).last().len() == 0,
    decreases b.len(),
{
    splitting_is_lossless(b, 0x2f);
    lemma_until(b, 0x2f);
    let n = until(b, 0x2f);
    assert(n < b.len());
    let rest = b.skip(n + 1);
    assert(split(b, 0x2f) == seq![b.take(n)] + split(rest, 0x2f));
    splitting_is_lossless(rest, 0x2f);
    if rest.len() > 0 {
        assert(rest.last() == b.last());
        lemma_last_part(rest);
    } else {
        assert(split(rest, 0x2f) == seq![rest]);
    }
    assert(split(b, 0x2f).last() == split(rest, 0x2f).last());
}

proof fn lemma_no_component_error(components: Seq<Seq<u8>>)
    ensures
        first_component_error(components) is None <==> forall|i: int|
            0 <= i < components.len() ==> (#[trigger] components[i]).len() > 0 && components[i]
                != text(".") && components[i] != text("..") && components[i] != text(".lit")
                && !components[i].contains(0),
    decreases components.len(),
{
    if components.len() > 0 {
        let rest = components.drop_first();
        lemma_no_component_error(rest);
        if first_component_error(components) is None {
            assert forall|i: int| 0 <= i < components.len() implies (#[trigger] components[i]).len()
                > 0 && components[i] != text(".") && components[i] != text("..") && components[i]
                != text(".lit") && !components[i].contains(0) by {
                if i > 0 {
                    assert(components[i] == rest[i - 1]);
                }
            }
        }
        if forall|i: int|
            0 <= i < components.len() ==> (#[trigger] components[i]).len() > 0 && components[i]
                != text(".") && components[i] != text("..") && components[i] != text(".lit")
                && !components[i].contains(0) {
            assert(components[0].len() > 0);
            assert forall|i: int| 0 <= i < rest.len() implies (#[trigger] rest[i]).len() > 0
                && rest[i] != text(".") && rest[i] != text("..") && rest[i] != text(".lit")
                && !rest[i].contains(0) by {
                assert(rest[i] == components[i + 1]);
            }
        }
    }
}

proof fn lemma_kinds_of_errors(components: Seq<Seq<u8>>)
    ensures
        first_component_error(components) matches Some(kind) ==> kind
            == RepoPathErrorKind::EmptyComponent || kind == RepoPathErrorKind::ReservedComponent
            || kind == RepoPathErrorKind::ContainsNul,
    decreases components.len(),
{
    if components.len() > 0 {
        lemma_kinds_of_errors(components.drop_first());
    }
}

} // verus!
