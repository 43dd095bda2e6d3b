//! File system paths as byte strings, and what they mean lexically.

use crate::bytes::{
    append, contains_byte, copy_of, first, from, lemma_ascii_text, lemma_until, lemma_until_is,
    memchr, same_bytes, text, until, DOT, NUL, SLASH,
};
use vstd::prelude::*;
use vstd::slice::slice_subrange;
use vstd::string::*;

pub mod ancestry;
pub mod laws;

verus! {

/// One component of a path.
#[derive(Debug, Clone, Copy, PartialEq, Eq)]
pub enum Component<B> {
    /// The leading `/` of an absolute path.
    RootDir,
    /// A leading `.` of a relative path.
    CurDir,
    /// `..`
    ParentDir,
    Normal(B),
}

/// A component and the bytes of the path that it takes.
#[derive(Debug, Clone, Copy, PartialEq, Eq)]
pub struct Located<B> {
    pub component: Component<B>,
    pub start: usize,
    pub end: usize,
}

impl<'a> View for Component<&'a [u8]> {
    type V = Component<Seq<u8>>;

    open spec fn view(&self) -> Component<Seq<u8>> {
        match *self {
            Component::RootDir => Component::RootDir,
            Component::CurDir => Component::CurDir,
            Component::ParentDir => Component::ParentDir,
            Component::Normal(name) => Component::Normal(name@),
        }
    }
}

impl<'a> View for Located<&'a [u8]> {
    type V = Located<Seq<u8>>;

    open spec fn view(&self) -> Located<Seq<u8>> {
        Located { component: self.component@, start: self.start, end: self.end }
    }
}

pub open spec fn dot() -> Seq<u8> {
    seq![DOT]
}

pub open spec fn dot_dot() -> Seq<u8> {
    seq![DOT, DOT]
}

/// The component that the part of a path between two slashes stands for. Empty parts and `.` stand
/// for none.
pub open spec fn part_component(part: Seq<u8>) -> Option<Component<Seq<u8>>> {
    if part.len() == 0 || part == dot() {
        None
    } else if part == dot_dot() {
        Some(Component::ParentDir)
    } else {
        Some(Component::Normal(part))
    }
}

/// The components of the parts of `b` from `at` on.
pub open spec fn located_from(b: Seq<u8>, at: int) -> Seq<Located<Seq<u8>>>
    decreases b.len() - at,
{
    if at > b.len() || at < 0 {
        Seq::empty()
    } else {
        let end = at + until(b.skip(at), SLASH);
        let head = match part_component(b.subrange(at, end)) {
            None => Seq::empty(),
            Some(component) => seq![Located { component, start: at as usize, end: end as usize }],
        };
        if at <= end < b.len() {
            head + located_from(b, end + 1)
        } else {
            head
        }
    }
}

/// The component in front of the first part: the root of an absolute path, or a `.` that a
/// relative path starts with.
pub open spec fn located_head(b: Seq<u8>) -> Seq<Located<Seq<u8>>> {
    if b.len() > 0 && b[0] == SLASH {
        seq![Located { component: Component::RootDir, start: 0, end: 1 }]
    } else if b.take(until(b, SLASH)) == dot() {
        seq![Located { component: Component::CurDir, start: 0, end: 1 }]
    } else {
        Seq::empty()
    }
}

/// The components of a path with the bytes that each takes.
pub open spec fn located(b: Seq<u8>) -> Seq<Located<Seq<u8>>> {
    located_head(b) + located_from(b, 0)
}

pub open spec fn unlocated(s: Seq<Located<Seq<u8>>>) -> Seq<Component<Seq<u8>>> {
    Seq::new(s.len(), |i: int| s[i].component)
}

/// The components of a path.
pub open spec fn components_of(b: Seq<u8>) -> Seq<Component<Seq<u8>>> {
    unlocated(located(b))
}

pub open spec fn spec_is_absolute(b: Seq<u8>) -> bool {
    b.len() > 0 && b[0] == SLASH
}

/// `path` seen from the directory `base`. An absolute path stands for itself.
pub open spec fn joined(base: Seq<u8>, path: Seq<u8>) -> Seq<u8> {
    if spec_is_absolute(path) {
        path
    } else if base.len() > 0 && base.last() != SLASH {
        base + seq![SLASH] + path
    } else {
        base + path
    }
}

/// The path without its last component. The root and the empty path have no parent.
pub open spec fn parent_of(b: Seq<u8>) -> Option<Seq<u8>> {
    let parts = located(b);
    let n = parts.len() as int;
    if n == 0 || parts[n - 1].component == Component::<Seq<u8>>::RootDir {
        None
    } else if n == 1 {
        Some(Seq::empty())
    } else {
        Some(b.take(parts[n - 2].end as int))
    }
}

/// What is left of a path behind the components of `base`, which the path has to start with.
pub open spec fn stripped(b: Seq<u8>, base: Seq<u8>) -> Option<Seq<u8>> {
    let parts = located(b);
    let n = components_of(base).len() as int;
    if n > parts.len() || components_of(b).take(n) != components_of(base) {
        None
    } else if n == parts.len() {
        Some(Seq::empty())
    } else {
        Some(b.subrange(parts[n].start as int, parts[parts.len() - 1].end as int))
    }
}

/// One step of the lexical normalization: `..` takes back the name before it, means nothing at
/// the root, and is kept where there is nothing to take back.
pub open spec fn normal_step(
    path: Seq<Component<Seq<u8>>>,
    c: Component<Seq<u8>>,
) -> Seq<Component<Seq<u8>>> {
    match c {
        Component::RootDir => seq![Component::RootDir],
        Component::CurDir => path,
        Component::ParentDir => if path.len() > 0 && path.last() is Normal {
            path.drop_last()
        } else if path.len() > 0 && path[0] is RootDir {
            path
        } else {
            path.push(Component::ParentDir)
        },
        Component::Normal(name) => path.push(c),
    }
}

/// The components of a path after the first `n` steps of the lexical normalization.
pub open spec fn normal_prefix(cs: Seq<Component<Seq<u8>>>, n: int) -> Seq<Component<Seq<u8>>>
    decreases n,
{
    if n <= 0 {
        Seq::empty()
    } else {
        normal_step(normal_prefix(cs, n - 1), cs[n - 1])
    }
}

/// The components of a path without `.` and without a `..` that a name before it answers. The
/// path of no components at all is the current directory.
pub open spec fn normalized(cs: Seq<Component<Seq<u8>>>) -> Seq<Component<Seq<u8>>> {
    let all = normal_prefix(cs, cs.len() as int);
    if all.len() == 0 {
        seq![Component::CurDir]
    } else {
        all
    }
}

/// The bytes of a component.
pub open spec fn component_bytes(c: Component<Seq<u8>>) -> Seq<u8> {
    match c {
        Component::RootDir => seq![SLASH],
        Component::CurDir => dot(),
        Component::ParentDir => dot_dot(),
        Component::Normal(name) => name,
    }
}

/// The components joined by slashes, none behind the root.
pub open spec fn rendered(cs: Seq<Component<Seq<u8>>>) -> Seq<u8>
    decreases cs.len(),
{
    if cs.len() == 0 {
        Seq::empty()
    } else {
        joined_component(rendered(cs.drop_last()), cs.last())
    }
}

pub open spec fn joined_component(path: Seq<u8>, c: Component<Seq<u8>>) -> Seq<u8> {
    joined(path, component_bytes(c))
}

/// The bytes of the texts that name the root, the current directory and the parent directory.
pub proof fn lemma_dots()
    ensures
        text("/") == seq![SLASH],
        text(".") == dot(),
        text("..") == dot_dot(),
{
    reveal_strlit("/");
    reveal_strlit(".");
    reveal_strlit("..");
    lemma_ascii_text("/");
    lemma_ascii_text(".");
    lemma_ascii_text("..");
    assert(text("/") =~= seq![SLASH]);
    assert(text(".") =~= dot());
    assert(text("..") =~= dot_dot());
}

fn is_dot(part: &[u8]) -> (r: bool)
    ensures
        r == (part@ == dot()),
{
    let r = part.len() == 1 && part[0] == DOT;
    proof {
        if r {
            assert(part@ =~= dot());
        }
    }
    r
}

fn is_dot_dot(part: &[u8]) -> (r: bool)
    ensures
        r == (part@ == dot_dot()),
{
    let r = part.len() == 2 && part[0] == DOT && part[1] == DOT;
    proof {
        if r {
            assert(part@ =~= dot_dot());
        }
    }
    r
}

/// The values that the elements of a list stand for.
pub open spec fn located_view(v: Seq<Located<&[u8]>>) -> Seq<Located<Seq<u8>>> {
    Seq::new(v.len(), |i: int| v[i]@)
}

pub open spec fn components_view(v: Seq<Component<&[u8]>>) -> Seq<Component<Seq<u8>>> {
    Seq::new(v.len(), |i: int| v[i]@)
}

fn located_head_of<'a>(b: &'a [u8]) -> (r: Vec<Located<&'a [u8]>>)
    ensures
        located_view(r@) == located_head(b@),
{
    let mut out: Vec<Located<&'a [u8]>> = Vec::new();
    let n: usize = match memchr(SLASH, b) {
        Some(i) => {
            proof {
                lemma_until_is(b@, SLASH, i as int);
            }
            i
        },
        None => {
            proof {
                lemma_until_is(b@, SLASH, b@.len() as int);
            }
            b.len()
        },
    };
    if b.len() > 0 && b[0] == SLASH {
        out.push(Located { component: Component::RootDir, start: 0, end: 1 });
    } else if is_dot(first(b, n)) {
        out.push(Located { component: Component::CurDir, start: 0, end: 1 });
    }
    assert(located_view(out@) =~= located_head(b@));
    out
}

/// The components of a path with the bytes that each takes.
pub fn locate<'a>(b: &'a [u8]) -> (r: Vec<Located<&'a [u8]>>)
    ensures
        located_view(r@) == located(b@),
{
    let mut out: Vec<Located<&'a [u8]>> = located_head_of(b);
    let mut at: usize = 0;
    let mut more = true;
    while more
        invariant
            at <= b.len(),
            more ==> located_view(out@) + located_from(b@, at as int) == located(b@),
            !more ==> located_view(out@) == located(b@),
        decreases b@.len() - at, more as int,
    {
        let rest = from(b, at);
        let ghost done = located_view(out@);
        let n: usize = match memchr(SLASH, rest) {
            Some(i) => {
                proof {
                    lemma_until_is(rest@, SLASH, i as int);
                }
                i
            },
            None => {
                proof {
                    lemma_until_is(rest@, SLASH, rest@.len() as int);
                }
                rest.len()
            },
        };
        let end: usize = at + n;
        let part = slice_subrange(b, at, end);
        if part.len() > 0 && !is_dot(part) {
            let component = if is_dot_dot(part) {
                Component::ParentDir
            } else {
                Component::Normal(part)
            };
            out.push(Located { component, start: at, end });
        }
        let ghost head = match part_component(part@) {
            None => Seq::empty(),
            Some(component) => seq![Located { component, start: at, end }],
        };
        assert(located_view(out@) =~= done + head);
        if end < b.len() {
            proof {
                let tail = located_from(b@, end + 1);
                assert(located_from(b@, at as int) == head + tail);
                assert(done + (head + tail) =~= (done + head) + tail);
            }
            at = end + 1;
        } else {
            assert(located_from(b@, at as int) == head);
            more = false;
        }
    }
    out
}

/// The components of a path.
pub fn components<'a>(b: &'a [u8]) -> (r: Vec<Component<&'a [u8]>>)
    ensures
        components_view(r@) == components_of(b@),
{
    let parts = locate(b);
    let mut out: Vec<Component<&'a [u8]>> = Vec::new();
    let mut i: usize = 0;
    while i < parts.len()
        invariant
            i <= parts@.len(),
            out@.len() == i,
            forall|j: int| 0 <= j < i ==> out@[j] == parts@[j].component,
        decreases parts@.len() - i,
    {
        out.push(parts[i].component);
        i = i + 1;
    }
    proof {
        assert forall|j: int| 0 <= j < out@.len() implies components_view(out@)[j] == components_of(
            b@,
        )[j] by {
            assert(located_view(parts@)[j] == located(b@)[j]);
        }
        assert(located_view(parts@).len() == located(b@).len());
    }
    assert(components_view(out@) =~= components_of(b@));
    out
}

/// Are these the same component?
fn same_component(a: &Component<&[u8]>, b: &Component<&[u8]>) -> (r: bool)
    ensures
        r == (a@ == b@),
{
    match (*a, *b) {
        (Component::RootDir, Component::RootDir) => true,
        (Component::CurDir, Component::CurDir) => true,
        (Component::ParentDir, Component::ParentDir) => true,
        (Component::Normal(x), Component::Normal(y)) => same_bytes(x, y),
        _ => false,
    }
}

#[derive(Debug, Clone, PartialEq, Eq)]
pub enum OsPathError<B = Vec<u8>> {
    Empty,
    ContainsNul(B),
    StripPrefix,
}

impl View for OsPathError {
    type V = OsPathError<Seq<u8>>;

    open spec fn view(&self) -> OsPathError<Seq<u8>> {
        match *self {
            OsPathError::Empty => OsPathError::Empty,
            OsPathError::ContainsNul(path) => OsPathError::ContainsNul(path@),
            OsPathError::StripPrefix => OsPathError::StripPrefix,
        }
    }
}

/// A path that is not empty and holds no NUL.
#[derive(Debug, Clone, PartialEq, Eq)]
pub struct OsPath {
    inner: Vec<u8>,
}

impl View for OsPath {
    type V = Seq<u8>;

    closed spec fn view(&self) -> Seq<u8> {
        self.inner@
    }
}

/// What stops a byte string from being a path.
pub open spec fn os_path_error(b: Seq<u8>) -> Option<OsPathError<Seq<u8>>> {
    if b.len() == 0 {
        Some(OsPathError::Empty)
    } else if b.contains(NUL) {
        Some(OsPathError::ContainsNul(b))
    } else {
        None
    }
}

impl OsPath {
    pub open spec fn wf(&self) -> bool {
        os_path_error(self@) is None
    }

    pub open spec fn components_spec(&self) -> Seq<Component<Seq<u8>>> {
        components_of(self@)
    }

    /// A path is no longer than a byte string can be.
    pub proof fn lemma_fits(&self)
        ensures
            self@.len() <= usize::MAX,
    {
        assert(self.inner.len() == self@.len());
    }

    pub fn new(path: &[u8]) -> (r: Result<Self, OsPathError>)
        ensures
            match os_path_error(path@) {
                None => r matches Ok(p) && p@ == path@,
                Some(error) => r matches Err(e) && e@ == error,
            },
    {
        if path.len() == 0 {
            return Err(OsPathError::Empty);
        }
        if contains_byte(path, NUL) {
            return Err(OsPathError::ContainsNul(copy_of(path)));
        }
        Ok(Self { inner: copy_of(path) })
    }

    /// A path that the system returned, taken as it is.
    pub fn new_unchecked(path: &[u8]) -> (r: Self)
        ensures
            r@ == path@,
    {
        Self { inner: copy_of(path) }
    }

    /// The path with the bytes of `s`, taken as it is.
    pub fn from_text(s: &str) -> (r: Self)
        ensures
            r@ == text(s),
    {
        Self { inner: copy_of(s.as_bytes()) }
    }

    pub fn as_bytes(&self) -> (r: &[u8])
        ensures
            r@ == self@,
    {
        self.inner.as_slice()
    }

    /// A copy of the path.
    pub fn copied(&self) -> (r: Self)
        ensures
            r@ == self@,
    {
        Self { inner: copy_of(self.inner.as_slice()) }
    }

    pub fn is_absolute(&self) -> (r: bool)
        ensures
            r == spec_is_absolute(self@),
    {
        is_absolute_bytes(self.inner.as_slice())
    }

    pub fn is_relative(&self) -> (r: bool)
        ensures
            r == !spec_is_absolute(self@),
    {
        !self.is_absolute()
    }

    pub fn components<'a>(&'a self) -> (r: Vec<Component<&'a [u8]>>)
        ensures
            components_view(r@) == self.components_spec(),
    {
        components(self.inner.as_slice())
    }

    /// The path without its last component.
    pub fn parent(&self) -> (r: Option<OsPath>)
        ensures
            match parent_of(self@) {
                None => r is None,
                Some(parent) => r matches Some(p) && p@ == parent,
            },
    {
        let parts = locate(self.inner.as_slice());
        let n: usize = parts.len();
        proof {
            assert(located_view(parts@).len() == located(self@).len());
            if n > 0 {
                assert(located_view(parts@)[n - 1] == located(self@)[n - 1]);
            }
            if n > 1 {
                assert(located_view(parts@)[n - 2] == located(self@)[n - 2]);
                assert(self.inner.len() == self@.len());
                lemma_located(self@);
            }
        }
        if n == 0 {
            return None;
        }
        match parts[n - 1].component {
            Component::RootDir => None,
            _ => if n == 1 {
                Some(OsPath { inner: Vec::new() })
            } else {
                Some(OsPath { inner: copy_of(first(self.inner.as_slice(), parts[n - 2].end)) })
            },
        }
    }

    /// `path` seen from this directory; `path` has to be a path itself.
    pub fn join(&self, path: &[u8]) -> (r: Result<Self, OsPathError>)
        ensures
            match os_path_error(path@) {
                None => r matches Ok(p) && p@ == joined(self@, path@) && (self.wf() ==> p.wf()),
                Some(error) => r matches Err(e) && e@ == error,
            },
    {
        if path.len() == 0 {
            return Err(OsPathError::Empty);
        }
        if contains_byte(path, NUL) {
            return Err(OsPathError::ContainsNul(copy_of(path)));
        }
        let r = self.join_unchecked(path);
        proof {
            if self.wf() {
                lemma_joined_nul_free(self@, path@);
            }
        }
        Ok(r)
    }

    /// `path` seen from this directory.
    pub fn join_unchecked(&self, path: &[u8]) -> (r: Self)
        ensures
            r@ == joined(self@, path@),
    {
        Self { inner: join_bytes(self.inner.as_slice(), path) }
    }

    /// The file `name` in this directory.
    pub fn join_text(&self, name: &str) -> (r: Self)
        ensures
            r@ == joined(self@, text(name)),
    {
        self.join_unchecked(name.as_bytes())
    }

    /// What is left of the path behind the components of `base`. It can be empty, so it is no
    /// `OsPath`.
    pub fn strip_prefix(&self, base: &[u8]) -> (r: Result<Vec<u8>, OsPathError>)
        ensures
            match stripped(self@, base@) {
                Some(rest) => r matches Ok(v) && v@ == rest,
                None => r matches Err(e) && e@ == OsPathError::<Seq<u8>>::StripPrefix,
            },
    {
        match strip_prefix_bytes(self.inner.as_slice(), base) {
            Some(rest) => Ok(rest),
            None => Err(OsPathError::StripPrefix),
        }
    }

    /// The path with `suffix` behind its last byte.
    pub fn with_suffix_unchecked(&self, suffix: &[u8]) -> (r: Self)
        ensures
            r@ == self@ + suffix@,
    {
        let mut inner = copy_of(self.inner.as_slice());
        append(&mut inner, suffix);
        Self { inner }
    }

    /// Removes the components that say nothing: `./src/./main.rs` becomes `src/main.rs` and
    /// `src/..` becomes `.`. A `..` that no name precedes stays, for what it names is not known
    /// without looking; at the root it means nothing.
    pub fn normalize_lexically(&self) -> (r: OsPath)
        ensures
            r@ == rendered(normalized(self.components_spec())),
    {
        let parts = self.components();
        let mut kept: Vec<Component<&[u8]>> = Vec::new();
        let mut i: usize = 0;
        assert(components_view(kept@) =~= normal_prefix(components_view(parts@), 0));
        while i < parts.len()
            invariant
                i <= parts@.len(),
                components_view(kept@) == normal_prefix(components_view(parts@), i as int),
            decreases parts@.len() - i,
        {
            let ghost before = components_view(kept@);
            let component = parts[i];
            let last_is_normal = kept.len() > 0 && is_normal(&kept[kept.len() - 1]);
            let rooted = kept.len() > 0 && matches!(kept[0], Component::RootDir);
            match component {
                Component::RootDir => {
                    kept = Vec::new();
                    kept.push(component);
                },
                Component::CurDir => {},
                Component::ParentDir => {
                    if last_is_normal {
                        let dropped = kept.pop();
                    } else if !rooted {
                        kept.push(component);
                    }
                },
                Component::Normal(_) => {
                    kept.push(component);
                },
            }
            proof {
                assert(components_view(parts@)[i as int] == component@);
                assert(components_view(kept@) =~= normal_step(before, component@));
            }
            i = i + 1;
        }
        if kept.len() == 0 {
            kept.push(Component::CurDir);
            assert(components_view(kept@) =~= seq![Component::<Seq<u8>>::CurDir]);
        }
        OsPath { inner: render(&kept) }
    }

    /// Do the two paths have the same components?
    pub fn same_path(&self, other: &OsPath) -> (r: bool)
        ensures
            r == (self.components_spec() == other.components_spec()),
    {
        let a = self.components();
        let b = other.components();
        proof {
            assert(components_view(a@).len() == a@.len());
            assert(components_view(b@).len() == b@.len());
        }
        if a.len() != b.len() {
            return false;
        }
        same_prefix(&a, &b, a.len())
    }
}

fn is_normal(c: &Component<&[u8]>) -> (r: bool)
    ensures
        r == (c@ is Normal),
{
    matches!(c, Component::Normal(_))
}

/// Do the first `n` components agree?
pub(crate) fn same_prefix(a: &Vec<Component<&[u8]>>, b: &Vec<Component<&[u8]>>, n: usize) -> (r: bool)
    requires
        n <= a@.len(),
        n <= b@.len(),
    ensures
        r == (components_view(a@).take(n as int) == components_view(b@).take(n as int)),
        n == a@.len() && n == b@.len() ==> r == (components_view(a@) == components_view(b@)),
{
    let mut i: usize = 0;
    while i < n
        invariant
            i <= n,
            n <= a@.len(),
            n <= b@.len(),
            forall|j: int| 0 <= j < i ==> a@[j]@ == b@[j]@,
        decreases n - i,
    {
        if !same_component(&a[i], &b[i]) {
            proof {
                assert(components_view(a@).take(n as int)[i as int] != components_view(b@).take(
                    n as int,
                )[i as int]);
                assert(components_view(a@)[i as int] != components_view(b@)[i as int]);
            }
            return false;
        }
        i = i + 1;
    }
    assert(components_view(a@).take(n as int) =~= components_view(b@).take(n as int));
    proof {
        if n == a@.len() && n == b@.len() {
            assert(components_view(a@) =~= components_view(b@));
        }
    }
    true
}

pub fn is_absolute_bytes(path: &[u8]) -> (r: bool)
    ensures
        r == spec_is_absolute(path@),
{
    path.len() > 0 && path[0] == SLASH
}

/// `path` seen from the directory `base`.
pub fn join_bytes(base: &[u8], path: &[u8]) -> (r: Vec<u8>)
    ensures
        r@ == joined(base@, path@),
{
    if is_absolute_bytes(path) {
        return copy_of(path);
    }
    let mut out = copy_of(base);
    if base.len() > 0 && base[base.len() - 1] != SLASH {
        out.push(SLASH);
    }
    append(&mut out, path);
    assert(out@ =~= joined(base@, path@));
    out
}

/// What is left of `path` behind the components of `base`.
pub fn strip_prefix_bytes(path: &[u8], base: &[u8]) -> (r: Option<Vec<u8>>)
    ensures
        match stripped(path@, base@) {
            Some(rest) => r matches Some(v) && v@ == rest,
            None => r is None,
        },
{
    let parts = locate(path);
    let names = components(path);
    let base_names = components(base);
    let n: usize = base_names.len();
    proof {
        assert(path.len() == path@.len());
        lemma_located(path@);
        assert(located_view(parts@).len() == located(path@).len());
        assert(components_view(names@).len() == components_of(path@).len());
        assert(components_view(base_names@).len() == components_of(base@).len());
        assert(components_of(base@).take(n as int) =~= components_of(base@));
    }
    if n > parts.len() || !same_prefix(&names, &base_names, n) {
        return None;
    }
    if n == parts.len() {
        return Some(Vec::new());
    }
    proof {
        assert(located_view(parts@)[n as int] == located(path@)[n as int]);
        assert(located_view(parts@)[parts@.len() - 1] == located(path@)[parts@.len() - 1]);
    }
    Some(copy_of(slice_subrange(path, parts[n].start, parts[parts.len() - 1].end)))
}

fn render(cs: &Vec<Component<&[u8]>>) -> (r: Vec<u8>)
    ensures
        r@ == rendered(components_view(cs@)),
{
    let mut out: Vec<u8> = Vec::new();
    let mut i: usize = 0;
    assert(components_view(cs@).take(0) =~= Seq::<Component<Seq<u8>>>::empty());
    while i < cs.len()
        invariant
            i <= cs@.len(),
            out@ == rendered(components_view(cs@).take(i as int)),
        decreases cs@.len() - i,
    {
        proof {
            let all = components_view(cs@);
            assert(all.take(i + 1).drop_last() =~= all.take(i as int));
            lemma_dots();
        }
        out = match cs[i] {
            Component::RootDir => join_bytes(out.as_slice(), "/".as_bytes()),
            Component::CurDir => join_bytes(out.as_slice(), ".".as_bytes()),
            Component::ParentDir => join_bytes(out.as_slice(), "..".as_bytes()),
            Component::Normal(name) => join_bytes(out.as_slice(), name),
        };
        i = i + 1;
    }
    assert(components_view(cs@).take(i as int) =~= components_view(cs@));
    out
}

proof fn lemma_joined_nul_free(base: Seq<u8>, path: Seq<u8>)
    requires
        !base.contains(NUL),
        !path.contains(NUL),
        path.len() > 0,
    ensures
        os_path_error(joined(base, path)) is None,
{
    let r = joined(base, path);
    if r.contains(NUL) {
        let i = choose|i: int| 0 <= i < r.len() && r[i] == NUL;
        if spec_is_absolute(path) {
            assert(path.contains(NUL));
        } else if i < base.len() {
            assert(base[i] == NUL);
            assert(base.contains(NUL));
        } else if base.len() > 0 && base.last() != SLASH {
            if i > base.len() {
                assert(path[i - base.len() - 1] == NUL);
                assert(path.contains(NUL));
            }
        } else {
            assert(path[i - base.len()] == NUL);
            assert(path.contains(NUL));
        }
    }
}

pub proof fn lemma_located_from(b: Seq<u8>, at: int)
    requires
        0 <= at <= b.len(),
        b.len() <= usize::MAX,
    ensures
        forall|i: int|
            0 <= i < located_from(b, at).len() ==> {
                let l = #[trigger] located_from(b, at)[i];
                at <= l.start < l.end <= b.len()
            },
        forall|i: int, j: int|
            0 <= i < j < located_from(b, at).len() ==> (#[trigger] located_from(b, at)[i]).end <= (
            #[trigger] located_from(b, at)[j]).start,
    decreases b.len() - at,
{
    lemma_until(b.skip(at), SLASH);
    let end = at + until(b.skip(at), SLASH);
    if end < b.len() {
        lemma_located_from(b, end + 1);
        let tail = located_from(b, end + 1);
        match part_component(b.subrange(at, end)) {
            None => {
                assert(located_from(b, at) =~= tail);
            },
            Some(component) => {
                let head = Located { component, start: at as usize, end: end as usize };
                assert(located_from(b, at) =~= seq![head] + tail);
                assert forall|i: int, j: int|
                    0 <= i < j < located_from(b, at).len() implies (#[trigger] located_from(
                    b,
                    at,
                )[i]).end <= (#[trigger] located_from(b, at)[j]).start by {
                    assert(located_from(b, at)[j] == tail[j - 1]);
                    if i > 0 {
                        assert(located_from(b, at)[i] == tail[i - 1]);
                    }
                }
                assert forall|i: int| 0 <= i < located_from(b, at).len() implies ({
                    let l = #[trigger] located_from(b, at)[i];
                    at <= l.start < l.end <= b.len()
                }) by {
                    if i > 0 {
                        assert(located_from(b, at)[i] == tail[i - 1]);
                    }
                }
            },
        }
    }
}

/// The components of a path stand in it one behind the other.
pub proof fn lemma_located(b: Seq<u8>)
    requires
        b.len() <= usize::MAX,
    ensures
        forall|i: int|
            0 <= i < located(b).len() ==> {
                let l = #[trigger] located(b)[i];
                0 <= l.start < l.end <= b.len()
            },
        forall|i: int, j: int|
            0 <= i < j < located(b).len() ==> (#[trigger] located(b)[i]).end <= (#[trigger] located(
                b,
            )[j]).start,
{
    lemma_located_from(b, 0);
    lemma_until(b, SLASH);
    let head = located_head(b);
    let tail = located_from(b, 0);
    if head.len() > 0 {
        // the first part is the empty one before the root, or the leading `.`
        assert(b.skip(0) =~= b);
        let end = until(b, SLASH);
        assert(b.subrange(0, end) =~= b.take(end));
        assert(part_component(b.subrange(0, end)) is None);
        if end < b.len() {
            lemma_located_from(b, end + 1);
            assert(tail =~= located_from(b, end + 1));
            if b[0] != SLASH {
                assert(b.take(end).len() == 1);
            }
        }
        assert forall|i: int, j: int| 0 <= i < j < located(b).len() implies (#[trigger] located(
            b,
        )[i]).end <= (#[trigger] located(b)[j]).start by {
            assert(located(b)[j] == tail[j - 1]);
            if i > 0 {
                assert(located(b)[i] == tail[i - 1]);
            }
        }
        assert forall|i: int| 0 <= i < located(b).len() implies ({
            let l = #[trigger] located(b)[i];
            0 <= l.start < l.end <= b.len()
        }) by {
            if i > 0 {
                assert(located(b)[i] == tail[i - 1]);
            }
        }
    } else {
        assert(located(b) =~= tail);
    }
}

} // verus!
