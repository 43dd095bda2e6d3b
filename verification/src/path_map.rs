//! Values by path, in the order of the paths.

use crate::bytes::{
    less_bytes, lemma_lex_irreflexive, lemma_lex_total, lemma_lex_transitive, lex_less, same_bytes,
};
use crate::repo_path::RepoPath;
use vstd::prelude::*;

verus! {

/// A value for each of some paths. The paths ascend.
#[derive(Debug)]
pub struct PathMap<V> {
    entries: Vec<(RepoPath, V)>,
}

impl<V> View for PathMap<V> {
    type V = Seq<(Seq<u8>, V)>;

    closed spec fn view(&self) -> Seq<(Seq<u8>, V)> {
        Seq::new(self.entries@.len(), |i: int| (self.entries@[i].0@, self.entries@[i].1))
    }
}

pub open spec fn is_ascending<V>(s: Seq<(Seq<u8>, V)>) -> bool {
    forall|i: int, j: int|
        0 <= i < j < s.len() ==> lex_less((#[trigger] s[i]).0, (#[trigger] s[j]).0)
}

pub open spec fn stands_for<V>(s: Seq<(Seq<u8>, V)>, path: Seq<u8>, i: int) -> bool {
    0 <= i < s.len() && s[i].0 == path
}

/// The value of a path, if it has one.
pub open spec fn value_at<V>(s: Seq<(Seq<u8>, V)>, path: Seq<u8>) -> Option<V> {
    if exists|i: int| stands_for(s, path, i) {
        Some(s[choose|i: int| stands_for(s, path, i)].1)
    } else {
        None
    }
}

/// A path stands in one place only.
pub proof fn lemma_value_at<V>(s: Seq<(Seq<u8>, V)>, i: int)
    requires
        is_ascending(s),
        0 <= i < s.len(),
    ensures
        value_at(s, s[i].0) == Some(s[i].1),
{
    let path = s[i].0;
    assert(stands_for(s, path, i));
    let j = choose|j: int| stands_for(s, path, j);
    lemma_lex_irreflexive(path);
    if i < j {
        assert(lex_less(s[i].0, s[j].0));
    } else if j < i {
        assert(lex_less(s[j].0, s[i].0));
    }
}

impl<V: Copy> PathMap<V> {
    pub open spec fn wf(&self) -> bool {
        is_ascending(self@)
    }

    pub fn new() -> (r: Self)
        ensures
            r.wf(),
            r@ == Seq::<(Seq<u8>, V)>::empty(),
    {
        let r = PathMap { entries: Vec::new() };
        assert(r@ =~= Seq::<(Seq<u8>, V)>::empty());
        r
    }

    pub fn len(&self) -> (r: usize)
        ensures
            r == self@.len(),
    {
        self.entries.len()
    }

    pub fn path(&self, i: usize) -> (r: &RepoPath)
        requires
            i < self@.len(),
        ensures
            r@ == self@[i as int].0,
    {
        &self.entries[i].0
    }

    pub fn value(&self, i: usize) -> (r: V)
        requires
            i < self@.len(),
        ensures
            r == self@[i as int].1,
    {
        self.entries[i].1
    }

    /// The number of paths in front of this one.
    fn place(&self, path: &RepoPath) -> (at: usize)
        requires
            self.wf(),
        ensures
            at <= self@.len(),
            forall|i: int| 0 <= i < at ==> lex_less((#[trigger] self@[i]).0, path@),
            forall|i: int| at <= i < self@.len() ==> !lex_less((#[trigger] self@[i]).0, path@),
    {
        let mut low: usize = 0;
        let mut high: usize = self.entries.len();
        while low < high
            invariant
                self.wf(),
                low <= high <= self@.len(),
                forall|i: int| 0 <= i < low ==> lex_less((#[trigger] self@[i]).0, path@),
                forall|i: int|
                    high <= i < self@.len() ==> !lex_less((#[trigger] self@[i]).0, path@),
            decreases high - low,
        {
            let mid: usize = low + (high - low) / 2;
            assert(self@[mid as int].0 == self.entries@[mid as int].0@);
            if less_bytes(self.entries[mid].0.as_bytes(), path.as_bytes()) {
                assert forall|i: int| 0 <= i < mid + 1 implies lex_less(
                    (#[trigger] self@[i]).0,
                    path@,
                ) by {
                    if i < mid {
                        lemma_lex_transitive(self@[i].0, self@[mid as int].0, path@);
                    }
                }
                low = mid + 1;
            } else {
                assert forall|i: int| mid <= i < self@.len() implies !lex_less(
                    (#[trigger] self@[i]).0,
                    path@,
                ) by {
                    if mid < i && lex_less(self@[i].0, path@) {
                        lemma_lex_transitive(self@[mid as int].0, self@[i].0, path@);
                    }
                }
                high = mid;
            }
        }
        low
    }

    /// The value of a path.
    pub fn get(&self, path: &RepoPath) -> (r: Option<V>)
        requires
            self.wf(),
        ensures
            r == value_at(self@, path@),
    {
        let at = self.place(path);
        if at < self.entries.len() && same_bytes(self.entries[at].0.as_bytes(), path.as_bytes()) {
            proof {
                assert(self@[at as int].0 == path@);
                lemma_value_at(self@, at as int);
            }
            Some(self.entries[at].1)
        } else {
            proof {
                assert forall|i: int| !stands_for(self@, path@, i) by {
                    lemma_lex_irreflexive(path@);
                    if stands_for(self@, path@, i) && at < i {
                        assert(lex_less(self@[at as int].0, self@[i].0));
                    }
                }
            }
            None
        }
    }

    /// Gives a path a value, in place of the one it had.
    pub fn insert(&mut self, path: &RepoPath, value: V)
        requires
            old(self).wf(),
        ensures
            final(self).wf(),
            forall|other: Seq<u8>| #[trigger]
                value_at(final(self)@, other) == (if other == path@ {
                    Some(value)
                } else {
                    value_at(old(self)@, other)
                }),
    {
        let at = self.place(path);
        let ghost before = self@;
        if at < self.entries.len() && same_bytes(self.entries[at].0.as_bytes(), path.as_bytes()) {
            assert(before[at as int].0 == path@);
            self.entries.set(at, (path.copied(), value));
            proof {
                let after = self@;
                assert(after =~= before.update(at as int, (path@, value)));
                assert(is_ascending(after)) by {
                    assert forall|i: int, j: int| 0 <= i < j < after.len() implies lex_less(
                        (#[trigger] after[i]).0,
                        (#[trigger] after[j]).0,
                    ) by {
                        assert(after[i].0 == before[i].0);
                        assert(after[j].0 == before[j].0);
                    }
                }
                assert(after[at as int] == (path@, value));
                assert forall|i: int| 0 <= i < before.len() implies (#[trigger] before[i]).0 == path@
                    || after.contains(before[i]) by {
                    if i != at {
                        assert(after[i] == before[i]);
                    }
                }
                assert forall|i: int| 0 <= i < after.len() implies (#[trigger] after[i]).0 == path@
                    || before.contains(after[i]) by {
                    if i != at {
                        assert(before[i] == after[i]);
                    }
                }
                assert forall|other: Seq<u8>| #[trigger] value_at(after, other) == (if other == path@ {
                    Some(value)
                } else {
                    value_at(before, other)
                }) by {
                    lemma_same_values(before, after, path@, value, other);
                }
            }
        } else {
            proof {
                lemma_lex_irreflexive(path@);
                if at < before.len() {
                    assert(before[at as int].0 == self.entries@[at as int].0@);
                    lemma_lex_total(before[at as int].0, path@);
                }
            }
            self.entries.insert(at, (path.copied(), value));
            proof {
                let after = self@;
                assert(after =~= before.insert(at as int, (path@, value)));
                assert(is_ascending(after)) by {
                    assert forall|i: int, j: int| 0 <= i < j < after.len() implies lex_less(
                        (#[trigger] after[i]).0,
                        (#[trigger] after[j]).0,
                    ) by {
                        if i < at && j > at {
                            assert(after[i] == before[i] && after[j] == before[j - 1]);
                        } else if i < at && j < at {
                            assert(after[i] == before[i] && after[j] == before[j]);
                        } else if i < at {
                            assert(after[i] == before[i]);
                        } else if i == at {
                            assert(after[j] == before[j - 1]);
                            if j - 1 > at {
                                assert(lex_less(before[at as int].0, before[j - 1].0));
                                lemma_lex_transitive(path@, before[at as int].0, before[j - 1].0);
                            }
                        } else {
                            assert(after[i] == before[i - 1] && after[j] == before[j - 1]);
                        }
                    }
                }
                assert(after[at as int] == (path@, value));
                assert forall|i: int| 0 <= i < before.len() implies after.contains(
                    #[trigger] before[i],
                ) by {
                    if i < at {
                        assert(after[i] == before[i]);
                    } else {
                        assert(after[i + 1] == before[i]);
                    }
                }
                assert forall|i: int| 0 <= i < after.len() implies (#[trigger] after[i]).0 == path@
                    || before.contains(after[i]) by {
                    if i < at {
                        assert(before[i] == after[i]);
                    } else if i > at {
                        assert(before[i - 1] == after[i]);
                    }
                }
                assert forall|other: Seq<u8>| #[trigger] value_at(after, other) == (if other == path@ {
                    Some(value)
                } else {
                    value_at(before, other)
                }) by {
                    lemma_same_values(before, after, path@, value, other);
                }
            }
        }
    }
}

/// One path got a value; the others kept theirs.
proof fn lemma_same_values<V>(
    before: Seq<(Seq<u8>, V)>,
    after: Seq<(Seq<u8>, V)>,
    path: Seq<u8>,
    value: V,
    other: Seq<u8>,
)
    requires
        is_ascending(before),
        is_ascending(after),
        exists|i: int| 0 <= i < after.len() && #[trigger] after[i] == (path, value),
        forall|i: int|
            0 <= i < after.len() ==> (#[trigger] after[i]).0 == path || before.contains(after[i]),
        forall|i: int|
            0 <= i < before.len() ==> (#[trigger] before[i]).0 == path || after.contains(before[i]),
    ensures
        value_at(after, other) == (if other == path {
            Some(value)
        } else {
            value_at(before, other)
        }),
{
    if other == path {
        let i = choose|i: int| 0 <= i < after.len() && #[trigger] after[i] == (path, value);
        lemma_value_at(after, i);
    } else {
        if exists|i: int| stands_for(after, other, i) {
            let i = choose|i: int| stands_for(after, other, i);
            assert(before.contains(after[i]));
            let j = choose|j: int| 0 <= j < before.len() && before[j] == after[i];
            lemma_value_at(before, j);
        } else if exists|i: int| stands_for(before, other, i) {
            let i = choose|i: int| stands_for(before, other, i);
            assert(after.contains(before[i]));
            let j = choose|j: int| 0 <= j < after.len() && after[j] == before[i];
            assert(stands_for(after, other, j));
        }
    }
}

/// A path has a value exactly if it stands in the map with it.
pub proof fn values_stand_with_their_paths<V>(s: Seq<(Seq<u8>, V)>, path: Seq<u8>, v: V)
    requires
        is_ascending(s),
    ensures
        value_at(s, path) == Some(v) <==> s.contains((path, v)),
        value_at(s, path) is None <==> forall|i: int|
            0 <= i < s.len() ==> (#[trigger] s[i]).0 != path,
{
    if exists|i: int| stands_for(s, path, i) {
        let i = choose|i: int| stands_for(s, path, i);
        assert(s[i] == (path, s[i].1));
        if s.contains((path, v)) {
            lemma_value_at(s, s.index_of((path, v)));
        }
    } else {
        assert forall|i: int| 0 <= i < s.len() implies (#[trigger] s[i]).0 != path by {
            assert(!stands_for(s, path, i));
        }
    }
}

} // verus!
