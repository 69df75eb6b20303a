//! The filename index: a map from basename to the set of absolute paths that
//! end in it. Inserting the same path twice changes nothing; the abstract
//! view is a `Map<Seq<char>, Set<Seq<char>>>`.
use vstd::prelude::*;
use crate::arc_str::{ArcStr, views_of};
use crate::paths::{basename, basename_of};

verus! {

/// The set of path contents held in a list of tokens.
pub open spec fn path_set(l: Seq<ArcStr>) -> Set<Seq<char>> {
    Set::new(|p: Seq<char>| exists|j: int| 0 <= j < l.len() && l[j]@ == p)
}

/// What one insertion does to the abstract map: the path joins the set under
/// its basename, and every other key keeps its set.
pub open spec fn with_path(
    m: Map<Seq<char>, Set<Seq<char>>>,
    path: Seq<char>,
) -> Map<Seq<char>, Set<Seq<char>>> {
    let b = basename_of(path);
    let s = if m.dom().contains(b) {
        m[b]
    } else {
        Set::<Seq<char>>::empty()
    };
    m.insert(b, s.insert(path))
}

/// Maps each basename to the set of indexed paths that carry it.
pub struct FilenameIndex {
    pub(crate) entries: Vec<(ArcStr, Vec<ArcStr>)>,
}

impl FilenameIndex {
    pub(crate) open spec fn key_at(self, i: int) -> Seq<char> {
        self.entries@[i].0@
    }

    pub(crate) open spec fn list_at(self, i: int) -> Seq<ArcStr> {
        self.entries@[i].1@
    }

    /// Keys are pairwise distinct and each path list holds no duplicates.
    pub closed spec fn wf(self) -> bool {
        &&& forall|i: int, j: int|
            0 <= i < j < self.entries@.len() ==> self.key_at(i) != self.key_at(j)
        &&& forall|i: int, p: int, q: int|
            0 <= i < self.entries@.len() && 0 <= p < q < self.list_at(i).len()
                ==> self.list_at(i)[p]@ != self.list_at(i)[q]@
    }

    pub(crate) open spec fn has_key(self, k: Seq<char>) -> bool {
        exists|i: int| 0 <= i < self.entries@.len() && self.key_at(i) == k
    }

    pub(crate) open spec fn index_of(self, k: Seq<char>) -> int {
        choose|i: int| 0 <= i < self.entries@.len() && self.key_at(i) == k
    }

    /// The stored entries, abstractly: key and path contents, in order.
    pub closed spec fn records(self) -> Seq<(Seq<char>, Seq<Seq<char>>)> {
        self.entries@.map_values(|e: (ArcStr, Vec<ArcStr>)| (e.0@, views_of(e.1@)))
    }

    pub closed spec fn map_of(self) -> Map<Seq<char>, Set<Seq<char>>> {
        Map::new(
            |k: Seq<char>| self.has_key(k),
            |k: Seq<char>| path_set(self.list_at(self.index_of(k))),
        )
    }

    pub(crate) proof fn lemma_index_of(self, i: int)
        requires
            self.wf(),
            0 <= i < self.entries@.len(),
        ensures
            self.has_key(self.key_at(i)),
            self.index_of(self.key_at(i)) == i,
    {
        let k = self.key_at(i);
        assert(self.has_key(k));
        let j = self.index_of(k);
        assert(0 <= j < self.entries@.len() && self.key_at(j) == k);
        if i < j {
            assert(self.key_at(i) != self.key_at(j));
        } else if j < i {
            assert(self.key_at(j) != self.key_at(i));
        }
    }

    pub(crate) proof fn lemma_records_body(self)
        ensures
            self.records() == self.entries@.map_values(
                |e: (ArcStr, Vec<ArcStr>)| (e.0@, views_of(e.1@)),
            ),
    {
    }

    pub(crate) proof fn lemma_wf_intro(self)
        requires
            forall|i: int, j: int|
                0 <= i < j < self.entries@.len() ==> self.key_at(i) != self.key_at(j),
            forall|i: int, p: int, q: int|
                0 <= i < self.entries@.len() && 0 <= p < q < self.list_at(i).len()
                    ==> self.list_at(i)[p]@ != self.list_at(i)[q]@,
        ensures
            self.wf(),
    {
    }

    pub(crate) proof fn lemma_wf_elim(self)
        requires
            self.wf(),
        ensures
            forall|i: int, j: int|
                0 <= i < j < self.entries@.len() ==> self.key_at(i) != self.key_at(j),
            forall|i: int, p: int, q: int|
                0 <= i < self.entries@.len() && 0 <= p < q < self.list_at(i).len()
                    ==> self.list_at(i)[p]@ != self.list_at(i)[q]@,
    {
    }

    /// An index with nothing in it.
    pub fn new() -> (r: FilenameIndex)
        ensures
            r.wf(),
            r@ == Map::<Seq<char>, Set<Seq<char>>>::empty(),
            r.records() == Seq::<(Seq<char>, Seq<Seq<char>>)>::empty(),
    {
        let r = FilenameIndex { entries: Vec::new() };
        proof {
            assert(r.map_of() =~= Map::<Seq<char>, Set<Seq<char>>>::empty());
            assert(r.records() =~= Seq::<(Seq<char>, Seq<Seq<char>>)>::empty());
        }
        r
    }

    fn list_contains(l: &Vec<ArcStr>, p: &ArcStr) -> (r: bool)
        ensures
            r == exists|q: int| 0 <= q < l@.len() && l@[q]@ == p@,
    {
        let mut j: usize = 0;
        while j < l.len()
            invariant
                0 <= j <= l@.len(),
                forall|q: int| 0 <= q < j ==> l@[q]@ != p@,
            decreases l@.len() - j,
        {
            if l[j] == *p {
                proof {
                    assert(l@[j as int]@ == p@);
                }
                return true;
            }
            j = j + 1;
        }
        false
    }

    fn position_of_key(&self, name: &ArcStr) -> (r: Option<usize>)
        requires
            self.wf(),
        ensures
            match r {
                Some(i) => i < self.entries@.len() && self.key_at(i as int) == name@,
                None => !self.has_key(name@),
            },
    {
        let mut i: usize = 0;
        while i < self.entries.len()
            invariant
                0 <= i <= self.entries@.len(),
                forall|j: int| 0 <= j < i ==> self.key_at(j) != name@,
            decreases self.entries@.len() - i,
        {
            if self.entries[i].0 == *name {
                return Some(i);
            }
            i = i + 1;
        }
        None
    }

    /// Record `path` under its basename. Repeating an insertion is a no-op:
    /// the path set deduplicates.
    pub fn insert(&mut self, path: &str)
        requires
            old(self).wf(),
        ensures
            final(self).wf(),
            final(self)@ == with_path(old(self)@, path@),
    {
        let name = basename(path);
        let key = ArcStr::new(name);
        let p = ArcStr::from_ref(path);
        let ghost b = basename_of(path@);
        match self.position_of_key(&key) {
            Some(i) => {
                let ghost old_self = *self;
                proof {
                    old_self.lemma_index_of(i as int);
                }
                if Self::list_contains(&self.entries[i].1, &p) {
                    proof {
                        let m = old_self.map_of();
                        assert(m.dom().contains(b));
                        assert(m[b] == path_set(old_self.list_at(i as int)));
                        assert(m[b].contains(p@));
                        assert(m[b].insert(p@) =~= m[b]);
                        assert(with_path(m, path@) =~= m);
                    }
                } else {
                    self.entries[i].1.push(p);
                    proof {
                        self.lemma_after_push(old_self, i as int, p, b);
                    }
                }
            },
            None => {
                let mut l: Vec<ArcStr> = Vec::new();
                l.push(p);
                self.entries.push((key, l));
                proof {
                    self.lemma_after_new_key(*old(self), b, path@);
                }
            },
        }
    }

    proof fn lemma_after_push(self, prev: FilenameIndex, i: int, p: ArcStr, b: Seq<char>)
        requires
            prev.wf(),
            0 <= i < prev.entries@.len(),
            prev.key_at(i) == b,
            forall|q: int| 0 <= q < prev.list_at(i).len() ==> prev.list_at(i)[q]@ != p@,
            self.entries@.len() == prev.entries@.len(),
            forall|j: int| 0 <= j < prev.entries@.len() && j != i
                ==> self.entries@[j] == prev.entries@[j],
            self.key_at(i) == prev.key_at(i),
            self.list_at(i) == prev.list_at(i).push(p),
            b == basename_of(p@),
        ensures
            self.wf(),
            self.map_of() == with_path(prev.map_of(), p@),
    {
        assert(forall|j: int| 0 <= j < self.entries@.len() ==> self.key_at(j) == prev.key_at(j));
        assert forall|ii: int, q1: int, q2: int|
            0 <= ii < self.entries@.len() && 0 <= q1 < q2 < self.list_at(ii).len()
            implies self.list_at(ii)[q1]@ != self.list_at(ii)[q2]@ by {
            if ii == i {
                assert(self.list_at(i) == prev.list_at(i).push(p));
                assert(self.list_at(i)[q1] == prev.list_at(i)[q1]);
                if q2 == self.list_at(i).len() - 1 {
                    assert(self.list_at(i)[q2] == p);
                    assert(prev.list_at(i)[q1]@ != p@);
                } else {
                    assert(self.list_at(i)[q2] == prev.list_at(i)[q2]);
                    assert(prev.list_at(i)[q1]@ != prev.list_at(i)[q2]@);
                }
            } else {
                assert(self.entries@[ii] == prev.entries@[ii]);
                assert(self.list_at(ii) == prev.list_at(ii));
                assert(prev.list_at(ii)[q1]@ != prev.list_at(ii)[q2]@);
            }
        }
        assert(self.wf());
        prev.lemma_index_of(i);
        self.lemma_index_of(i);
        let m0 = prev.map_of();
        let m1 = self.map_of();
        assert(path_set(self.list_at(i)) =~= path_set(prev.list_at(i)).insert(p@)) by {
            assert forall|x: Seq<char>| path_set(prev.list_at(i)).insert(p@).contains(x)
                implies path_set(self.list_at(i)).contains(x) by {
                if x == p@ {
                    assert(self.list_at(i)[self.list_at(i).len() - 1]@ == x);
                } else {
                    let q = choose|q: int| 0 <= q < prev.list_at(i).len()
                        && prev.list_at(i)[q]@ == x;
                    assert(self.list_at(i)[q]@ == x);
                }
            }
        }
        assert(m1 =~= with_path(m0, p@)) by {
            assert forall|k: Seq<char>| #[trigger] m1.dom().contains(k)
                || with_path(m0, p@).dom().contains(k) implies m1.dom().contains(k)
                && with_path(m0, p@).dom().contains(k) && m1[k] == with_path(m0, p@)[k] by {
                assert(self.has_key(k) == prev.has_key(k));
                if k == b {
                    assert(m1[k] == path_set(self.list_at(i)));
                } else {
                    let j = prev.index_of(k);
                    assert(0 <= j < prev.entries@.len() && prev.key_at(j) == k);
                    assert(j != i);
                    prev.lemma_index_of(j);
                    self.lemma_index_of(j);
                    assert(self.list_at(j) == prev.list_at(j));
                }
            }
        }
    }

    proof fn lemma_after_new_key(self, prev: FilenameIndex, b: Seq<char>, path: Seq<char>)
        requires
            prev.wf(),
            !prev.has_key(b),
            self.entries@.len() == prev.entries@.len() + 1,
            forall|j: int| 0 <= j < prev.entries@.len()
                ==> self.entries@[j] == prev.entries@[j],
            self.key_at(prev.entries@.len() as int) == b,
            self.list_at(prev.entries@.len() as int).len() == 1,
            self.list_at(prev.entries@.len() as int)[0]@ == path,
            b == basename_of(path),
        ensures
            self.wf(),
            self.map_of() == with_path(prev.map_of(), path),
    {
        let n = prev.entries@.len() as int;
        assert(forall|j: int| 0 <= j < n ==> self.key_at(j) == prev.key_at(j)
            && self.list_at(j) == prev.list_at(j));
        assert forall|i: int, j: int| 0 <= i < j < self.entries@.len()
            implies self.key_at(i) != self.key_at(j) by {
            if j == n {
                assert(prev.has_key(prev.key_at(i)));
            }
        }
        assert(self.wf());
        self.lemma_index_of(n);
        let m0 = prev.map_of();
        let m1 = self.map_of();
        assert(path_set(self.list_at(n)) =~= Set::<Seq<char>>::empty().insert(path)) by {
            assert(self.list_at(n)[0]@ == path);
        }
        assert(m1 =~= with_path(m0, path)) by {
            assert forall|k: Seq<char>| #[trigger] m1.dom().contains(k)
                || with_path(m0, path).dom().contains(k) implies m1.dom().contains(k)
                && with_path(m0, path).dom().contains(k) && m1[k] == with_path(m0, path)[k] by {
                if k == b {
                    assert(self.has_key(b));
                    assert(m1[k] == path_set(self.list_at(n)));
                } else {
                    assert(self.has_key(k) ==> prev.has_key(k)) by {
                        if self.has_key(k) {
                            let j = self.index_of(k);
                            assert(0 <= j < self.entries@.len() && self.key_at(j) == k);
                            assert(j != n);
                            assert(prev.key_at(j) == k);
                        }
                    }
                    if prev.has_key(k) {
                        let j = prev.index_of(k);
                        prev.lemma_index_of(j);
                        self.lemma_index_of(j);
                        assert(self.list_at(j) == prev.list_at(j));
                    }
                }
            }
        }
    }

    /// The path set stored for an exact basename; empty when the name is not
    /// a key.
    pub fn exact_search(&self, name: &str) -> (r: Vec<ArcStr>)
        requires
            self.wf(),
        ensures
            self@.dom().contains(name@) ==> path_set(r@) == self@[name@],
            !self@.dom().contains(name@) ==> r@.len() == 0,
            forall|j1: int, j2: int| 0 <= j1 < j2 < r@.len() ==> (#[trigger] r@[j1])@
                != (#[trigger] r@[j2])@,
    {
        let key = ArcStr::from_ref(name);
        match self.position_of_key(&key) {
            Some(i) => {
                proof {
                    self.lemma_index_of(i as int);
                }
                let mut r: Vec<ArcStr> = Vec::new();
                let list_len = self.entries[i].1.len();
                let mut j: usize = 0;
                while j < list_len
                    invariant
                        i < self.entries@.len(),
                        list_len == self.list_at(i as int).len(),
                        0 <= j <= list_len,
                        r@.len() == j,
                        forall|q: int| 0 <= q < j ==> r@[q]@ == self.list_at(i as int)[q]@,
                    decreases list_len - j,
                {
                    r.push(self.entries[i].1[j].clone());
                    j = j + 1;
                }
                proof {
                    assert(path_set(r@) =~= path_set(self.list_at(i as int))) by {
                        assert forall|x: Seq<char>| path_set(self.list_at(i as int)).contains(x)
                            implies path_set(r@).contains(x) by {
                            let q = choose|q: int| 0 <= q < self.list_at(i as int).len()
                                && self.list_at(i as int)[q]@ == x;
                            assert(r@[q]@ == x);
                        }
                    }
                    assert forall|j1: int, j2: int| 0 <= j1 < j2 < r@.len()
                        implies (#[trigger] r@[j1])@ != (#[trigger] r@[j2])@ by {
                        assert(r@[j1]@ == self.list_at(i as int)[j1]@);
                        assert(r@[j2]@ == self.list_at(i as int)[j2]@);
                        assert(self.list_at(i as int)[j1]@ != self.list_at(i as int)[j2]@);
                    }
                }
                r
            },
            None => {
                Vec::new()
            },
        }
    }

    /// Every distinct basename key, each exactly once.
    pub fn keys(&self) -> (r: Vec<ArcStr>)
        requires
            self.wf(),
        ensures
            forall|j: int| 0 <= j < r@.len() ==> self@.dom().contains(#[trigger] r@[j]@),
            forall|k: Seq<char>| self@.dom().contains(k)
                ==> exists|j: int| 0 <= j < r@.len() && r@[j]@ == k,
            forall|j1: int, j2: int| 0 <= j1 < j2 < r@.len() ==> r@[j1]@ != r@[j2]@,
    {
        let mut r: Vec<ArcStr> = Vec::new();
        let mut i: usize = 0;
        while i < self.entries.len()
            invariant
                self.wf(),
                0 <= i <= self.entries@.len(),
                r@.len() == i,
                forall|j: int| 0 <= j < i ==> r@[j]@ == self.key_at(j),
            decreases self.entries@.len() - i,
        {
            r.push(self.entries[i].0.clone());
            i = i + 1;
        }
        proof {
            assert forall|j: int| 0 <= j < r@.len() implies self@.dom().contains(
                #[trigger] r@[j]@,
            ) by {
                assert(self.has_key(self.key_at(j)));
            }
            assert forall|k: Seq<char>| self@.dom().contains(k) implies exists|j: int|
                0 <= j < r@.len() && r@[j]@ == k by {
                let j = self.index_of(k);
                assert(0 <= j < self.entries@.len() && self.key_at(j) == k);
                assert(r@[j]@ == k);
            }
            assert forall|j1: int, j2: int| 0 <= j1 < j2 < r@.len() implies r@[j1]@
                != r@[j2]@ by {
                assert(r@[j1]@ == self.key_at(j1));
                assert(r@[j2]@ == self.key_at(j2));
            }
        }
        r
    }

}

impl View for FilenameIndex {
    type V = Map<Seq<char>, Set<Seq<char>>>;

    open spec fn view(&self) -> Map<Seq<char>, Set<Seq<char>>> {
        self.map_of()
    }
}

/// Inserting the same path twice leaves the map exactly as one insertion
/// does; in particular the path set under its basename keeps its size.
/// (idempotent insertion)
pub proof fn lemma_insert_idempotent(m: Map<Seq<char>, Set<Seq<char>>>, path: Seq<char>)
    ensures
        with_path(with_path(m, path), path) == with_path(m, path),
{
    let b = basename_of(path);
    let m1 = with_path(m, path);
    assert(m1.dom().contains(b));
    assert(m1[b].contains(path));
    assert(m1[b].insert(path) =~= m1[b]);
    assert(with_path(m1, path) =~= m1);
}

/// The stored records determine the abstract map: two well-formed indexes
/// with the same records present the same key set and path sets.
pub proof fn lemma_records_determine_map(a: FilenameIndex, b: FilenameIndex)
    requires
        a.wf(),
        b.wf(),
        a.records() == b.records(),
    ensures
        a@ == b@,
{
    a.lemma_records_body();
    b.lemma_records_body();
    assert(a.entries@.len() == b.entries@.len()) by {
        assert(a.records().len() == a.entries@.len());
        assert(b.records().len() == b.entries@.len());
    }
    assert forall|i: int| 0 <= i < a.entries@.len() implies a.key_at(i) == b.key_at(i)
        && views_of(a.list_at(i)) == views_of(b.list_at(i)) by {
        assert(a.records()[i] == (a.entries@[i].0@, views_of(a.entries@[i].1@)));
        assert(b.records()[i] == (b.entries@[i].0@, views_of(b.entries@[i].1@)));
    }
    assert(a.map_of() =~= b.map_of()) by {
        assert forall|k: Seq<char>| #![trigger a.has_key(k)]
            a.has_key(k) == b.has_key(k) by {
            if a.has_key(k) {
                let i = a.index_of(k);
                assert(0 <= i < a.entries@.len() && a.key_at(i) == k);
                assert(b.key_at(i) == k);
                assert(b.has_key(k));
            }
            if b.has_key(k) {
                let i = b.index_of(k);
                assert(0 <= i < b.entries@.len() && b.key_at(i) == k);
                assert(a.key_at(i) == k);
                assert(a.has_key(k));
            }
        }
        assert forall|k: Seq<char>| a.has_key(k) implies path_set(
            a.list_at(a.index_of(k)),
        ) == path_set(b.list_at(b.index_of(k))) by {
            let i = a.index_of(k);
            assert(0 <= i < a.entries@.len() && a.key_at(i) == k);
            b.lemma_index_of(i);
            assert(b.index_of(k) == i);
            let la = a.list_at(i);
            let lb = b.list_at(i);
            assert(views_of(la) == views_of(lb));
            assert(la.len() == lb.len()) by {
                assert(views_of(la).len() == la.len());
                assert(views_of(lb).len() == lb.len());
            }
            assert(path_set(la) =~= path_set(lb)) by {
                assert forall|p: Seq<char>| path_set(la).contains(p) implies path_set(
                    lb,
                ).contains(p) by {
                    let j = choose|j: int| 0 <= j < la.len() && la[j]@ == p;
                    assert(views_of(la)[j] == la[j]@);
                    assert(views_of(lb)[j] == lb[j]@);
                    assert(lb[j]@ == p);
                }
                assert forall|p: Seq<char>| path_set(lb).contains(p) implies path_set(
                    la,
                ).contains(p) by {
                    let j = choose|j: int| 0 <= j < lb.len() && lb[j]@ == p;
                    assert(views_of(la)[j] == la[j]@);
                    assert(views_of(lb)[j] == lb[j]@);
                    assert(la[j]@ == p);
                }
            }
        }
    }
}

} // verus!
