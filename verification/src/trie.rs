//! A character trie over basenames. Each node carries one letter, an
//! optional payload of stored path tokens, and its children; a basename
//! present in the filename index terminates at exactly one node. The
//! abstract model is `lookup`: the payload sequence stored under a key.
use vstd::prelude::*;
use vstd::assert_by_contradiction;
use crate::arc_str::{ArcStr, views_of};
use crate::paths::{basename, basename_of};
use crate::text::chars_to_string;

verus! {

pub struct Node {
    pub letter: char,
    pub path: Option<Vec<ArcStr>>,
    pub children: Vec<Node>,
}

pub struct Trie {
    root: Node,
}

impl Node {
    pub fn new(letter: char) -> (n: Node)
        ensures
            n.letter == letter,
            n.path.is_none(),
            n.children@.len() == 0,
            n.wf(),
    {
        Node { letter, path: None, children: Vec::new() }
    }

    /// The stored strings that terminate exactly here.
    pub open spec fn payload(self) -> Seq<Seq<char>> {
        match self.path {
            None => Seq::empty(),
            Some(l) => views_of(l@),
        }
    }

    pub open spec fn has_child(self, c: char) -> bool {
        exists|j: int| 0 <= j < self.children@.len() && self.children@[j].letter == c
    }

    pub open spec fn child_index(self, c: char) -> int {
        choose|j: int| 0 <= j < self.children@.len() && self.children@[j].letter == c
    }

    /// Child letters are pairwise distinct, payloads are never empty lists,
    /// and the same holds below.
    pub open spec fn wf(self) -> bool
        decreases self,
    {
        &&& forall|i: int, j: int|
            0 <= i < j < self.children@.len()
                ==> self.children@[i].letter != self.children@[j].letter
        &&& match self.path {
            Some(l) => l@.len() > 0,
            None => true,
        }
        &&& forall|j: int| 0 <= j < self.children@.len() ==> self.children@[j].wf()
    }

    /// The payload stored under `key`, following one child per character.
    pub open spec fn lookup(self, key: Seq<char>) -> Seq<Seq<char>>
        decreases key.len(),
    {
        if key.len() == 0 {
            self.payload()
        } else if self.has_child(key.first()) {
            self.children@[self.child_index(key.first())].lookup(key.drop_first())
        } else {
            Seq::empty()
        }
    }

    proof fn lemma_child_index(self, j: int)
        requires
            self.wf(),
            0 <= j < self.children@.len(),
        ensures
            self.has_child(self.children@[j].letter),
            self.child_index(self.children@[j].letter) == j,
    {
        let c = self.children@[j].letter;
        assert(self.has_child(c));
        let i = self.child_index(c);
        assert(0 <= i < self.children@.len() && self.children@[i].letter == c);
        if i < j {
            assert(self.children@[i].letter != self.children@[j].letter);
        } else if j < i {
            assert(self.children@[j].letter != self.children@[i].letter);
        }
    }

    /// A node with no payload and no children stores nothing under any key.
    proof fn lemma_lookup_empty_node(self, key: Seq<char>)
        requires
            self.path.is_none(),
            self.children@.len() == 0,
        ensures
            self.lookup(key) == Seq::<Seq<char>>::empty(),
    {
    }

    /// Nodes with equal children and distinct child letters store the same
    /// payloads under every nonempty key.
    proof fn lemma_lookup_same_children(a: Node, b: Node, key: Seq<char>)
        requires
            a.wf(),
            a.children@ == b.children@,
            key.len() > 0,
        ensures
            a.lookup(key) == b.lookup(key),
    {
        let c = key.first();
        if a.has_child(c) {
            assert(b.has_child(c));
            let ia = a.child_index(c);
            let ib = b.child_index(c);
            assert(0 <= ia < a.children@.len() && a.children@[ia].letter == c);
            assert(0 <= ib < b.children@.len() && b.children@[ib].letter == c);
            a.lemma_child_index(ib);
            assert(ia == ib);
        } else {
            assert(!b.has_child(c));
        }
    }

    /// Following the child for `c` extends the walked prefix by `c`.
    proof fn lemma_walk_extend(root: Node, a: Node, pre: Seq<char>, c: char, j: int)
        requires
            a.wf(),
            0 <= j < a.children@.len(),
            a.children@[j].letter == c,
            forall|sfx: Seq<char>| #![trigger a.lookup(sfx)] root.lookup(pre + sfx)
                == a.lookup(sfx),
        ensures
            forall|sfx: Seq<char>| #![trigger a.children@[j].lookup(sfx)]
                root.lookup(pre.push(c) + sfx) == a.children@[j].lookup(sfx),
    {
        a.lemma_child_index(j);
        assert forall|sfx: Seq<char>| #![trigger a.children@[j].lookup(sfx)]
            root.lookup(pre.push(c) + sfx) == a.children@[j].lookup(sfx) by {
            let ext = Seq::<char>::empty().push(c) + sfx;
            assert(ext.first() == c);
            assert(ext.drop_first() =~= sfx);
            lemma_push_concat_first(pre, ext);
            assert(pre.push(c) + sfx =~= pre + ext);
            assert(a.lookup(ext) == a.children@[j].lookup(sfx));
            assert(root.lookup(pre + ext) == a.lookup(ext));
        }
    }

    fn child_position(&self, c: char) -> (r: Option<usize>)
        ensures
            match r {
                Some(j) => j < self.children@.len() && self.children@[j as int].letter == c,
                None => !self.has_child(c),
            },
    {
        let mut j: usize = 0;
        while j < self.children.len()
            invariant
                0 <= j <= self.children@.len(),
                forall|q: int| 0 <= q < j ==> self.children@[q].letter != c,
            decreases self.children@.len() - j,
        {
            if self.children[j].letter == c {
                return Some(j);
            }
            j = j + 1;
        }
        None
    }

    fn insert_at(&mut self, key: &str, d: usize, p: ArcStr)
        requires
            old(self).wf(),
            d <= key@.len(),
        ensures
            final(self).wf(),
            final(self).letter == old(self).letter,
            final(self).lookup(key@.skip(d as int))
                == old(self).lookup(key@.skip(d as int)).push(p@),
            forall|k: Seq<char>| k != key@.skip(d as int)
                ==> final(self).lookup(k) == old(self).lookup(k),
        decreases key@.len() - d,
    {
        let ghost sfx = key@.skip(d as int);
        if d == key.unicode_len() {
            proof {
                assert(sfx =~= Seq::<char>::empty());
            }
            match &mut self.path {
                None => {
                    let mut l: Vec<ArcStr> = Vec::new();
                    l.push(p);
                    self.path = Some(l);
                },
                Some(l) => {
                    l.push(p);
                },
            }
            proof {
                assert(self.children@ == old(self).children@);
                assert(self.payload() =~= old(self).payload().push(p@));
                assert forall|k: Seq<char>| k != sfx implies self.lookup(k)
                    == old(self).lookup(k) by {
                    if k.len() == 0 {
                        assert(k =~= sfx);
                    } else {
                        Node::lemma_lookup_same_children(*old(self), *self, k);
                    }
                }
                assert(self.lookup(sfx) == self.payload());
            }
        } else {
            let c = key.get_char(d);
            proof {
                assert(sfx.first() == key@[d as int]);
                assert(sfx.drop_first() =~= key@.skip(d as int + 1));
            }
            match self.child_position(c) {
                Some(j) => {
                    let ghost prev = *self;
                    proof {
                        prev.lemma_child_index(j as int);
                    }
                    let child = &mut self.children[j];
                    child.insert_at(key, d + 1, p);
                    proof {
                        self.lemma_insert_step(prev, j as int, sfx, p@);
                    }
                },
                None => {
                    let ghost prev = *self;
                    let idx = self.children.len();
                    self.children.push(Node::new(c));
                    let ghost fresh = self.children@[idx as int];
                    let child = &mut self.children[idx];
                    child.insert_at(key, d + 1, p);
                    proof {
                        fresh.lemma_lookup_empty_node(sfx.drop_first());
                        assert forall|k: Seq<char>| k != sfx.drop_first()
                            implies self.children@[idx as int].lookup(k)
                                == Seq::<Seq<char>>::empty() by {
                            fresh.lemma_lookup_empty_node(k);
                        }
                        self.lemma_insert_fresh(prev, idx as int, c, sfx, p@);
                    }
                },
            }
        }
    }

    proof fn lemma_insert_step(self, prev: Node, j: int, sfx: Seq<char>, p: Seq<char>)
        requires
            prev.wf(),
            0 <= j < prev.children@.len(),
            sfx.len() > 0,
            prev.children@[j].letter == sfx.first(),
            self.letter == prev.letter,
            self.path == prev.path,
            self.children@.len() == prev.children@.len(),
            forall|q: int| 0 <= q < prev.children@.len() && q != j
                ==> self.children@[q] == prev.children@[q],
            self.children@[j].wf(),
            self.children@[j].letter == prev.children@[j].letter,
            self.children@[j].lookup(sfx.drop_first())
                == prev.children@[j].lookup(sfx.drop_first()).push(p),
            forall|k: Seq<char>| k != sfx.drop_first()
                ==> self.children@[j].lookup(k) == prev.children@[j].lookup(k),
        ensures
            self.wf(),
            self.lookup(sfx) == prev.lookup(sfx).push(p),
            forall|k: Seq<char>| k != sfx ==> self.lookup(k) == prev.lookup(k),
    {
        let c = sfx.first();
        assert(forall|q: int| 0 <= q < self.children@.len()
            ==> self.children@[q].letter == prev.children@[q].letter);
        assert forall|q: int| 0 <= q < self.children@.len() implies self.children@[q].wf() by {
            if q != j {
                assert(self.children@[q] == prev.children@[q]);
            }
        }
        assert(self.wf());
        prev.lemma_child_index(j);
        self.lemma_child_index(j);
        assert(self.lookup(sfx) == self.children@[j].lookup(sfx.drop_first()));
        assert(prev.lookup(sfx) == prev.children@[j].lookup(sfx.drop_first()));
        assert forall|k: Seq<char>| k != sfx implies self.lookup(k) == prev.lookup(k) by {
            if k.len() == 0 {
            } else {
                let k0 = k.first();
                if k0 == c {
                    assert(k.drop_first() != sfx.drop_first()) by {
                        if k.drop_first() == sfx.drop_first() {
                            assert(k.len() == sfx.len());
                            assert forall|i: int| 0 <= i < k.len() implies k[i]
                                == sfx[i] by {
                                if i > 0 {
                                    assert(k.drop_first()[i - 1] == sfx.drop_first()[i - 1]);
                                }
                            }
                            assert(k =~= sfx);
                        }
                    }
                    assert(self.lookup(k) == self.children@[j].lookup(k.drop_first()));
                    assert(prev.lookup(k) == prev.children@[j].lookup(k.drop_first()));
                } else {
                    if prev.has_child(k0) {
                        let q = prev.child_index(k0);
                        assert(0 <= q < prev.children@.len()
                            && prev.children@[q].letter == k0);
                        assert(q != j);
                        prev.lemma_child_index(q);
                        self.lemma_child_index(q);
                        assert(self.children@[q] == prev.children@[q]);
                    } else {
                        assert(!self.has_child(k0));
                    }
                }
            }
        }
    }

    proof fn lemma_insert_fresh(self, prev: Node, idx: int, c: char, sfx: Seq<char>, p: Seq<char>)
        requires
            prev.wf(),
            !prev.has_child(c),
            idx == prev.children@.len(),
            sfx.len() > 0,
            sfx.first() == c,
            self.letter == prev.letter,
            self.path == prev.path,
            self.children@.len() == prev.children@.len() + 1,
            forall|q: int| 0 <= q < prev.children@.len()
                ==> self.children@[q] == prev.children@[q],
            self.children@[idx].wf(),
            self.children@[idx].letter == c,
            self.children@[idx].lookup(sfx.drop_first())
                == Seq::<Seq<char>>::empty().push(p),
            forall|k: Seq<char>| k != sfx.drop_first()
                ==> self.children@[idx].lookup(k) == Seq::<Seq<char>>::empty(),
        ensures
            self.wf(),
            self.lookup(sfx) == prev.lookup(sfx).push(p),
            forall|k: Seq<char>| k != sfx ==> self.lookup(k) == prev.lookup(k),
    {
        assert forall|i: int, j: int| 0 <= i < j < self.children@.len()
            implies self.children@[i].letter != self.children@[j].letter by {
            if j == idx {
                assert(self.children@[i] == prev.children@[i]);
                assert(prev.has_child(prev.children@[i].letter));
            } else {
                assert(self.children@[i] == prev.children@[i]);
                assert(self.children@[j] == prev.children@[j]);
            }
        }
        assert forall|q: int| 0 <= q < self.children@.len() implies self.children@[q].wf() by {
            if q != idx {
                assert(self.children@[q] == prev.children@[q]);
            }
        }
        assert(self.wf());
        self.lemma_child_index(idx);
        assert(self.lookup(sfx) == self.children@[idx].lookup(sfx.drop_first()));
        assert(prev.lookup(sfx) == Seq::<Seq<char>>::empty());
        assert(self.lookup(sfx) =~= prev.lookup(sfx).push(p));
        assert forall|k: Seq<char>| k != sfx implies self.lookup(k) == prev.lookup(k) by {
            if k.len() == 0 {
            } else {
                let k0 = k.first();
                if k0 == c {
                    assert(k.drop_first() != sfx.drop_first()) by {
                        if k.drop_first() == sfx.drop_first() {
                            assert(k.len() == sfx.len());
                            assert forall|i: int| 0 <= i < k.len() implies k[i]
                                == sfx[i] by {
                                if i > 0 {
                                    assert(k.drop_first()[i - 1] == sfx.drop_first()[i - 1]);
                                }
                            }
                            assert(k =~= sfx);
                        }
                    }
                    assert(self.lookup(k) == self.children@[idx].lookup(k.drop_first()));
                    assert(!prev.has_child(k0));
                } else {
                    if prev.has_child(k0) {
                        let q = prev.child_index(k0);
                        assert(0 <= q < prev.children@.len()
                            && prev.children@[q].letter == k0);
                        prev.lemma_child_index(q);
                        self.lemma_child_index(q);
                        assert(self.children@[q] == prev.children@[q]);
                    } else {
                        assert(!self.has_child(k0));
                    }
                }
            }
        }
    }
}

impl Trie {
    pub fn new() -> (t: Trie)
        ensures
            t.wf(),
            forall|k: Seq<char>| t.lookup(k) == Seq::<Seq<char>>::empty(),
    {
        let t = Trie { root: Node::new(' ') };
        proof {
            assert forall|k: Seq<char>| t.lookup(k) == Seq::<Seq<char>>::empty() by {
                t.root.lemma_lookup_empty_node(k);
            }
        }
        t
    }

    pub closed spec fn wf(self) -> bool {
        self.root.wf()
    }

    /// The stored paths whose basename is exactly `key`.
    pub closed spec fn lookup(self, key: Seq<char>) -> Seq<Seq<char>> {
        self.root.lookup(key)
    }

    /// Store `path` under its basename: the payload under that key grows by
    /// one, every other key is untouched.
    pub fn insert(&mut self, path: &str)
        requires
            old(self).wf(),
        ensures
            final(self).wf(),
            final(self).lookup(basename_of(path@))
                == old(self).lookup(basename_of(path@)).push(path@),
            forall|k: Seq<char>| k != basename_of(path@)
                ==> final(self).lookup(k) == old(self).lookup(k),
    {
        let name = basename(path);
        let p = ArcStr::from_ref(path);
        proof {
            assert(name@.skip(0) =~= name@);
        }
        self.root.insert_at(name.as_str(), 0, p);
    }

    /// The payload stored under exactly `filename`: `Some` of the path list
    /// when one terminates there, `None` otherwise.
    pub fn search(&self, filename: &str) -> (r: Option<Vec<ArcStr>>)
        requires
            self.wf(),
        ensures
            r.is_some() <==> self.lookup(filename@).len() > 0,
            r.is_some() ==> views_of(r.unwrap()@) == self.lookup(filename@),
    {
        let n = filename.unicode_len();
        let mut cur: &Node = &self.root;
        let mut d: usize = 0;
        proof {
            assert(filename@.skip(0) =~= filename@);
        }
        while d < n
            invariant
                0 <= d <= n,
                n == filename@.len(),
                cur.wf(),
                self.root.lookup(filename@) == cur.lookup(filename@.skip(d as int)),
            decreases n - d,
        {
            let c = filename.get_char(d);
            let ghost rest = filename@.skip(d as int);
            proof {
                assert(rest.first() == filename@[d as int]);
                assert(rest.drop_first() =~= filename@.skip(d as int + 1));
            }
            match cur.child_position(c) {
                Some(j) => {
                    proof {
                        cur.lemma_child_index(j as int);
                    }
                    cur = &cur.children[j];
                },
                None => {
                    proof {
                        assert(cur.lookup(rest) == Seq::<Seq<char>>::empty());
                    }
                    return None;
                },
            }
            d = d + 1;
        }
        proof {
            assert(filename@.skip(n as int) =~= Seq::<char>::empty());
            assert(self.root.lookup(filename@) == cur.payload());
        }
        match &cur.path {
            None => {
                None
            },
            Some(l) => {
                let mut r: Vec<ArcStr> = Vec::new();
                let mut j: usize = 0;
                while j < l.len()
                    invariant
                        0 <= j <= l@.len(),
                        r@.len() == j,
                        forall|q: int| 0 <= q < j ==> r@[q]@ == l@[q]@,
                    decreases l@.len() - j,
                {
                    r.push(l[j].clone());
                    j = j + 1;
                }
                proof {
                    assert(views_of(r@) =~= views_of(l@));
                }
                Some(r)
            },
        }
    }

    /// Every key under which something is stored and which begins with
    /// `prefix` — the trie-completeness guarantee of a predictive search:
    /// a stored basename is reported for each of its prefixes, the empty
    /// one and the whole of it included.
    #[verifier::rlimit(60)]
    pub fn predictive_search(&self, prefix: &str) -> (r: Vec<String>)
        requires
            self.wf(),
        ensures
            forall|k: Seq<char>| self.lookup(k).len() > 0 && prefix@.is_prefix_of(k)
                ==> exists|j: int| 0 <= j < r@.len() && r@[j]@ == k,
            forall|j: int| 0 <= j < r@.len()
                ==> self.lookup(#[trigger] r@[j]@).len() > 0 && prefix@.is_prefix_of(r@[j]@),
            forall|j1: int, j2: int| 0 <= j1 < j2 < r@.len() ==> (#[trigger] r@[j1])@
                != (#[trigger] r@[j2])@,
    {
        let n = prefix.unicode_len();
        let mut cur: &Node = &self.root;
        let mut d: usize = 0;
        let mut walked: Vec<char> = Vec::new();
        proof {
            assert forall|sfx: Seq<char>|
                self.root.lookup(prefix@.subrange(0, 0) + sfx) == self.root.lookup(sfx) by {
                assert(prefix@.subrange(0, 0) + sfx =~= sfx);
            }
        }
        while d < n
            invariant
                0 <= d <= n,
                n == prefix@.len(),
                cur.wf(),
                walked@ == prefix@.subrange(0, d as int),
                forall|sfx: Seq<char>| #![trigger cur.lookup(sfx)]
                    self.root.lookup(prefix@.subrange(0, d as int) + sfx)
                        == cur.lookup(sfx),
            decreases n - d,
        {
            let c = prefix.get_char(d);
            match cur.child_position(c) {
                Some(j) => {
                    proof {
                        let pre_d = prefix@.subrange(0, d as int);
                        Node::lemma_walk_extend(self.root, *cur, pre_d, c, j as int);
                        assert(pre_d.push(c) =~= prefix@.subrange(0, d as int + 1));
                    }
                    walked.push(c);
                    cur = &cur.children[j];
                },
                None => {
                    proof {
                        assert forall|k: Seq<char>| self.lookup(k).len() > 0
                            && prefix@.is_prefix_of(k) implies false by {
                            let pre_d = prefix@.subrange(0, d as int);
                            let sfx = k.skip(d as int);
                            assert(k =~= pre_d + sfx);
                            assert(sfx.first() == k[d as int]);
                            assert(k[d as int] == prefix@[d as int]);
                            assert(cur.lookup(sfx) == Seq::<Seq<char>>::empty());
                        }
                    }
                    return Vec::new();
                },
            }
            d = d + 1;
        }
        proof {
            assert(prefix@.subrange(0, n as int) =~= prefix@);
            assert(walked@ == prefix@);
        }
        let mut out: Vec<String> = Vec::new();
        collect_keys(cur, &mut walked, &mut out);
        proof {
            lemma_search_results(self.root, *cur, prefix@, out@);
        }
        out
    }
}

/// Appending `b` after `a` is the same as pushing `b`'s head onto `a` and
/// appending the tail.
proof fn lemma_push_concat_first(a: Seq<char>, b: Seq<char>)
    requires
        b.len() > 0,
    ensures
        a.push(b.first()) + b.drop_first() =~= a + b,
{
    let lhs = a.push(b.first()) + b.drop_first();
    let rhs = a + b;
    assert(lhs.len() == rhs.len());
    assert forall|i: int| 0 <= i < lhs.len() implies lhs[i] == rhs[i] by {
        if i < a.len() {
        } else if i == a.len() {
            assert(a.push(b.first())[i] == b.first());
        } else {
            assert(b.drop_first()[i - a.len() - 1] == b[i - a.len()]);
        }
    }
}

/// Entry `q` of `cur` is a key below `n`: `base` plus a suffix under which
/// `n` stores something.
pub open spec fn entry_below(n: Node, base: Seq<char>, cur: Seq<String>, q: int) -> bool {
    exists|sfx: Seq<char>| cur[q]@ == base + sfx && (#[trigger] n.lookup(sfx)).len() > 0
}

/// Entries of `cur` from position `lo` on are all keys below `n`.
pub open spec fn sound_entries(n: Node, base: Seq<char>, lo: int, cur: Seq<String>) -> bool {
    forall|q: int| lo <= q < cur.len() ==> #[trigger] entry_below(n, base, cur, q)
}

/// The key `base + sfx` stands somewhere in `cur` from position `lo` on.
pub open spec fn reported(
    n: Node,
    base: Seq<char>,
    lo: int,
    cur: Seq<String>,
    sfx: Seq<char>,
) -> bool {
    exists|q: int| lo <= q < cur.len() && (#[trigger] cur[q])@ == base + sfx
}

/// Every key under which `n` stores something appears among the entries of
/// `cur` from position `lo` on, prefixed with `base`.
pub open spec fn complete_entries(n: Node, base: Seq<char>, lo: int, cur: Seq<String>) -> bool {
    forall|sfx: Seq<char>| (#[trigger] n.lookup(sfx)).len() > 0
        ==> reported(n, base, lo, cur, sfx)
}

/// Child `jj` of `n` has been fully collected into `cur`.
pub open spec fn child_collected(
    n: Node,
    jj: int,
    base: Seq<char>,
    lo: int,
    cur: Seq<String>,
) -> bool {
    complete_entries(n.children@[jj], base.push(n.children@[jj].letter), lo, cur)
}

/// The first `j` child subtrees have been fully collected.
pub open spec fn children_complete(
    n: Node,
    j: int,
    base: Seq<char>,
    lo: int,
    cur: Seq<String>,
) -> bool {
    forall|jj: int| 0 <= jj < j ==> #[trigger] child_collected(n, jj, base, lo, cur)
}

/// A child subtree has been collected: every entry appended for it is a key
/// of the parent as well.
#[verifier::rlimit(60)]
proof fn lemma_collect_step_sound(
    n: Node,
    j: int,
    pc0: Seq<char>,
    lo: int,
    pre: Seq<String>,
    post: Seq<String>,
)
    requires
        n.wf(),
        0 <= j < n.children@.len(),
        0 <= lo <= pre.len() <= post.len(),
        forall|q: int| #![trigger post[q]] 0 <= q < pre.len() ==> post[q] == pre[q],
        sound_entries(n, pc0, lo, pre),
        sound_entries(n.children@[j], pc0.push(n.children@[j].letter), pre.len() as int, post),
    ensures
        sound_entries(n, pc0, lo, post),
{
    let c = n.children@[j].letter;
    n.lemma_child_index(j);
    assert forall|q: int| lo <= q < post.len() implies #[trigger] entry_below(
        n,
        pc0,
        post,
        q,
    ) by {
        if q < pre.len() {
            assert(post[q] == pre[q]);
            assert(entry_below(n, pc0, pre, q));
            let sfx = choose|sfx: Seq<char>| pre[q]@ == pc0 + sfx
                && (#[trigger] n.lookup(sfx)).len() > 0;
            assert(post[q]@ == pc0 + sfx);
        } else {
            assert(entry_below(n.children@[j], pc0.push(c), post, q));
            let sfx = choose|sfx: Seq<char>| post[q]@ == pc0.push(c) + sfx
                && (#[trigger] n.children@[j].lookup(sfx)).len() > 0;
            let full = Seq::<char>::empty().push(c) + sfx;
            assert(full.first() == c);
            assert(full.drop_first() =~= sfx);
            lemma_push_concat_first(pc0, full);
            assert(post[q]@ == pc0 + full);
            assert(n.lookup(full) == n.children@[j].lookup(sfx));
            assert(n.lookup(full).len() > 0);
        }
    }
}

/// A child subtree has been collected: everything stored below it, and
/// below every earlier child, is now reported.
#[verifier::rlimit(60)]
proof fn lemma_collect_step_complete(
    n: Node,
    j: int,
    pc0: Seq<char>,
    lo: int,
    pre: Seq<String>,
    post: Seq<String>,
)
    requires
        n.wf(),
        0 <= j < n.children@.len(),
        0 <= lo <= pre.len() <= post.len(),
        forall|q: int| #![trigger post[q]] 0 <= q < pre.len() ==> post[q] == pre[q],
        children_complete(n, j, pc0, lo, pre),
        complete_entries(
            n.children@[j],
            pc0.push(n.children@[j].letter),
            pre.len() as int,
            post,
        ),
    ensures
        children_complete(n, j + 1, pc0, lo, post),
{
    let c = n.children@[j].letter;
    assert forall|jj: int| 0 <= jj < j + 1 implies #[trigger] child_collected(
        n,
        jj,
        pc0,
        lo,
        post,
    ) by {
        let cl = n.children@[jj].letter;
        let child = n.children@[jj];
        if jj < j {
            assert(child_collected(n, jj, pc0, lo, pre));
            assert forall|sfx: Seq<char>| (#[trigger] child.lookup(sfx)).len() > 0
                implies reported(child, pc0.push(cl), lo, post, sfx) by {
                assert(reported(child, pc0.push(cl), lo, pre, sfx));
                let q = choose|q: int| lo <= q < pre.len()
                    && (#[trigger] pre[q])@ == pc0.push(cl) + sfx;
                assert(post[q] == pre[q]);
                assert((post[q])@ == pc0.push(cl) + sfx);
            }
            assert(complete_entries(child, pc0.push(cl), lo, post));
        } else {
            assert(cl == c);
            assert forall|sfx: Seq<char>| (#[trigger] child.lookup(sfx)).len() > 0
                implies reported(child, pc0.push(cl), lo, post, sfx) by {
                assert(reported(child, pc0.push(cl), pre.len() as int, post, sfx));
                let q = choose|q: int| pre.len() <= q < post.len()
                    && (#[trigger] post[q])@ == pc0.push(cl) + sfx;
                assert(lo <= q < post.len());
                assert((post[q])@ == pc0.push(cl) + sfx);
            }
            assert(complete_entries(child, pc0.push(cl), lo, post));
        }
    }
}

/// What a finished key collection below the walked node means at the root:
/// exactly the stored keys extending the prefix were reported.
#[verifier::rlimit(60)]
proof fn lemma_search_results(root: Node, cur: Node, prefix: Seq<char>, out: Seq<String>)
    requires
        forall|sfx: Seq<char>| #![trigger cur.lookup(sfx)] root.lookup(prefix + sfx)
            == cur.lookup(sfx),
        sound_entries(cur, prefix, 0, out),
        complete_entries(cur, prefix, 0, out),
    ensures
        forall|k: Seq<char>| #![trigger root.lookup(k)] root.lookup(k).len() > 0
            && prefix.is_prefix_of(k)
            ==> exists|j: int| 0 <= j < out.len() && (#[trigger] out[j])@ == k,
        forall|j: int| 0 <= j < out.len()
            ==> root.lookup((#[trigger] out[j])@).len() > 0 && prefix.is_prefix_of(out[j]@),
{
    let n = prefix.len() as int;
    assert forall|k: Seq<char>| #![trigger root.lookup(k)] root.lookup(k).len() > 0
        && prefix.is_prefix_of(k) implies exists|j: int| 0 <= j < out.len()
        && (#[trigger] out[j])@ == k by {
        let sfx = k.skip(n);
        assert forall|i: int| 0 <= i < k.len() implies k[i] == (prefix + sfx)[i] by {
            if i < n {
                assert(prefix[i] == k.subrange(0, n)[i]);
            } else {
                assert(sfx[i - n] == k[i]);
            }
        }
        assert(k =~= prefix + sfx);
        assert(cur.lookup(sfx).len() > 0);
        assert(reported(cur, prefix, 0, out, sfx));
        let j = choose|j: int| 0 <= j < out.len() && (#[trigger] out[j])@ == prefix + sfx;
        assert(out[j]@ == k);
    }
    assert forall|j: int| 0 <= j < out.len() implies root.lookup(
        (#[trigger] out[j])@,
    ).len() > 0 && prefix.is_prefix_of(out[j]@) by {
        assert(entry_below(cur, prefix, out, j));
        let sfx = choose|sfx: Seq<char>| out[j]@ == prefix + sfx
            && (#[trigger] cur.lookup(sfx)).len() > 0;
        assert(root.lookup(prefix + sfx) == cur.lookup(sfx));
        assert forall|i: int| 0 <= i < n implies (prefix + sfx).subrange(0, n)[i]
            == prefix[i] by {
            assert((prefix + sfx)[i] == prefix[i]);
        }
        assert((prefix + sfx).subrange(0, n) =~= prefix);
        assert(prefix.is_prefix_of(prefix + sfx));
    }
}

/// A reported key below `n`: the walked prefix itself, or an extension of
/// it branching through one of the first `jbound` children.
pub open spec fn entry_branded(n: Node, base: Seq<char>, jbound: int, e: Seq<char>) -> bool {
    e == base || (exists|jj: int| 0 <= jj < jbound && e.len() > base.len()
        && e[base.len() as int] == (#[trigger] n.children@[jj]).letter
        && e.subrange(0, base.len() as int) == base)
}

/// Push every key with a nonempty payload below `n`, prefixed with the
/// characters walked so far, onto `out`.
#[verifier::rlimit(60)]
fn collect_keys(n: &Node, walked: &mut Vec<char>, out: &mut Vec<String>)
    requires
        n.wf(),
    ensures
        final(walked)@ == old(walked)@,
        final(out)@.len() >= old(out)@.len(),
        forall|j: int| #![trigger final(out)@[j]] 0 <= j < old(out)@.len()
            ==> final(out)@[j] == old(out)@[j],
        sound_entries(*n, old(walked)@, old(out)@.len() as int, final(out)@),
        complete_entries(*n, old(walked)@, old(out)@.len() as int, final(out)@),
        forall|q1: int, q2: int| old(out)@.len() <= q1 < q2 < final(out)@.len()
            ==> (#[trigger] final(out)@[q1])@ != (#[trigger] final(out)@[q2])@,
        forall|q: int| old(out)@.len() <= q < final(out)@.len()
            ==> (#[trigger] final(out)@[q])@ == old(walked)@
                || ((final(out)@[q])@.len() > old(walked)@.len()
                    && (final(out)@[q])@.subrange(0, old(walked)@.len() as int)
                        == old(walked)@),
    decreases *n,
{
    let ghost pc0 = walked@;
    let ghost out0 = out@;
    match &n.path {
        Some(l) => {
            if l.len() > 0 {
                out.push(chars_to_string(walked));
                proof {
                    assert(out@[out0.len() as int]@ == pc0);
                }
            }
        },
        None => {
        },
    }
    proof {
        assert forall|q: int| out0.len() <= q < out@.len() implies #[trigger] entry_below(
            *n,
            pc0,
            out@,
            q,
        ) by {
            assert(q == out0.len() as int);
            assert(out@[q]@ == pc0);
            assert(pc0 + Seq::<char>::empty() =~= pc0);
            assert(n.lookup(Seq::<char>::empty()) == n.payload());
            assert(n.lookup(Seq::<char>::empty()).len() > 0);
            assert(out@[q]@ == pc0 + Seq::<char>::empty());
        }
        assert(sound_entries(*n, pc0, out0.len() as int, out@));
        assert(children_complete(*n, 0, pc0, out0.len() as int, out@));
        assert forall|q: int| out0.len() <= q < out@.len() implies entry_branded(
            *n,
            pc0,
            0,
            (#[trigger] out@[q])@,
        ) by {
            assert(out@[q]@ == pc0);
        }
    }
    let mut j: usize = 0;
    while j < n.children.len()
        invariant
            n.wf(),
            0 <= j <= n.children@.len(),
            walked@ == pc0,
            out@.len() >= out0.len(),
            forall|q: int| #![trigger out@[q]] 0 <= q < out0.len() ==> out@[q] == out0[q],
            sound_entries(*n, pc0, out0.len() as int, out@),
            children_complete(*n, j as int, pc0, out0.len() as int, out@),
            n.payload().len() > 0 ==> exists|q: int| out0.len() <= q < out@.len()
                && (#[trigger] out@[q])@ == pc0,
            forall|q1: int, q2: int| out0.len() <= q1 < q2 < out@.len()
                ==> (#[trigger] out@[q1])@ != (#[trigger] out@[q2])@,
            forall|q: int| out0.len() <= q < out@.len() ==> entry_branded(
                *n,
                pc0,
                j as int,
                (#[trigger] out@[q])@,
            ),
        decreases n.children@.len() - j,
    {
        let ghost out_before = out@;
        walked.push(n.children[j].letter);
        collect_keys(&n.children[j], walked, out);
        walked.pop();
        proof {
            assert(walked@ =~= pc0);
            if n.payload().len() > 0 {
                let q = choose|q: int| out0.len() <= q < out_before.len()
                    && (#[trigger] out_before[q])@ == pc0;
                assert(out@[q] == out_before[q]);
            }
            lemma_collect_step_sound(*n, j as int, pc0, out0.len() as int, out_before, out@);
            lemma_collect_step_complete(
                *n,
                j as int,
                pc0,
                out0.len() as int,
                out_before,
                out@,
            );
            let c = n.children@[j as int].letter;
            let base1 = pc0.push(c);
            assert forall|q: int| out_before.len() <= q < out@.len()
                implies (#[trigger] out@[q])@.len() > pc0.len()
                && out@[q]@[pc0.len() as int] == c
                && out@[q]@.subrange(0, pc0.len() as int) == pc0 by {
                assert(out@[q] == out@[q]);
                if out@[q]@ == base1 {
                    assert(base1[pc0.len() as int] == c);
                    assert(base1.subrange(0, pc0.len() as int) =~= pc0);
                } else {
                    assert(out@[q]@.len() > base1.len());
                    assert(out@[q]@.subrange(0, base1.len() as int) == base1);
                    assert(out@[q]@[pc0.len() as int]
                        == out@[q]@.subrange(0, base1.len() as int)[pc0.len() as int]);
                    assert(out@[q]@.subrange(0, pc0.len() as int) =~= pc0) by {
                        assert forall|t: int| 0 <= t < pc0.len()
                            implies out@[q]@.subrange(0, pc0.len() as int)[t] == pc0[t] by {
                            assert(out@[q]@.subrange(0, base1.len() as int)[t] == base1[t]);
                        }
                    }
                }
            }
            assert forall|q1: int, q2: int| out0.len() <= q1 < q2 < out@.len()
                implies (#[trigger] out@[q1])@ != (#[trigger] out@[q2])@ by {
                if q2 < out_before.len() {
                    assert(out@[q1] == out_before[q1]);
                    assert(out@[q2] == out_before[q2]);
                } else if q1 >= out_before.len() {
                } else {
                    assert(out@[q1] == out_before[q1]);
                    assert(entry_branded(*n, pc0, j as int, out_before[q1]@));
                    if out_before[q1]@ == pc0 {
                        assert(out@[q2]@.len() > pc0.len());
                    } else {
                        let jj = choose|jj: int| 0 <= jj < j
                            && out_before[q1]@.len() > pc0.len()
                            && out_before[q1]@[pc0.len() as int]
                                == (#[trigger] n.children@[jj]).letter
                            && out_before[q1]@.subrange(0, pc0.len() as int) == pc0;
                        assert(n.children@[jj].letter != c);
                        assert(out@[q1]@[pc0.len() as int] != out@[q2]@[pc0.len() as int]);
                    }
                }
            }
            assert forall|q: int| out0.len() <= q < out@.len() implies entry_branded(
                *n,
                pc0,
                j as int + 1,
                (#[trigger] out@[q])@,
            ) by {
                if q < out_before.len() {
                    assert(out@[q] == out_before[q]);
                    assert(entry_branded(*n, pc0, j as int, out_before[q]@));
                    if out_before[q]@ != pc0 {
                        let jj = choose|jj: int| 0 <= jj < j
                            && out_before[q]@.len() > pc0.len()
                            && out_before[q]@[pc0.len() as int]
                                == (#[trigger] n.children@[jj]).letter
                            && out_before[q]@.subrange(0, pc0.len() as int) == pc0;
                        assert(0 <= jj < j + 1);
                        assert(out@[q]@[pc0.len() as int] == n.children@[jj].letter);
                    }
                } else {
                    assert(out@[q]@[pc0.len() as int] == n.children@[j as int].letter);
                }
            }
        }
        j = j + 1;
    }
    proof {
        assert forall|sfx: Seq<char>| (#[trigger] n.lookup(sfx)).len() > 0
            implies reported(*n, pc0, out0.len() as int, out@, sfx) by {
            if sfx.len() == 0 {
                assert(n.lookup(sfx) == n.payload());
                let q = choose|q: int| out0.len() <= q < out@.len()
                    && (#[trigger] out@[q])@ == pc0;
                assert(pc0 + sfx =~= pc0);
                assert(out@[q]@ == pc0 + sfx);
            } else {
                let c = sfx.first();
                assert(n.has_child(c));
                let jj = n.child_index(c);
                assert(0 <= jj < n.children@.len() && n.children@[jj].letter == c);
                assert(n.children@[jj].lookup(sfx.drop_first()).len() > 0);
                assert(child_collected(*n, jj, pc0, out0.len() as int, out@));
                assert(reported(
                    n.children@[jj],
                    pc0.push(c),
                    out0.len() as int,
                    out@,
                    sfx.drop_first(),
                ));
                let q = choose|q: int| out0.len() <= q < out@.len()
                    && (#[trigger] out@[q])@ == pc0.push(c) + sfx.drop_first();
                lemma_push_concat_first(pc0, sfx);
                assert(pc0.push(c) + sfx.drop_first() =~= pc0 + sfx);
                assert(out@[q]@ == pc0 + sfx);
            }
        }
        assert(complete_entries(*n, pc0, out0.len() as int, out@));
        assert forall|q: int| out0.len() <= q < out@.len() implies (#[trigger] out@[q])@
            == pc0 || (out@[q]@.len() > pc0.len() && out@[q]@.subrange(0, pc0.len() as int)
            == pc0) by {
            assert(entry_branded(*n, pc0, n.children@.len() as int, out@[q]@));
            if out@[q]@ != pc0 {
                let jj = choose|jj: int| 0 <= jj < n.children@.len()
                    && out@[q]@.len() > pc0.len()
                    && out@[q]@[pc0.len() as int] == (#[trigger] n.children@[jj]).letter
                    && out@[q]@.subrange(0, pc0.len() as int) == pc0;
            }
        }
    }
}

/// Trie completeness, spelled out for prefixes: every leading slice of a
/// key, the empty one and the key itself included, is a prefix of it, so a
/// predictive search for that slice reports every stored basename `b` with
/// `lookup(b)` nonempty.
pub proof fn lemma_every_prefix_qualifies(b: Seq<char>, i: int)
    requires
        0 <= i <= b.len(),
    ensures
        b.subrange(0, i).is_prefix_of(b),
{
    assert(b.subrange(0, i) =~= b.subrange(0, i));
}

} // verus!
